//! Zero-sized peripheral capability types.
use vstd::prelude::*;
use core::marker::PhantomData;

verus! {

/// Capability for UART peripheral number `N`.
pub struct UartCapability<const N: usize>(PhantomData<()>);

/// Capability for GPIO pin `PIN`.
pub struct GpioCapability<const PIN: usize>(PhantomData<()>);

/// Capability for SPI controller number `N`.
pub struct SpiCapability<const N: usize>(PhantomData<()>);

/// Capability for I2C controller number `N`.
pub struct I2cCapability<const N: usize>(PhantomData<()>);

} // verus!
