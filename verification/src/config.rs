//! Kernel-wide compile-time configuration constants.
use vstd::prelude::*;

verus! {

/// Maximum number of tasks that can be registered at boot.
pub const MAX_TASKS: usize = 16;

/// Maximum number of peripherals tracked by the capability system
/// (one bit per peripheral in a `u32` mask).
pub const MAX_PERIPHERALS: usize = 32;

/// Maximum number of IPC channels addressable by capability ID.
pub const MAX_CHANNELS: usize = 8;

} // verus!
