//! Arithmetic of the CLINT timer: assembling the 64-bit `mtime` from two
//! 32-bit reads, splitting a compare value, the next deadline, and the tick
//! counter kept by the timer interrupt.
use vstd::prelude::*;

verus! {

/// Timer ticks per 1 ms at the QEMU virt 10 MHz timebase.
pub const TICK_CYCLES: u64 = 10_000;

/// `mtime` from the reads high, low, high: `None` when the two high words
/// differ (a carry crossed the reads and they must be repeated), otherwise
/// `hi * 2^32 + lo`.
pub fn mtime_from_reads(hi0: u32, lo: u32, hi1: u32) -> (r: Option<u64>)
    ensures
        hi0 != hi1 ==> r is None,
        hi0 == hi1 ==> r == Some((hi0 as int * 0x1_0000_0000 + lo as int) as u64),
{
    if hi0 == hi1 {
        let v = ((hi0 as u64) << 32u64) | (lo as u64);
        assert(v == hi0 as u64 * 0x1_0000_0000u64 + lo as u64) by (bit_vector)
            requires
                v == ((hi0 as u64) << 32u64) | (lo as u64),
        ;
        Some(v)
    } else {
        None
    }
}

/// The low and high 32-bit words of a 64-bit compare value.
pub fn split_compare_value(val: u64) -> (r: (u32, u32))
    ensures
        r.0 == val % 0x1_0000_0000,
        r.1 == val / 0x1_0000_0000,
{
    let lo = val as u32;
    let hi = (val >> 32u64) as u32;
    assert(lo == val % 0x1_0000_0000 && hi == val / 0x1_0000_0000) by (bit_vector)
        requires
            lo == val as u32,
            hi == (val >> 32u64) as u32,
    ;
    (lo, hi)
}

/// The compare value that schedules the next tick `cycles` after `now`.
pub fn next_deadline(now: u64, cycles: u64) -> (r: u64)
    requires
        now + cycles <= u64::MAX,
    ensures
        r == now + cycles,
{
    now + cycles
}

/// Number of timer interrupts taken, wrapping at `u32::MAX`.
pub struct TickCounter {
    /// Ticks so far.
    pub count: u32,
}

impl TickCounter {
    /// A counter at zero.
    pub fn new() -> (r: Self)
        ensures
            r.count == 0,
    {
        TickCounter { count: 0 }
    }

    /// Count one timer interrupt and return the new tick number.
    pub fn timer_isr(&mut self) -> (r: u32)
        ensures
            r == (if old(self).count == u32::MAX { 0 } else { old(self).count + 1 }),
            final(self).count == r,
    {
        self.count = self.count.wrapping_add(1);
        self.count
    }

    /// The current tick count.
    pub fn ticks(&self) -> (r: u32)
        ensures
            r == self.count,
    {
        self.count
    }
}

} // verus!
