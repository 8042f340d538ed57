//! Typed memory regions: `MemoryRegion<START, END>` stands for the address
//! range `[START, END)`.
use vstd::prelude::*;

verus! {

/// `addr` lies in `[start, end)`.
pub open spec fn in_range(start: usize, end: usize, addr: usize) -> bool {
    start <= addr < end
}

/// A zero-sized type standing for the address range `[START, END)`.
pub struct MemoryRegion<const START: usize, const END: usize>;

impl<const START: usize, const END: usize> MemoryRegion<START, END> {
    /// Base address of the region.
    pub fn base() -> (r: usize)
        ensures
            r == START,
    {
        START
    }

    /// One-past-the-end address of the region.
    pub fn end() -> (r: usize)
        ensures
            r == END,
    {
        END
    }

    /// Size of the region in bytes.
    pub fn size() -> (r: usize)
        requires
            START < END,
        ensures
            r == END - START,
    {
        END - START
    }

    /// Whether `addr` falls within `[START, END)`.
    pub fn contains(addr: usize) -> (r: bool)
        ensures
            r == in_range(START, END, addr),
    {
        addr >= START && addr < END
    }
}

/// Checks that `[A_START, A_END)` and `[B_START, B_END)` share no address;
/// callable only for regions that do not overlap.
pub fn assert_no_overlap<const A_START: usize, const A_END: usize, const B_START: usize, const B_END: usize>()
    requires
        A_END <= B_START || B_END <= A_START,
{
}

/// Regions accepted by `assert_no_overlap` share no address.
pub proof fn lemma_no_overlap_disjoint(a_start: usize, a_end: usize, b_start: usize, b_end: usize, addr: usize)
    requires
        a_end <= b_start || b_end <= a_start,
    ensures
        !(in_range(a_start, a_end, addr) && in_range(b_start, b_end, addr)),
{
}

} // verus!
