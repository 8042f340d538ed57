//! Statically sized task stacks with an overflow canary at the lowest address.
use vstd::prelude::*;

verus! {

/// Magic value stored little-endian in the lowest four bytes of every stack.
pub const STACK_CANARY: u32 = 0xDEAD_C0DE;

/// A stack of `N` bytes (`N` a multiple of 16, at least 16).
pub struct Stack<const N: usize> {
    buf: Vec<u8>,
}

impl<const N: usize> Stack<N> {
    /// The stack bytes, lowest address first.
    pub closed spec fn bytes(&self) -> Seq<u8> {
        self.buf@
    }

    /// The lowest four bytes hold `STACK_CANARY` in little-endian order.
    pub open spec fn canary_intact(&self) -> bool {
        &&& self.bytes().len() >= 4
        &&& self.bytes()[0] == 0xDE
        &&& self.bytes()[1] == 0xC0
        &&& self.bytes()[2] == 0xAD
        &&& self.bytes()[3] == 0xDE
    }

    /// A zeroed stack with the canary written at the lowest address.
    pub fn new() -> (s: Self)
        requires
            N % 16 == 0,
            N >= 16,
        ensures
            s.bytes().len() == N,
            s.canary_intact(),
            forall|i: int| 4 <= i < N ==> #[trigger] s.bytes()[i] == 0,
    {
        let mut buf: Vec<u8> = Vec::new();
        let mut i: usize = 0;
        while i < N
            invariant
                i <= N,
                buf@.len() == i,
                forall|k: int| 0 <= k < i ==> #[trigger] buf@[k] == 0,
            decreases N - i,
        {
            buf.push(0);
            i = i + 1;
        }
        // Little-endian canary at the lowest address.
        let b0 = (STACK_CANARY & 0xFF) as u8;
        let b1 = ((STACK_CANARY >> 8) & 0xFF) as u8;
        let b2 = ((STACK_CANARY >> 16) & 0xFF) as u8;
        let b3 = ((STACK_CANARY >> 24) & 0xFF) as u8;
        assert(b0 == 0xDE && b1 == 0xC0 && b2 == 0xAD && b3 == 0xDE) by (bit_vector)
            requires
                b0 == (0xDEAD_C0DEu32 & 0xFF) as u8,
                b1 == ((0xDEAD_C0DEu32 >> 8) & 0xFF) as u8,
                b2 == ((0xDEAD_C0DEu32 >> 16) & 0xFF) as u8,
                b3 == ((0xDEAD_C0DEu32 >> 24) & 0xFF) as u8,
        ;
        buf.set(0, b0);
        buf.set(1, b1);
        buf.set(2, b2);
        buf.set(3, b3);
        Stack { buf }
    }

    /// The stack memory, lowest address first.
    pub fn as_bytes(&self) -> (r: &[u8])
        ensures
            r@ == self.bytes(),
    {
        self.buf.as_slice()
    }

    /// Size of the stack in bytes.
    pub fn size() -> (r: usize)
        ensures
            r == N,
    {
        N
    }

    /// Whether the canary at the lowest address is intact; a corrupted canary
    /// means the stack has overflowed past its bottom.
    pub fn check_canary(&self) -> (r: bool)
        requires
            self.bytes().len() == N,
            N >= 16,
        ensures
            r == self.canary_intact(),
    {
        let b0 = self.buf[0] as u32;
        let b1 = self.buf[1] as u32;
        let b2 = self.buf[2] as u32;
        let b3 = self.buf[3] as u32;
        let value: u32 = b0 | (b1 << 8) | (b2 << 16) | (b3 << 24);
        assert((value == 0xDEAD_C0DEu32) == (b0 == 0xDE && b1 == 0xC0 && b2 == 0xAD && b3 == 0xDE)) by (bit_vector)
            requires
                b0 < 256,
                b1 < 256,
                b2 < 256,
                b3 < 256,
                value == b0 | (b1 << 8) | (b2 << 16) | (b3 << 24),
        ;
        value == STACK_CANARY
    }
}

} // verus!
