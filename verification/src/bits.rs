//! Peripheral bitmasks: bit `i` of a `u32` mask stands for peripheral `i`.
use vstd::prelude::*;

verus! {

/// Bit `i` (`0 <= i < 32`) of `mask` is set.
pub open spec fn has_bit(mask: u32, i: int) -> bool {
    0 <= i < 32 && mask & (1u32 << (i as u32)) != 0
}

/// Two masks share at least one set bit.
pub open spec fn share_bit(x: u32, y: u32) -> bool {
    exists|i: int| 0 <= i < 32 && #[trigger] has_bit(x, i) && has_bit(y, i)
}

/// The increasing sequence of the indices below `n` whose bit is set in `mask`.
pub open spec fn bit_indices(mask: u32, n: nat) -> Seq<usize>
    decreases n,
{
    if n == 0 {
        Seq::empty()
    } else {
        let rest = bit_indices(mask, (n - 1) as nat);
        if has_bit(mask, n - 1) {
            rest.push((n - 1) as usize)
        } else {
            rest
        }
    }
}

/// A non-zero `x & y` is exactly a shared set bit.
pub proof fn lemma_and_nonzero_iff_share_bit(x: u32, y: u32)
    ensures
        (x & y != 0) <==> share_bit(x, y),
{
    if x & y != 0 {
        if !share_bit(x, y) {
            assert forall|k: u32| k < 32 implies (x & (1u32 << k) == 0u32 || y & (1u32 << k) == 0u32) by {
                assert(!(has_bit(x, k as int) && has_bit(y, k as int)));
            }
            assert(x & y == 0) by (bit_vector)
                requires
                    x & (1u32 << 0u32) == 0u32 || y & (1u32 << 0u32) == 0u32,
            x & (1u32 << 1u32) == 0u32 || y & (1u32 << 1u32) == 0u32,
            x & (1u32 << 2u32) == 0u32 || y & (1u32 << 2u32) == 0u32,
            x & (1u32 << 3u32) == 0u32 || y & (1u32 << 3u32) == 0u32,
            x & (1u32 << 4u32) == 0u32 || y & (1u32 << 4u32) == 0u32,
            x & (1u32 << 5u32) == 0u32 || y & (1u32 << 5u32) == 0u32,
            x & (1u32 << 6u32) == 0u32 || y & (1u32 << 6u32) == 0u32,
            x & (1u32 << 7u32) == 0u32 || y & (1u32 << 7u32) == 0u32,
            x & (1u32 << 8u32) == 0u32 || y & (1u32 << 8u32) == 0u32,
            x & (1u32 << 9u32) == 0u32 || y & (1u32 << 9u32) == 0u32,
            x & (1u32 << 10u32) == 0u32 || y & (1u32 << 10u32) == 0u32,
            x & (1u32 << 11u32) == 0u32 || y & (1u32 << 11u32) == 0u32,
            x & (1u32 << 12u32) == 0u32 || y & (1u32 << 12u32) == 0u32,
            x & (1u32 << 13u32) == 0u32 || y & (1u32 << 13u32) == 0u32,
            x & (1u32 << 14u32) == 0u32 || y & (1u32 << 14u32) == 0u32,
            x & (1u32 << 15u32) == 0u32 || y & (1u32 << 15u32) == 0u32,
            x & (1u32 << 16u32) == 0u32 || y & (1u32 << 16u32) == 0u32,
            x & (1u32 << 17u32) == 0u32 || y & (1u32 << 17u32) == 0u32,
            x & (1u32 << 18u32) == 0u32 || y & (1u32 << 18u32) == 0u32,
            x & (1u32 << 19u32) == 0u32 || y & (1u32 << 19u32) == 0u32,
            x & (1u32 << 20u32) == 0u32 || y & (1u32 << 20u32) == 0u32,
            x & (1u32 << 21u32) == 0u32 || y & (1u32 << 21u32) == 0u32,
            x & (1u32 << 22u32) == 0u32 || y & (1u32 << 22u32) == 0u32,
            x & (1u32 << 23u32) == 0u32 || y & (1u32 << 23u32) == 0u32,
            x & (1u32 << 24u32) == 0u32 || y & (1u32 << 24u32) == 0u32,
            x & (1u32 << 25u32) == 0u32 || y & (1u32 << 25u32) == 0u32,
            x & (1u32 << 26u32) == 0u32 || y & (1u32 << 26u32) == 0u32,
            x & (1u32 << 27u32) == 0u32 || y & (1u32 << 27u32) == 0u32,
            x & (1u32 << 28u32) == 0u32 || y & (1u32 << 28u32) == 0u32,
            x & (1u32 << 29u32) == 0u32 || y & (1u32 << 29u32) == 0u32,
            x & (1u32 << 30u32) == 0u32 || y & (1u32 << 30u32) == 0u32,
            x & (1u32 << 31u32) == 0u32 || y & (1u32 << 31u32) == 0u32,
            ;
        }
    } else {
        assert forall|i: int| 0 <= i < 32 implies !(#[trigger] has_bit(x, i) && has_bit(y, i)) by {
            let k = i as u32;
            assert(x & y == 0u32 && k < 32 ==> !(x & (1u32 << k) != 0u32 && y & (1u32 << k) != 0u32)) by (bit_vector);
        }
    }
}

/// The indices of the set bits of `mask`, in increasing order.
pub fn bits_of(mask: u32) -> (r: Vec<usize>)
    ensures
        r@ == bit_indices(mask, 32),
{
    let mut r: Vec<usize> = Vec::new();
    let mut i: usize = 0;
    while i < 32
        invariant
            i <= 32,
            r@ == bit_indices(mask, i as nat),
        decreases 32 - i,
    {
        if mask & (1u32 << (i as u32)) != 0 {
            r.push(i);
        }
        i = i + 1;
    }
    r
}

} // verus!
