//! Text rendering for the UART diagnostics: numbers as ASCII digit bytes.
use vstd::prelude::*;

verus! {

/// `10^k`.
pub open spec fn pow10(k: nat) -> nat
    decreases k,
{
    if k == 0 { 1 } else { 10 * pow10((k - 1) as nat) }
}

/// Decimal digits of `v`, most significant first, without leading zeros
/// (`"0"` for zero).
pub open spec fn decimal_spec(v: nat) -> Seq<u8>
    decreases v,
{
    if v < 10 {
        seq![(48 + v) as u8]
    } else {
        decimal_spec(v / 10).push((48 + v % 10) as u8)
    }
}

/// The lowercase hexadecimal digit for a nibble.
pub open spec fn hex_char(n: usize) -> u8 {
    if n < 10 { (48 + n) as u8 } else { (97 + n - 10) as u8 }
}

/// Lowercase hexadecimal digit of a nibble value below 16.
fn hex_digit(n: usize) -> (r: u8)
    requires
        n < 16,
    ensures
        r == hex_char(n),
{
    if n < 10 { 48 + n as u8 } else { 97 + (n - 10) as u8 }
}

/// `val` as `0x` followed by `usize::BITS / 4` lowercase hex digits, most
/// significant nibble first (zero-padded).
pub fn hex_digits(val: usize) -> (r: Vec<u8>)
    ensures
        r@.len() == 2 + usize::BITS / 4,
        r@[0] == 48,
        r@[1] == 120,
        forall|k: int| 0 <= k < usize::BITS / 4 ==>
            #[trigger] r@[2 + k] == hex_char((val >> ((usize::BITS - 4 * (k + 1)) as usize)) & 0xF),
{
    let mut r: Vec<u8> = Vec::new();
    r.push(48);
    r.push(120);
    let bits = usize::BITS as usize;
    assert(bits == 32 || bits == 64);
    let mut i = bits;
    let ghost mut k: int = 0;
    while i > 0
        invariant
            bits == usize::BITS,
            bits == 32 || bits == 64,
            i + 4 * k == bits,
            0 <= k,
            r@.len() == 2 + k,
            r@[0] == 48,
            r@[1] == 120,
            forall|j: int| 0 <= j < k ==> #[trigger] r@[2 + j] == hex_char((val >> ((usize::BITS - 4 * (j + 1)) as usize)) & 0xF),
        decreases i,
    {
        i = i - 4;
        let nibble = (val >> i) & 0xF;
        assert(nibble < 16) by (bit_vector)
            requires
                nibble == (val >> i) & 0xF,
        ;
        r.push(hex_digit(nibble));
        proof {
            k = k + 1;
        }
    }
    r
}

/// `val` in decimal, most significant digit first, without leading zeros.
pub fn decimal_digits(val: usize) -> (r: Vec<u8>)
    ensures
        r@ == decimal_spec(val as nat),
{
    if val == 0 {
        let mut r: Vec<u8> = Vec::new();
        r.push(48);
        assert(r@ =~= decimal_spec(0));
        return r;
    }
    let mut buf: Vec<u8> = Vec::new();
    let mut z: usize = 0;
    while z < 20
        invariant
            z <= 20,
            buf@.len() == z,
        decreases 20 - z,
    {
        buf.push(0);
        z = z + 1;
    }
    proof {
        reveal_with_fuel(pow10, 21);
        assert(pow10(20) == 100000000000000000000nat);
    }
    let mut n = val;
    let mut pos: usize = 20;
    while n > 0
        invariant
            buf@.len() == 20,
            pos <= 20,
            n < pow10(pos as nat),
            n > 0 ==> decimal_spec(val as nat) == decimal_spec(n as nat) + buf@.subrange(pos as int, 20),
            n == 0 ==> decimal_spec(val as nat) == buf@.subrange(pos as int, 20),
        decreases n,
    {
        assert(pos > 0) by {
            if pos == 0 {
                assert(pow10(0) == 1);
            }
        }
        let ghost old_buf = buf@;
        let ghost old_n = n;
        pos = pos - 1;
        buf.set(pos, 48 + (n % 10) as u8);
        n = n / 10;
        proof {
            assert(pow10((pos + 1) as nat) == 10 * pow10(pos as nat));
            assert(buf@.subrange(pos as int, 20) =~= seq![(48 + old_n % 10) as u8] + old_buf.subrange(pos + 1, 20));
            if n > 0 {
                assert(decimal_spec(old_n as nat) == decimal_spec(n as nat).push((48 + old_n % 10) as u8));
                assert(decimal_spec(n as nat) + buf@.subrange(pos as int, 20)
                    =~= decimal_spec(n as nat).push((48 + old_n % 10) as u8) + old_buf.subrange(pos + 1, 20));
            } else {
                assert(decimal_spec(old_n as nat) == seq![(48 + old_n) as u8]);
            }
        }
    }
    let mut r: Vec<u8> = Vec::new();
    let mut k = pos;
    while k < 20
        invariant
            buf@.len() == 20,
            pos <= k <= 20,
            r@ == buf@.subrange(pos as int, k as int),
        decreases 20 - k,
    {
        r.push(buf[k]);
        assert(r@ =~= buf@.subrange(pos as int, k + 1));
        k = k + 1;
    }
    r
}

} // verus!
