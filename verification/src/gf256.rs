//! Arithmetic in GF(2^8) with the AES polynomial, and the fixed matrices
//! of the AES S-box, as used by one-hot garbling.

use vstd::prelude::*;
use crate::matrix::BoolMatrix;

verus! {

/// Multiplication by `x` modulo `x^8 + x^4 + x^3 + x + 1`.
pub open spec fn xtime(a: u8) -> u8 {
    if a & 0x80u8 != 0 { ((a << 1u8) ^ 0x1Bu8) as u8 } else { (a << 1u8) as u8 }
}

/// `a * x^k` in GF(2^8).
pub open spec fn xpow(a: u8, k: nat) -> u8
    decreases k,
{
    if k == 0 { a } else { xtime(xpow(a, (k - 1) as nat)) }
}

/// The sum of `a * x^i` over the bits `i < n` set in `b`.
pub open spec fn gf_mul_bits(a: u8, b: u8, n: nat) -> u8
    decreases n,
{
    if n == 0 {
        0
    } else {
        let i = (n - 1) as nat;
        gf_mul_bits(a, b, i) ^ (if (b >> (i as u8)) & 1u8 == 1u8 { xpow(a, i) } else { 0u8 })
    }
}

/// The product of `a` and `b` in GF(2^8).
pub open spec fn gf_mul(a: u8, b: u8) -> u8 {
    gf_mul_bits(a, b, 8)
}

/// Multiply two bytes in GF(2^8) with the AES polynomial.
pub fn mul_byte(x: u8, y: u8) -> (c: u8)
    ensures
        c == gf_mul(x, y),
{
    let mut xx = x;
    let mut yy = y;
    let mut c: u8 = 0;
    let mut i: u8 = 0;
    assert(y >> 0u8 == y) by (bit_vector);
    while i < 8
        invariant
            i <= 8,
            xx == xpow(x, i as nat),
            yy == y >> i,
            c == gf_mul_bits(x, y, i as nat),
        decreases 8 - i,
    {
        if yy & 1 == 1 {
            c = c ^ xx;
        }
        let carry = xx & 0x80;
        xx = xx << 1;
        if carry != 0 {
            xx = xx ^ 0x1B;
        }
        proof {
            let yo = y >> i;
            assert((yo & 1u8 == 1u8) == ((y >> i) & 1u8 == 1u8));
            assert(c ^ 0u8 == c) by (bit_vector);
        }
        yy = yy >> 1;
        assert(yy == y >> ((i + 1) as u8)) by (bit_vector)
            requires
                yy == (y >> i) >> 1u8,
                i < 8,
        ;
        i = i + 1;
    }
    c
}


/// One step of the inversion chain: `z^2 * x`.
pub open spec fn inv_step(z: u8, x: u8) -> u8 {
    gf_mul(gf_mul(z, z), x)
}

/// The inversion chain after `k` steps, starting from `x`.
pub open spec fn inv_chain(x: u8, k: nat) -> u8
    decreases k,
{
    if k == 0 { x } else { inv_step(inv_chain(x, (k - 1) as nat), x) }
}

/// `x^254` in GF(2^8), computed by six square-and-multiply steps and a
/// final squaring; zero for zero.  (In a field of 256 elements this is
/// the inverse of a nonzero `x`; that fact is not proved here.)
pub open spec fn gf_inv(x: u8) -> u8 {
    if x == 0 {
        0
    } else {
        let z = inv_chain(x, 6);
        gf_mul(z, z)
    }
}

/// The power `x^254` in GF(2^8), the inversion of the AES S-box; zero
/// maps to zero.
pub fn invert_byte(x: u8) -> (r: u8)
    ensures
        r == gf_inv(x),
{
    if x == 0 {
        0
    } else {
        let mut z = x;
        let mut k: usize = 0;
        while k < 6
            invariant
                k <= 6,
                z == inv_chain(x, k as nat),
            decreases 6 - k,
        {
            z = mul_byte(z, z);
            z = mul_byte(z, x);
            k = k + 1;
        }
        mul_byte(z, z)
    }
}

/// Bit `i` of `x`.
pub open spec fn bit_of(x: u8, i: int) -> bool {
    (x >> (i as u8)) & 1u8 == 1u8
}

/// Convert a byte to its eight bits, least significant first.
pub fn byte_to_bools(x: u8) -> (v: Vec<bool>)
    ensures
        v@.len() == 8,
        forall|i: int| 0 <= i < 8 ==> #[trigger] v@[i] == bit_of(x, i),
{
    let mut v: Vec<bool> = Vec::new();
    let mut xx = x;
    let mut i: u8 = 0;
    assert(x >> 0u8 == x) by (bit_vector);
    while i < 8
        invariant
            i <= 8,
            v@.len() == i,
            xx == x >> i,
            forall|k: int| 0 <= k < i ==> #[trigger] v@[k] == bit_of(x, k),
        decreases 8 - i,
    {
        v.push((xx & 1) == 1);
        xx = xx >> 1;
        assert(xx == x >> ((i + 1) as u8)) by (bit_vector)
            requires
                xx == (x >> i) >> 1u8,
                i < 8,
        ;
        i = i + 1;
    }
    v
}

/// The byte whose bit `i` is `bits[i]` (bits past the eighth are ignored).
pub open spec fn bits_value(bits: Seq<bool>, n: nat) -> u8
    decreases n,
{
    if n == 0 {
        0
    } else {
        let i = (n - 1) as nat;
        bits_value(bits, i) | (if i < 8 && bits[i as int] { (1u8 << (i as u8)) as u8 } else { 0u8 })
    }
}

/// Convert bits (least significant first) to a byte.
pub fn bools_to_byte(bits: &[bool]) -> (x: u8)
    ensures
        x == bits_value(bits@, bits@.len()),
{
    let mut x: u8 = 0;
    let mut i: usize = 0;
    while i < bits.len()
        invariant
            i <= bits@.len(),
            x == bits_value(bits@, i as nat),
        decreases bits.len() - i,
    {
        if bits[i] {
            if i < 8 {
                x = x | (1u8 << (i as u8));
            } else {
                assert(x | 0u8 == x) by (bit_vector);
            }
        } else {
            assert(x | 0u8 == x) by (bit_vector);
        }
        i = i + 1;
    }
    x
}

} // verus!
