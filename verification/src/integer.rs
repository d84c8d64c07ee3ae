//! 32-bit integers as bit vectors, and the wrapping power used by one-hot
//! exponentiation.

use vstd::prelude::*;
use vstd::arithmetic::power::{pow, lemma_pow_adds};
use vstd::arithmetic::div_mod::lemma_mul_mod_noop_general;
use crate::matrix::BoolMatrix;

verus! {

/// Prime modulus of the modular reduction gadget.
pub const MOD_P: u32 = 65521;

/// Bit `i` of `x`.
pub open spec fn bit32(x: u32, i: int) -> bool {
    (x >> (i as u32)) & 1u32 == 1u32
}

/// `2^32`, the modulus of wrapping `u32` arithmetic.
pub open spec fn word32() -> int {
    0x1_0000_0000
}

/// Setting bit `i` changes bit `i` alone.
proof fn lemma_bit32_or(x: u32, i: u32, k: u32)
    by (bit_vector)
    requires
        i < 32,
        k < 32,
    ensures
        (((x | (1u32 << i)) >> k) & 1u32 == 1u32) == (((x >> k) & 1u32 == 1u32) || k == i),
        ((0u32 >> k) & 1u32 == 1u32) == false,
{
}

/// Convert a `u32` into a 32-entry column vector, least significant bit first.
pub fn from_u32(x: u32) -> (m: BoolMatrix)
    ensures
        m.wf(),
        m.nrows() == 32,
        m.ncols() == 1,
        forall|i: int| 0 <= i < 32 ==> #[trigger] m.entry(i, 0) == bit32(x, i),
{
    let mut out = BoolMatrix::vector(32);
    let mut i: u32 = 0;
    while i < 32
        invariant
            i <= 32,
            out.wf(),
            out.nrows() == 32,
            out.ncols() == 1,
            forall|k: int| 0 <= k < i ==> #[trigger] out.entry(k, 0) == bit32(x, k),
        decreases 32 - i,
    {
        out.set(i as usize, 0, ((x >> i) & 1) == 1);
        i = i + 1;
    }
    out
}

/// Convert the first column of a 32-row matrix into a `u32`, entry `i`
/// giving bit `i`.
pub fn to_u32(m: &BoolMatrix) -> (x: u32)
    requires
        m.wf(),
        m.nrows() == 32,
        m.ncols() >= 1,
    ensures
        forall|i: int| 0 <= i < 32 ==> #[trigger] bit32(x, i) == m.entry(i, 0),
{
    let mut x: u32 = 0;
    let mut i: u32 = 0;
    assert forall|k: int| 0 <= k < 32 implies !#[trigger] bit32(x, k) by {
        lemma_bit32_or(0u32, 0u32, k as u32);
    }
    while i < 32
        invariant
            i <= 32,
            m.wf(),
            m.nrows() == 32,
            m.ncols() >= 1,
            forall|k: int| 0 <= k < i ==> #[trigger] bit32(x, k) == m.entry(k, 0),
            forall|k: int| i <= k < 32 ==> !#[trigger] bit32(x, k),
        decreases 32 - i,
    {
        let old_x = x;
        if m.get(i as usize, 0) {
            x = x | (1u32 << i);
            assert forall|k: int| 0 <= k < 32 implies #[trigger] bit32(x, k) == (bit32(old_x, k) || k == i) by {
                lemma_bit32_or(old_x, i, k as u32);
            }
        }
        i = i + 1;
    }
    x
}

/// Two words with the same 32 bits are equal.
pub proof fn lemma_bits32_eq(x: u32, y: u32)
    requires
        forall|i: int| 0 <= i < 32 ==> #[trigger] bit32(x, i) == bit32(y, i),
    ensures
        x == y,
{
    assert(bit32(x, 0) == bit32(y, 0) && bit32(x, 1) == bit32(y, 1) && bit32(x, 2) == bit32(y, 2)
        && bit32(x, 3) == bit32(y, 3) && bit32(x, 4) == bit32(y, 4) && bit32(x, 5) == bit32(y, 5)
        && bit32(x, 6) == bit32(y, 6) && bit32(x, 7) == bit32(y, 7) && bit32(x, 8) == bit32(y, 8)
        && bit32(x, 9) == bit32(y, 9) && bit32(x, 10) == bit32(y, 10) && bit32(x, 11) == bit32(y, 11)
        && bit32(x, 12) == bit32(y, 12) && bit32(x, 13) == bit32(y, 13) && bit32(x, 14) == bit32(y, 14)
        && bit32(x, 15) == bit32(y, 15) && bit32(x, 16) == bit32(y, 16) && bit32(x, 17) == bit32(y, 17)
        && bit32(x, 18) == bit32(y, 18) && bit32(x, 19) == bit32(y, 19) && bit32(x, 20) == bit32(y, 20)
        && bit32(x, 21) == bit32(y, 21) && bit32(x, 22) == bit32(y, 22) && bit32(x, 23) == bit32(y, 23)
        && bit32(x, 24) == bit32(y, 24) && bit32(x, 25) == bit32(y, 25) && bit32(x, 26) == bit32(y, 26)
        && bit32(x, 27) == bit32(y, 27) && bit32(x, 28) == bit32(y, 28) && bit32(x, 29) == bit32(y, 29)
        && bit32(x, 30) == bit32(y, 30) && bit32(x, 31) == bit32(y, 31));
    assert(x == y) by (bit_vector)
        requires
            ((x >> 0u32) & 1u32 == 1u32) == ((y >> 0u32) & 1u32 == 1u32),
            ((x >> 1u32) & 1u32 == 1u32) == ((y >> 1u32) & 1u32 == 1u32),
            ((x >> 2u32) & 1u32 == 1u32) == ((y >> 2u32) & 1u32 == 1u32),
            ((x >> 3u32) & 1u32 == 1u32) == ((y >> 3u32) & 1u32 == 1u32),
            ((x >> 4u32) & 1u32 == 1u32) == ((y >> 4u32) & 1u32 == 1u32),
            ((x >> 5u32) & 1u32 == 1u32) == ((y >> 5u32) & 1u32 == 1u32),
            ((x >> 6u32) & 1u32 == 1u32) == ((y >> 6u32) & 1u32 == 1u32),
            ((x >> 7u32) & 1u32 == 1u32) == ((y >> 7u32) & 1u32 == 1u32),
            ((x >> 8u32) & 1u32 == 1u32) == ((y >> 8u32) & 1u32 == 1u32),
            ((x >> 9u32) & 1u32 == 1u32) == ((y >> 9u32) & 1u32 == 1u32),
            ((x >> 10u32) & 1u32 == 1u32) == ((y >> 10u32) & 1u32 == 1u32),
            ((x >> 11u32) & 1u32 == 1u32) == ((y >> 11u32) & 1u32 == 1u32),
            ((x >> 12u32) & 1u32 == 1u32) == ((y >> 12u32) & 1u32 == 1u32),
            ((x >> 13u32) & 1u32 == 1u32) == ((y >> 13u32) & 1u32 == 1u32),
            ((x >> 14u32) & 1u32 == 1u32) == ((y >> 14u32) & 1u32 == 1u32),
            ((x >> 15u32) & 1u32 == 1u32) == ((y >> 15u32) & 1u32 == 1u32),
            ((x >> 16u32) & 1u32 == 1u32) == ((y >> 16u32) & 1u32 == 1u32),
            ((x >> 17u32) & 1u32 == 1u32) == ((y >> 17u32) & 1u32 == 1u32),
            ((x >> 18u32) & 1u32 == 1u32) == ((y >> 18u32) & 1u32 == 1u32),
            ((x >> 19u32) & 1u32 == 1u32) == ((y >> 19u32) & 1u32 == 1u32),
            ((x >> 20u32) & 1u32 == 1u32) == ((y >> 20u32) & 1u32 == 1u32),
            ((x >> 21u32) & 1u32 == 1u32) == ((y >> 21u32) & 1u32 == 1u32),
            ((x >> 22u32) & 1u32 == 1u32) == ((y >> 22u32) & 1u32 == 1u32),
            ((x >> 23u32) & 1u32 == 1u32) == ((y >> 23u32) & 1u32 == 1u32),
            ((x >> 24u32) & 1u32 == 1u32) == ((y >> 24u32) & 1u32 == 1u32),
            ((x >> 25u32) & 1u32 == 1u32) == ((y >> 25u32) & 1u32 == 1u32),
            ((x >> 26u32) & 1u32 == 1u32) == ((y >> 26u32) & 1u32 == 1u32),
            ((x >> 27u32) & 1u32 == 1u32) == ((y >> 27u32) & 1u32 == 1u32),
            ((x >> 28u32) & 1u32 == 1u32) == ((y >> 28u32) & 1u32 == 1u32),
            ((x >> 29u32) & 1u32 == 1u32) == ((y >> 29u32) & 1u32 == 1u32),
            ((x >> 30u32) & 1u32 == 1u32) == ((y >> 30u32) & 1u32 == 1u32),
            ((x >> 31u32) & 1u32 == 1u32) == ((y >> 31u32) & 1u32 == 1u32),
    ;
}

/// Converting a word to bits and back gives the word.
pub proof fn lemma_u32_bits_round_trip(x: u32, m: BoolMatrix, y: u32)
    requires
        m.wf(),
        m.nrows() == 32,
        m.ncols() == 1,
        forall|i: int| 0 <= i < 32 ==> #[trigger] m.entry(i, 0) == bit32(x, i),
        forall|i: int| 0 <= i < 32 ==> #[trigger] bit32(y, i) == m.entry(i, 0),
    ensures
        y == x,
{
    assert forall|i: int| 0 <= i < 32 implies #[trigger] bit32(y, i) == bit32(x, i) by {
        assert(m.entry(i, 0) == bit32(x, i));
    }
    lemma_bits32_eq(y, x);
}

/// Converting a 32 by 1 matrix to a word and back gives the matrix: the
/// same shape and the same buffer.
pub proof fn lemma_bits_u32_round_trip(m: BoolMatrix, x: u32, m2: BoolMatrix)
    requires
        m.wf(),
        m.nrows() == 32,
        m.ncols() == 1,
        forall|i: int| 0 <= i < 32 ==> #[trigger] bit32(x, i) == m.entry(i, 0),
        m2.wf(),
        m2.nrows() == 32,
        m2.ncols() == 1,
        forall|i: int| 0 <= i < 32 ==> #[trigger] m2.entry(i, 0) == bit32(x, i),
    ensures
        m2.buffer() == m.buffer(),
{
    assert forall|i: int, j: int| 0 <= i < m2.nrows() && 0 <= j < m2.ncols() implies #[trigger] m2.entry(i, j)
        == m.entry(i, j) by {
        assert(j == 0);
        assert(bit32(x, i) == m.entry(i, 0));
    }
    m2.lemma_entries_ext(&m);
}

/// `x^p` with wrapping 32-bit multiplication.
pub open spec fn pow32_spec(x: u32, p: u32) -> int {
    pow(x as int, p as nat) % word32()
}

/// `x^p` modulo `2^32`, by repeated squaring.
pub fn pow32(x: u32, p: u32) -> (r: u32)
    ensures
        r == pow32_spec(x, p),
    decreases p,
{
    proof {
        reveal_with_fuel(pow, 2);
    }
    if p == 0 {
        1
    } else if p == 1 {
        assert(pow(x as int, 1) == x * pow(x as int, 0));
        x
    } else {
        let h = p / 2;
        let tmp = pow32(x, h);
        let sq = tmp.wrapping_mul(tmp);
        proof {
            let m = word32();
            let ph = pow(x as int, h as nat);
            lemma_pow_adds(x as int, h as nat, h as nat);
            lemma_mul_mod_noop_general(ph, ph, m);
            assert(sq == (ph * ph) % m);
        }
        if p % 2 == 0 {
            assert(pow(x as int, p as nat) == pow(x as int, h as nat) * pow(x as int, h as nat));
            sq
        } else {
            let r = x.wrapping_mul(sq);
            proof {
                let m = word32();
                let ph = pow(x as int, h as nat);
                lemma_pow_adds(x as int, 1, (h + h) as nat);
                assert(pow(x as int, 1) == x * pow(x as int, 0));
                lemma_mul_mod_noop_general(x as int, ph * ph, m);
                assert((x as int) % m == x);
                assert(r == (x * ((ph * ph) % m)) % m);
                assert(p as nat == 1 + (h + h) as nat);
            }
            r
        }
    }
}

} // verus!
