//! Bit-level encodings used by the OT extensions: bit vectors as blocks,
//! bytes as bits, tree paths as indices, and the consistency digest of
//! the multi-point correlated OT.

use vstd::prelude::*;
use crate::block_hash::{le_bytes, sha256, sha256_digest};
use vstd::arithmetic::power2::{lemma2_to64, lemma_pow2_unfold, pow2};

verus! {

/// Bit `i` of a block.
pub open spec fn bit128(x: u128, i: int) -> bool {
    (x >> (i as u128)) & 1u128 == 1u128
}

/// Setting bit `i` of a block changes bit `i` alone.
proof fn lemma_bit128_or(x: u128, i: u128, k: u128)
    by (bit_vector)
    requires
        i < 128,
        k < 128,
    ensures
        (((x | (1u128 << i)) >> k) & 1u128 == 1u128) == (((x >> k) & 1u128 == 1u128) || k == i),
        ((0u128 >> k) & 1u128 == 1u128) == false,
{
}

/// The block whose bit `i`, for `i < n`, is `bits[i]`, the others clear.
pub open spec fn bits_block(bits: Seq<bool>, n: nat) -> u128
    decreases n,
{
    if n == 0 {
        0
    } else if bits[n - 1] {
        bits_block(bits, (n - 1) as nat) | (1u128 << ((n - 1) as u128))
    } else {
        bits_block(bits, (n - 1) as nat)
    }
}

/// The block whose bit `i` is `bits[i]`.
pub fn bools_to_block(bits: &[bool; 128]) -> (b: u128)
    ensures
        b == bits_block(bits@, 128),
        forall|i: int| 0 <= i < 128 ==> #[trigger] bit128(b, i) == bits@[i],
{
    let mut acc: u128 = 0;
    let mut i: usize = 0;
    assert forall|k: int| 0 <= k < 128 implies !#[trigger] bit128(acc, k) by {
        lemma_bit128_or(0u128, 0u128, k as u128);
    }
    while i < 128
        invariant
            i <= 128,
            acc == bits_block(bits@, i as nat),
            forall|k: int| 0 <= k < i ==> #[trigger] bit128(acc, k) == bits@[k],
            forall|k: int| i <= k < 128 ==> !#[trigger] bit128(acc, k),
        decreases 128 - i,
    {
        let old_acc = acc;
        if bits[i] {
            acc = acc | (1u128 << (i as u128));
            assert forall|k: int| 0 <= k < 128 implies #[trigger] bit128(acc, k) == (bit128(old_acc, k) || k == i) by {
                lemma_bit128_or(old_acc, i as u128, k as u128);
            }
        }
        i = i + 1;
    }
    acc
}

/// A byte that should encode a bit held another value.
#[derive(Clone, Copy, Debug, PartialEq, Eq, Structural)]
pub struct InvalidBoolByte {
    /// Position of the first offending byte.
    pub position: usize,
    /// Its value.
    pub value: u8,
}

/// Decode bytes that each hold a bit (0 or 1); the first other byte is
/// an error.
pub fn bytes_to_bools(bytes: &[u8]) -> (r: Result<Vec<bool>, InvalidBoolByte>)
    ensures
        match r {
            Ok(v) => {
                &&& forall|i: int| 0 <= i < bytes@.len() ==> #[trigger] bytes@[i] <= 1
                &&& v@.len() == bytes@.len()
                &&& forall|i: int| 0 <= i < bytes@.len() ==> #[trigger] v@[i] == (bytes@[i] == 1)
            },
            Err(e) => {
                &&& e.position < bytes@.len()
                &&& e.value == bytes@[e.position as int]
                &&& e.value > 1
                &&& forall|i: int| 0 <= i < e.position ==> #[trigger] bytes@[i] <= 1
            },
        },
{
    let mut out: Vec<bool> = Vec::new();
    let mut i: usize = 0;
    while i < bytes.len()
        invariant
            i <= bytes@.len(),
            out@.len() == i,
            forall|k: int| 0 <= k < i ==> #[trigger] bytes@[k] <= 1,
            forall|k: int| 0 <= k < i ==> #[trigger] out@[k] == (bytes@[k] == 1),
        decreases bytes.len() - i,
    {
        let b = bytes[i];
        if b == 0 {
            out.push(false);
        } else if b == 1 {
            out.push(true);
        } else {
            return Err(InvalidBoolByte { position: i, value: b });
        }
        i = i + 1;
    }
    Ok(out)
}

/// The number whose binary digits, most significant first, are `bits`.
pub open spec fn msb_value(bits: Seq<bool>) -> nat
    decreases bits.len(),
{
    if bits.len() == 0 {
        0
    } else {
        2 * msb_value(bits.drop_last()) + (if bits.last() { 1nat } else { 0nat })
    }
}

/// The modulus of machine words.
pub open spec fn word_modulus() -> nat {
    usize::MAX as nat + 1
}

/// The leaf index reached by following the path `bits` from the root,
/// most significant first (wrapping at the word size).
pub fn compute_choice_pos(bits: &[bool]) -> (pos: usize)
    ensures
        pos == msb_value(bits@) % word_modulus(),
{
    let mut pos: usize = 0;
    let mut i: usize = 0;
    assert(bits@.take(0) =~= Seq::<bool>::empty());
    assert(0nat % word_modulus() == 0) by {
        vstd::arithmetic::div_mod::lemma_small_mod(0, word_modulus());
    }
    while i < bits.len()
        invariant
            i <= bits@.len(),
            pos == msb_value(bits@.take(i as int)) % word_modulus(),
        decreases bits.len() - i,
    {
        let b: usize = if bits[i] { 1 } else { 0 };
        let doubled = pos.wrapping_mul(2);
        proof {
            assert(bits@.take(i + 1).drop_last() =~= bits@.take(i as int));
            let v = msb_value(bits@.take(i as int)) as int;
            let m = word_modulus() as int;
            let bb = b as int;
            let p = pos as int;
            assert(doubled as int == (p * 2) % m);
            // the doubled word is even, so adding the bit cannot wrap
            let q = (p * 2) / m;
            vstd::arithmetic::div_mod::lemma_fundamental_div_mod(p * 2, m);
            assert(m % 2 == 0) by {
                assert(usize::MAX == 0xffff_ffff || usize::MAX == 0xffff_ffff_ffff_ffff);
            }
            let hm = m / 2;
            let d = doubled as int;
            assert(d == 2 * (p - hm * q)) by (nonlinear_arith)
                requires
                    p * 2 == m * q + d,
                    m == 2 * hm,
            ;
            let kk = p - hm * q;
            assert(d == 2 * kk);
            assert(d % 2 == 0);
            assert(doubled as int + bb < m);
            vstd::arithmetic::div_mod::lemma_mul_mod_noop_right(2, v, m);
            vstd::arithmetic::div_mod::lemma_add_mod_noop(2 * (v % m), bb, m);
            vstd::arithmetic::div_mod::lemma_add_mod_noop(2 * v, bb, m);
            vstd::arithmetic::div_mod::lemma_small_mod(b as nat, m as nat);
            vstd::arithmetic::div_mod::lemma_mod_twice(2 * (v % m), m);
            vstd::arithmetic::div_mod::lemma_small_mod((doubled + b) as nat, m as nat);
        }
        pos = doubled + b;
        i = i + 1;
    }
    assert(bits@.take(bits@.len() as int) =~= bits@);
    pos
}

/// The `bits` low binary digits of `idx`, most significant first.
pub fn index_to_bits(idx: usize, bits: usize) -> (out: Vec<bool>)
    requires
        bits <= usize::BITS,
    ensures
        out@.len() == bits,
        forall|i: int| 0 <= i < bits ==> #[trigger] out@[i] == ((idx >> ((bits - 1 - i) as usize)) & 1usize == 1usize),
{
    let mut out: Vec<bool> = Vec::new();
    let mut i: usize = 0;
    while i < bits
        invariant
            i <= bits,
            bits <= usize::BITS,
            out@.len() == i,
            forall|k: int| 0 <= k < i ==> #[trigger] out@[k] == ((idx >> ((bits - 1 - k) as usize)) & 1usize == 1usize),
        decreases bits - i,
    {
        let bit = (idx >> (bits - 1 - i)) & 1;
        out.push(bit == 1);
        i = i + 1;
    }
    out
}

/// The `n` low binary digits of `idx`, most significant first, as
/// `index_to_bits` returns them.
pub open spec fn index_bits(idx: usize, n: nat) -> Seq<bool> {
    Seq::new(n, |i: int| (idx >> ((n - 1 - i) as usize)) & 1usize == 1usize)
}

/// The `n` low binary digits of the number `v`, most significant first.
spec fn digits_msb(v: nat, n: nat) -> Seq<bool> {
    Seq::new(n, |i: int| (v / pow2((n - 1 - i) as nat)) % 2 == 1)
}

/// The `n` low digits of `v`, most significant first, are worth `v mod 2^n`.
proof fn lemma_digits_msb_value(v: nat, n: nat)
    ensures
        msb_value(digits_msb(v, n)) == v % pow2(n),
    decreases n,
{
    let s = digits_msb(v, n);
    if n == 0 {
        lemma2_to64();
    } else {
        let j = (n - 1) as nat;
        let h = v / 2;
        lemma_digits_msb_value(h, j);
        assert forall|i: int| 0 <= i < j implies #[trigger] s.drop_last()[i] == digits_msb(h, j)[i] by {
            let k = (j - 1 - i) as nat;
            lemma_pow2_unfold(k + 1);
            vstd::arithmetic::power2::lemma_pow2_pos(k);
            vstd::arithmetic::div_mod::lemma_div_denominator(v as int, 2, pow2(k) as int);
            assert(pow2((n - 1 - i) as nat) == 2 * pow2(k));
        }
        assert(s.drop_last() =~= digits_msb(h, j));
        assert(s.last() == (v % 2 == 1)) by {
            lemma2_to64();
            assert(s.last() == ((v / pow2(0)) % 2 == 1));
            assert(v / 1 == v);
        }
        lemma_pow2_unfold(n);
        vstd::arithmetic::power2::lemma_pow2_pos(j);
        vstd::arithmetic::div_mod::lemma_mod_breakdown(v as int, 2, pow2(j) as int);
    }
}

/// The path of a leaf names the leaf: following the `n` low binary
/// digits of `idx` (`index_to_bits`), most significant first, reaches
/// leaf `idx mod 2^n` (`compute_choice_pos`).
pub proof fn lemma_choice_pos_of_index(idx: usize, n: nat)
    requires
        n <= usize::BITS,
    ensures
        msb_value(index_bits(idx, n)) % word_modulus() == (idx as nat) % pow2(n),
{
    assert forall|i: int| 0 <= i < n implies #[trigger] index_bits(idx, n)[i] == digits_msb(idx as nat, n)[i] by {
        let k = (n - 1 - i) as usize;
        vstd::bits::lemma_usize_shr_is_div(idx, k);
        let y = idx >> k;
        vstd::bits::lemma_usize_low_bits_mask_is_mod(y, 1);
        vstd::bits::lemma_low_bits_mask_values();
        lemma2_to64();
        assert(y & 1usize == y % 2);
    }
    assert(index_bits(idx, n) =~= digits_msb(idx as nat, n));
    lemma_digits_msb_value(idx as nat, n);
    vstd::arithmetic::power2::lemma_pow2_pos(n);
    assert(pow2(n) <= word_modulus()) by {
        if n < usize::BITS {
            vstd::bits::lemma_usize_pow2_no_overflow(n);
        } else {
            lemma2_to64();
            vstd::arithmetic::power2::lemma2_to64_rest();
        }
    }
    vstd::arithmetic::div_mod::lemma_mod_pos_bound(idx as int, pow2(n) as int);
    vstd::arithmetic::div_mod::lemma_small_mod(idx as nat % pow2(n), word_modulus());
}

/// XOR of all blocks of `s`.
pub open spec fn xor_all(s: Seq<u128>) -> u128
    decreases s.len(),
{
    if s.len() == 0 {
        0
    } else {
        xor_all(s.drop_last()) ^ s.last()
    }
}

fn xor_fold(s: &[u128]) -> (x: u128)
    ensures
        x == xor_all(s@),
{
    let mut x: u128 = 0;
    let mut i: usize = 0;
    while i < s.len()
        invariant
            i <= s@.len(),
            x == xor_all(s@.take(i as int)),
        decreases s.len() - i,
    {
        assert(s@.take(i + 1).drop_last() =~= s@.take(i as int));
        x = x ^ s[i];
        i = i + 1;
    }
    assert(s@.take(s@.len() as int) =~= s@);
    x
}

/// The digest of the masked linear check of the multi-point correlated
/// OT: SHA-256 of the XOR of all tags, coefficients and masks.
pub fn hash_tags(pre_cot: &[u128], tags: &[u128], chi_vec: &[u128]) -> (d: Vec<u8>)
    ensures
        d@ == sha256_digest(le_bytes(xor_all(tags@) ^ xor_all(chi_vec@) ^ xor_all(pre_cot@), 16)),
        d@.len() == 32,
{
    let v = xor_fold(tags);
    let chi = xor_fold(chi_vec);
    let m = xor_fold(pre_cot);
    let masked = v ^ chi ^ m;
    let bytes = crate::block_hash::block_to_bytes(masked);
    sha256(bytes.as_slice())
}

} // verus!
