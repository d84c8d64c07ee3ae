//! Privacy-free garbling of AND gates (one ciphertext per gate).
//!
//! The hash `H(x, gid)` (a fixed-key permutation applied to a linear
//! orthomorphism of the label, tweaked by an AND index) is computed outside
//! the library; these functions take its outputs.

use vstd::prelude::*;
use crate::label::{lsb, sel};

verus! {

/// `x` with its colour bit cleared.
pub open spec fn clear_lsb(x: u128) -> u128 {
    x & !1u128
}

/// `x` with its colour bit set.
pub open spec fn set_lsb(x: u128) -> u128 {
    x | 1u128
}

/// The garbled table entry and output zero label of a privacy-free AND,
/// given `h0 = H(la0)` and `h1 = H(a1)`.
pub open spec fn pf_garble_spec(lb0: u128, h0: u128, h1: u128) -> (u128, u128) {
    let hla0 = clear_lsb(h0);
    let ha1 = set_lsb(h1);
    (hla0, hla0 ^ ha1 ^ lb0)
}

/// The output label of a privacy-free AND evaluated on `a`, `b` with `ha = H(a)`.
pub open spec fn pf_eval_spec(a: u128, b: u128, table: u128, ha: u128) -> u128 {
    if lsb(a) {
        set_lsb(ha) ^ table ^ b
    } else {
        clear_lsb(ha)
    }
}

/// The tweak of AND gate `gid`: the block whose low word is `2 * gid`.
pub open spec fn pf_tweak(gid: u64) -> u128 {
    (2 * gid) as u64 as u128
}

/// Compute the tweak of AND gate `gid` (the low word wraps as a `u64`).
pub fn pf_gate_tweak(gid: u64) -> (t: u128)
    ensures
        t == pf_tweak(gid),
{
    (gid as u128 * 2) as u64 as u128
}

/// Garble a single privacy-free AND gate.  `h` holds `H(la0, gid)` and
/// `H(a1, gid)`.  Writes the single table entry and returns the zero label
/// of the output wire.
pub fn privacy_free_garble(
    la0: u128,
    a1: u128,
    lb0: u128,
    b1: u128,
    delta: u128,
    table: &mut [u128; 1],
    gid: u64,
    h: [u128; 2],
) -> (w0: u128)
    ensures
        (w0, final(table)[0]) == pf_garble_spec(lb0, h[0], h[1]),
{
    let hla0 = h[0] & !1u128;
    let ha1 = h[1] | 1u128;
    table[0] = hla0 ^ ha1 ^ lb0;
    hla0
}

/// Evaluate a privacy-free AND gate given `ha = H(a, gid)`.
pub fn privacy_free_eval(a: u128, b: u128, table: u128, gid: u64, ha: u128) -> (w: u128)
    ensures
        w == pf_eval_spec(a, b, table, ha),
{
    if a & 1 == 1 {
        (ha | 1u128) ^ table ^ b
    } else {
        ha & !1u128
    }
}

/// Correctness of privacy-free AND: with a zero label of colour 0 on the
/// first input and a delta of colour 1, the evaluator holding the labels
/// of bits `x` and `y` (and the hash of its first label) obtains the label
/// of `x && y` on the output wire.
pub proof fn lemma_pf_correct(la0: u128, lb0: u128, delta: u128, h0: u128, h1: u128, x: bool, y: bool)
    requires
        !lsb(la0),
        lsb(delta),
    ensures
        ({
            let (w0, table) = pf_garble_spec(lb0, h0, h1);
            let a = la0 ^ sel(x, delta);
            let b = lb0 ^ sel(y, delta);
            let ha = if x { h1 } else { h0 };
            pf_eval_spec(a, b, table, ha) == w0 ^ sel(x && y, delta)
        }),
{
    if x {
        assert(((la0 ^ delta) & 1 == 1) && (h1 | 1) ^ ((h0 & !1u128) ^ (h1 | 1) ^ lb0) ^ (lb0 ^ delta)
            == (h0 & !1u128) ^ delta && (h1 | 1) ^ ((h0 & !1u128) ^ (h1 | 1) ^ lb0) ^ (lb0 ^ 0)
            == (h0 & !1u128) ^ 0) by (bit_vector)
            requires
                !(la0 & 1 == 1),
                delta & 1 == 1,
        ;
    } else {
        assert((la0 ^ 0) & 1 == 0 && (h0 & !1u128) ^ 0 == (h0 & !1u128)) by (bit_vector)
            requires
                !(la0 & 1 == 1),
        ;
    }
}

} // verus!
