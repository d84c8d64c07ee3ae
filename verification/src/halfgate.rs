//! Half-gate garbling of AND gates (Zahur, Rosulek and Evans).
//!
//! The correlation-robust hash is computed outside the library; these
//! functions take its outputs and do the XOR algebra of the scheme.

use vstd::prelude::*;
use crate::label::{lsb, sel, lemma_lsb_flip};

verus! {

/// The garbled table and output zero label of a half-gate AND, given the
/// hashes `h = [H(la0), H(a1), H(lb0), H(b1)]`.
pub open spec fn halfgate_garble_spec(la0: u128, lb0: u128, delta: u128, h: [u128; 4]) -> (u128, [u128; 2]) {
    let pa = lsb(la0);
    let pb = lsb(lb0);
    let t0 = h[0] ^ h[1] ^ sel(pb, delta);
    let tmp = h[2] ^ h[3];
    let t1 = tmp ^ la0;
    let w0 = h[0] ^ sel(pa, t0) ^ h[2] ^ sel(pb, tmp);
    (w0, [t0, t1])
}

/// The output label of a half-gate AND evaluated on labels `a`, `b` with
/// hashes `ha = H(a)`, `hb = H(b)`.
pub open spec fn halfgate_eval_spec(a: u128, b: u128, table: [u128; 2], ha: u128, hb: u128) -> u128 {
    ha ^ hb ^ sel(lsb(a), table[0]) ^ sel(lsb(b), table[1]) ^ sel(lsb(b), a)
}

/// Garble a single AND gate using half-gates.  `h` holds the hashes of
/// `la0`, `a1`, `lb0`, `b1` in that order.  Writes the two ciphertexts to
/// `table` and returns the zero label of the output wire.
pub fn halfgates_garble(
    la0: u128,
    a1: u128,
    lb0: u128,
    b1: u128,
    delta: u128,
    table: &mut [u128; 2],
    h: [u128; 4],
) -> (w0: u128)
    ensures
        (w0, *final(table)) == halfgate_garble_spec(la0, lb0, delta, h),
{
    let pa = la0 & 1 == 1;
    let pb = lb0 & 1 == 1;
    let hla0 = h[0];
    let ha1 = h[1];
    let hlb0 = h[2];
    let hb1 = h[3];
    let t0 = hla0 ^ ha1 ^ (if pb { delta } else { 0 });
    table[0] = t0;
    let mut w0 = hla0 ^ (if pa { t0 } else { 0 });
    let tmp = hlb0 ^ hb1;
    table[1] = tmp ^ la0;
    w0 = w0 ^ hlb0;
    w0 = w0 ^ (if pb { tmp } else { 0 });
    proof {
        let spec = halfgate_garble_spec(la0, lb0, delta, h);
        assert(table[0] == spec.1[0] && table[1] == spec.1[1]);
        assert(*table =~= spec.1);
    }
    w0
}

/// Evaluate a half-gate AND given input labels, the table and the hashes
/// `ha = H(a)`, `hb = H(b)`.
pub fn halfgates_eval(a: u128, b: u128, table: &[u128; 2], ha: u128, hb: u128) -> (w: u128)
    ensures
        w == halfgate_eval_spec(a, b, *table, ha, hb),
{
    let sa = a & 1 == 1;
    let sb = b & 1 == 1;
    let mut w = ha ^ hb;
    w = w ^ (if sa { table[0] } else { 0 });
    w = w ^ (if sb { table[1] } else { 0 });
    w = w ^ (if sb { a } else { 0 });
    w
}

/// The XOR algebra behind half-gates, over the four hashes as plain words.
#[verifier::rlimit(80)]
proof fn lemma_halfgate_alg(la0: u128, lb0: u128, delta: u128, h0: u128, h1: u128, h2: u128, h3: u128, x: bool, y: bool, pa: bool, pb: bool)
    by (bit_vector)
    ensures
        ({
            let t0 = h0 ^ h1 ^ (if pb { delta } else { 0 });
            let tmp = h2 ^ h3;
            let t1 = tmp ^ la0;
            let w0 = h0 ^ (if pa { t0 } else { 0 }) ^ h2 ^ (if pb { tmp } else { 0 });
            let a = la0 ^ (if x { delta } else { 0 });
            let ha = if x { h1 } else { h0 };
            let hb = if y { h3 } else { h2 };
            ha ^ hb ^ (if pa != x { t0 } else { 0 }) ^ (if pb != y { t1 } else { 0 }) ^ (if pb != y { a } else { 0 })
                == w0 ^ (if x && y { delta } else { 0 })
        }),
{
}

/// Correctness of half-gates: with a delta of colour 1, the evaluator
/// holding the labels of bits `x` and `y` (and their hashes) obtains the
/// label of `x && y` on the output wire.
pub proof fn lemma_halfgate_correct(la0: u128, lb0: u128, delta: u128, h: [u128; 4], x: bool, y: bool)
    requires
        lsb(delta),
    ensures
        ({
            let (w0, table) = halfgate_garble_spec(la0, lb0, delta, h);
            let a = la0 ^ sel(x, delta);
            let b = lb0 ^ sel(y, delta);
            let ha = if x { h[1] } else { h[0] };
            let hb = if y { h[3] } else { h[2] };
            halfgate_eval_spec(a, b, table, ha, hb) == w0 ^ sel(x && y, delta)
        }),
{
    lemma_lsb_flip(la0, delta, x);
    lemma_lsb_flip(lb0, delta, y);
    lemma_halfgate_alg(la0, lb0, delta, h[0], h[1], h[2], h[3], x, y, lsb(la0), lsb(lb0));
}

} // verus!
