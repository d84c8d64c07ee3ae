//! What one-hot multiplication in GF(2^8) computes: the generator's and
//! the evaluator's output shares differ, bit by bit, exactly on the bits
//! of the product of the bytes their input shares carry.

use vstd::prelude::*;
use crate::gf256::{bit_of, bits_value, gf_mul};
use crate::gf256_shares::{
    col_vals, color_byte, half_eval_cells, half_gen_cells, mul_eval_bit, mul_gen_bit, mul_msgs_ok, product_coeff,
    reduced_bit, reduction_entry,
};
use crate::label::{lemma_lsb_flip, lemma_xor_laws, lemma_xor_zero, lsb, sel};
use crate::share::IdentityTable;
use crate::share_matrix::ShareMatrix;
use crate::unary::{
    colors_value, eval_tree, gen_col_msg, gen_tree, generator_msgs, lemma_colors_bit, lemma_unary_outer_product,
    nonce_after, shares_of, xor_range,
};

verus! {

/// Coefficient `k` of the carry-less product of `a` and `b`, over the
/// first `n` bits of `a`: the parity of the pairs `i + j == k` with both
/// bits set.
pub open spec fn coeff_bit(a: u8, b: u8, k: int, n: nat) -> bool
    decreases n,
{
    if n == 0 {
        false
    } else {
        coeff_bit(a, b, k, (n - 1) as nat) != (0 <= k - (n - 1) < 8 && bit_of(a, n - 1) && bit_of(b, k - (n - 1)))
    }
}

/// Bit `r` of the reduction of the first `n` coefficients of the
/// carry-less product of `a` and `b`.
pub open spec fn reduce_bit(a: u8, b: u8, r: int, n: nat) -> bool
    decreases n,
{
    if n == 0 {
        false
    } else {
        reduce_bit(a, b, r, (n - 1) as nat) != (reduction_entry(r, n - 1) && coeff_bit(a, b, n - 1, 8))
    }
}

/// The facts of GF(2^8) the law rests on: the reduced carry-less product
/// is the field product; the field product commutes; a bit of a sum is
/// the sum of the bits; setting a bit sets that bit alone.
#[verifier::rlimit(100)]
proof fn lemma_gf_facts(a: u8, b: u8, r: u8, k: u8)
    by (bit_vector)
    requires
        r < 8,
        k < 8,
    ensures
        reduce_bit(a, b, r as int, 15) == bit_of(gf_mul(a, b), r as int),
        gf_mul(a, b) == gf_mul(b, a),
        bit_of(a ^ b, r as int) == (bit_of(a, r as int) != bit_of(b, r as int)),
        bit_of(a | ((1u8 << k) as u8), r as int) == (bit_of(a, r as int) || r == k),
        bit_of(a | 0u8, r as int) == bit_of(a, r as int),
        !bit_of(0u8, r as int),
{
}

/// Regrouping four words under XOR.
proof fn lemma_xor4(a: u128, x: u128, b: u128, y: u128)
    ensures
        (a ^ x) ^ (b ^ y) == (a ^ b) ^ (x ^ y),
{
    lemma_xor_laws(a, x, b ^ y);
    lemma_xor_laws(x, b, y);
    lemma_xor_laws(b, x, y);
    lemma_xor_laws(a, b, x ^ y);
}

/// XOR of two selections by the same word.
proof fn lemma_sel_xor(p: bool, q: bool, d: u128)
    ensures
        sel(p, d) ^ sel(q, d) == sel(p != q, d),
{
    lemma_xor_zero(d);
    lemma_xor_zero(0);
    lemma_xor_laws(d, d, 0);
}

/// XOR of a word's selections by two words.
proof fn lemma_sel_split(e: bool, x: u128, y: u128)
    ensures
        sel(e, x) ^ sel(e, y) == sel(e, x ^ y),
{
    lemma_xor_zero(0);
}

/// A selection of a selection.
proof fn lemma_sel_sel(p: bool, q: bool, d: u128)
    ensures
        sel(p, sel(q, d)) == sel(p && q, d),
{
}

/// The bits of `bits_value(s, n)` are the first `n` of `s`.
proof fn lemma_bits_value_bit(s: Seq<bool>, n: nat, i: int)
    requires
        n <= 8,
        0 <= i < 8,
    ensures
        bit_of(bits_value(s, n), i) == (i < n && s[i]),
    decreases n,
{
    if n == 0 {
        lemma_gf_facts(0, 0, i as u8, 0);
    } else {
        let k = (n - 1) as nat;
        lemma_bits_value_bit(s, k, i);
        lemma_gf_facts(bits_value(s, k), 0, i as u8, k as u8);
    }
}

/// Bit `i` of a colour byte is the colour of share `i`.
proof fn lemma_color_byte_bit(m: ShareMatrix, i: int)
    requires
        0 <= i < 8,
    ensures
        bit_of(color_byte(m), i) == lsb(m.entry(i, 0)),
{
    lemma_bits_value_bit(Seq::new(8, |j: int| lsb(m.entry(j, 0))), 8, i);
}

/// A carry-less coefficient is linear in its first factor.
proof fn lemma_coeff_lin_a(c: u8, a: u8, b: u8, k: int, n: nat)
    requires
        n <= 8,
    ensures
        coeff_bit(c ^ a, b, k, n) == (coeff_bit(c, b, k, n) != coeff_bit(a, b, k, n)),
    decreases n,
{
    if n > 0 {
        lemma_coeff_lin_a(c, a, b, k, (n - 1) as nat);
        lemma_gf_facts(c, a, (n - 1) as u8, 0);
    }
}

/// A carry-less coefficient is linear in its second factor.
proof fn lemma_coeff_lin_b(a: u8, c: u8, b: u8, k: int, n: nat)
    requires
        n <= 8,
    ensures
        coeff_bit(a, c ^ b, k, n) == (coeff_bit(a, c, k, n) != coeff_bit(a, b, k, n)),
    decreases n,
{
    if n > 0 {
        lemma_coeff_lin_b(a, c, b, k, (n - 1) as nat);
        let j = k - (n - 1);
        if 0 <= j < 8 {
            lemma_gf_facts(c, b, j as u8, 0);
        }
    }
}

/// The reduced product is linear in each factor.
proof fn lemma_reduce_lin(c: u8, a: u8, b: u8, r: int, n: nat)
    requires
        n <= 15,
    ensures
        reduce_bit(c ^ a, b, r, n) == (reduce_bit(c, b, r, n) != reduce_bit(a, b, r, n)),
        reduce_bit(b, c ^ a, r, n) == (reduce_bit(b, c, r, n) != reduce_bit(b, a, r, n)),
    decreases n,
{
    if n > 0 {
        lemma_reduce_lin(c, a, b, r, (n - 1) as nat);
        lemma_coeff_lin_a(c, a, b, n - 1, 8);
        lemma_coeff_lin_b(b, c, a, n - 1, 8);
    }
}

/// The field product's bits are the reduced carry-less product's.
proof fn lemma_reduce_is_mul(a: u8, b: u8, r: int)
    requires
        0 <= r < 8,
    ensures
        reduce_bit(a, b, r, 15) == bit_of(gf_mul(a, b), r),
        bit_of(gf_mul(a, b), r) == bit_of(gf_mul(b, a), r),
{
    lemma_gf_facts(a, b, r as u8, 0);
}

/// The sum of the first `n` terms of a coefficient of cells that are
/// selections of bit products.
proof fn lemma_coeff_cells(m: spec_fn(int, int) -> u128, a: u8, b: u8, d: u128, k: int, n: nat)
    requires
        n <= 8,
        forall|i: int, j: int| 0 <= i < 8 && 0 <= j < 8 ==> #[trigger] m(i, j) == sel(bit_of(a, i) && bit_of(b, j), d),
    ensures
        xor_range(|i: int| if 0 <= k - i < 8 { m(i, k - i) } else { 0u128 }, 0, n as int) == sel(coeff_bit(a, b, k, n), d),
    decreases n,
{
    if n > 0 {
        lemma_coeff_cells(m, a, b, d, k, (n - 1) as nat);
        let i = n - 1;
        if 0 <= k - i < 8 {
            assert(m(i, k - i) == sel(bit_of(a, i) && bit_of(b, k - i), d));
        } else {
            lemma_xor_zero(sel(coeff_bit(a, b, k, (n - 1) as nat), d));
        }
        lemma_sel_xor(coeff_bit(a, b, k, (n - 1) as nat), 0 <= k - i < 8 && bit_of(a, i) && bit_of(b, k - i), d);
    }
}

/// The reduction of cells that are selections of bit products selects
/// the reduced carry-less product.
proof fn lemma_reduced_cells(m: spec_fn(int, int) -> u128, a: u8, b: u8, d: u128, r: int, n: nat)
    requires
        n <= 15,
        forall|i: int, j: int| 0 <= i < 8 && 0 <= j < 8 ==> #[trigger] m(i, j) == sel(bit_of(a, i) && bit_of(b, j), d),
    ensures
        reduced_bit(m, r, n) == sel(reduce_bit(a, b, r, n), d),
    decreases n,
{
    if n > 0 {
        lemma_reduced_cells(m, a, b, d, r, (n - 1) as nat);
        lemma_coeff_cells(m, a, b, d, n - 1, 8);
        assert(product_coeff(m, n - 1) == sel(coeff_bit(a, b, n - 1, 8), d));
        lemma_sel_sel(reduction_entry(r, n - 1), coeff_bit(a, b, n - 1, 8), d);
        lemma_sel_xor(reduce_bit(a, b, r, (n - 1) as nat), reduction_entry(r, n - 1) && coeff_bit(a, b, n - 1, 8), d);
    }
}

/// XOR of two ranges is the range of the XOR.
proof fn lemma_xor_range_xor(f: spec_fn(int) -> u128, g: spec_fn(int) -> u128, h: spec_fn(int) -> u128, lo: int, hi: int)
    requires
        forall|i: int| lo <= i < hi ==> #[trigger] h(i) == f(i) ^ g(i),
    ensures
        xor_range(f, lo, hi) ^ xor_range(g, lo, hi) == xor_range(h, lo, hi),
    decreases hi - lo,
{
    if hi <= lo {
        lemma_xor_zero(0);
    } else {
        lemma_xor_range_xor(f, g, h, lo, hi - 1);
        let a = xor_range(f, lo, hi - 1);
        let b = xor_range(g, lo, hi - 1);
        lemma_xor4(a, f(hi - 1), b, g(hi - 1));
    }
}

/// The reductions of two cell functions XOR to the reduction of their XOR.
proof fn lemma_reduced_xor(g: spec_fn(int, int) -> u128, e: spec_fn(int, int) -> u128, h: spec_fn(int, int) -> u128, r: int, n: nat)
    requires
        forall|i: int, j: int| #[trigger] h(i, j) == g(i, j) ^ e(i, j),
    ensures
        reduced_bit(g, r, n) ^ reduced_bit(e, r, n) == reduced_bit(h, r, n),
    decreases n,
{
    if n == 0 {
        lemma_xor_zero(0);
    } else {
        lemma_reduced_xor(g, e, h, r, (n - 1) as nat);
        let k = n - 1;
        let fg = |i: int| if 0 <= k - i < 8 { g(i, k - i) } else { 0u128 };
        let fe = |i: int| if 0 <= k - i < 8 { e(i, k - i) } else { 0u128 };
        let fh = |i: int| if 0 <= k - i < 8 { h(i, k - i) } else { 0u128 };
        assert forall|i: int| 0 <= i < 8 implies #[trigger] fh(i) == fg(i) ^ fe(i) by {
            lemma_xor_zero(0);
        }
        lemma_xor_range_xor(fg, fe, fh, 0, 8);
        let pg = product_coeff(g, k);
        let pe = product_coeff(e, k);
        lemma_sel_split(reduction_entry(r, k), pg, pe);
        lemma_xor4(
            reduced_bit(g, r, (n - 1) as nat),
            sel(reduction_entry(r, k), pg),
            reduced_bit(e, r, (n - 1) as nat),
            sel(reduction_entry(r, k), pe),
        );
    }
}

/// The reduced product depends only on the low eight bits of each factor.
proof fn lemma_reduce_ext(a: u8, a2: u8, b: u8, b2: u8, r: int, n: nat)
    requires
        n <= 15,
        forall|i: int| 0 <= i < 8 ==> #[trigger] bit_of(a, i) == bit_of(a2, i),
        forall|i: int| 0 <= i < 8 ==> #[trigger] bit_of(b, i) == bit_of(b2, i),
    ensures
        reduce_bit(a, b, r, n) == reduce_bit(a2, b2, r, n),
    decreases n,
{
    if n > 0 {
        lemma_reduce_ext(a, a2, b, b2, r, (n - 1) as nat);
        lemma_coeff_ext(a, a2, b, b2, n - 1, 8);
    }
}

proof fn lemma_coeff_ext(a: u8, a2: u8, b: u8, b2: u8, k: int, n: nat)
    requires
        n <= 8,
        forall|i: int| 0 <= i < 8 ==> #[trigger] bit_of(a, i) == bit_of(a2, i),
        forall|i: int| 0 <= i < 8 ==> #[trigger] bit_of(b, i) == bit_of(b2, i),
    ensures
        coeff_bit(a, b, k, n) == coeff_bit(a2, b2, k, n),
    decreases n,
{
    if n > 0 {
        lemma_coeff_ext(a, a2, b, b2, k, (n - 1) as nat);
        if 0 <= k - (n - 1) < 8 {
            assert(bit_of(b, k - (n - 1)) == bit_of(b2, k - (n - 1)));
            assert(bit_of(a, n - 1) == bit_of(a2, n - 1));
        }
    }
}

/// The evaluator's colour byte is the generator's plus the carried byte.
proof fn lemma_colour_flip(g: ShareMatrix, e: ShareMatrix, v: u8, delta: u128, i: int)
    requires
        lsb(delta),
        0 <= i < 8,
        e.entry(i, 0) == g.entry(i, 0) ^ sel(bit_of(v, i), delta),
    ensures
        bit_of(color_byte(e), i) == bit_of(color_byte(g) ^ v, i),
{
    lemma_color_byte_bit(e, i);
    lemma_color_byte_bit(g, i);
    lemma_lsb_flip(g.entry(i, 0), delta, bit_of(v, i));
    lemma_gf_facts(color_byte(g), v, i as u8, 0);
}

/// One half product run by both parties: the XOR of their cells at
/// `(i, j)` selects the product of bit `i` of the evaluator's colour byte
/// of the first factor and bit `j` of the second factor.
proof fn lemma_half_cells(
    xg: ShareMatrix,
    xe: ShareMatrix,
    delta: u128,
    nonce: u64,
    hf: spec_fn(u128, u64) -> u128,
    tree: Seq<u128>,
    cols: Seq<u128>,
    yg: Seq<u128>,
    ye: Seq<u128>,
    yb: u8,
    i: int,
    j: int,
)
    requires
        lsb(delta),
        xg.nrows() == 8,
        xe.nrows() == 8,
        yg.len() == 8,
        ye.len() == 8,
        0 <= i < 8,
        0 <= j < 8,
        forall|k: int| 0 <= k < 8 ==> #[trigger] xe.entry(k, 0) == xg.entry(k, 0) || xe.entry(k, 0) == xg.entry(k, 0) ^ delta,
        ye[j] == yg[j] ^ sel(bit_of(yb, j), delta),
        generator_msgs(col_vals(xg), delta, nonce, hf, tree),
        cols.len() == 8,
        cols[j] == gen_col_msg(gen_tree(col_vals(xg), delta, nonce, hf, 7), nonce_after(nonce, 8), j, hf, yg[j]),
    ensures
        half_gen_cells(gen_tree(col_vals(xg), delta, nonce, hf, 7), nonce_after(nonce, 8), hf)(i, j) ^ ({
            let t = eval_tree(col_vals(xe), nonce, hf, tree, 7);
            half_eval_cells(t.0, t.1 as int, nonce_after(nonce, 8), hf, cols, ye)(i, j)
        }) == sel(bit_of(color_byte(xe), i) && bit_of(yb, j), delta),
{
    let cg = col_vals(xg);
    let ce = col_vals(xe);
    assert(shares_of(cg, ce, delta)) by {
        assert forall|k: int| 0 <= k < cg.len() implies #[trigger] ce[k] == cg[k] || ce[k] == cg[k] ^ delta by {
            assert(xe.entry(k, 0) == xg.entry(k, 0) || xe.entry(k, 0) == xg.entry(k, 0) ^ delta);
        }
    }
    lemma_unary_outer_product(IdentityTable, cg, ce, delta, nonce, hf, tree, yg[j], ye[j], j, i);
    crate::unary::lemma_colors_value_bound(ce);
    vstd::arithmetic::power2::lemma2_to64();
    lemma_colors_bit(ce, i);
    lemma_color_byte_bit(xe, i);
    lemma_xor_laws(yg[j], yg[j], sel(bit_of(yb, j), delta));
    lemma_xor_zero(sel(bit_of(yb, j), delta));
    lemma_xor_laws(yg[j], 0, 0);
    assert(yg[j] ^ ye[j] == sel(bit_of(yb, j), delta));
    lemma_sel_sel(bit_of(color_byte(xe), i), bit_of(yb, j), delta);
}

/// One-hot multiplication in GF(2^8) is correct: when the generator's
/// shares of `x` and `y` and the evaluator's differ by delta exactly on
/// the set bits of the bytes `xv` and `yv`, and the evaluator receives
/// the generator's messages, every output bit of the generator and of the
/// evaluator differ by delta exactly where the field product `xv * yv`
/// has a set bit.
pub proof fn lemma_mul_gf256_correct(
    xg: ShareMatrix,
    xe: ShareMatrix,
    yg: ShareMatrix,
    ye: ShareMatrix,
    xv: u8,
    yv: u8,
    delta: u128,
    n0: u64,
    hf: spec_fn(u128, u64) -> u128,
    msgs: (Seq<u128>, Seq<u128>, Seq<u128>, Seq<u128>),
)
    requires
        lsb(delta),
        xg.nrows() == 8,
        xe.nrows() == 8,
        yg.nrows() == 8,
        ye.nrows() == 8,
        forall|i: int| 0 <= i < 8 ==> #[trigger] xe.entry(i, 0) == xg.entry(i, 0) ^ sel(bit_of(xv, i), delta),
        forall|i: int| 0 <= i < 8 ==> #[trigger] ye.entry(i, 0) == yg.entry(i, 0) ^ sel(bit_of(yv, i), delta),
        mul_msgs_ok(xg, yg, delta, n0, hf, msgs),
    ensures
        forall|b: int| 0 <= b < 8 ==> #[trigger] mul_gen_bit(xg, yg, delta, n0, hf, b) ^ mul_eval_bit(xe, ye, 0, n0, hf, msgs, b)
            == sel(bit_of(gf_mul(xv, yv), b), delta),
{
    let n1 = (nonce_after(n0, 8) + 256 * 8) as u64;
    let s1 = gen_tree(col_vals(xg), delta, n0, hf, 7);
    let s2 = gen_tree(col_vals(yg), delta, n1, hf, 7);
    let t1 = eval_tree(col_vals(xe), n0, hf, msgs.0, 7);
    let t2 = eval_tree(col_vals(ye), n1, hf, msgs.2, 7);
    let xce = Seq::new(8, |i: int| sel(lsb(xe.entry(i, 0)), 0u128));
    let xcg = Seq::new(8, |i: int| sel(lsb(xg.entry(i, 0)), delta));
    let g1 = half_gen_cells(s1, nonce_after(n0, 8), hf);
    let e1 = half_eval_cells(t1.0, t1.1 as int, nonce_after(n0, 8), hf, msgs.1, col_vals(ye));
    let g2 = half_gen_cells(s2, nonce_after(n1, 8), hf);
    let e2 = half_eval_cells(t2.0, t2.1 as int, nonce_after(n1, 8), hf, msgs.3, xce);
    let h1 = |i: int, j: int| g1(i, j) ^ e1(i, j);
    let h2 = |i: int, j: int| g2(i, j) ^ e2(i, j);
    let cxg = color_byte(xg);
    let cxe = color_byte(xe);
    let cyg = color_byte(yg);
    let cye = color_byte(ye);
    assert forall|k: int| 0 <= k < 8 implies #[trigger] xe.entry(k, 0) == xg.entry(k, 0) || xe.entry(k, 0) == xg.entry(k, 0) ^ delta by {
        lemma_xor_zero(xg.entry(k, 0));
    }
    assert forall|k: int| 0 <= k < 8 implies #[trigger] ye.entry(k, 0) == yg.entry(k, 0) || ye.entry(k, 0) == yg.entry(k, 0) ^ delta by {
        lemma_xor_zero(yg.entry(k, 0));
    }
    // The first half product: the evaluator's colours of x times y.
    assert forall|i: int, j: int| 0 <= i < 8 && 0 <= j < 8 implies #[trigger] h1(i, j) == sel(bit_of(cxe, i) && bit_of(yv, j), delta) by {
        lemma_half_cells(xg, xe, delta, n0, hf, msgs.0, msgs.1, col_vals(yg), col_vals(ye), yv, i, j);
    }
    // The second: the evaluator's colours of y times the generator's of x.
    assert forall|i: int, j: int| 0 <= i < 8 && 0 <= j < 8 implies #[trigger] h2(i, j) == sel(bit_of(cye, i) && bit_of(cxg, j), delta) by {
        lemma_color_byte_bit(xg, j);
        lemma_xor_zero(xcg[j]);
        assert(xce[j] == xcg[j] ^ sel(bit_of(cxg, j), delta)) by {
            lemma_xor_laws(xcg[j], xcg[j], 0);
            if lsb(xg.entry(j, 0)) {
                lemma_xor_laws(delta, delta, 0);
            } else {
                lemma_xor_zero(0);
            }
        }
        lemma_half_cells(yg, ye, delta, n1, hf, msgs.2, msgs.3, xcg, xce, cxg, i, j);
    }
    // The colour bytes: the evaluator's are the generator's plus the values.
    assert forall|i: int| 0 <= i < 8 implies #[trigger] bit_of(cxe, i) == bit_of(cxg ^ xv, i) by {
        lemma_colour_flip(xg, xe, xv, delta, i);
    }
    assert forall|i: int| 0 <= i < 8 implies #[trigger] bit_of(cye, i) == bit_of(cyg ^ yv, i) by {
        lemma_colour_flip(yg, ye, yv, delta, i);
    }
    assert forall|i: int| 0 <= i < 8 implies #[trigger] bit_of(yv, i) == bit_of(yv, i) by {}
    assert forall|i: int| 0 <= i < 8 implies #[trigger] bit_of(cxg, i) == bit_of(cxg, i) by {}
    assert forall|b: int| 0 <= b < 8 implies #[trigger] mul_gen_bit(xg, yg, delta, n0, hf, b) ^ mul_eval_bit(xe, ye, 0, n0, hf, msgs, b)
        == sel(bit_of(gf_mul(xv, yv), b), delta) by {
        lemma_reduced_xor(g1, e1, h1, b, 15);
        lemma_reduced_xor(g2, e2, h2, b, 15);
        lemma_reduced_cells(h1, cxe, yv, delta, b, 15);
        lemma_reduced_cells(h2, cye, cxg, delta, b, 15);
        // The products by bits.
        lemma_reduce_ext(cxe, cxg ^ xv, yv, yv, b, 15);
        lemma_reduce_ext(cye, cyg ^ yv, cxg, cxg, b, 15);
        lemma_reduce_lin(cxg, xv, yv, b, 15);
        lemma_reduce_lin(cyg, yv, cxg, b, 15);
        lemma_reduce_is_mul(cxg, yv, b);
        lemma_reduce_is_mul(yv, cxg, b);
        lemma_reduce_is_mul(cxg, cyg, b);
        lemma_reduce_is_mul(cyg, cxg, b);
        lemma_reduce_is_mul(xv, yv, b);
        let p1 = reduced_bit(g1, b, 15);
        let p2 = reduced_bit(g2, b, 15);
        let q1 = reduced_bit(e1, b, 15);
        let q2 = reduced_bit(e2, b, 15);
        let cg = sel(bit_of(gf_mul(cxg, cyg), b), delta);
        let ce = sel(bit_of(gf_mul(cxe, cye), b), 0u128);
        assert(ce == 0);
        assert(mul_gen_bit(xg, yg, delta, n0, hf, b) == (p1 ^ p2) ^ cg);
        assert(mul_eval_bit(xe, ye, 0, n0, hf, msgs, b) == (q1 ^ q2) ^ ce);
        lemma_xor_zero(q1 ^ q2);
        lemma_xor4(p1 ^ p2, cg, q1 ^ q2, 0);
        lemma_xor_zero(cg);
        lemma_xor4(p1, p2, q1, q2);
        lemma_sel_xor(reduce_bit(cxe, yv, b, 15), reduce_bit(cye, cxg, b, 15), delta);
        lemma_sel_xor(reduce_bit(cxe, yv, b, 15) != reduce_bit(cye, cxg, b, 15), bit_of(gf_mul(cxg, cyg), b), delta);
        lemma_xor_laws(p1 ^ q1, p2 ^ q2, cg);
        lemma_xor_laws(p1 ^ p2, q1 ^ q2, cg);
        lemma_xor_laws((p1 ^ p2) ^ cg, q1 ^ q2, 0);
        lemma_xor_laws(p1 ^ p2, cg, q1 ^ q2);
        lemma_xor_laws(cg, q1 ^ q2, 0);
    }
}

} // verus!
