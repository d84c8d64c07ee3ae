//! Two-party correctness of the one-hot outer product over the context
//! and of the multiplication built on it (`integer_multiply`).

use vstd::prelude::*;
use vstd::arithmetic::power2::{lemma2_to64, lemma_pow2_unfold, pow2};
use crate::context::{is_gen, Party};
use crate::exp_mod::{mul_prefix, mul_spec};
use crate::integer_gadgets::add_spec;
use crate::label::{lemma_xor_zero, lsb, sel};
use crate::one_hot_ops::{col_msgs, outer_step, tree_msgs};
use crate::reduction_law::lemma_tree_msgs_generator;
use crate::two_party::{
    bits_val, in_step, lemma_add_prefix_gen_extends, lemma_bits_val_bound, lemma_bits_val_ext, lemma_integer_add_correct,
    lemma_sent_chain, lemma_sent_refl, lemma_xor_solve, sent_between, sent_extends, shares_of, sum_bits,
};
use crate::unary::{gen_tree, lemma_outer_product, nonce_after, outer_gen_entry, outer_mid_nonce};

verus! {

/// The generator's outer product never fails and only appends to what it
/// sent.
pub proof fn lemma_outer_step_gen(pg: Party, hf: spec_fn(u128, u64) -> u128, x: Seq<u128>, y: Seq<u128>)
    requires
        is_gen(pg),
    ensures
        outer_step(pg, hf, x, y) is Some,
        is_gen(outer_step(pg, hf, x, y).unwrap().0),
        outer_step(pg, hf, x, y).unwrap().0.state.delta == pg.state.delta,
        sent_extends(pg, outer_step(pg, hf, x, y).unwrap().0),
        outer_step(pg, hf, x, y).unwrap().0.link.sent_bits == pg.link.sent_bits,
{
    reveal(outer_step);
    let q = outer_step(pg, hf, x, y).unwrap().0;
    assert(q.link.sent.take(pg.link.sent.len() as int) =~= pg.link.sent);
}

/// The outer product run by both parties: when the evaluator's pending
/// blocks start with the generator's messages, entry `(i, j)` of the two
/// parties' products differs by delta exactly when `x[i]` and `y[j]` both
/// hold.
pub proof fn lemma_outer_step_two_party(
    pg: Party,
    pe: Party,
    hf: spec_fn(u128, u64) -> u128,
    xg: Seq<u128>,
    xe: Seq<u128>,
    xb: Seq<bool>,
    yg: Seq<u128>,
    ye: Seq<u128>,
    yb: Seq<bool>,
    rest: Seq<u128>,
)
    requires
        in_step(pg, pe),
        0 < xg.len() < 63,
        0 < yg.len() < 63,
        xg.len() < usize::BITS,
        yg.len() < usize::BITS,
        xe.len() == xg.len(),
        ye.len() == yg.len(),
        shares_of(xg, xe, pg.state.delta, xb, xg.len()),
        shares_of(yg, ye, pg.state.delta, yb, yg.len()),
        pe.link.pending == sent_between(pg, outer_step(pg, hf, xg, yg).unwrap().0) + rest,
    ensures
        outer_step(pg, hf, xg, yg) is Some,
        outer_step(pe, hf, xe, ye) is Some,
        in_step(outer_step(pg, hf, xg, yg).unwrap().0, outer_step(pe, hf, xe, ye).unwrap().0),
        outer_step(pg, hf, xg, yg).unwrap().0.state.delta == pg.state.delta,
        sent_extends(pg, outer_step(pg, hf, xg, yg).unwrap().0),
        outer_step(pg, hf, xg, yg).unwrap().0.link.sent_bits == pg.link.sent_bits,
        outer_step(pe, hf, xe, ye).unwrap().0.link.pending == rest,
        outer_step(pe, hf, xe, ye).unwrap().0.link.pending_bits == pe.link.pending_bits,
        forall|i: int, j: int|
            0 <= i < xg.len() && 0 <= j < yg.len() ==> #[trigger] (outer_step(pe, hf, xe, ye).unwrap().1)(i, j) == (outer_step(
                pg,
                hf,
                xg,
                yg,
            ).unwrap().1)(i, j) ^ sel(xb[i] && yb[j], pg.state.delta),
{
    lemma_outer_step_gen(pg, hf, xg, yg);
    reveal(outer_step);
    let d = pg.state.delta;
    let n = xg.len();
    let m = yg.len();
    let n0 = pg.state.nonce;
    let n1 = outer_mid_nonce(n0, n, m);
    let s1 = gen_tree(xg, d, n0, hf, (n - 1) as nat);
    let s2 = gen_tree(yg, d, n1, hf, (m - 1) as nat);
    let yx = Seq::new(n, |i: int| sel(lsb(xg[i]), d));
    let tx = tree_msgs(xg, d, n0, hf);
    let cx = col_msgs(s1, nonce_after(n0, n), hf, yg);
    let ty = tree_msgs(yg, d, n1, hf);
    let cy = col_msgs(s2, nonce_after(n1, m), hf, yx);
    let qg = outer_step(pg, hf, xg, yg).unwrap().0;
    assert(sent_between(pg, qg) =~= tx + cx + ty + cy);
    let pm = pe.link.pending;
    let a = 2 * (n - 1);
    let b = a + m;
    let c = b + 2 * (m - 1);
    assert(pm.subrange(0, a) =~= tx);
    assert(pm.subrange(a, b) =~= cx);
    assert(pm.subrange(b, c) =~= ty);
    assert(pm.subrange(c, c + n) =~= cy);
    assert(outer_step(pe, hf, xe, ye).unwrap().0.link.pending =~= rest);
    lemma_tree_msgs_generator(xg, d, n0, hf);
    lemma_tree_msgs_generator(yg, d, n1, hf);
    crate::label::lemma_delta_nonzero(0, d);
    assert(crate::unary::shares_of(xg, xe, d)) by {
        assert forall|i: int| 0 <= i < n implies #[trigger] xe[i] == xg[i] || xe[i] == xg[i] ^ d by {
            lemma_xor_zero(xg[i]);
        }
    }
    assert(crate::unary::shares_of(yg, ye, d)) by {
        assert forall|j: int| 0 <= j < m implies #[trigger] ye[j] == yg[j] || ye[j] == yg[j] ^ d by {
            lemma_xor_zero(yg[j]);
        }
    }
    assert forall|i: int, j: int| 0 <= i < n && 0 <= j < m implies #[trigger] (outer_step(pe, hf, xe, ye).unwrap().1)(i, j)
        == (outer_step(pg, hf, xg, yg).unwrap().1)(i, j) ^ sel(xb[i] && yb[j], d) by {
        lemma_outer_product(xg, xe, yg, ye, d, n0, hf, tx, ty, i, j);
        lemma_xor_zero(xg[i]);
        lemma_xor_zero(yg[j]);
        crate::label::lemma_xor_laws(xg[i], d, 0);
        crate::label::lemma_xor_laws(yg[j], d, 0);
        assert((xg[i] != xe[i]) == xb[i]) by {
            if xb[i] {
                crate::label::lemma_delta_nonzero(xg[i], d);
            }
        }
        assert((yg[j] != ye[j]) == yb[j]) by {
            if yb[j] {
                crate::label::lemma_delta_nonzero(yg[j], d);
            }
        }
        lemma_xor_solve(
            outer_gen_entry(xg, yg, d, n0, hf, i, j),
            (outer_step(pe, hf, xe, ye).unwrap().1)(i, j),
            sel(xb[i] && yb[j], d),
        );
    }
}

/// The bits after the first `k` stages of the shift-and-add product of
/// the bits `x` and `y` of `n`-bit words (see `mul_prefix`).
pub open spec fn mul_bits(x: Seq<bool>, y: Seq<bool>, n: nat, k: nat) -> Seq<bool>
    decreases k,
{
    if k <= 1 {
        seq![x[n - 1] && y[0]]
    } else {
        let i = k - 1;
        sum_bits(seq![false] + mul_bits(x, y, n, (k - 1) as nat), Seq::new(k, |j: int| x[n - i - 1] && y[j]), k)
    }
}

/// The generator's shift-and-add stages never fail and only append to
/// what it sent.
proof fn lemma_mul_prefix_gen(pg: Party, hf: spec_fn(u128, u64) -> u128, xy: spec_fn(int, int) -> u128, n: nat, k: nat)
    requires
        is_gen(pg),
    ensures
        mul_prefix(pg, hf, xy, n, k) is Some,
        is_gen(mul_prefix(pg, hf, xy, n, k).unwrap().0),
        mul_prefix(pg, hf, xy, n, k).unwrap().0.state.delta == pg.state.delta,
        sent_extends(pg, mul_prefix(pg, hf, xy, n, k).unwrap().0),
        mul_prefix(pg, hf, xy, n, k).unwrap().0.link.sent_bits == pg.link.sent_bits,
    decreases k,
{
    if k <= 1 {
        lemma_sent_refl(pg);
    } else {
        lemma_mul_prefix_gen(pg, hf, xy, n, (k - 1) as nat);
        let (q, sum) = mul_prefix(pg, hf, xy, n, (k - 1) as nat).unwrap();
        let i = k - 1;
        let row = Seq::new(k, |j: int| xy(n - i - 1, j));
        crate::reduction_law::lemma_add_spec_gen(q, hf, k, seq![0u128] + sum, row);
        lemma_sent_chain(pg, q, add_spec(q, hf, k, seq![0u128] + sum, row).unwrap().0);
    }
}

/// The generator's multiplication never fails and only appends to what it
/// sent.
pub(crate) proof fn lemma_mul_spec_gen(pg: Party, hf: spec_fn(u128, u64) -> u128, x: Seq<u128>, y: Seq<u128>)
    requires
        is_gen(pg),
    ensures
        mul_spec(pg, hf, x, y) is Some,
        is_gen(mul_spec(pg, hf, x, y).unwrap().0),
        mul_spec(pg, hf, x, y).unwrap().0.state.delta == pg.state.delta,
        sent_extends(pg, mul_spec(pg, hf, x, y).unwrap().0),
        mul_spec(pg, hf, x, y).unwrap().0.link.sent_bits == pg.link.sent_bits,
{
    reveal(mul_spec);
    lemma_outer_step_gen(pg, hf, x, y);
    let (q1, xy) = outer_step(pg, hf, x, y).unwrap();
    lemma_mul_prefix_gen(q1, hf, xy, x.len(), x.len());
    lemma_sent_chain(pg, q1, mul_prefix(q1, hf, xy, x.len(), x.len()).unwrap().0);
}

/// The shift-and-add stages run by both parties over the two parties'
/// outer products: after `k` stages the sums carry `mul_bits`.
#[verifier::rlimit(40)]
proof fn lemma_mul_prefix_two_party(
    pg: Party,
    pe: Party,
    hf: spec_fn(u128, u64) -> u128,
    cg: spec_fn(int, int) -> u128,
    ce: spec_fn(int, int) -> u128,
    xb: Seq<bool>,
    yb: Seq<bool>,
    n: nat,
    k: nat,
    rest: Seq<u128>,
)
    requires
        in_step(pg, pe),
        1 <= k <= n,
        xb.len() == n,
        yb.len() == n,
        forall|i: int, j: int| 0 <= i < n && 0 <= j < n ==> #[trigger] ce(i, j) == cg(i, j) ^ sel(xb[i] && yb[j], pg.state.delta),
        pe.link.pending == sent_between(pg, mul_prefix(pg, hf, cg, n, k).unwrap().0) + rest,
    ensures
        mul_prefix(pg, hf, cg, n, k) is Some,
        mul_prefix(pe, hf, ce, n, k) is Some,
        in_step(mul_prefix(pg, hf, cg, n, k).unwrap().0, mul_prefix(pe, hf, ce, n, k).unwrap().0),
        mul_prefix(pg, hf, cg, n, k).unwrap().0.state.delta == pg.state.delta,
        mul_prefix(pe, hf, ce, n, k).unwrap().0.link.pending == rest,
        mul_prefix(pe, hf, ce, n, k).unwrap().0.link.pending_bits == pe.link.pending_bits,
        mul_prefix(pg, hf, cg, n, k).unwrap().1.len() == k,
        mul_prefix(pe, hf, ce, n, k).unwrap().1.len() == k,
        shares_of(mul_prefix(pg, hf, cg, n, k).unwrap().1, mul_prefix(pe, hf, ce, n, k).unwrap().1, pg.state.delta, mul_bits(xb, yb, n, k), k),
    decreases k,
{
    let d = pg.state.delta;
    lemma_mul_prefix_gen(pg, hf, cg, n, k);
    if k <= 1 {
        assert(pe.link.pending =~= rest);
        assert(ce(n - 1, 0) == cg(n - 1, 0) ^ sel(xb[n - 1] && yb[0], d));
    } else {
        let j = (k - 1) as nat;
        let i = k - 1;
        lemma_mul_prefix_gen(pg, hf, cg, n, j);
        let (q1g, s1g) = mul_prefix(pg, hf, cg, n, j).unwrap();
        let rowg = Seq::new(k, |t: int| cg(n - i - 1, t));
        crate::reduction_law::lemma_add_spec_gen(q1g, hf, k, seq![0u128] + s1g, rowg);
        let q2g = add_spec(q1g, hf, k, seq![0u128] + s1g, rowg).unwrap().0;
        lemma_sent_chain(pg, q1g, q2g);
        assert(pe.link.pending =~= sent_between(pg, q1g) + (sent_between(q1g, q2g) + rest));
        lemma_mul_prefix_two_party(pg, pe, hf, cg, ce, xb, yb, n, j, sent_between(q1g, q2g) + rest);
        let (q1e, s1e) = mul_prefix(pe, hf, ce, n, j).unwrap();
        let rowe = Seq::new(k, |t: int| ce(n - i - 1, t));
        let rowb = Seq::new(k, |t: int| xb[n - i - 1] && yb[t]);
        let prevb = mul_bits(xb, yb, n, j);
        assert(shares_of(seq![0u128] + s1g, seq![0u128] + s1e, d, seq![false] + prevb, k)) by {
            lemma_xor_zero(0u128);
            assert forall|t: int| 0 <= t < k implies #[trigger] (seq![0u128] + s1e)[t] == (seq![0u128] + s1g)[t] ^ sel(
                (seq![false] + prevb)[t],
                d,
            ) by {
                if t > 0 {
                    assert(s1e[t - 1] == s1g[t - 1] ^ sel(prevb[t - 1], d));
                }
            }
        }
        assert(shares_of(rowg, rowe, d, rowb, k)) by {
            assert forall|t: int| 0 <= t < k implies #[trigger] rowe[t] == rowg[t] ^ sel(rowb[t], d) by {
                assert(ce(n - i - 1, t) == cg(n - i - 1, t) ^ sel(xb[n - i - 1] && yb[t], d));
            }
        }
        lemma_integer_add_correct(q1g, q1e, hf, k, seq![0u128] + s1g, rowg, seq![0u128] + s1e, rowe, seq![false] + prevb, rowb, rest);
    }
}

/// The shift-and-add stages multiply: after `k` stages the bits are
/// worth the top `k` bits of `x` times `y`, modulo `2^k`.
proof fn lemma_mul_bits_value(x: Seq<bool>, y: Seq<bool>, n: nat, k: nat)
    requires
        1 <= k <= n,
        x.len() == n,
        y.len() == n,
    ensures
        mul_bits(x, y, n, k).len() == k,
        bits_val(mul_bits(x, y, n, k), k) == (bits_val(x.subrange(n - k, n as int), k) * bits_val(y, n)) % pow2(k),
    decreases k,
{
    let yv = bits_val(y, n);
    let xt = x.subrange(n - k, n as int);
    vstd::arithmetic::power2::lemma_pow2_pos(k);
    // The low `k` bits of `y` are `y mod 2^k`.
    crate::reduction_law::lemma_bits_val_split(y, k, (n - k) as nat);
    lemma_bits_val_bound(y, k);
    vstd::arithmetic::div_mod::lemma_fundamental_div_mod_converse(
        yv as int,
        pow2(k) as int,
        bits_val(y.subrange(k as int, n as int), (n - k) as nat) as int,
        bits_val(y, k) as int,
    );
    assert(bits_val(y, k) == yv % pow2(k));
    if k == 1 {
        lemma2_to64();
        let b = mul_bits(x, y, n, 1);
        assert(b[0] == (x[n - 1] && y[0]));
        assert(bits_val(b, 1) == bits_val(b, 0) + if b[0] { pow2(0) } else { 0 });
        assert(bits_val(b, 1) == (if x[n - 1] && y[0] { 1nat } else { 0nat }));
        assert(xt[0] == x[n - 1]);
        assert(bits_val(xt, 1) == bits_val(xt, 0) + if xt[0] { pow2(0) } else { 0 });
        assert(bits_val(xt, 1) == (if x[n - 1] { 1nat } else { 0nat }));
        assert(bits_val(y, 1) == bits_val(y, 0) + if y[0] { pow2(0) } else { 0 });
        assert(bits_val(y, 1) == (if y[0] { 1nat } else { 0nat }));
        if x[n - 1] {
            assert(bits_val(xt, 1) * yv == yv) by (nonlinear_arith)
                requires
                    bits_val(xt, 1) == 1,
            ;
        } else {
            assert(bits_val(xt, 1) * yv == 0) by (nonlinear_arith)
                requires
                    bits_val(xt, 1) == 0,
            ;
        }
    } else {
        let j = (k - 1) as nat;
        let i = k - 1;
        lemma_mul_bits_value(x, y, n, j);
        let prev = mul_bits(x, y, n, j);
        let shifted = seq![false] + prev;
        let row = Seq::new(k, |t: int| x[n - i - 1] && y[t]);
        let xv = x[n - k];
        // The doubled previous sum and the row.
        crate::reduction_law::lemma_bits_val_shift(shifted, k);
        assert(shifted.drop_first() =~= prev);
        let pv = bits_val(prev, j);
        assert(bits_val(shifted, k) == 2 * pv);
        assert(bits_val(row, k) == if xv { bits_val(y, k) } else { 0 }) by {
            if xv {
                lemma_bits_val_ext(row, y, k);
            } else {
                lemma_bits_val_ext(row, Seq::new(k, |t: int| false), k);
                lemma_all_false(k);
            }
        }
        lemma_bits_val_bound(shifted, k);
        lemma_bits_val_bound(row, k);
        // The adder's value.
        crate::two_party::lemma_sum_bits_mod(shifted, row, k);
        // The top `k` bits of `x`: the next bit plus twice the previous.
        crate::reduction_law::lemma_bits_val_shift(xt, k);
        assert(xt.drop_first() =~= x.subrange(n - j, n as int));
        let xp = bits_val(x.subrange(n - j, n as int), j);
        let a = xp * yv;
        lemma_pow2_unfold(k);
        lemma_mod_double_step(a, yv, xv, j);
        assert(bits_val(xt, k) * yv == (if xv { yv } else { 0 }) + 2 * a) by (nonlinear_arith)
            requires
                bits_val(xt, k) == (if xv { 1nat } else { 0nat }) + 2 * xp,
                a == xp * yv,
        ;
    }
}

/// `n` clear bits are worth nothing.
proof fn lemma_all_false(n: nat)
    ensures
        bits_val(Seq::new(n, |t: int| false), n) == 0,
    decreases n,
{
    if n > 0 {
        lemma_all_false((n - 1) as nat);
        lemma_bits_val_ext(Seq::new(n, |t: int| false), Seq::new((n - 1) as nat, |t: int| false), (n - 1) as nat);
    }
}

/// One stage of the product modulo powers of two.
proof fn lemma_mod_double_step(a: nat, yv: nat, xv: bool, j: nat)
    ensures
        (2 * (a % pow2(j)) + (if xv { yv % pow2(j + 1) } else { 0 })) % pow2(j + 1) == ((if xv { yv } else { 0 }) + 2 * a) % pow2(
            j + 1,
        ),
{
    let pj = pow2(j) as int;
    let pk = pow2(j + 1) as int;
    lemma_pow2_unfold(j + 1);
    vstd::arithmetic::power2::lemma_pow2_pos(j);
    let q = a as int / pj;
    let r = a as int % pj;
    vstd::arithmetic::div_mod::lemma_fundamental_div_mod(a as int, pj);
    assert(2 * a == pk * q + 2 * r) by (nonlinear_arith)
        requires
            a == pj * q + r,
            pk == 2 * pj,
    ;
    let t: int = if xv { yv as int } else { 0 };
    let tm: int = if xv { yv as int % pk } else { 0 };
    assert(tm % pk == t % pk) by {
        if xv {
            vstd::arithmetic::div_mod::lemma_mod_twice(yv as int, pk);
        }
    }
    vstd::arithmetic::div_mod::lemma_add_mod_noop(2 * r, tm, pk);
    vstd::arithmetic::div_mod::lemma_add_mod_noop(2 * r, t, pk);
    vstd::arithmetic::div_mod::lemma_mod_multiples_vanish(q, 2 * r + t, pk);
    assert(t + 2 * a == pk * q + (2 * r + t));
}

/// Two-party correctness of the multiplication (`integer_multiply`):
/// when the parties are in step, their shares of the `n` bits of `x` and
/// of `y` differ by delta exactly on the set bits, and the evaluator has
/// received what the generator sends (then `rest`), the evaluator's run
/// succeeds and the output shares differ exactly on the bits of
/// `x * y mod 2^n`.
pub proof fn lemma_integer_multiply_correct(
    pg: Party,
    pe: Party,
    hf: spec_fn(u128, u64) -> u128,
    xg: Seq<u128>,
    xe: Seq<u128>,
    xb: Seq<bool>,
    yg: Seq<u128>,
    ye: Seq<u128>,
    yb: Seq<bool>,
    rest: Seq<u128>,
)
    requires
        in_step(pg, pe),
        0 < xg.len() < 63,
        xg.len() < usize::BITS,
        xe.len() == xg.len(),
        xb.len() == xg.len(),
        yg.len() == xg.len(),
        ye.len() == xg.len(),
        yb.len() == xg.len(),
        shares_of(xg, xe, pg.state.delta, xb, xg.len()),
        shares_of(yg, ye, pg.state.delta, yb, xg.len()),
        pe.link.pending == sent_between(pg, mul_spec(pg, hf, xg, yg).unwrap().0) + rest,
    ensures
        mul_spec(pg, hf, xg, yg) is Some,
        mul_spec(pe, hf, xe, ye) is Some,
        in_step(mul_spec(pg, hf, xg, yg).unwrap().0, mul_spec(pe, hf, xe, ye).unwrap().0),
        mul_spec(pe, hf, xe, ye).unwrap().0.link.pending == rest,
        mul_spec(pe, hf, xe, ye).unwrap().0.link.pending_bits == pe.link.pending_bits,
        mul_spec(pg, hf, xg, yg).unwrap().1.len() == xg.len(),
        mul_spec(pe, hf, xe, ye).unwrap().1.len() == xg.len(),
        exists|ob: Seq<bool>| {
            &&& ob.len() == xg.len()
            &&& shares_of(mul_spec(pg, hf, xg, yg).unwrap().1, mul_spec(pe, hf, xe, ye).unwrap().1, pg.state.delta, ob, xg.len())
            &&& bits_val(ob, xg.len()) == (bits_val(xb, xg.len()) * bits_val(yb, xg.len())) % pow2(xg.len())
        },
{
    reveal(mul_spec);
    let n = xg.len();
    lemma_outer_step_gen(pg, hf, xg, yg);
    let (q1g, cg) = outer_step(pg, hf, xg, yg).unwrap();
    lemma_mul_prefix_gen(q1g, hf, cg, n, n);
    let q2g = mul_prefix(q1g, hf, cg, n, n).unwrap().0;
    lemma_sent_chain(pg, q1g, q2g);
    assert(pe.link.pending =~= sent_between(pg, q1g) + (sent_between(q1g, q2g) + rest));
    lemma_outer_step_two_party(pg, pe, hf, xg, xe, xb, yg, ye, yb, sent_between(q1g, q2g) + rest);
    let (q1e, ce) = outer_step(pe, hf, xe, ye).unwrap();
    lemma_mul_prefix_two_party(q1g, q1e, hf, cg, ce, xb, yb, n, n, rest);
    lemma_mul_bits_value(xb, yb, n, n);
    assert(xb.subrange(0, n as int) =~= xb);
}

} // verus!
