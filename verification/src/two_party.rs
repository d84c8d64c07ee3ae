//! Two-party correctness of the one-hot integer gadgets.
//!
//! The generator and the evaluator run the same gadget on their own
//! shares; the evaluator reads what the generator sent.  When each pair
//! of input shares differs by `delta` exactly on the set bits, so does
//! each pair of output shares, and the bits they carry are those of the
//! sum (or difference) of the inputs modulo `2^n`.

use vstd::prelude::*;
use vstd::arithmetic::power2::{lemma_pow2_unfold, pow2};
use crate::context::{and_step, eq_share, is_gen, not_share, Party};
use crate::integer_gadgets::{
    add_prefix, add_spec, and_each, and_rows, column, sub_if_greater_spec, sub_prefix, sub_spec, swap_spec, xor_rows,
};
use crate::label::{lemma_xor_laws, lemma_xor_zero, lsb, sel};
use crate::share::lemma_one_hot_and_correct;
use crate::unary::nonce_after;

verus! {

/// A generator `pg` and an evaluator `pe` at the same point of a run:
/// equal nonces, the generator's delta of colour 1 and the evaluator's
/// zero.
pub open spec fn in_step(pg: Party, pe: Party) -> bool {
    &&& is_gen(pg)
    &&& !is_gen(pe)
    &&& lsb(pg.state.delta)
    &&& pe.state.delta == 0
    &&& pg.state.nonce == pe.state.nonce
}

/// The evaluator's shares `e` of the first `n` bits of `b` against the
/// generator's shares `g`: each differs by `delta` exactly on a set bit.
pub open spec fn shares_of(g: Seq<u128>, e: Seq<u128>, delta: u128, b: Seq<bool>, n: nat) -> bool {
    &&& g.len() >= n
    &&& e.len() >= n
    &&& b.len() >= n
    &&& forall|k: int| 0 <= k < n ==> #[trigger] e[k] == g[k] ^ sel(b[k], delta)
}

/// The blocks the generator sent between `pg` and `qg`.
pub open spec fn sent_between(pg: Party, qg: Party) -> Seq<u128> {
    qg.link.sent.skip(pg.link.sent.len() as int)
}

/// The party `q` has sent what `p` had sent and maybe more, and its bits
/// are those of `p`.
pub open spec fn sent_extends(p: Party, q: Party) -> bool {
    &&& q.link.sent.len() >= p.link.sent.len()
    &&& q.link.sent.take(p.link.sent.len() as int) == p.link.sent
}

/// Rearranging four words under XOR.
proof fn lemma_xor_swap4(a: u128, p: u128, b: u128, q: u128)
    by (bit_vector)
    ensures
        (a ^ p) ^ (b ^ q) == (a ^ b) ^ (p ^ q),
{
}

/// The XOR of two selections of `d` selects on the XOR of the bits.
pub(crate) proof fn lemma_sel_xor(p: bool, q: bool, d: u128)
    ensures
        sel(p, d) ^ sel(q, d) == sel(p != q, d),
{
    lemma_xor_zero(d);
    lemma_xor_zero(0u128);
    lemma_xor_laws(d, d, 0);
}

/// A share of `x` XOR a share of `y` is a share of `x != y`.
pub(crate) proof fn lemma_share_xor(ag: u128, bg: u128, delta: u128, x: bool, y: bool)
    ensures
        (ag ^ sel(x, delta)) ^ (bg ^ sel(y, delta)) == (ag ^ bg) ^ sel(x != y, delta),
{
    lemma_xor_swap4(ag, sel(x, delta), bg, sel(y, delta));
    lemma_sel_xor(x, y, delta);
}

/// Solving `g ^ e == s` for `e`.
pub(crate) proof fn lemma_xor_solve(g: u128, e: u128, s: u128)
    requires
        g ^ e == s,
    ensures
        e == g ^ s,
{
    lemma_xor_laws(g, g, e);
    lemma_xor_zero(e);
}

/// The generator's AND gate never fails, appends its two rows to what it
/// sent and keeps its bits, role and delta.
pub(crate) proof fn lemma_and_step_gen(pg: Party, hf: spec_fn(u128, u64) -> u128, a: u128, b: u128)
    requires
        is_gen(pg),
    ensures
        and_step(pg, hf, a, b) matches Some((qg, _o)) && {
            &&& is_gen(qg)
            &&& qg.state.delta == pg.state.delta
            &&& qg.state.nonce == nonce_after(pg.state.nonce, 2)
            &&& qg.link.sent.len() == pg.link.sent.len() + 2
            &&& qg.link.sent.take(pg.link.sent.len() as int) == pg.link.sent
            &&& qg.link.sent_bits == pg.link.sent_bits
        },
{
    let (qg, o) = and_step(pg, hf, a, b).unwrap();
    assert(qg.link.sent.take(pg.link.sent.len() as int) =~= pg.link.sent);
}

/// One AND gate run by both parties: when the evaluator's pending blocks
/// start with the two rows the generator sends, it reads them, and the
/// output shares carry the AND of the inputs.
pub proof fn lemma_and_step_two_party(
    pg: Party,
    pe: Party,
    hf: spec_fn(u128, u64) -> u128,
    ag: u128,
    bg: u128,
    x: bool,
    y: bool,
    rest: Seq<u128>,
)
    requires
        in_step(pg, pe),
        pe.link.pending == sent_between(pg, and_step(pg, hf, ag, bg).unwrap().0) + rest,
    ensures
        and_step(pg, hf, ag, bg) matches Some((qg, og)) && and_step(
            pe,
            hf,
            ag ^ sel(x, pg.state.delta),
            bg ^ sel(y, pg.state.delta),
        ) matches Some((qe, oe)) && {
            &&& in_step(qg, qe)
            &&& qg.state.delta == pg.state.delta
            &&& sent_extends(pg, qg)
            &&& qg.link.sent_bits == pg.link.sent_bits
            &&& qe.link.pending == rest
            &&& qe.link.pending_bits == pe.link.pending_bits
            &&& oe == og ^ sel(x && y, pg.state.delta)
        },
{
    let d = pg.state.delta;
    let n0 = pg.state.nonce;
    let n1 = nonce_after(n0, 1);
    lemma_and_step_gen(pg, hf, ag, bg);
    let (qg, og) = and_step(pg, hf, ag, bg).unwrap();
    let k = crate::share::and_keys_spec(ag, bg, d);
    let g = crate::share::and_garble_spec(ag, bg, d, [hf(k[0], n0), hf(k[1], n0), hf(k[2], n1), hf(k[3], n1)]);
    assert(sent_between(pg, qg) =~= seq![g.1, g.2]);
    assert(pe.link.pending[0] == g.1 && pe.link.pending[1] == g.2);
    let h0 = |v: u128| hf(v, n0);
    let h1 = |v: u128| hf(v, n1);
    lemma_one_hot_and_correct(ag, bg, d, x, y, h0, h1);
    assert([h0(k[0]), h0(k[1]), h1(k[2]), h1(k[3])] =~= [hf(k[0], n0), hf(k[1], n0), hf(k[2], n1), hf(k[3], n1)]);
    let (qe, oe) = and_step(pe, hf, ag ^ sel(x, d), bg ^ sel(y, d)).unwrap();
    assert(qe.link.pending =~= rest);
    lemma_xor_solve(og, oe, sel(x && y, d));
}

/// The carry into stage `i` of the ripple-carry addition of `x` and `y`.
pub open spec fn carry_bit(x: Seq<bool>, y: Seq<bool>, i: nat) -> bool
    decreases i,
{
    if i == 0 {
        false
    } else {
        let c = carry_bit(x, y, (i - 1) as nat);
        c != ((x[i - 1] != c) && (y[i - 1] != c))
    }
}

/// Bit `k` of the sum of `x` and `y`.
pub open spec fn sum_bit(x: Seq<bool>, y: Seq<bool>, k: nat) -> bool {
    (x[k as int] != y[k as int]) != carry_bit(x, y, k)
}

/// The borrow into stage `i` of the ripple-borrow subtraction `x - y`.
pub open spec fn borrow_bit(x: Seq<bool>, y: Seq<bool>, i: nat) -> bool
    decreases i,
{
    if i == 0 {
        false
    } else {
        let b = borrow_bit(x, y, (i - 1) as nat);
        b != ((x[i - 1] != y[i - 1]) && (y[i - 1] != b))
    }
}

/// Bit `k` of the difference `x - y`.
pub open spec fn diff_bit(x: Seq<bool>, y: Seq<bool>, k: nat) -> bool {
    (x[k as int] != y[k as int]) != borrow_bit(x, y, k)
}

/// The number whose binary digits, least significant first, are the
/// first `n` bits of `b`.
pub open spec fn bits_val(b: Seq<bool>, n: nat) -> nat
    decreases n,
{
    if n == 0 {
        0
    } else {
        bits_val(b, (n - 1) as nat) + if b[n - 1] { pow2((n - 1) as nat) } else { 0 }
    }
}

/// The sum bits of `x` and `y` over `n` stages.
pub open spec fn sum_bits(x: Seq<bool>, y: Seq<bool>, n: nat) -> Seq<bool> {
    Seq::new(n, |k: int| sum_bit(x, y, k as nat))
}

/// The difference bits of `x - y` over `n` stages.
pub open spec fn diff_bits(x: Seq<bool>, y: Seq<bool>, n: nat) -> Seq<bool> {
    Seq::new(n, |k: int| diff_bit(x, y, k as nat))
}

/// `n` bits are worth less than `2^n`.
pub proof fn lemma_bits_val_bound(b: Seq<bool>, n: nat)
    ensures
        bits_val(b, n) < pow2(n),
    decreases n,
{
    if n == 0 {
        vstd::arithmetic::power2::lemma2_to64();
    } else {
        lemma_bits_val_bound(b, (n - 1) as nat);
        lemma_pow2_unfold(n);
    }
}

/// Two bit strings that agree on their first `n` bits have the same value.
pub(crate) proof fn lemma_bits_val_ext(a: Seq<bool>, b: Seq<bool>, n: nat)
    requires
        forall|k: int| 0 <= k < n ==> a[k] == b[k],
    ensures
        bits_val(a, n) == bits_val(b, n),
    decreases n,
{
    if n > 0 {
        lemma_bits_val_ext(a, b, (n - 1) as nat);
    }
}

/// The ripple-carry adder adds: after `i` stages the sum bits plus the
/// carry are worth the first `i` bits of `x` plus those of `y`.
proof fn lemma_carry_value(x: Seq<bool>, y: Seq<bool>, i: nat)
    ensures
        bits_val(sum_bits(x, y, i), i) + (if carry_bit(x, y, i) { pow2(i) } else { 0 }) == bits_val(x, i) + bits_val(y, i),
    decreases i,
{
    if i > 0 {
        let j = (i - 1) as nat;
        lemma_carry_value(x, y, j);
        lemma_bits_val_ext(sum_bits(x, y, i), sum_bits(x, y, j), j);
        lemma_pow2_unfold(i);
    }
}

/// The ripple-borrow subtractor subtracts: after `i` stages the
/// difference bits minus the borrow are worth the first `i` bits of `x`
/// minus those of `y`.
pub(crate) proof fn lemma_borrow_value(x: Seq<bool>, y: Seq<bool>, i: nat)
    ensures
        bits_val(diff_bits(x, y, i), i) - (if borrow_bit(x, y, i) { pow2(i) } else { 0 }) == bits_val(x, i) - bits_val(y, i),
    decreases i,
{
    if i > 0 {
        let j = (i - 1) as nat;
        lemma_borrow_value(x, y, j);
        lemma_bits_val_ext(diff_bits(x, y, i), diff_bits(x, y, j), j);
        lemma_pow2_unfold(i);
    }
}

/// The adder's stages run by both parties (see `lemma_integer_add_correct`).
proof fn lemma_add_prefix_two_party(
    pg: Party,
    pe: Party,
    hf: spec_fn(u128, u64) -> u128,
    xg: Seq<u128>,
    yg: Seq<u128>,
    xe: Seq<u128>,
    ye: Seq<u128>,
    xb: Seq<bool>,
    yb: Seq<bool>,
    i: nat,
    rest: Seq<u128>,
)
    requires
        in_step(pg, pe),
        shares_of(xg, xe, pg.state.delta, xb, i),
        shares_of(yg, ye, pg.state.delta, yb, i),
        add_prefix(pg, hf, xg, yg, i) is Some,
        pe.link.pending == sent_between(pg, add_prefix(pg, hf, xg, yg, i).unwrap().0) + rest,
    ensures
        add_prefix(pg, hf, xg, yg, i) matches Some((qg, og, cg)) && add_prefix(pe, hf, xe, ye, i) matches Some(
            (qe, oe, ce),
        ) && {
            &&& in_step(qg, qe)
            &&& qg.state.delta == pg.state.delta
            &&& sent_extends(pg, qg)
            &&& qg.link.sent_bits == pg.link.sent_bits
            &&& qe.link.pending == rest
            &&& qe.link.pending_bits == pe.link.pending_bits
            &&& og.len() == i
            &&& oe.len() == i
            &&& ce == cg ^ sel(carry_bit(xb, yb, i), pg.state.delta)
            &&& forall|k: int| 0 <= k < i ==> #[trigger] oe[k] == og[k] ^ sel(sum_bit(xb, yb, k as nat), pg.state.delta)
        },
    decreases i,
{
    let d = pg.state.delta;
    if i == 0 {
        lemma_xor_zero(0u128);
        assert(pg.link.sent.take(pg.link.sent.len() as int) =~= pg.link.sent);
        assert(pe.link.pending =~= rest);
    } else {
        let j = (i - 1) as nat;
        lemma_add_prefix_gen_extends(pg, hf, xg, yg, j);
        let (qg1, og1, cg1) = add_prefix(pg, hf, xg, yg, j).unwrap();
        let xcg = xg[j as int] ^ cg1;
        let ycg = yg[j as int] ^ cg1;
        lemma_and_step_gen(qg1, hf, xcg, ycg);
        let (qg, tg) = and_step(qg1, hf, xcg, ycg).unwrap();
        let two = sent_between(qg1, qg);
        // The first stages see the rows of the last one ahead of `rest`.
        assert(add_prefix(pg, hf, xg, yg, j) is Some);
        assert(shares_of(xg, xe, d, xb, j));
        assert(shares_of(yg, ye, d, yb, j));
        lemma_add_prefix_gen_extends(pg, hf, xg, yg, j);
        assert(sent_between(pg, qg) =~= sent_between(pg, qg1) + two);
        assert(pe.link.pending =~= sent_between(pg, qg1) + (two + rest));
        lemma_add_prefix_two_party(pg, pe, hf, xg, yg, xe, ye, xb, yb, j, two + rest);
        let (qe1, oe1, ce1) = add_prefix(pe, hf, xe, ye, j).unwrap();
        let c = carry_bit(xb, yb, j);
        let xv = xb[j as int];
        let yv = yb[j as int];
        assert(xe[j as int] == xg[j as int] ^ sel(xv, d));
        lemma_share_xor(xg[j as int], cg1, d, xv, c);
        lemma_share_xor(yg[j as int], cg1, d, yv, c);
        let xce = xe[j as int] ^ ce1;
        let yce = ye[j as int] ^ ce1;
        assert(xce == xcg ^ sel(xv != c, d));
        assert(yce == ycg ^ sel(yv != c, d));
        lemma_and_step_two_party(qg1, qe1, hf, xcg, ycg, xv != c, yv != c, rest);
        let (qe, te) = and_step(qe1, hf, xce, yce).unwrap();
        // The carry and the new output bit.
        lemma_share_xor(cg1, tg, d, c, (xv != c) && (yv != c));
        lemma_share_xor(xcg, yg[j as int], d, xv != c, yv);
        let og = og1.push(xcg ^ yg[j as int]);
        let oe = oe1.push(xce ^ ye[j as int]);
        assert forall|k: int| 0 <= k < i implies #[trigger] oe[k] == og[k] ^ sel(sum_bit(xb, yb, k as nat), d) by {
            if k < j {
                assert(oe1[k] == og1[k] ^ sel(sum_bit(xb, yb, k as nat), d));
            }
        }
        assert(sent_extends(pg, qg)) by {
            assert(qg.link.sent.take(pg.link.sent.len() as int) =~= qg1.link.sent.take(pg.link.sent.len() as int));
        }
    }
}

/// The generator's adder stages never fail and only append to what it
/// sent, keeping its bits, role and delta.
pub(crate) proof fn lemma_add_prefix_gen_extends(pg: Party, hf: spec_fn(u128, u64) -> u128, x: Seq<u128>, y: Seq<u128>, i: nat)
    requires
        is_gen(pg),
    ensures
        add_prefix(pg, hf, x, y, i) matches Some((qg, _o, _c)) && {
            &&& is_gen(qg)
            &&& qg.state.delta == pg.state.delta
            &&& sent_extends(pg, qg)
            &&& qg.link.sent_bits == pg.link.sent_bits
        },
    decreases i,
{
    if i > 0 {
        let j = (i - 1) as nat;
        lemma_add_prefix_gen_extends(pg, hf, x, y, j);
        let (q1, o1, c1) = add_prefix(pg, hf, x, y, j).unwrap();
        lemma_and_step_gen(q1, hf, x[j as int] ^ c1, y[j as int] ^ c1);
        let (q, t) = and_step(q1, hf, x[j as int] ^ c1, y[j as int] ^ c1).unwrap();
        assert(q.link.sent.take(pg.link.sent.len() as int) =~= q1.link.sent.take(pg.link.sent.len() as int));
    } else {
        assert(pg.link.sent.take(pg.link.sent.len() as int) =~= pg.link.sent);
    }
}

/// The generator's subtractor stages never fail and only append to what
/// it sent, keeping its bits, role and delta.
pub(crate) proof fn lemma_sub_prefix_gen_extends(pg: Party, hf: spec_fn(u128, u64) -> u128, x: Seq<u128>, y: Seq<u128>, i: nat)
    requires
        is_gen(pg),
    ensures
        sub_prefix(pg, hf, x, y, i) matches Some((qg, _o, _b)) && {
            &&& is_gen(qg)
            &&& qg.state.delta == pg.state.delta
            &&& sent_extends(pg, qg)
            &&& qg.link.sent_bits == pg.link.sent_bits
        },
    decreases i,
{
    if i > 0 {
        let j = (i - 1) as nat;
        lemma_sub_prefix_gen_extends(pg, hf, x, y, j);
        let (q1, o1, b1) = sub_prefix(pg, hf, x, y, j).unwrap();
        lemma_and_step_gen(q1, hf, x[j as int] ^ y[j as int], y[j as int] ^ b1);
        let (q, t) = and_step(q1, hf, x[j as int] ^ y[j as int], y[j as int] ^ b1).unwrap();
        assert(q.link.sent.take(pg.link.sent.len() as int) =~= q1.link.sent.take(pg.link.sent.len() as int));
    } else {
        assert(pg.link.sent.take(pg.link.sent.len() as int) =~= pg.link.sent);
    }
}

/// The subtractor's stages run by both parties (see
/// `lemma_integer_sub_correct`).
pub(crate) proof fn lemma_sub_prefix_two_party(
    pg: Party,
    pe: Party,
    hf: spec_fn(u128, u64) -> u128,
    xg: Seq<u128>,
    yg: Seq<u128>,
    xe: Seq<u128>,
    ye: Seq<u128>,
    xb: Seq<bool>,
    yb: Seq<bool>,
    i: nat,
    rest: Seq<u128>,
)
    requires
        in_step(pg, pe),
        shares_of(xg, xe, pg.state.delta, xb, i),
        shares_of(yg, ye, pg.state.delta, yb, i),
        sub_prefix(pg, hf, xg, yg, i) is Some,
        pe.link.pending == sent_between(pg, sub_prefix(pg, hf, xg, yg, i).unwrap().0) + rest,
    ensures
        sub_prefix(pg, hf, xg, yg, i) matches Some((qg, og, bg)) && sub_prefix(pe, hf, xe, ye, i) matches Some(
            (qe, oe, be),
        ) && {
            &&& in_step(qg, qe)
            &&& qg.state.delta == pg.state.delta
            &&& sent_extends(pg, qg)
            &&& qg.link.sent_bits == pg.link.sent_bits
            &&& qe.link.pending == rest
            &&& qe.link.pending_bits == pe.link.pending_bits
            &&& og.len() == i
            &&& oe.len() == i
            &&& be == bg ^ sel(borrow_bit(xb, yb, i), pg.state.delta)
            &&& forall|k: int| 0 <= k < i ==> #[trigger] oe[k] == og[k] ^ sel(diff_bit(xb, yb, k as nat), pg.state.delta)
        },
    decreases i,
{
    let d = pg.state.delta;
    if i == 0 {
        lemma_xor_zero(0u128);
        assert(pg.link.sent.take(pg.link.sent.len() as int) =~= pg.link.sent);
        assert(pe.link.pending =~= rest);
    } else {
        let j = (i - 1) as nat;
        lemma_sub_prefix_gen_extends(pg, hf, xg, yg, j);
        let (qg1, og1, bg1) = sub_prefix(pg, hf, xg, yg, j).unwrap();
        let xyg = xg[j as int] ^ yg[j as int];
        let ybg = yg[j as int] ^ bg1;
        lemma_and_step_gen(qg1, hf, xyg, ybg);
        let (qg, tg) = and_step(qg1, hf, xyg, ybg).unwrap();
        let two = sent_between(qg1, qg);
        assert(sub_prefix(pg, hf, xg, yg, j) is Some);
        assert(shares_of(xg, xe, d, xb, j));
        assert(shares_of(yg, ye, d, yb, j));
        lemma_sub_prefix_gen_extends(pg, hf, xg, yg, j);
        assert(sent_between(pg, qg) =~= sent_between(pg, qg1) + two);
        assert(pe.link.pending =~= sent_between(pg, qg1) + (two + rest));
        lemma_sub_prefix_two_party(pg, pe, hf, xg, yg, xe, ye, xb, yb, j, two + rest);
        let (qe1, oe1, be1) = sub_prefix(pe, hf, xe, ye, j).unwrap();
        let b = borrow_bit(xb, yb, j);
        let xv = xb[j as int];
        let yv = yb[j as int];
        assert(xe[j as int] == xg[j as int] ^ sel(xv, d));
        assert(ye[j as int] == yg[j as int] ^ sel(yv, d));
        lemma_share_xor(xg[j as int], yg[j as int], d, xv, yv);
        lemma_share_xor(yg[j as int], bg1, d, yv, b);
        let xye = xe[j as int] ^ ye[j as int];
        let ybe = ye[j as int] ^ be1;
        assert(xye == xyg ^ sel(xv != yv, d));
        assert(ybe == ybg ^ sel(yv != b, d));
        lemma_and_step_two_party(qg1, qe1, hf, xyg, ybg, xv != yv, yv != b, rest);
        let (qe, te) = and_step(qe1, hf, xye, ybe).unwrap();
        lemma_share_xor(bg1, tg, d, b, (xv != yv) && (yv != b));
        lemma_share_xor(xyg, bg1, d, xv != yv, b);
        let og = og1.push(xyg ^ bg1);
        let oe = oe1.push(xye ^ be1);
        assert forall|k: int| 0 <= k < i implies #[trigger] oe[k] == og[k] ^ sel(diff_bit(xb, yb, k as nat), d) by {
            if k < j {
                assert(oe1[k] == og1[k] ^ sel(diff_bit(xb, yb, k as nat), d));
            }
        }
        assert(sent_extends(pg, qg)) by {
            assert(qg.link.sent.take(pg.link.sent.len() as int) =~= qg1.link.sent.take(pg.link.sent.len() as int));
        }
    }
}

/// Two-party correctness of the adder (`integer_add`): when the generator
/// and the evaluator are in step, the evaluator's shares of the first `n`
/// bits of `x` and `y` differ from the generator's by `delta` exactly on
/// the set bits, and the evaluator has received what the generator sends
/// (followed by anything else, `rest`), then the evaluator's run succeeds,
/// leaves `rest` unread, and its output shares differ from the
/// generator's exactly on the bits of `(x + y) mod 2^n`.
pub proof fn lemma_integer_add_correct(
    pg: Party,
    pe: Party,
    hf: spec_fn(u128, u64) -> u128,
    n: nat,
    xg: Seq<u128>,
    yg: Seq<u128>,
    xe: Seq<u128>,
    ye: Seq<u128>,
    xb: Seq<bool>,
    yb: Seq<bool>,
    rest: Seq<u128>,
)
    requires
        in_step(pg, pe),
        n >= 1,
        shares_of(xg, xe, pg.state.delta, xb, n),
        shares_of(yg, ye, pg.state.delta, yb, n),
        pe.link.pending == sent_between(pg, add_spec(pg, hf, n, xg, yg).unwrap().0) + rest,
    ensures
        add_spec(pg, hf, n, xg, yg) matches Some((qg, og)) && add_spec(pe, hf, n, xe, ye) matches Some((qe, oe)) && {
            &&& in_step(qg, qe)
            &&& qg.state.delta == pg.state.delta
            &&& sent_extends(pg, qg)
            &&& qg.link.sent_bits == pg.link.sent_bits
            &&& qe.link.pending == rest
            &&& qe.link.pending_bits == pe.link.pending_bits
            &&& og.len() == n
            &&& oe.len() == n
            &&& forall|k: int| 0 <= k < n ==> #[trigger] oe[k] == og[k] ^ sel(sum_bits(xb, yb, n)[k], pg.state.delta)
            &&& bits_val(sum_bits(xb, yb, n), n) == (bits_val(xb, n) + bits_val(yb, n)) % pow2(n)
        },
{
    let d = pg.state.delta;
    let j = (n - 1) as nat;
    lemma_add_prefix_gen_extends(pg, hf, xg, yg, j);
    assert(shares_of(xg, xe, d, xb, j));
    assert(shares_of(yg, ye, d, yb, j));
    lemma_add_prefix_two_party(pg, pe, hf, xg, yg, xe, ye, xb, yb, j, rest);
    let (qg, og1, cg) = add_prefix(pg, hf, xg, yg, j).unwrap();
    let (qe, oe1, ce) = add_prefix(pe, hf, xe, ye, j).unwrap();
    let xv = xb[j as int];
    let yv = yb[j as int];
    let c = carry_bit(xb, yb, j);
    assert(xe[j as int] == xg[j as int] ^ sel(xv, d));
    assert(ye[j as int] == yg[j as int] ^ sel(yv, d));
    lemma_share_xor(xg[j as int], yg[j as int], d, xv, yv);
    lemma_share_xor(xg[j as int] ^ yg[j as int], cg, d, xv != yv, c);
    let og = og1.push(xg[j as int] ^ yg[j as int] ^ cg);
    let oe = oe1.push(xe[j as int] ^ ye[j as int] ^ ce);
    assert forall|k: int| 0 <= k < n implies #[trigger] oe[k] == og[k] ^ sel(sum_bits(xb, yb, n)[k], d) by {
        if k < j {
            assert(oe1[k] == og1[k] ^ sel(sum_bit(xb, yb, k as nat), d));
        }
    }
    // The value: the low bits plus the carry are the sum, and the top bit
    // drops the carry out.
    let s = sum_bits(xb, yb, n);
    lemma_carry_value(xb, yb, j);
    lemma_bits_val_ext(s, sum_bits(xb, yb, j), j);
    lemma_bits_val_bound(s, n);
    lemma_pow2_unfold(n);
    vstd::arithmetic::div_mod::lemma_small_mod(bits_val(s, n), pow2(n));
    if (c && xv) || (c && yv) || (xv && yv) {
        assert(bits_val(xb, n) + bits_val(yb, n) == pow2(n) + bits_val(s, n));
        vstd::arithmetic::div_mod::lemma_mod_add_multiples_vanish(bits_val(s, n) as int, pow2(n) as int);
    } else {
        assert(bits_val(xb, n) + bits_val(yb, n) == bits_val(s, n));
    }
}

/// Two-party correctness of the subtractor (`integer_sub`), as
/// `lemma_integer_add_correct` states for the adder: the output shares
/// differ exactly on the bits of `(x - y) mod 2^n`.
pub proof fn lemma_integer_sub_correct(
    pg: Party,
    pe: Party,
    hf: spec_fn(u128, u64) -> u128,
    n: nat,
    xg: Seq<u128>,
    yg: Seq<u128>,
    xe: Seq<u128>,
    ye: Seq<u128>,
    xb: Seq<bool>,
    yb: Seq<bool>,
    rest: Seq<u128>,
)
    requires
        in_step(pg, pe),
        n >= 1,
        shares_of(xg, xe, pg.state.delta, xb, n),
        shares_of(yg, ye, pg.state.delta, yb, n),
        pe.link.pending == sent_between(pg, sub_spec(pg, hf, n, xg, yg).unwrap().0) + rest,
    ensures
        sub_spec(pg, hf, n, xg, yg) matches Some((qg, og)) && sub_spec(pe, hf, n, xe, ye) matches Some((qe, oe)) && {
            &&& in_step(qg, qe)
            &&& qg.state.delta == pg.state.delta
            &&& sent_extends(pg, qg)
            &&& qg.link.sent_bits == pg.link.sent_bits
            &&& qe.link.pending == rest
            &&& qe.link.pending_bits == pe.link.pending_bits
            &&& og.len() == n
            &&& oe.len() == n
            &&& forall|k: int| 0 <= k < n ==> #[trigger] oe[k] == og[k] ^ sel(diff_bits(xb, yb, n)[k], pg.state.delta)
            &&& bits_val(diff_bits(xb, yb, n), n) == (bits_val(xb, n) - bits_val(yb, n)) % (pow2(n) as int)
        },
{
    let d = pg.state.delta;
    let j = (n - 1) as nat;
    lemma_sub_prefix_gen_extends(pg, hf, xg, yg, j);
    assert(shares_of(xg, xe, d, xb, j));
    assert(shares_of(yg, ye, d, yb, j));
    lemma_sub_prefix_two_party(pg, pe, hf, xg, yg, xe, ye, xb, yb, j, rest);
    let (qg, og1, bg) = sub_prefix(pg, hf, xg, yg, j).unwrap();
    let (qe, oe1, be) = sub_prefix(pe, hf, xe, ye, j).unwrap();
    let xv = xb[j as int];
    let yv = yb[j as int];
    let b = borrow_bit(xb, yb, j);
    assert(xe[j as int] == xg[j as int] ^ sel(xv, d));
    assert(ye[j as int] == yg[j as int] ^ sel(yv, d));
    lemma_share_xor(xg[j as int], yg[j as int], d, xv, yv);
    lemma_share_xor(xg[j as int] ^ yg[j as int], bg, d, xv != yv, b);
    let og = og1.push(xg[j as int] ^ yg[j as int] ^ bg);
    let oe = oe1.push(xe[j as int] ^ ye[j as int] ^ be);
    assert forall|k: int| 0 <= k < n implies #[trigger] oe[k] == og[k] ^ sel(diff_bits(xb, yb, n)[k], d) by {
        if k < j {
            assert(oe1[k] == og1[k] ^ sel(diff_bit(xb, yb, k as nat), d));
        }
    }
    let s = diff_bits(xb, yb, n);
    lemma_borrow_value(xb, yb, j);
    lemma_bits_val_ext(s, diff_bits(xb, yb, j), j);
    lemma_bits_val_bound(s, n);
    lemma_pow2_unfold(n);
    vstd::arithmetic::div_mod::lemma_small_mod(bits_val(s, n), pow2(n));
    if (!xv && yv) || (!xv && b) || (yv && b) {
        assert(bits_val(xb, n) - bits_val(yb, n) == -(pow2(n) as int) + bits_val(s, n));
        vstd::arithmetic::div_mod::lemma_mod_sub_multiples_vanish(bits_val(s, n) as int, pow2(n) as int);
    } else {
        assert(bits_val(xb, n) - bits_val(yb, n) == bits_val(s, n));
    }
}

/// `c` has sent what `a` had, through `b`: the blocks between `a` and
/// `c` are those between `a` and `b` followed by those between `b` and `c`.
pub(crate) proof fn lemma_sent_chain(a: Party, b: Party, c: Party)
    requires
        sent_extends(a, b),
        sent_extends(b, c),
    ensures
        sent_extends(a, c),
        sent_between(a, c) == sent_between(a, b) + sent_between(b, c),
{
    assert(c.link.sent.take(a.link.sent.len() as int) =~= b.link.sent.take(a.link.sent.len() as int));
    assert(sent_between(a, c) =~= sent_between(a, b) + sent_between(b, c));
}

/// A party has sent what it has sent.
pub(crate) proof fn lemma_sent_refl(a: Party)
    ensures
        sent_extends(a, a),
        sent_between(a, a) == Seq::<u128>::empty(),
{
    assert(a.link.sent.take(a.link.sent.len() as int) =~= a.link.sent);
    assert(sent_between(a, a) =~= Seq::<u128>::empty());
}

/// NOT of a share carries the negated bit.
pub(crate) proof fn lemma_not_share_two_party(pg: Party, pe: Party, g: u128, v: bool)
    requires
        is_gen(pg),
        !is_gen(pe),
    ensures
        not_share(pe, g ^ sel(v, pg.state.delta)) == not_share(pg, g) ^ sel(!v, pg.state.delta),
{
    let d = pg.state.delta;
    lemma_sel_xor(true, !v, d);
    lemma_xor_laws(g, d, sel(!v, d));
}

/// The generator's AND of each entry of `v` with `s` never fails and only
/// appends to what it sent.
proof fn lemma_and_each_gen(pg: Party, hf: spec_fn(u128, u64) -> u128, v: Seq<u128>, s: u128)
    requires
        is_gen(pg),
    ensures
        and_each(pg, hf, v, s) matches Some((qg, o)) && {
            &&& is_gen(qg)
            &&& qg.state.delta == pg.state.delta
            &&& sent_extends(pg, qg)
            &&& qg.link.sent_bits == pg.link.sent_bits
            &&& o.len() == v.len()
        },
    decreases v.len(),
{
    if v.len() == 0 {
        lemma_sent_refl(pg);
    } else {
        lemma_and_each_gen(pg, hf, v.drop_last(), s);
        let (q1, o1) = and_each(pg, hf, v.drop_last(), s).unwrap();
        lemma_and_step_gen(q1, hf, v.last(), s);
        let (q, t) = and_step(q1, hf, v.last(), s).unwrap();
        assert(sent_extends(q1, q));
        lemma_sent_chain(pg, q1, q);
    }
}

/// AND of each entry of `v` with `s`, run by both parties.
proof fn lemma_and_each_two_party(
    pg: Party,
    pe: Party,
    hf: spec_fn(u128, u64) -> u128,
    vg: Seq<u128>,
    ve: Seq<u128>,
    vb: Seq<bool>,
    sg: u128,
    sb: bool,
    rest: Seq<u128>,
)
    requires
        in_step(pg, pe),
        ve.len() == vg.len(),
        vb.len() == vg.len(),
        forall|k: int| 0 <= k < vg.len() ==> #[trigger] ve[k] == vg[k] ^ sel(vb[k], pg.state.delta),
        pe.link.pending == sent_between(pg, and_each(pg, hf, vg, sg).unwrap().0) + rest,
    ensures
        and_each(pg, hf, vg, sg) matches Some((qg, og)) && and_each(pe, hf, ve, sg ^ sel(sb, pg.state.delta)) matches Some(
            (qe, oe),
        ) && {
            &&& in_step(qg, qe)
            &&& qg.state.delta == pg.state.delta
            &&& sent_extends(pg, qg)
            &&& qg.link.sent_bits == pg.link.sent_bits
            &&& qe.link.pending == rest
            &&& qe.link.pending_bits == pe.link.pending_bits
            &&& og.len() == vg.len()
            &&& oe.len() == vg.len()
            &&& forall|k: int| 0 <= k < vg.len() ==> #[trigger] oe[k] == og[k] ^ sel(vb[k] && sb, pg.state.delta)
        },
    decreases vg.len(),
{
    let d = pg.state.delta;
    lemma_and_each_gen(pg, hf, vg, sg);
    if vg.len() == 0 {
        assert(pe.link.pending =~= rest);
    } else {
        let n = vg.len() - 1;
        lemma_and_each_gen(pg, hf, vg.drop_last(), sg);
        let (q1, o1) = and_each(pg, hf, vg.drop_last(), sg).unwrap();
        lemma_and_step_gen(q1, hf, vg.last(), sg);
        let (qg, t) = and_step(q1, hf, vg.last(), sg).unwrap();
        assert(sent_extends(q1, qg));
        lemma_sent_chain(pg, q1, qg);
        assert(pe.link.pending =~= sent_between(pg, q1) + (sent_between(q1, qg) + rest));
        lemma_and_each_two_party(pg, pe, hf, vg.drop_last(), ve.drop_last(), vb.drop_last(), sg, sb, sent_between(q1, qg) + rest);
        let (qe1, oe1) = and_each(pe, hf, ve.drop_last(), sg ^ sel(sb, d)).unwrap();
        assert(ve.last() == vg.last() ^ sel(vb.last(), d));
        lemma_and_step_two_party(q1, qe1, hf, vg.last(), sg, vb.last(), sb, rest);
        assert(ve.drop_last() =~= ve.drop_last());
        let (qe, te) = and_step(qe1, hf, ve.last(), sg ^ sel(sb, d)).unwrap();
        let og = o1.push(t);
        let oe = oe1.push(te);
        assert forall|k: int| 0 <= k < vg.len() implies #[trigger] oe[k] == og[k] ^ sel(vb[k] && sb, d) by {
            if k < n {
                assert(oe1[k] == o1[k] ^ sel(vb.drop_last()[k] && sb, d));
            }
        }
    }
}

/// The generator's row-by-row AND with `s` never fails and only appends
/// to what it sent.
pub(crate) proof fn lemma_and_rows_gen(pg: Party, hf: spec_fn(u128, u64) -> u128, m: Seq<Seq<u128>>, s: u128)
    requires
        is_gen(pg),
    ensures
        and_rows(pg, hf, m, s) matches Some((qg, o)) && {
            &&& is_gen(qg)
            &&& qg.state.delta == pg.state.delta
            &&& sent_extends(pg, qg)
            &&& qg.link.sent_bits == pg.link.sent_bits
            &&& o.len() == m.len()
        },
    decreases m.len(),
{
    if m.len() == 0 {
        lemma_sent_refl(pg);
    } else {
        lemma_and_rows_gen(pg, hf, m.drop_last(), s);
        let (q1, o1) = and_rows(pg, hf, m.drop_last(), s).unwrap();
        lemma_and_each_gen(q1, hf, m.last(), s);
        let (q, r) = and_each(q1, hf, m.last(), s).unwrap();
        lemma_sent_chain(pg, q1, q);
    }
}

/// The evaluator's row `e` of shares of the bits `b` against the
/// generator's `g`.
pub open spec fn row_shares(g: Seq<u128>, e: Seq<u128>, delta: u128, b: Seq<bool>) -> bool {
    &&& e.len() == g.len()
    &&& b.len() == g.len()
    &&& forall|j: int| 0 <= j < g.len() ==> #[trigger] e[j] == g[j] ^ sel(b[j], delta)
}

/// The evaluator's matrix `e` of shares of the bits `b` against the
/// generator's `g`, row by row.
pub open spec fn matrix_shares(g: Seq<Seq<u128>>, e: Seq<Seq<u128>>, delta: u128, b: Seq<Seq<bool>>) -> bool {
    &&& e.len() == g.len()
    &&& b.len() == g.len()
    &&& forall|i: int| 0 <= i < g.len() ==> #[trigger] row_shares(g[i], e[i], delta, b[i])
}

/// Row-by-row AND with `s`, run by both parties.
#[verifier::spinoff_prover]
#[verifier::rlimit(100)]
proof fn lemma_and_rows_two_party(
    pg: Party,
    pe: Party,
    hf: spec_fn(u128, u64) -> u128,
    mg: Seq<Seq<u128>>,
    me: Seq<Seq<u128>>,
    mb: Seq<Seq<bool>>,
    sg: u128,
    sb: bool,
    rest: Seq<u128>,
)
    requires
        in_step(pg, pe),
        matrix_shares(mg, me, pg.state.delta, mb),
        pe.link.pending == sent_between(pg, and_rows(pg, hf, mg, sg).unwrap().0) + rest,
    ensures
        and_rows(pg, hf, mg, sg) is Some,
        and_rows(pe, hf, me, sg ^ sel(sb, pg.state.delta)) is Some,
        in_step(and_rows(pg, hf, mg, sg).unwrap().0, and_rows(pe, hf, me, sg ^ sel(sb, pg.state.delta)).unwrap().0),
        and_rows(pg, hf, mg, sg).unwrap().0.state.delta == pg.state.delta,
        sent_extends(pg, and_rows(pg, hf, mg, sg).unwrap().0),
        and_rows(pg, hf, mg, sg).unwrap().0.link.sent_bits == pg.link.sent_bits,
        and_rows(pe, hf, me, sg ^ sel(sb, pg.state.delta)).unwrap().0.link.pending == rest,
        and_rows(pe, hf, me, sg ^ sel(sb, pg.state.delta)).unwrap().0.link.pending_bits == pe.link.pending_bits,
        and_rows(pg, hf, mg, sg).unwrap().1.len() == mg.len(),
        and_rows(pe, hf, me, sg ^ sel(sb, pg.state.delta)).unwrap().1.len() == mg.len(),
        forall|i: int| 0 <= i < mg.len() ==> (#[trigger] and_rows(pg, hf, mg, sg).unwrap().1[i]).len() == mg[i].len() && and_rows(pe, hf, me, sg ^ sel(sb, pg.state.delta)).unwrap().1[i].len() == mg[i].len(),
        forall|i: int, j: int| 0 <= i < mg.len() && 0 <= j < mg[i].len() ==> #[trigger] and_rows(pe, hf, me, sg ^ sel(sb, pg.state.delta)).unwrap().1[i][j] == and_rows(pg, hf, mg, sg).unwrap().1[i][j] ^ sel(
            mb[i][j] && sb,
            pg.state.delta,
        ),
    decreases mg.len(),
{
    let d = pg.state.delta;
    lemma_and_rows_gen(pg, hf, mg, sg);
    if mg.len() == 0 {
        assert(pe.link.pending =~= rest);
    } else {
        let n = mg.len() - 1;
        lemma_and_rows_gen(pg, hf, mg.drop_last(), sg);
        let (q1, o1) = and_rows(pg, hf, mg.drop_last(), sg).unwrap();
        lemma_and_each_gen(q1, hf, mg.last(), sg);
        let (qg, r) = and_each(q1, hf, mg.last(), sg).unwrap();
        lemma_sent_chain(pg, q1, qg);
        assert(pe.link.pending =~= sent_between(pg, q1) + (sent_between(q1, qg) + rest));
        assert(matrix_shares(mg.drop_last(), me.drop_last(), d, mb.drop_last())) by {
            assert forall|i: int| 0 <= i < n implies #[trigger] row_shares(mg.drop_last()[i], me.drop_last()[i], d, mb.drop_last()[i]) by {
                assert(row_shares(mg[i], me[i], d, mb[i]));
            }
        }
        lemma_and_rows_two_party(pg, pe, hf, mg.drop_last(), me.drop_last(), mb.drop_last(), sg, sb, sent_between(q1, qg) + rest);
        let (qe1, oe1) = and_rows(pe, hf, me.drop_last(), sg ^ sel(sb, d)).unwrap();
        assert(row_shares(mg[n as int], me[n as int], d, mb[n as int]));
        lemma_and_each_two_party(q1, qe1, hf, mg.last(), me.last(), mb.last(), sg, sb, rest);
        let (qe, re) = and_each(qe1, hf, me.last(), sg ^ sel(sb, d)).unwrap();
        let og = o1.push(r);
        let oe = oe1.push(re);
        assert forall|i: int| 0 <= i < mg.len() implies (#[trigger] and_rows(pg, hf, mg, sg).unwrap().1[i]).len() == mg[i].len() && and_rows(pe, hf, me, sg ^ sel(sb, pg.state.delta)).unwrap().1[i].len() == mg[i].len() by {
            assert(and_rows(pg, hf, mg, sg).unwrap().1[i] == og[i]);
            assert(and_rows(pe, hf, me, sg ^ sel(sb, pg.state.delta)).unwrap().1[i] == oe[i]);
            if i < n {
                assert(o1[i].len() == mg.drop_last()[i].len());
            }
        }
        assert forall|i: int, j: int| 0 <= i < mg.len() && 0 <= j < mg[i].len() implies #[trigger] oe[i][j] == og[i][j] ^ sel(
            mb[i][j] && sb,
            d,
        ) by {
            if i < n {
                assert(oe1[i][j] == o1[i][j] ^ sel(mb.drop_last()[i][j] && sb, d));
            }
        }
    }
}

/// Two-party correctness of the conditional swap (`swap`): with shares
/// of a bit `sb` and of the bit matrices `xb`, `yb`, and the evaluator
/// holding what the generator sends (then `rest`), the output shares
/// carry `xb` where `sb` is set and `yb` where it is not.
pub proof fn lemma_swap_correct(
    pg: Party,
    pe: Party,
    hf: spec_fn(u128, u64) -> u128,
    sg: u128,
    sb: bool,
    xg: Seq<Seq<u128>>,
    yg: Seq<Seq<u128>>,
    xe: Seq<Seq<u128>>,
    ye: Seq<Seq<u128>>,
    xb: Seq<Seq<bool>>,
    yb: Seq<Seq<bool>>,
    rest: Seq<u128>,
)
    requires
        in_step(pg, pe),
        matrix_shares(xg, xe, pg.state.delta, xb),
        matrix_shares(yg, ye, pg.state.delta, yb),
        yg.len() == xg.len(),
        forall|i: int| 0 <= i < xg.len() ==> #[trigger] yg[i].len() == xg[i].len(),
        pe.link.pending == sent_between(pg, swap_spec(pg, hf, sg, xg, yg).unwrap().0) + rest,
    ensures
        swap_spec(pg, hf, sg, xg, yg) matches Some((qg, og)) && swap_spec(pe, hf, sg ^ sel(sb, pg.state.delta), xe, ye) matches Some(
            (qe, oe),
        ) && {
            &&& in_step(qg, qe)
            &&& qg.state.delta == pg.state.delta
            &&& sent_extends(pg, qg)
            &&& qg.link.sent_bits == pg.link.sent_bits
            &&& qe.link.pending == rest
            &&& qe.link.pending_bits == pe.link.pending_bits
            &&& og.len() == xg.len()
            &&& oe.len() == xg.len()
            &&& forall|i: int| 0 <= i < xg.len() ==> #[trigger] og[i].len() == xg[i].len() && oe[i].len() == xg[i].len()
            &&& forall|i: int, j: int| 0 <= i < xg.len() && 0 <= j < xg[i].len() ==> #[trigger] oe[i][j] == og[i][j] ^ sel(
                if sb { xb[i][j] } else { yb[i][j] },
                pg.state.delta,
            )
        },
{
    let d = pg.state.delta;
    let dg = xor_rows(xg, yg);
    let de = xor_rows(xe, ye);
    let db = Seq::new(xg.len(), |i: int| Seq::new(xg[i].len(), |j: int| xb[i][j] != yb[i][j]));
    assert(matrix_shares(dg, de, d, db)) by {
        assert forall|i: int| 0 <= i < dg.len() implies #[trigger] row_shares(dg[i], de[i], d, db[i]) by {
            assert(row_shares(xg[i], xe[i], d, xb[i]));
            assert(row_shares(yg[i], ye[i], d, yb[i]));
            assert forall|j: int| 0 <= j < dg[i].len() implies #[trigger] de[i][j] == dg[i][j] ^ sel(db[i][j], d) by {
                lemma_share_xor(xg[i][j], yg[i][j], d, xb[i][j], yb[i][j]);
            }
        }
    }
    lemma_and_rows_two_party(pg, pe, hf, dg, de, db, sg, sb, rest);
    let (qg, mg) = and_rows(pg, hf, dg, sg).unwrap();
    let (qe, me) = and_rows(pe, hf, de, sg ^ sel(sb, d)).unwrap();
    let og = xor_rows(mg, yg);
    let oe = xor_rows(me, ye);
    assert(swap_spec(pg, hf, sg, xg, yg) == Some((qg, og)));
    assert(swap_spec(pe, hf, sg ^ sel(sb, d), xe, ye) == Some((qe, oe)));
    assert(og.len() == xg.len() && oe.len() == xg.len());
    assert forall|i: int| 0 <= i < xg.len() implies #[trigger] og[i].len() == xg[i].len() && oe[i].len() == xg[i].len() by {
        assert(mg[i].len() == dg[i].len());
        assert(me[i].len() == dg[i].len());
    }
    assert forall|i: int, j: int| 0 <= i < xg.len() && 0 <= j < xg[i].len() implies #[trigger] oe[i][j] == og[i][j] ^ sel(
        if sb { xb[i][j] } else { yb[i][j] },
        d,
    ) by {
        assert(me[i][j] == mg[i][j] ^ sel(db[i][j] && sb, d));
        assert(row_shares(yg[i], ye[i], d, yb[i]));
        assert(ye[i][j] == yg[i][j] ^ sel(yb[i][j], d));
        lemma_share_xor(mg[i][j], yg[i][j], d, db[i][j] && sb, yb[i][j]);
    }
}

/// The bits of a column of bits, as a matrix with one column.
pub open spec fn bit_column(b: Seq<bool>) -> Seq<Seq<bool>> {
    Seq::new(b.len(), |i: int| seq![b[i]])
}

/// A column of shares of the bits `b` is a one-column matrix of shares.
proof fn lemma_column_shares(g: Seq<u128>, e: Seq<u128>, delta: u128, b: Seq<bool>)
    requires
        shares_of(g, e, delta, b, g.len()),
        e.len() == g.len(),
        b.len() == g.len(),
    ensures
        matrix_shares(column(g), column(e), delta, bit_column(b)),
{
    assert forall|i: int| 0 <= i < g.len() implies #[trigger] row_shares(column(g)[i], column(e)[i], delta, bit_column(b)[i]) by {
        assert(e[i] == g[i] ^ sel(b[i], delta));
    }
}

/// The top bit of a 32-bit value is set exactly when the value is at
/// least `2^31`.
proof fn lemma_top_bit(b: Seq<bool>)
    ensures
        b[31] == (bits_val(b, 32) >= pow2(31)),
{
    lemma_bits_val_bound(b, 31);
}

/// The value of the conditional subtraction of 32-bit words: `x - y` when
/// `x >= y`, else `x`.
pub open spec fn sub_if_greater_val(x: nat, y: nat) -> nat {
    if x >= y { (x - y) as nat } else { x }
}

/// Two-party correctness of the conditional subtraction
/// (`sub_if_greater`) of 32-share vectors: when both values are below
/// `2^31`, the output shares carry the bits of `x - y` when `x >= y` and
/// of `x` otherwise.  (For larger values the top-bit test misjudges: with
/// `x = 2^31 + 5` and `y = 3` it returns `x`.)
#[verifier::rlimit(60)]
pub proof fn lemma_sub_if_greater_correct(
    pg: Party,
    pe: Party,
    hf: spec_fn(u128, u64) -> u128,
    xg: Seq<u128>,
    yg: Seq<u128>,
    xe: Seq<u128>,
    ye: Seq<u128>,
    xb: Seq<bool>,
    yb: Seq<bool>,
    rest: Seq<u128>,
)
    requires
        in_step(pg, pe),
        xg.len() == 32,
        yg.len() == 32,
        xe.len() == 32,
        ye.len() == 32,
        xb.len() == 32,
        yb.len() == 32,
        shares_of(xg, xe, pg.state.delta, xb, 32),
        shares_of(yg, ye, pg.state.delta, yb, 32),
        bits_val(xb, 32) < pow2(31),
        bits_val(yb, 32) < pow2(31),
        pe.link.pending == sent_between(pg, sub_if_greater_spec(pg, hf, xg, yg).unwrap().0) + rest,
    ensures
        sub_if_greater_spec(pg, hf, xg, yg) matches Some((qg, og)) && sub_if_greater_spec(pe, hf, xe, ye) matches Some(
            (qe, oe),
        ) && {
            let rb = if bits_val(xb, 32) < bits_val(yb, 32) { xb } else { diff_bits(xb, yb, 32) };
            &&& in_step(qg, qe)
            &&& qg.state.delta == pg.state.delta
            &&& sent_extends(pg, qg)
            &&& qg.link.sent_bits == pg.link.sent_bits
            &&& qe.link.pending == rest
            &&& qe.link.pending_bits == pe.link.pending_bits
            &&& og.len() == 32
            &&& oe.len() == 32
            &&& forall|k: int| 0 <= k < 32 ==> #[trigger] oe[k] == og[k] ^ sel(rb[k], pg.state.delta)
            &&& bits_val(rb, 32) == sub_if_greater_val(bits_val(xb, 32), bits_val(yb, 32))
        },
{
    reveal(sub_if_greater_spec);
    let d = pg.state.delta;
    // The generator's run, stage by stage.
    lemma_sub_prefix_gen_extends(pg, hf, xg, yg, 31);
    let (p1g, diffg) = sub_spec(pg, hf, 32, xg, yg).unwrap();
    let eqg = eq_share(p1g, xg[31], yg[31]);
    let neqg = not_share(p1g, eqg);
    let mfg = eq_share(p1g, xg[31], diffg[31]);
    lemma_and_step_gen(p1g, hf, eqg, not_share(p1g, mfg));
    let (p2g, leftg) = and_step(p1g, hf, eqg, not_share(p1g, mfg)).unwrap();
    lemma_and_step_gen(p2g, hf, neqg, xg[31]);
    let (p3g, rightg) = and_step(p2g, hf, neqg, xg[31]).unwrap();
    lemma_and_step_gen(p3g, hf, not_share(p3g, leftg), not_share(p3g, rightg));
    let (p4g, tg) = and_step(p3g, hf, not_share(p3g, leftg), not_share(p3g, rightg)).unwrap();
    let gtg = not_share(p4g, tg);
    lemma_and_rows_gen(p4g, hf, xor_rows(column(xg), column(diffg)), gtg);
    let (p5g, mg) = swap_spec(p4g, hf, gtg, column(xg), column(diffg)).unwrap();
    lemma_sent_chain(p3g, p4g, p5g);
    lemma_sent_chain(p2g, p3g, p5g);
    lemma_sent_chain(p1g, p2g, p5g);
    lemma_sent_chain(pg, p1g, p5g);
    assert(pe.link.pending =~= sent_between(pg, p1g) + (sent_between(p1g, p5g) + rest));
    // The subtraction.
    lemma_integer_sub_correct(pg, pe, hf, 32, xg, yg, xe, ye, xb, yb, sent_between(p1g, p5g) + rest);
    let (p1e, diffe) = sub_spec(pe, hf, 32, xe, ye).unwrap();
    let db = diff_bits(xb, yb, 32);
    let x31 = xb[31];
    let y31 = yb[31];
    let d31 = db[31];
    // Equality and inequality of the top bits, and whether the top bit flipped.
    assert(xe[31] == xg[31] ^ sel(x31, d));
    assert(ye[31] == yg[31] ^ sel(y31, d));
    assert(diffe[31] == diffg[31] ^ sel(d31, d));
    lemma_share_xor(xg[31], yg[31], d, x31, y31);
    lemma_share_xor(xg[31], diffg[31], d, x31, d31);
    lemma_not_share_two_party(p1g, p1e, xg[31] ^ yg[31], x31 != y31);
    lemma_not_share_two_party(p1g, p1e, xg[31] ^ diffg[31], x31 != d31);
    let eqv = !(x31 != y31);
    let mfv = !(x31 != d31);
    let eqe = eq_share(p1e, xe[31], ye[31]);
    let mfe = eq_share(p1e, xe[31], diffe[31]);
    assert(eqe == eqg ^ sel(eqv, d));
    assert(mfe == mfg ^ sel(mfv, d));
    lemma_not_share_two_party(p1g, p1e, mfg, mfv);
    lemma_not_share_two_party(p1g, p1e, eqg, eqv);
    let neqe = not_share(p1e, eqe);
    assert(neqe == neqg ^ sel(!eqv, d));
    assert(pe.link.pending_bits == p1e.link.pending_bits);
    assert(sent_between(p1g, p5g) + rest =~= sent_between(p1g, p2g) + (sent_between(p2g, p5g) + rest));
    lemma_and_step_two_party(p1g, p1e, hf, eqg, not_share(p1g, mfg), eqv, !mfv, sent_between(p2g, p5g) + rest);
    let (p2e, lefte) = and_step(p1e, hf, eqe, not_share(p1e, mfe)).unwrap();
    let lv = eqv && !mfv;
    assert(sent_between(p2g, p5g) + rest =~= sent_between(p2g, p3g) + (sent_between(p3g, p5g) + rest));
    lemma_and_step_two_party(p2g, p2e, hf, neqg, xg[31], !eqv, x31, sent_between(p3g, p5g) + rest);
    let (p3e, righte) = and_step(p2e, hf, neqe, xe[31]).unwrap();
    let rv = !eqv && x31;
    lemma_not_share_two_party(p3g, p3e, leftg, lv);
    lemma_not_share_two_party(p3g, p3e, rightg, rv);
    assert(sent_between(p3g, p5g) + rest =~= sent_between(p3g, p4g) + (sent_between(p4g, p5g) + rest));
    lemma_and_step_two_party(p3g, p3e, hf, not_share(p3g, leftg), not_share(p3g, rightg), !lv, !rv, sent_between(p4g, p5g) + rest);
    let (p4e, te) = and_step(p3e, hf, not_share(p3e, lefte), not_share(p3e, righte)).unwrap();
    let gtv = !(!lv && !rv);
    lemma_not_share_two_party(p4g, p4e, tg, !lv && !rv);
    let gte = not_share(p4e, te);
    assert(gte == gtg ^ sel(gtv, d));
    // The swap.
    lemma_column_shares(xg, xe, d, xb);
    lemma_column_shares(diffg, diffe, d, db);
    lemma_swap_correct(p4g, p4e, hf, gtg, gtv, column(xg), column(diffg), column(xe), column(diffe), bit_column(xb), bit_column(db), rest);
    let (p5e, me) = swap_spec(p4e, hf, gte, column(xe), column(diffe)).unwrap();
    let og = Seq::new(32, |i: int| mg[i][0]);
    let oe = Seq::new(32, |i: int| me[i][0]);
    // The values: below 2^31 both top bits are clear, and the difference's
    // top bit is set exactly when x < y.
    let xv = bits_val(xb, 32);
    let yv = bits_val(yb, 32);
    lemma_top_bit(xb);
    lemma_top_bit(yb);
    lemma_top_bit(db);
    vstd::arithmetic::power2::lemma_pow2_adds(31, 1);
    vstd::arithmetic::power2::lemma2_to64();
    assert(bits_val(db, 32) == (xv - yv) % (pow2(32) as int));
    if xv >= yv {
        vstd::arithmetic::div_mod::lemma_small_mod((xv - yv) as nat, pow2(32));
    } else {
        vstd::arithmetic::div_mod::lemma_mod_add_multiples_vanish(xv - yv, pow2(32) as int);
        vstd::arithmetic::div_mod::lemma_small_mod((pow2(32) + xv - yv) as nat, pow2(32));
    }
    assert(gtv == (xv < yv));
    let rb = if xv < yv { xb } else { db };
    assert forall|k: int| 0 <= k < 32 implies #[trigger] oe[k] == og[k] ^ sel(rb[k], d) by {
        assert(me[k][0] == mg[k][0] ^ sel(if gtv { bit_column(xb)[k][0] } else { bit_column(db)[k][0] }, d));
    }
}

/// The value of the adder's bits: the sum of the two values modulo `2^n`.
pub proof fn lemma_sum_bits_mod(x: Seq<bool>, y: Seq<bool>, n: nat)
    requires
        n >= 1,
        x.len() >= n,
        y.len() >= n,
    ensures
        bits_val(sum_bits(x, y, n), n) == (bits_val(x, n) + bits_val(y, n)) % pow2(n),
{
    let j = (n - 1) as nat;
    let s = sum_bits(x, y, n);
    let c = carry_bit(x, y, j);
    let xv = x[j as int];
    let yv = y[j as int];
    lemma_carry_value(x, y, j);
    lemma_bits_val_ext(s, sum_bits(x, y, j), j);
    lemma_bits_val_bound(s, n);
    lemma_pow2_unfold(n);
    vstd::arithmetic::div_mod::lemma_small_mod(bits_val(s, n), pow2(n));
    if (c && xv) || (c && yv) || (xv && yv) {
        assert(bits_val(x, n) + bits_val(y, n) == pow2(n) + bits_val(s, n));
        vstd::arithmetic::div_mod::lemma_mod_add_multiples_vanish(bits_val(s, n) as int, pow2(n) as int);
    } else {
        assert(bits_val(x, n) + bits_val(y, n) == bits_val(s, n));
    }
}

} // verus!
