//! Two-party correctness of the reduction modulo 65521 (`mod_p`): the
//! shares the two parties end with carry the bits of `x mod 65521`.

use vstd::prelude::*;
use vstd::arithmetic::power2::{lemma2_to64, lemma_pow2_unfold, pow2};
use crate::context::{and_step, eq_share, is_gen, not_share, reveal_step, Party};
use crate::exp_mod::{
    mod_p_lookup, mod_p_mask, mod_p_open_borrow, mod_p_reduce, mod_p_spec, mod_p_subtract, scaled_shares, word_shares, wrap_fix,
    ModpTable,
};
use crate::integer::bit32;
use crate::integer_gadgets::{add_spec, column, sub_if_greater_spec, sub_prefix, sub_spec, swap_spec, xor_rows};
use crate::label::{lemma_xor_zero, lsb, sel};
use crate::one_hot_ops::{col_msgs, tree_msgs, unary_step};
use crate::share::Table;
use crate::two_party::{
    bits_val, borrow_bit, diff_bit, diff_bits, in_step, lemma_sub_prefix_two_party, lemma_add_prefix_gen_extends, lemma_and_rows_gen, lemma_and_step_gen, lemma_bits_val_bound,
    lemma_bits_val_ext, lemma_integer_add_correct, lemma_sent_chain, lemma_share_xor, lemma_sub_if_greater_correct,
    lemma_sub_prefix_gen_extends, lemma_xor_solve, sent_between, sent_extends, shares_of, sub_if_greater_val,
};
use crate::unary::{
    colors_value, eval_cell, eval_tree, gen_cell, gen_col_msg, gen_tree, generator_msgs, lemma_unary_outer_product,
    nonce_after, row_bit,
};

verus! {

/// Bit `k` of the number `v`.
pub open spec fn nat_bit(v: nat, k: nat) -> bool {
    (v / pow2(k)) % 2 == 1
}

/// Low-level bit facts: clearing the colour bit is XOR-ing it out, and
/// flipping the colour bit flips the colour.
proof fn lemma_colour_bits(g: u128, x: u128)
    by (bit_vector)
    ensures
        (g & !1u128) == g ^ (if g & 1u128 == 1u128 { 1u128 } else { 0u128 }),
        ((x ^ 1u128) & 1u128 == 1u128) == !(x & 1u128 == 1u128),
{
}

/// The first `n` bits of `v` are worth `v mod 2^n`.
pub proof fn lemma_bits_of_value(v: nat, n: nat)
    ensures
        bits_val(Seq::new(n, |k: int| nat_bit(v, k as nat)), n) == v % pow2(n),
    decreases n,
{
    let b = Seq::new(n, |k: int| nat_bit(v, k as nat));
    if n == 0 {
        lemma2_to64();
    } else {
        let j = (n - 1) as nat;
        lemma_bits_of_value(v, j);
        lemma_bits_val_ext(b, Seq::new(j, |k: int| nat_bit(v, k as nat)), j);
        lemma_pow2_unfold(n);
        vstd::arithmetic::power2::lemma_pow2_pos(j);
        vstd::arithmetic::div_mod::lemma_mod_breakdown(v as int, pow2(j) as int, 2);
        assert(pow2(j) * 2 == pow2(n));
        if nat_bit(v, j) {
            assert((v / pow2(j)) % 2 == 1);
        } else {
            assert((v / pow2(j)) % 2 == 0);
        }
    }
}

/// Bit `k` of a machine word, read with a shift and a mask, is bit `k`
/// of its value.
pub proof fn lemma_row_bit_value(r: usize, k: int)
    requires
        0 <= k < 64,
    ensures
        row_bit(r, k) == nat_bit(r as nat, k as nat),
{
    let w = r as u64;
    vstd::bits::lemma_u64_shr_is_div(w, k as u64);
    let y = w >> (k as u64);
    vstd::bits::lemma_u64_low_bits_mask_is_mod(y, 1);
    vstd::bits::lemma_low_bits_mask_values();
    lemma2_to64();
    assert(y & 1u64 == y % 2);
}

/// Bit `k` of a 32-bit word is bit `k` of its value.
pub proof fn lemma_bit32_value(v: u32, k: int)
    requires
        0 <= k < 32,
    ensures
        crate::integer::bit32(v, k) == nat_bit(v as nat, k as nat),
{
    vstd::bits::lemma_u32_shr_is_div(v, k as u32);
    let y = v >> (k as u32);
    vstd::bits::lemma_u32_low_bits_mask_is_mod(y, 1);
    vstd::bits::lemma_low_bits_mask_values();
    lemma2_to64();
    assert(y & 1u32 == y % 2);
}

/// The value of the colours of a list of shares.
pub(crate) proof fn lemma_colors_value_bits(s: Seq<u128>)
    ensures
        colors_value(s) == bits_val(Seq::new(s.len(), |k: int| lsb(s[k])), s.len()),
    decreases s.len(),
{
    let b = Seq::new(s.len(), |k: int| lsb(s[k]));
    if s.len() > 0 {
        let t = s.drop_first();
        lemma_colors_value_bits(t);
        lemma_bits_val_shift(b, s.len());
        lemma_bits_val_ext(b.drop_first(), Seq::new(t.len(), |k: int| lsb(t[k])), t.len());
    }
}

/// Reading the first bit off: `n` bits are worth the first plus twice the
/// rest.
pub(crate) proof fn lemma_bits_val_shift(b: Seq<bool>, n: nat)
    requires
        n >= 1,
        b.len() >= n,
    ensures
        bits_val(b, n) == (if b[0] { 1nat } else { 0nat }) + 2 * bits_val(b.drop_first(), (n - 1) as nat),
    decreases n,
{
    let t = b.drop_first();
    if n == 1 {
        lemma2_to64();
        assert(bits_val(b, 1) == bits_val(b, 0) + if b[0] { pow2(0) } else { 0 });
    } else {
        let j = (n - 1) as nat;
        lemma_bits_val_shift(b, j);
        lemma_pow2_unfold(j);
        assert(t[j - 1] == b[j as int]);
        assert(bits_val(t, j) == bits_val(t, (j - 1) as nat) + if t[j - 1] { pow2((j - 1) as nat) } else { 0 });
        assert(bits_val(b, n) == bits_val(b, j) + if b[j as int] { pow2(j) } else { 0 });
    }
}

/// The colour of the evaluator's share, after a reveal, is the bit.
/// Revealing shares run by both parties: the generator sends the colours
/// of its shares, the evaluator reads them; afterwards the shares still
/// carry the bits and the evaluator's colours are the bits.
pub proof fn lemma_reveal_two_party(pg: Party, pe: Party, vg: Seq<u128>, ve: Seq<u128>, vb: Seq<bool>, rest_bits: Seq<bool>)
    requires
        in_step(pg, pe),
        ve.len() == vg.len(),
        shares_of(vg, ve, pg.state.delta, vb, vg.len()),
        pe.link.pending_bits == vg.map_values(|x: u128| lsb(x)) + rest_bits,
    ensures
        reveal_step(pg, vg) matches Some((qg, wg)) && reveal_step(pe, ve) matches Some((qe, we)) && {
            &&& in_step(qg, qe)
            &&& qg.state == pg.state
            &&& qg.link.sent == pg.link.sent
            &&& qg.link.sent_bits == pg.link.sent_bits + vg.map_values(|x: u128| lsb(x))
            &&& qe.link.pending == pe.link.pending
            &&& qe.link.pending_bits == rest_bits
            &&& wg.len() == vg.len()
            &&& we.len() == vg.len()
            &&& shares_of(wg, we, pg.state.delta, vb, vg.len())
            &&& forall|k: int| 0 <= k < vg.len() ==> #[trigger] lsb(we[k]) == vb[k]
        },
{
    let d = pg.state.delta;
    let (qg, wg) = reveal_step(pg, vg).unwrap();
    let (qe, we) = reveal_step(pe, ve).unwrap();
    assert(qe.link.pending_bits =~= rest_bits);
    assert forall|k: int| 0 <= k < vg.len() implies #[trigger] we[k] == wg[k] ^ sel(vb[k], d) && lsb(we[k]) == vb[k] by {
        let g = vg[k];
        let e = ve[k];
        let c: u128 = if lsb(g) { 1u128 } else { 0u128 };
        assert(pe.link.pending_bits[k] == lsb(g));
        lemma_colour_bits(g, e);
        assert(wg[k] == g ^ c);
        assert(we[k] == e ^ c) by {
            lemma_xor_zero(e);
        }
        assert(e == g ^ sel(vb[k], d));
        lemma_share_xor(g, 0u128, d, vb[k], false);
        crate::label::lemma_xor_laws(g, sel(vb[k], d), c);
        crate::label::lemma_xor_laws(g, c, sel(vb[k], d));
        crate::label::lemma_xor_laws(sel(vb[k], d), c, 0);
        crate::label::lemma_lsb_flip(g, d, vb[k]);
        lemma_colour_bits(g, e);
    }
}

/// The generator's tree messages satisfy `generator_msgs`.
pub(crate) proof fn lemma_tree_msgs_generator(x: Seq<u128>, delta: u128, nonce: u64, hf: spec_fn(u128, u64) -> u128)
    requires
        x.len() >= 1,
    ensures
        generator_msgs(x, delta, nonce, hf, tree_msgs(x, delta, nonce, hf)),
{
    let m = tree_msgs(x, delta, nonce, hf);
    assert forall|l: int| 1 <= l < x.len() implies #[trigger] m[2 * (l - 1)] == crate::unary::gen_msg0(x, delta, nonce, hf, l as nat) by {
        assert((2 * (l - 1)) / 2 + 1 == l && (2 * (l - 1)) % 2 == 0);
    }
    assert forall|l: int| 1 <= l < x.len() implies #[trigger] m[2 * (l - 1) + 1] == crate::unary::gen_msg1(x, delta, nonce, hf, l as nat) by {
        assert((2 * (l - 1) + 1) / 2 + 1 == l && (2 * (l - 1) + 1) % 2 == 1);
    }
}

/// The unary outer product run by both parties: when the evaluator's
/// pending blocks start with the generator's messages, in every cell
/// `(k, c)` the two parties' contributions differ by delta exactly when
/// bit `k` of the table row at the evaluator's colours of `x` and the bit
/// of `y[c]` both hold.
pub proof fn lemma_unary_step_two_party<T: Table>(
    pg: Party,
    pe: Party,
    hf: spec_fn(u128, u64) -> u128,
    table: T,
    xg: Seq<u128>,
    xe: Seq<u128>,
    xb: Seq<bool>,
    yg: Seq<u128>,
    ye: Seq<u128>,
    yb: Seq<bool>,
    rest: Seq<u128>,
)
    requires
        in_step(pg, pe),
        0 < xg.len() < 64,
        xe.len() == xg.len(),
        ye.len() == yg.len(),
        shares_of(xg, xe, pg.state.delta, xb, xg.len()),
        shares_of(yg, ye, pg.state.delta, yb, yg.len()),
        pe.link.pending == sent_between(pg, unary_step(pg, hf, table, xg, yg).unwrap().0) + rest,
    ensures
        unary_step(pg, hf, table, xg, yg) matches Some((qg, cg)) && unary_step(pe, hf, table, xe, ye) matches Some((qe, ce)) && {
            &&& in_step(qg, qe)
            &&& qg.state.delta == pg.state.delta
            &&& sent_extends(pg, qg)
            &&& qg.link.sent_bits == pg.link.sent_bits
            &&& qe.link.pending == rest
            &&& qe.link.pending_bits == pe.link.pending_bits
            &&& forall|k: int, c: int| 0 <= c < yg.len() ==> #[trigger] ce(k, c) == cg(k, c) ^ sel(
                row_bit(table.spec_row(colors_value(xe) as usize), k) && yb[c],
                pg.state.delta,
            )
        },
{
    reveal(unary_step);
    let d = pg.state.delta;
    let n = xg.len();
    let m = yg.len();
    let nonce = pg.state.nonce;
    let base = nonce_after(nonce, n);
    let seeds = gen_tree(xg, d, nonce, hf, (n - 1) as nat);
    let tm = tree_msgs(xg, d, nonce, hf);
    let cm = col_msgs(seeds, base, hf, yg);
    let (qg, cg) = unary_step(pg, hf, table, xg, yg).unwrap();
    assert(sent_between(pg, qg) =~= tm + cm);
    assert(qg.link.sent.take(pg.link.sent.len() as int) =~= pg.link.sent);
    let pend = pe.link.pending;
    assert(pend.take(2 * (n - 1)) =~= tm);
    assert(pend.subrange(2 * (n - 1), 2 * (n - 1) + m) =~= cm);
    let (qe, ce) = unary_step(pe, hf, table, xe, ye).unwrap();
    assert(qe.link.pending =~= rest);
    lemma_tree_msgs_generator(xg, d, nonce, hf);
    assert(crate::unary::shares_of(xg, xe, d)) by {
        assert forall|i: int| 0 <= i < xg.len() implies #[trigger] xe[i] == xg[i] || xe[i] == xg[i] ^ d by {
            assert(xe[i] == xg[i] ^ sel(xb[i], d));
            lemma_xor_zero(xg[i]);
        }
    }
    assert forall|k: int, c: int| 0 <= c < m implies #[trigger] ce(k, c) == cg(k, c) ^ sel(
        row_bit(table.spec_row(colors_value(xe) as usize), k) && yb[c],
        d,
    ) by {
        lemma_unary_outer_product(table, xg, xe, d, nonce, hf, tm, yg[c], ye[c], c, k);
        assert(ye[c] == yg[c] ^ sel(yb[c], d));
        lemma_share_xor(yg[c], 0u128, d, yb[c], false);
        lemma_xor_zero(yg[c]);
        lemma_xor_zero(sel(yb[c], d));
        crate::label::lemma_xor_laws(yg[c], yg[c], sel(yb[c], d));
        let rb = row_bit(table.spec_row(colors_value(xe) as usize), k);
        assert(sel(rb, sel(yb[c], d)) == sel(rb && yb[c], d));
        assert(cm[c] == gen_col_msg(seeds, base, c, hf, yg[c]));
        lemma_xor_solve(cg(k, c), ce(k, c), sel(rb && yb[c], d));
    }
}

/// The bits of a 32-bit word, least significant first.
pub open spec fn word_bits(v: u32) -> Seq<bool> {
    Seq::new(32, |i: int| bit32(v, i))
}

/// The bits of a word are worth the word.
pub proof fn lemma_word_bits_value(v: u32)
    ensures
        bits_val(word_bits(v), 32) == v,
{
    assert forall|k: int| 0 <= k < 32 implies word_bits(v)[k] == Seq::new(32, |i: int| nat_bit(v as nat, i as nat))[k] by {
        lemma_bit32_value(v, k);
    }
    lemma_bits_val_ext(word_bits(v), Seq::new(32, |i: int| nat_bit(v as nat, i as nat)), 32);
    lemma_bits_of_value(v as nat, 32);
    lemma2_to64();
    vstd::arithmetic::div_mod::lemma_small_mod(v as nat, pow2(32));
}

/// The parties' shares of a public word: the generator's carry its bits,
/// the evaluator's (delta zero) are zero whatever word it names.
pub(crate) proof fn lemma_word_shares_two_party(pg: Party, pe: Party, v: u32, w: u32)
    requires
        in_step(pg, pe),
    ensures
        shares_of(word_shares(pg, v), word_shares(pe, w), pg.state.delta, word_bits(v), 32),
        word_shares(pg, v).len() == 32,
        word_shares(pe, w).len() == 32,
{
    let d = pg.state.delta;
    assert forall|k: int| 0 <= k < 32 implies #[trigger] word_shares(pe, w)[k] == word_shares(pg, v)[k] ^ sel(word_bits(v)[k], d) by {
        crate::label::lemma_xor_laws(sel(bit32(v, k), d), sel(bit32(v, k), d), 0);
    }
}

/// The bits of `b * c` for a bit `b` and a word `c`.
pub open spec fn scaled_bits(b: bool, c: u32) -> Seq<bool> {
    Seq::new(32, |i: int| bit32(c, i) && b)
}

/// The parties' shares of `b * c` from their shares of the bit `b`.
proof fn lemma_scaled_shares_two_party(bg: u128, bb: bool, c: u32, d: u128)
    ensures
        shares_of(scaled_shares(bg, c), scaled_shares(bg ^ sel(bb, d), c), d, scaled_bits(bb, c), 32),
        scaled_shares(bg, c).len() == 32,
        scaled_shares(bg ^ sel(bb, d), c).len() == 32,
        bits_val(scaled_bits(bb, c), 32) == if bb { c as nat } else { 0nat },
{
    lemma_xor_zero(0u128);
    lemma_word_bits_value(c);
    lemma_word_bits_value(0);
    assert forall|k: int| 0 <= k < 32 implies scaled_bits(bb, c)[k] == (if bb { word_bits(c) } else { word_bits(0) })[k] by {
        assert(!bit32(0, k)) by {
            lemma_bit32_value(0, k);
            vstd::arithmetic::power2::lemma_pow2_pos(k as nat);
        }
    }
    lemma_bits_val_ext(scaled_bits(bb, c), if bb { word_bits(c) } else { word_bits(0) }, 32);
}

/// The generator's unary outer product never fails and only appends to
/// what it sent.
pub(crate) proof fn lemma_unary_step_gen<T: Table>(pg: Party, hf: spec_fn(u128, u64) -> u128, table: T, x: Seq<u128>, y: Seq<u128>)
    requires
        is_gen(pg),
    ensures
        unary_step(pg, hf, table, x, y) is Some,
        is_gen(unary_step(pg, hf, table, x, y).unwrap().0),
        unary_step(pg, hf, table, x, y).unwrap().0.state.delta == pg.state.delta,
        sent_extends(pg, unary_step(pg, hf, table, x, y).unwrap().0),
        unary_step(pg, hf, table, x, y).unwrap().0.link.sent_bits == pg.link.sent_bits,
{
    reveal(unary_step);
    let q = unary_step(pg, hf, table, x, y).unwrap().0;
    assert(q.link.sent.take(pg.link.sent.len() as int) =~= pg.link.sent);
}

/// The generator's adder never fails and only appends to what it sent.
pub(crate) proof fn lemma_add_spec_gen(pg: Party, hf: spec_fn(u128, u64) -> u128, n: nat, x: Seq<u128>, y: Seq<u128>)
    requires
        is_gen(pg),
    ensures
        add_spec(pg, hf, n, x, y) is Some,
        is_gen(add_spec(pg, hf, n, x, y).unwrap().0),
        add_spec(pg, hf, n, x, y).unwrap().0.state.delta == pg.state.delta,
        sent_extends(pg, add_spec(pg, hf, n, x, y).unwrap().0),
        add_spec(pg, hf, n, x, y).unwrap().0.link.sent_bits == pg.link.sent_bits,
{
    lemma_add_prefix_gen_extends(pg, hf, x, y, (n - 1) as nat);
}

/// The generator's conditional subtraction never fails and only appends
/// to what it sent.
proof fn lemma_sub_if_greater_gen(pg: Party, hf: spec_fn(u128, u64) -> u128, x: Seq<u128>, y: Seq<u128>)
    requires
        is_gen(pg),
    ensures
        sub_if_greater_spec(pg, hf, x, y) is Some,
        is_gen(sub_if_greater_spec(pg, hf, x, y).unwrap().0),
        sub_if_greater_spec(pg, hf, x, y).unwrap().0.state.delta == pg.state.delta,
        sent_extends(pg, sub_if_greater_spec(pg, hf, x, y).unwrap().0),
        sub_if_greater_spec(pg, hf, x, y).unwrap().0.link.sent_bits == pg.link.sent_bits,
        sub_if_greater_spec(pg, hf, x, y).unwrap().1.len() == 32,
{
    reveal(sub_if_greater_spec);
    lemma_sub_prefix_gen_extends(pg, hf, x, y, 31);
    let (p1, diff) = sub_spec(pg, hf, 32, x, y).unwrap();
    let eq = eq_share(p1, x[31], y[31]);
    let neq = not_share(p1, eq);
    let mf = eq_share(p1, x[31], diff[31]);
    lemma_and_step_gen(p1, hf, eq, not_share(p1, mf));
    let (p2, l) = and_step(p1, hf, eq, not_share(p1, mf)).unwrap();
    lemma_and_step_gen(p2, hf, neq, x[31]);
    let (p3, r) = and_step(p2, hf, neq, x[31]).unwrap();
    lemma_and_step_gen(p3, hf, not_share(p3, l), not_share(p3, r));
    let (p4, t) = and_step(p3, hf, not_share(p3, l), not_share(p3, r)).unwrap();
    lemma_and_rows_gen(p4, hf, xor_rows(column(x), column(diff)), not_share(p4, t));
    let p5 = swap_spec(p4, hf, not_share(p4, t), column(x), column(diff)).unwrap().0;
    lemma_sent_chain(p3, p4, p5);
    lemma_sent_chain(p2, p3, p5);
    lemma_sent_chain(p1, p2, p5);
    lemma_sent_chain(pg, p1, p5);
}

/// Three conditional subtractions of 4p, 2p and p bring a value below 8p
/// to its residue modulo p.
proof fn lemma_three_reductions(a: nat)
    requires
        a < 8 * 65521,
    ensures
        sub_if_greater_val(sub_if_greater_val(sub_if_greater_val(a, 262084), 131042), 65521) == a % 65521,
{
    let b = sub_if_greater_val(a, 262084);
    let c = sub_if_greater_val(b, 131042);
    let e = sub_if_greater_val(c, 65521);
    let k: int = (if a >= 262084 { 4int } else { 0int }) + (if b >= 131042 { 2int } else { 0int }) + (if c >= 65521 { 1int } else { 0int });
    assert(a == 65521 * k + e);
    vstd::arithmetic::div_mod::lemma_mod_multiples_vanish(k, e as int, 65521);
    vstd::arithmetic::div_mod::lemma_small_mod(e, 65521);
}

/// One conditional subtraction of a public word `c`, run by both parties.
#[verifier::rlimit(40)]
proof fn lemma_sub_const_two_party(
    pg: Party,
    pe: Party,
    hf: spec_fn(u128, u64) -> u128,
    sg: Seq<u128>,
    se: Seq<u128>,
    sb: Seq<bool>,
    c: u32,
    rest: Seq<u128>,
)
    requires
        in_step(pg, pe),
        sg.len() == 32,
        se.len() == 32,
        sb.len() == 32,
        shares_of(sg, se, pg.state.delta, sb, 32),
        bits_val(sb, 32) < 0x8000_0000,
        c < 0x8000_0000,
        pe.link.pending == sent_between(pg, sub_if_greater_spec(pg, hf, sg, word_shares(pg, c)).unwrap().0) + rest,
    ensures
        sub_if_greater_spec(pg, hf, sg, word_shares(pg, c)) is Some,
        sub_if_greater_spec(pe, hf, se, word_shares(pe, c)) is Some,
        in_step(
            sub_if_greater_spec(pg, hf, sg, word_shares(pg, c)).unwrap().0,
            sub_if_greater_spec(pe, hf, se, word_shares(pe, c)).unwrap().0,
        ),
        sub_if_greater_spec(pg, hf, sg, word_shares(pg, c)).unwrap().0.state.delta == pg.state.delta,
        sub_if_greater_spec(pe, hf, se, word_shares(pe, c)).unwrap().0.link.pending == rest,
        sub_if_greater_spec(pe, hf, se, word_shares(pe, c)).unwrap().0.link.pending_bits == pe.link.pending_bits,
        sub_if_greater_spec(pg, hf, sg, word_shares(pg, c)).unwrap().1.len() == 32,
        sub_if_greater_spec(pe, hf, se, word_shares(pe, c)).unwrap().1.len() == 32,
        exists|ob: Seq<bool>| {
            &&& ob.len() == 32
            &&& shares_of(
                sub_if_greater_spec(pg, hf, sg, word_shares(pg, c)).unwrap().1,
                sub_if_greater_spec(pe, hf, se, word_shares(pe, c)).unwrap().1,
                pg.state.delta,
                ob,
                32,
            )
            &&& bits_val(ob, 32) == sub_if_greater_val(bits_val(sb, 32), c as nat)
        },
{
    lemma2_to64();
    lemma_word_shares_two_party(pg, pe, c, c);
    lemma_word_bits_value(c);
    lemma_sub_if_greater_correct(pg, pe, hf, sg, word_shares(pg, c), se, word_shares(pe, c), sb, word_bits(c), rest);
    let a = bits_val(sb, 32);
    let ob = if a < c { sb } else { crate::two_party::diff_bits(sb, word_bits(c), 32) };
    assert(ob.len() == 32);
}

/// The three conditional subtractions run by both parties (see
/// `mod_p_subtract`): a value below 8p comes out as its residue mod p.
#[verifier::rlimit(40)]
proof fn lemma_subtract_two_party(
    pg: Party,
    pe: Party,
    hf: spec_fn(u128, u64) -> u128,
    sg: Seq<u128>,
    se: Seq<u128>,
    sb: Seq<bool>,
    rest: Seq<u128>,
)
    requires
        in_step(pg, pe),
        sg.len() == 32,
        se.len() == 32,
        sb.len() == 32,
        shares_of(sg, se, pg.state.delta, sb, 32),
        bits_val(sb, 32) < 8 * 65521,
        pe.link.pending == sent_between(pg, mod_p_subtract(pg, hf, sg).unwrap().0) + rest,
    ensures
        mod_p_subtract(pg, hf, sg) is Some,
        mod_p_subtract(pe, hf, se) is Some,
        in_step(mod_p_subtract(pg, hf, sg).unwrap().0, mod_p_subtract(pe, hf, se).unwrap().0),
        mod_p_subtract(pe, hf, se).unwrap().0.link.pending == rest,
        mod_p_subtract(pe, hf, se).unwrap().0.link.pending_bits == pe.link.pending_bits,
        exists|ob: Seq<bool>| {
            &&& ob.len() == 32
            &&& shares_of(mod_p_subtract(pg, hf, sg).unwrap().1, mod_p_subtract(pe, hf, se).unwrap().1, pg.state.delta, ob, 32)
            &&& bits_val(ob, 32) == bits_val(sb, 32) % 65521
        },
{
    lemma_sub_if_greater_gen(pg, hf, sg, word_shares(pg, 262084u32));
    let (p3g, s3g) = sub_if_greater_spec(pg, hf, sg, word_shares(pg, 262084u32)).unwrap();
    lemma_sub_if_greater_gen(p3g, hf, s3g, word_shares(p3g, 131042u32));
    let (p4g, s4g) = sub_if_greater_spec(p3g, hf, s3g, word_shares(p3g, 131042u32)).unwrap();
    lemma_sub_if_greater_gen(p4g, hf, s4g, word_shares(p4g, 65521u32));
    let p5g = sub_if_greater_spec(p4g, hf, s4g, word_shares(p4g, 65521u32)).unwrap().0;
    lemma_sent_chain(p3g, p4g, p5g);
    lemma_sent_chain(pg, p3g, p5g);
    let a2 = bits_val(sb, 32);
    assert(pe.link.pending =~= sent_between(pg, p3g) + (sent_between(p3g, p5g) + rest));
    lemma_sub_const_two_party(pg, pe, hf, sg, se, sb, 262084u32, sent_between(p3g, p5g) + rest);
    let (p3e, s3e) = sub_if_greater_spec(pe, hf, se, word_shares(pe, 262084u32)).unwrap();
    let b3 = choose|ob: Seq<bool>| {
        &&& ob.len() == 32
        &&& shares_of(s3g, s3e, pg.state.delta, ob, 32)
        &&& bits_val(ob, 32) == sub_if_greater_val(a2, 262084)
    };
    let a3 = sub_if_greater_val(a2, 262084);
    assert(sent_between(p3g, p5g) + rest =~= sent_between(p3g, p4g) + (sent_between(p4g, p5g) + rest));
    lemma_sub_const_two_party(p3g, p3e, hf, s3g, s3e, b3, 131042u32, sent_between(p4g, p5g) + rest);
    let (p4e, s4e) = sub_if_greater_spec(p3e, hf, s3e, word_shares(p3e, 131042u32)).unwrap();
    let b4 = choose|ob: Seq<bool>| {
        &&& ob.len() == 32
        &&& shares_of(s4g, s4e, pg.state.delta, ob, 32)
        &&& bits_val(ob, 32) == sub_if_greater_val(a3, 131042)
    };
    let a4 = sub_if_greater_val(a3, 131042);
    lemma_sub_const_two_party(p4g, p4e, hf, s4g, s4e, b4, 65521u32, rest);
    lemma_three_reductions(a2);
}

/// The last stage of the reduction run by both parties (see
/// `mod_p_reduce`): the output carries `(s + r + b * (p - 2^32 mod p)) mod p`
/// for the value `s` of the input, the residue `r` and the wrap bit `b`.
#[verifier::rlimit(60)]
proof fn lemma_reduce_two_party(
    pg: Party,
    pe: Party,
    hf: spec_fn(u128, u64) -> u128,
    sg: Seq<u128>,
    se: Seq<u128>,
    sb: Seq<bool>,
    rg: u32,
    re: u32,
    bg: u128,
    bb: bool,
    rest: Seq<u128>,
)
    requires
        in_step(pg, pe),
        sg.len() == 32,
        se.len() == 32,
        sb.len() == 32,
        shares_of(sg, se, pg.state.delta, sb, 32),
        bits_val(sb, 32) + rg + 65296 < 8 * 65521,
        pe.link.pending == sent_between(pg, mod_p_reduce(pg, hf, sg, rg, bg).unwrap().0) + rest,
    ensures
        mod_p_reduce(pg, hf, sg, rg, bg) is Some,
        mod_p_reduce(pe, hf, se, re, bg ^ sel(bb, pg.state.delta)) is Some,
        in_step(mod_p_reduce(pg, hf, sg, rg, bg).unwrap().0, mod_p_reduce(pe, hf, se, re, bg ^ sel(bb, pg.state.delta)).unwrap().0),
        mod_p_reduce(pg, hf, sg, rg, bg).unwrap().0.state.delta == pg.state.delta,
        sent_extends(pg, mod_p_reduce(pg, hf, sg, rg, bg).unwrap().0),
        mod_p_reduce(pg, hf, sg, rg, bg).unwrap().0.link.sent_bits == pg.link.sent_bits,
        mod_p_reduce(pe, hf, se, re, bg ^ sel(bb, pg.state.delta)).unwrap().0.link.pending == rest,
        mod_p_reduce(pe, hf, se, re, bg ^ sel(bb, pg.state.delta)).unwrap().0.link.pending_bits == pe.link.pending_bits,
        exists|ob: Seq<bool>| {
            &&& ob.len() == 32
            &&& shares_of(
                mod_p_reduce(pg, hf, sg, rg, bg).unwrap().1,
                mod_p_reduce(pe, hf, se, re, bg ^ sel(bb, pg.state.delta)).unwrap().1,
                pg.state.delta,
                ob,
                32,
            )
            &&& bits_val(ob, 32) == (bits_val(sb, 32) + rg + (if bb { 65296nat } else { 0nat })) % 65521
        },
{
    reveal(mod_p_reduce);
    let d = pg.state.delta;
    let be = bg ^ sel(bb, d);
    let fix = wrap_fix();
    lemma_add_spec_gen(pg, hf, 32, sg, word_shares(pg, rg));
    let (p1g, s1g) = add_spec(pg, hf, 32, sg, word_shares(pg, rg)).unwrap();
    lemma_add_spec_gen(p1g, hf, 32, s1g, scaled_shares(bg, fix));
    let (p2g, s2g) = add_spec(p1g, hf, 32, s1g, scaled_shares(bg, fix)).unwrap();
    let p5g = mod_p_subtract(p2g, hf, s2g).unwrap().0;
    lemma_subtract_gen(p2g, hf, s2g);
    lemma_sent_chain(p1g, p2g, p5g);
    lemma_sent_chain(pg, p1g, p5g);
    // The residue.
    lemma_word_shares_two_party(pg, pe, rg, re);
    lemma_word_bits_value(rg);
    let sv = bits_val(sb, 32);
    lemma2_to64();
    assert(pe.link.pending =~= sent_between(pg, p1g) + (sent_between(p1g, p5g) + rest));
    lemma_integer_add_correct(pg, pe, hf, 32, sg, word_shares(pg, rg), se, word_shares(pe, re), sb, word_bits(rg), sent_between(p1g, p5g) + rest);
    let (p1e, s1e) = add_spec(pe, hf, 32, se, word_shares(pe, re)).unwrap();
    let b1 = crate::two_party::sum_bits(sb, word_bits(rg), 32);
    vstd::arithmetic::div_mod::lemma_small_mod((sv + rg) as nat, pow2(32));
    // The wrap correction.
    lemma_scaled_shares_two_party(bg, bb, fix, d);
    let fb = scaled_bits(bb, fix);
    let fv: nat = if bb { 65296nat } else { 0nat };
    assert(sent_between(p1g, p5g) + rest =~= sent_between(p1g, p2g) + (sent_between(p2g, p5g) + rest));
    lemma_integer_add_correct(p1g, p1e, hf, 32, s1g, scaled_shares(bg, fix), s1e, scaled_shares(be, fix), b1, fb, sent_between(p2g, p5g) + rest);
    let (p2e, s2e) = add_spec(p1e, hf, 32, s1e, scaled_shares(be, fix)).unwrap();
    let b2 = crate::two_party::sum_bits(b1, fb, 32);
    vstd::arithmetic::div_mod::lemma_small_mod((sv + rg + fv) as nat, pow2(32));
    assert(bits_val(b2, 32) == sv + rg + fv);
    lemma_subtract_two_party(p2g, p2e, hf, s2g, s2e, b2, rest);
}

/// The generator's three conditional subtractions never fail and only
/// append to what it sent.
proof fn lemma_subtract_gen(pg: Party, hf: spec_fn(u128, u64) -> u128, s: Seq<u128>)
    requires
        is_gen(pg),
    ensures
        mod_p_subtract(pg, hf, s) is Some,
        is_gen(mod_p_subtract(pg, hf, s).unwrap().0),
        mod_p_subtract(pg, hf, s).unwrap().0.state.delta == pg.state.delta,
        sent_extends(pg, mod_p_subtract(pg, hf, s).unwrap().0),
        mod_p_subtract(pg, hf, s).unwrap().0.link.sent_bits == pg.link.sent_bits,
{
    lemma_sub_if_greater_gen(pg, hf, s, word_shares(pg, 262084u32));
    let (p3, s3) = sub_if_greater_spec(pg, hf, s, word_shares(pg, 262084u32)).unwrap();
    lemma_sub_if_greater_gen(p3, hf, s3, word_shares(p3, 131042u32));
    let (p4, s4) = sub_if_greater_spec(p3, hf, s3, word_shares(p3, 131042u32)).unwrap();
    lemma_sub_if_greater_gen(p4, hf, s4, word_shares(p4, 65521u32));
    let p5 = sub_if_greater_spec(p4, hf, s4, word_shares(p4, 65521u32)).unwrap().0;
    lemma_sent_chain(p3, p4, p5);
    lemma_sent_chain(pg, p3, p5);
}

/// Bits above `n` that are all clear add nothing.
proof fn lemma_bits_val_high_zero(b: Seq<bool>, n: nat, m: nat)
    requires
        n <= m,
        forall|i: int| n <= i < m ==> !b[i],
    ensures
        bits_val(b, m) == bits_val(b, n),
    decreases m,
{
    if m > n {
        lemma_bits_val_high_zero(b, n, (m - 1) as nat);
    }
}

/// Splitting the bits at `n`: the low `n` bits plus `2^n` times the next `m`.
pub(crate) proof fn lemma_bits_val_split(b: Seq<bool>, n: nat, m: nat)
    requires
        b.len() >= n + m,
    ensures
        bits_val(b, n + m) == bits_val(b, n) + bits_val(b.subrange(n as int, (n + m) as int), m) * pow2(n),
    decreases m,
{
    let t = b.subrange(n as int, (n + m) as int);
    if m == 0 {
        assert(bits_val(t, 0) == 0);
        assert(0 * pow2(n) == 0);
    } else {
        let j = (m - 1) as nat;
        lemma_bits_val_split(b, n, j);
        lemma_bits_val_ext(t, b.subrange(n as int, (n + j) as int), j);
        vstd::arithmetic::power2::lemma_pow2_adds(n, j);
        assert(t[j as int] == b[(n + j) as int]);
        let tv = bits_val(t, j);
        let pn = pow2(n);
        let pj = pow2(j);
        assert((tv + (if t[j as int] { pj } else { 0 })) * pn == tv * pn + (if t[j as int] { pn * pj } else { 0 })) by (nonlinear_arith);
        assert(bits_val(b, n + m) == bits_val(b, (n + j) as nat) + if b[(n + j) as int] { pow2((n + j) as nat) } else { 0 });
        assert(bits_val(t, m) == bits_val(t, j) + if t[j as int] { pj } else { 0 });
    }
}

/// The opening stage run by both parties (see `mod_p_open_borrow`): the
/// revealed difference `x - mask` carries its bits, the evaluator's
/// colours are those bits, and the borrow carries whether the
/// subtraction wrapped.
#[verifier::rlimit(40)]
proof fn lemma_open_two_party(
    pg: Party,
    pe: Party,
    hf: spec_fn(u128, u64) -> u128,
    xg: Seq<u128>,
    xe: Seq<u128>,
    xb: Seq<bool>,
    mg: Seq<u128>,
    me: Seq<u128>,
    mb: Seq<bool>,
    rest: Seq<u128>,
    rest_bits: Seq<bool>,
)
    requires
        in_step(pg, pe),
        xg.len() == 32,
        xe.len() == 32,
        xb.len() == 32,
        mg.len() == 32,
        me.len() == 32,
        mb.len() == 32,
        shares_of(xg, xe, pg.state.delta, xb, 32),
        shares_of(mg, me, pg.state.delta, mb, 32),
        pe.link.pending == sent_between(pg, mod_p_open_borrow(pg, hf, xg, mg).unwrap().0) + rest,
        pe.link.pending_bits == sub_prefix(pg, hf, xg, mg, 32).unwrap().1.map_values(|x: u128| lsb(x)) + rest_bits,
    ensures
        mod_p_open_borrow(pg, hf, xg, mg) is Some,
        mod_p_open_borrow(pe, hf, xe, me) is Some,
        in_step(mod_p_open_borrow(pg, hf, xg, mg).unwrap().0, mod_p_open_borrow(pe, hf, xe, me).unwrap().0),
        mod_p_open_borrow(pg, hf, xg, mg).unwrap().0.state.delta == pg.state.delta,
        sent_extends(pg, mod_p_open_borrow(pg, hf, xg, mg).unwrap().0),
        mod_p_open_borrow(pg, hf, xg, mg).unwrap().0.link.sent_bits == pg.link.sent_bits + sub_prefix(
            pg,
            hf,
            xg,
            mg,
            32,
        ).unwrap().1.map_values(|x: u128| lsb(x)),
        mod_p_open_borrow(pe, hf, xe, me).unwrap().0.link.pending == rest,
        mod_p_open_borrow(pe, hf, xe, me).unwrap().0.link.pending_bits == rest_bits,
        mod_p_open_borrow(pg, hf, xg, mg).unwrap().1.len() == 32,
        mod_p_open_borrow(pe, hf, xe, me).unwrap().1.len() == 32,
        shares_of(
            mod_p_open_borrow(pg, hf, xg, mg).unwrap().1,
            mod_p_open_borrow(pe, hf, xe, me).unwrap().1,
            pg.state.delta,
            diff_bits(xb, mb, 32),
            32,
        ),
        forall|k: int| 0 <= k < 32 ==> #[trigger] lsb(mod_p_open_borrow(pe, hf, xe, me).unwrap().1[k]) == diff_bits(xb, mb, 32)[k],
        mod_p_open_borrow(pe, hf, xe, me).unwrap().2 == mod_p_open_borrow(pg, hf, xg, mg).unwrap().2 ^ sel(
            borrow_bit(xb, mb, 32),
            pg.state.delta,
        ),
{
    reveal(mod_p_open_borrow);
    let d = pg.state.delta;
    lemma_sub_prefix_gen_extends(pg, hf, xg, mg, 32);
    let (p1g, diffg, bg) = sub_prefix(pg, hf, xg, mg, 32).unwrap();
    lemma_sub_prefix_two_party(pg, pe, hf, xg, mg, xe, me, xb, mb, 32, rest);
    let (p1e, diffe, be) = sub_prefix(pe, hf, xe, me, 32).unwrap();
    let db = diff_bits(xb, mb, 32);
    assert(shares_of(diffg, diffe, d, db, 32)) by {
        assert forall|k: int| 0 <= k < 32 implies #[trigger] diffe[k] == diffg[k] ^ sel(db[k], d) by {
            assert(diffe[k] == diffg[k] ^ sel(diff_bit(xb, mb, k as nat), d));
        }
    }
    lemma_reveal_two_party(p1g, p1e, diffg, diffe, db, rest_bits);
}

/// The lookup stage run by both parties (see `mod_p_lookup`): over a
/// revealed vector whose evaluator colours are its bits `mb`, the sum
/// carries the low 16 bits of its value plus the residues of the two
/// upper chunks.
#[verifier::rlimit(80)]
proof fn lemma_lookup_two_party(
    pg: Party,
    pe: Party,
    hf: spec_fn(u128, u64) -> u128,
    mg: Seq<u128>,
    me: Seq<u128>,
    mb: Seq<bool>,
    rest: Seq<u128>,
)
    requires
        in_step(pg, pe),
        mg.len() == 32,
        me.len() == 32,
        mb.len() == 32,
        shares_of(mg, me, pg.state.delta, mb, 32),
        forall|k: int| 0 <= k < 32 ==> #[trigger] lsb(me[k]) == mb[k],
        pe.link.pending == sent_between(pg, mod_p_lookup(pg, hf, mg).unwrap().0) + rest,
    ensures
        mod_p_lookup(pg, hf, mg) is Some,
        mod_p_lookup(pe, hf, me) is Some,
        in_step(mod_p_lookup(pg, hf, mg).unwrap().0, mod_p_lookup(pe, hf, me).unwrap().0),
        mod_p_lookup(pg, hf, mg).unwrap().0.state.delta == pg.state.delta,
        sent_extends(pg, mod_p_lookup(pg, hf, mg).unwrap().0),
        mod_p_lookup(pg, hf, mg).unwrap().0.link.sent_bits == pg.link.sent_bits,
        mod_p_lookup(pe, hf, me).unwrap().0.link.pending == rest,
        mod_p_lookup(pe, hf, me).unwrap().0.link.pending_bits == pe.link.pending_bits,
        mod_p_lookup(pg, hf, mg).unwrap().1.len() == 32,
        mod_p_lookup(pe, hf, me).unwrap().1.len() == 32,
        exists|sb: Seq<bool>| {
            &&& sb.len() == 32
            &&& shares_of(mod_p_lookup(pg, hf, mg).unwrap().1, mod_p_lookup(pe, hf, me).unwrap().1, pg.state.delta, sb, 32)
            &&& bits_val(sb, 32) == bits_val(mb, 16) + (bits_val(mb.subrange(16, 24), 8) * 65536) % 65521 + (bits_val(
                mb.subrange(24, 32),
                8,
            ) * 16777216) % 65521
        },
{
    reveal(mod_p_lookup);
    let d = pg.state.delta;
    let t16 = ModpTable { shift: 16 };
    let t24 = ModpTable { shift: 24 };
    let oneg = seq![d];
    let onee = seq![pe.state.delta];
    let c1g = mg.subrange(16, 24);
    let c1e = me.subrange(16, 24);
    let c2g = mg.subrange(24, 32);
    let c2e = me.subrange(24, 32);
    let lowg = Seq::new(32, |i: int| if i < 16 { mg[i] } else { 0u128 });
    let lowe = Seq::new(32, |i: int| if i < 16 { me[i] } else { 0u128 });
    // The generator's stages.
    lemma_unary_step_gen(pg, hf, t16, c1g, oneg);
    let (p1g, midcg) = unary_step(pg, hf, t16, c1g, oneg).unwrap();
    lemma_unary_step_gen(p1g, hf, t24, c2g, oneg);
    let (p2g, highcg) = unary_step(p1g, hf, t24, c2g, oneg).unwrap();
    let midg = Seq::new(32, |k: int| midcg(k, 0));
    let highg = Seq::new(32, |k: int| highcg(k, 0));
    lemma_add_spec_gen(p2g, hf, 32, lowg, midg);
    let (p3g, s1g) = add_spec(p2g, hf, 32, lowg, midg).unwrap();
    lemma_add_spec_gen(p3g, hf, 32, s1g, highg);
    let p4g = add_spec(p3g, hf, 32, s1g, highg).unwrap().0;
    lemma_sent_chain(p2g, p3g, p4g);
    lemma_sent_chain(p1g, p2g, p4g);
    lemma_sent_chain(pg, p1g, p4g);
    lemma2_to64();
    // The shares of the constant 1 and of the chunks.
    assert(shares_of(oneg, onee, d, seq![true], 1)) by {
        crate::label::lemma_xor_laws(d, d, 0);
    }
    let b1 = mb.subrange(16, 24);
    let b2 = mb.subrange(24, 32);
    assert(shares_of(c1g, c1e, d, b1, 8)) by {
        assert forall|k: int| 0 <= k < 8 implies #[trigger] c1e[k] == c1g[k] ^ sel(b1[k], d) by {
            assert(me[16 + k] == mg[16 + k] ^ sel(mb[16 + k], d));
        }
    }
    assert(shares_of(c2g, c2e, d, b2, 8)) by {
        assert forall|k: int| 0 <= k < 8 implies #[trigger] c2e[k] == c2g[k] ^ sel(b2[k], d) by {
            assert(me[24 + k] == mg[24 + k] ^ sel(mb[24 + k], d));
        }
    }
    // The evaluator's colours of the chunks are their bits.
    lemma_colors_value_bits(c1e);
    lemma_colors_value_bits(c2e);
    lemma_bits_val_ext(Seq::new(8, |k: int| lsb(c1e[k])), b1, 8);
    lemma_bits_val_ext(Seq::new(8, |k: int| lsb(c2e[k])), b2, 8);
    lemma_bits_val_bound(b1, 8);
    lemma_bits_val_bound(b2, 8);
    let v1 = bits_val(b1, 8);
    let v2 = bits_val(b2, 8);
    // The two lookups.
    assert(pe.link.pending =~= sent_between(pg, p1g) + (sent_between(p1g, p4g) + rest));
    lemma_unary_step_two_party(pg, pe, hf, t16, c1g, c1e, b1, oneg, onee, seq![true], sent_between(p1g, p4g) + rest);
    let (p1e, midce) = unary_step(pe, hf, t16, c1e, onee).unwrap();
    assert(sent_between(p1g, p4g) + rest =~= sent_between(p1g, p2g) + (sent_between(p2g, p4g) + rest));
    lemma_unary_step_two_party(p1g, p1e, hf, t24, c2g, c2e, b2, oneg, onee, seq![true], sent_between(p2g, p4g) + rest);
    let (p2e, highce) = unary_step(p1e, hf, t24, c2e, onee).unwrap();
    let r1 = t16.spec_row(v1 as usize);
    let r2 = t24.spec_row(v2 as usize);
    let mide = Seq::new(32, |k: int| midce(k, 0));
    let highe = Seq::new(32, |k: int| highce(k, 0));
    let midb = Seq::new(32, |k: int| nat_bit(r1 as nat, k as nat));
    let highb = Seq::new(32, |k: int| nat_bit(r2 as nat, k as nat));
    assert(shares_of(midg, mide, d, midb, 32)) by {
        assert forall|k: int| 0 <= k < 32 implies #[trigger] mide[k] == midg[k] ^ sel(midb[k], d) by {
            lemma_row_bit_value(r1, k);
            assert(midce(k, 0) == midcg(k, 0) ^ sel(row_bit(t16.spec_row(colors_value(c1e) as usize), k) && true, d));
        }
    }
    assert(shares_of(highg, highe, d, highb, 32)) by {
        assert forall|k: int| 0 <= k < 32 implies #[trigger] highe[k] == highg[k] ^ sel(highb[k], d) by {
            lemma_row_bit_value(r2, k);
            assert(highce(k, 0) == highcg(k, 0) ^ sel(row_bit(t24.spec_row(colors_value(c2e) as usize), k) && true, d));
        }
    }
    assert(r1 as nat == (v1 * 65536) % 65521);
    assert(r2 as nat == (v2 * 16777216) % 65521);
    lemma_bits_of_value(r1 as nat, 32);
    lemma_bits_of_value(r2 as nat, 32);
    vstd::arithmetic::div_mod::lemma_small_mod(r1 as nat, pow2(32));
    vstd::arithmetic::div_mod::lemma_small_mod(r2 as nat, pow2(32));
    // The low half.
    let lowb = Seq::new(32, |i: int| i < 16 && mb[i]);
    assert(shares_of(lowg, lowe, d, lowb, 32)) by {
        assert forall|k: int| 0 <= k < 32 implies #[trigger] lowe[k] == lowg[k] ^ sel(lowb[k], d) by {
            if k >= 16 {
                lemma_xor_zero(0u128);
            }
        }
    }
    lemma_bits_val_high_zero(lowb, 16, 32);
    lemma_bits_val_ext(lowb, mb, 16);
    lemma_bits_val_bound(mb, 16);
    let lv = bits_val(mb, 16);
    // The two additions.
    assert(sent_between(p2g, p4g) + rest =~= sent_between(p2g, p3g) + (sent_between(p3g, p4g) + rest));
    lemma_integer_add_correct(p2g, p2e, hf, 32, lowg, midg, lowe, mide, lowb, midb, sent_between(p3g, p4g) + rest);
    let (p3e, s1e) = add_spec(p2e, hf, 32, lowe, mide).unwrap();
    let sb1 = crate::two_party::sum_bits(lowb, midb, 32);
    vstd::arithmetic::div_mod::lemma_small_mod((lv + r1) as nat, pow2(32));
    lemma_integer_add_correct(p3g, p3e, hf, 32, s1g, highg, s1e, highe, sb1, highb, rest);
    let sb2 = crate::two_party::sum_bits(sb1, highb, 32);
    vstd::arithmetic::div_mod::lemma_small_mod((lv + r1 + r2) as nat, pow2(32));
    assert(bits_val(sb2, 32) == lv + r1 + r2);
    assert(sb2.len() == 32);
}

/// The generator's opening stage never fails, only appends to what it
/// sent, and sends the colours of the difference as bits.
proof fn lemma_open_gen(pg: Party, hf: spec_fn(u128, u64) -> u128, x: Seq<u128>, mask: Seq<u128>)
    requires
        is_gen(pg),
    ensures
        mod_p_open_borrow(pg, hf, x, mask) is Some,
        is_gen(mod_p_open_borrow(pg, hf, x, mask).unwrap().0),
        mod_p_open_borrow(pg, hf, x, mask).unwrap().0.state.delta == pg.state.delta,
        sent_extends(pg, mod_p_open_borrow(pg, hf, x, mask).unwrap().0),
        mod_p_open_borrow(pg, hf, x, mask).unwrap().0.link.sent_bits == pg.link.sent_bits + sub_prefix(
            pg,
            hf,
            x,
            mask,
            32,
        ).unwrap().1.map_values(|v: u128| lsb(v)),
{
    reveal(mod_p_open_borrow);
    lemma_sub_prefix_gen_extends(pg, hf, x, mask, 32);
}

/// The generator's lookup stage never fails and only appends to what it
/// sent.
proof fn lemma_lookup_gen(pg: Party, hf: spec_fn(u128, u64) -> u128, masked: Seq<u128>)
    requires
        is_gen(pg),
    ensures
        mod_p_lookup(pg, hf, masked) is Some,
        is_gen(mod_p_lookup(pg, hf, masked).unwrap().0),
        mod_p_lookup(pg, hf, masked).unwrap().0.state.delta == pg.state.delta,
        sent_extends(pg, mod_p_lookup(pg, hf, masked).unwrap().0),
        mod_p_lookup(pg, hf, masked).unwrap().0.link.sent_bits == pg.link.sent_bits,
{
    reveal(mod_p_lookup);
    let d = pg.state.delta;
    let oneg = seq![d];
    lemma_unary_step_gen(pg, hf, ModpTable { shift: 16 }, masked.subrange(16, 24), oneg);
    let (p1, midc) = unary_step(pg, hf, ModpTable { shift: 16 }, masked.subrange(16, 24), oneg).unwrap();
    lemma_unary_step_gen(p1, hf, ModpTable { shift: 24 }, masked.subrange(24, 32), oneg);
    let (p2, highc) = unary_step(p1, hf, ModpTable { shift: 24 }, masked.subrange(24, 32), oneg).unwrap();
    let low = Seq::new(32, |i: int| if i < 16 { masked[i] } else { 0u128 });
    let mid = Seq::new(32, |k: int| midc(k, 0));
    let high = Seq::new(32, |k: int| highc(k, 0));
    lemma_add_spec_gen(p2, hf, 32, low, mid);
    let (p3, s1) = add_spec(p2, hf, 32, low, mid).unwrap();
    lemma_add_spec_gen(p3, hf, 32, s1, high);
    let p4 = add_spec(p3, hf, 32, s1, high).unwrap().0;
    lemma_sent_chain(p2, p3, p4);
    lemma_sent_chain(p1, p2, p4);
    lemma_sent_chain(pg, p1, p4);
}

/// The generator's last stage never fails and only appends to what it
/// sent.
proof fn lemma_reduce_gen(pg: Party, hf: spec_fn(u128, u64) -> u128, sum: Seq<u128>, r: u32, borrow: u128)
    requires
        is_gen(pg),
    ensures
        mod_p_reduce(pg, hf, sum, r, borrow) is Some,
        sent_extends(pg, mod_p_reduce(pg, hf, sum, r, borrow).unwrap().0),
        mod_p_reduce(pg, hf, sum, r, borrow).unwrap().0.link.sent_bits == pg.link.sent_bits,
{
    reveal(mod_p_reduce);
    lemma_add_spec_gen(pg, hf, 32, sum, word_shares(pg, r));
    let (p1, s1) = add_spec(pg, hf, 32, sum, word_shares(pg, r)).unwrap();
    lemma_add_spec_gen(p1, hf, 32, s1, scaled_shares(borrow, wrap_fix()));
    let (p2, s2) = add_spec(p1, hf, 32, s1, scaled_shares(borrow, wrap_fix())).unwrap();
    lemma_subtract_gen(p2, hf, s2);
    let p3 = mod_p_subtract(p2, hf, s2).unwrap().0;
    lemma_sent_chain(p1, p2, p3);
    lemma_sent_chain(pg, p1, p3);
}

/// The residue arithmetic behind the reduction: the looked-up chunks, the
/// mask's residue and the wrap correction add up to `x` modulo 65521.
proof fn lemma_reduction_residue(x: int, m: int, masked: int, wrap: bool, low: int, c1: int, c2: int)
    requires
        0 <= x,
        0 <= m,
        0 <= low,
        0 <= c1,
        0 <= c2,
        masked == low + c1 * 65536 + c2 * 16777216,
        masked - (if wrap { 0x1_0000_0000int } else { 0int }) == x - m,
    ensures
        (low + (c1 * 65536) % 65521 + (c2 * 16777216) % 65521 + m % 65521 + (if wrap { 65296int } else { 0int })) % 65521
            == x % 65521,
{
    let p = 65521int;
    let a1 = c1 * 65536;
    let a2 = c2 * 16777216;
    vstd::arithmetic::div_mod::lemma_fundamental_div_mod(a1, p);
    vstd::arithmetic::div_mod::lemma_fundamental_div_mod(a2, p);
    vstd::arithmetic::div_mod::lemma_fundamental_div_mod(m, p);
    let w: int = if wrap { 1 } else { 0 };
    let k = w * 65552 - a1 / p - a2 / p - m / p;
    assert(low + a1 % p + a2 % p + m % p + (if wrap { 65296int } else { 0int }) == p * k + x) by (nonlinear_arith)
        requires
            a1 == p * (a1 / p) + a1 % p,
            a2 == p * (a2 / p) + a2 % p,
            m == p * (m / p) + m % p,
            masked == low + a1 + a2,
            masked - w * 0x1_0000_0000 == x - m,
            k == w * 65552 - a1 / p - a2 / p - m / p,
            p == 65521,
            w == 0 || w == 1,
            (if wrap { 65296int } else { 0int }) == w * 65296,
    ;
    vstd::arithmetic::div_mod::lemma_mod_multiples_vanish(k, x, p);
}

/// Two-party correctness of the reduction modulo 65521 (`mod_p`): when
/// the generator and the evaluator are in step, the evaluator's shares of
/// the 32 bits of `x` differ from the generator's by delta exactly on the
/// set bits, the generator masks with the bits of a word `m` (the
/// evaluator's mask bits do not matter), and the evaluator has received
/// the blocks and the bits the generator sends (then `rest` and
/// `rest_bits`), the evaluator's run succeeds and the two output vectors
/// differ by delta exactly on the bits of `x mod 65521`.
#[verifier::rlimit(60)]
pub proof fn lemma_mod_p_correct(
    pg: Party,
    pe: Party,
    hf: spec_fn(u128, u64) -> u128,
    xg: Seq<u128>,
    xe: Seq<u128>,
    xb: Seq<bool>,
    m: u32,
    ebits: Seq<bool>,
    rest: Seq<u128>,
    rest_bits: Seq<bool>,
)
    requires
        in_step(pg, pe),
        xg.len() == 32,
        xe.len() == 32,
        xb.len() == 32,
        shares_of(xg, xe, pg.state.delta, xb, 32),
        pe.link.pending == sent_between(pg, mod_p_spec(pg, hf, xg, word_bits(m)).unwrap().0) + rest,
        pe.link.pending_bits == mod_p_spec(pg, hf, xg, word_bits(m)).unwrap().0.link.sent_bits.skip(
            pg.link.sent_bits.len() as int,
        ) + rest_bits,
    ensures
        mod_p_spec(pg, hf, xg, word_bits(m)) is Some,
        mod_p_spec(pe, hf, xe, ebits) is Some,
        in_step(mod_p_spec(pg, hf, xg, word_bits(m)).unwrap().0, mod_p_spec(pe, hf, xe, ebits).unwrap().0),
        mod_p_spec(pe, hf, xe, ebits).unwrap().0.link.pending == rest,
        mod_p_spec(pe, hf, xe, ebits).unwrap().0.link.pending_bits == rest_bits,
        exists|ob: Seq<bool>| {
            &&& ob.len() == 32
            &&& shares_of(
                mod_p_spec(pg, hf, xg, word_bits(m)).unwrap().1,
                mod_p_spec(pe, hf, xe, ebits).unwrap().1,
                pg.state.delta,
                ob,
                32,
            )
            &&& bits_val(ob, 32) == bits_val(xb, 32) % 65521
        },
{
    let d = pg.state.delta;
    let mbits = word_bits(m);
    let maskg = mod_p_mask(pg, mbits);
    let maske = mod_p_mask(pe, ebits);
    // The mask: the generator's shares of the bits of `m`, the evaluator's zero.
    assert(shares_of(maskg, maske, d, mbits, 32)) by {
        assert forall|k: int| 0 <= k < 32 implies #[trigger] maske[k] == maskg[k] ^ sel(mbits[k], d) by {
            crate::label::lemma_xor_laws(sel(mbits[k], d), sel(mbits[k], d), 0);
        }
    }
    assert forall|i: int| 0 <= i < 32 implies #[trigger] bit32(m, i) == lsb(maskg[i]) by {
        crate::label::lemma_lsb_flip(0u128, d, true);
        lemma_xor_zero(d);
    }
    crate::exp_mod::lemma_colors_word(maskg, m);
    let rg = (m % 65521) as u32;
    // The generator's stages.
    lemma_open_gen(pg, hf, xg, maskg);
    let (p2g, maskedg, bg) = mod_p_open_borrow(pg, hf, xg, maskg).unwrap();
    lemma_lookup_gen(p2g, hf, maskedg);
    let (p3g, sumg) = mod_p_lookup(p2g, hf, maskedg).unwrap();
    lemma_reduce_gen(p3g, hf, sumg, rg, bg);
    let p4g = mod_p_reduce(p3g, hf, sumg, rg, bg).unwrap().0;
    lemma_sent_chain(p2g, p3g, p4g);
    lemma_sent_chain(pg, p2g, p4g);
    let colours = sub_prefix(pg, hf, xg, maskg, 32).unwrap().1.map_values(|v: u128| lsb(v));
    assert(p4g.link.sent_bits.skip(pg.link.sent_bits.len() as int) =~= colours);
    assert(pe.link.pending_bits =~= colours + rest_bits);
    // Opening.
    assert(pe.link.pending =~= sent_between(pg, p2g) + (sent_between(p2g, p4g) + rest));
    lemma_open_two_party(pg, pe, hf, xg, xe, xb, maskg, maske, mbits, sent_between(p2g, p4g) + rest, rest_bits);
    let (p2e, maskede, be) = mod_p_open_borrow(pe, hf, xe, maske).unwrap();
    let mbb = diff_bits(xb, mbits, 32);
    let wrap = borrow_bit(xb, mbits, 32);
    // Lookup.
    assert(sent_between(p2g, p4g) + rest =~= sent_between(p2g, p3g) + (sent_between(p3g, p4g) + rest));
    lemma_lookup_two_party(p2g, p2e, hf, maskedg, maskede, mbb, sent_between(p3g, p4g) + rest);
    let (p3e, sume) = mod_p_lookup(p2e, hf, maskede).unwrap();
    let lv = bits_val(mbb, 16);
    let c1 = bits_val(mbb.subrange(16, 24), 8);
    let c2 = bits_val(mbb.subrange(24, 32), 8);
    let sb = choose|sb: Seq<bool>| {
        &&& sb.len() == 32
        &&& shares_of(sumg, sume, d, sb, 32)
        &&& bits_val(sb, 32) == lv + (c1 * 65536) % 65521 + (c2 * 16777216) % 65521
    };
    // Reduction.
    lemma_bits_val_bound(mbb, 16);
    lemma2_to64();
    let re = (crate::exp_mod::colors_word(maske) % 65521) as u32;
    lemma_reduce_two_party(p3g, p3e, hf, sumg, sume, sb, rg, re, bg, wrap, rest);
    // The value.
    let xv = bits_val(xb, 32);
    crate::two_party::lemma_borrow_value(xb, mbits, 32);
    lemma_word_bits_value(m);
    lemma_bits_val_split(mbb, 16, 8);
    lemma_bits_val_split(mbb, 24, 8);
    assert(mbb.subrange(16, 24) =~= mbb.subrange(16, 24));
    vstd::arithmetic::power2::lemma2_to64();
    assert(bits_val(mbb, 32) == lv + c1 * 65536 + c2 * 16777216) by {
        lemma_bits_val_ext(mbb.subrange(24, 32), mbb.subrange(24, 32), 8);
    }
    lemma_reduction_residue(xv as int, m as int, bits_val(mbb, 32) as int, wrap, lv as int, c1 as int, c2 as int);
}

} // verus!
