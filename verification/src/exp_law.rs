//! Two-party correctness of the one-hot exponentiation (`exponent`): the
//! shares the two parties end with carry the bits of `base^y mod 2^32`.

use vstd::prelude::*;
use vstd::arithmetic::power::{lemma_pow_adds, pow};
use vstd::arithmetic::power2::{lemma2_to64, pow2};
use crate::context::{is_gen, Party};
use crate::exp_mod::{
    chunk_size, colors_word, exp_chunk, exp_prefix, exponent_spec, lemma_chunk_bounds, mod_p_mask, mod_p_open, mul_spec, word_shares,
    ExpTable,
};
use crate::integer_gadgets::sub_spec;
use crate::integer::{bit32, pow32_spec, word32};
use crate::label::lsb;
use crate::one_hot_ops::unary_step;
use crate::product_law::{lemma_integer_multiply_correct, lemma_mul_spec_gen};
use crate::reduction_law::{
    lemma_bits_of_value, lemma_colors_value_bits, lemma_reveal_two_party, lemma_row_bit_value, lemma_unary_step_gen,
    lemma_unary_step_two_party, lemma_word_bits_value, lemma_word_shares_two_party, nat_bit, word_bits,
};
use crate::share::Table;
use crate::two_party::{
    bits_val, diff_bits, in_step, lemma_bits_val_bound, lemma_bits_val_ext, lemma_integer_sub_correct, lemma_sent_chain,
    lemma_sub_prefix_gen_extends, sent_between, sent_extends, shares_of,
};
use crate::unary::{colors_value, row_bit};

verus! {

/// An odd number raised to `2^k` is one more than a multiple of
/// `2^(k+1)`; the result is the multiple's factor.
proof fn lemma_odd_pow_pow2(b: int, k: nat) -> (t: int)
    requires
        b % 2 == 1,
    ensures
        pow(b, pow2(k)) == 1 + t * pow2(k + 1),
    decreases k,
{
    if k == 0 {
        lemma2_to64();
        vstd::arithmetic::power::lemma_pow1(b);
        vstd::arithmetic::div_mod::lemma_fundamental_div_mod(b, 2);
        assert(pow2(0) == 1 && pow2(1) == 2);
        assert(pow(b, pow2(0)) == b);
        assert(b == 1 + (b / 2) * 2) by (nonlinear_arith)
            requires
                b == 2 * (b / 2) + b % 2,
                b % 2 == 1,
        ;
        b / 2
    } else {
        let j = (k - 1) as nat;
        let s = lemma_odd_pow_pow2(b, j);
        let q = pow2(j);
        let p = pow2(k);
        vstd::arithmetic::power2::lemma_pow2_unfold(k);
        vstd::arithmetic::power2::lemma_pow2_unfold(k + 1);
        assert(p == 2 * q);
        lemma_pow_adds(b, q, q);
        assert(q + q == p);
        let x = pow(b, q);
        let t = s + s * s * q;
        assert(x * x == 1 + t * (2 * p)) by (nonlinear_arith)
            requires
                x == 1 + s * p,
                p == 2 * q,
                t == s + s * s * q,
        ;
        assert(pow(b, p) == x * x);
        assert(pow2(k + 1) == 2 * p);
        t
    }
}

/// For an odd base, adding `2^32` to the exponent does not change the
/// power modulo `2^32`.
proof fn lemma_odd_pow_wrap(b: int, e: nat)
    requires
        b % 2 == 1,
    ensures
        pow(b, e + pow2(32)) % word32() == pow(b, e) % word32(),
{
    let t = lemma_odd_pow_pow2(b, 32);
    lemma_pow_adds(b, e, pow2(32));
    vstd::arithmetic::power2::lemma_pow2_unfold(33);
    let m = pow2(32) as int;
    let a = pow(b, e);
    assert(a * (1 + t * (2 * m)) == m * (2 * a * t) + a) by (nonlinear_arith);
    lemma2_to64();
    vstd::arithmetic::div_mod::lemma_mod_multiples_vanish(2 * a * t, a, m);
    assert(m == word32());
}

/// The product of two powers modulo `2^32` is the power of the sum.
proof fn lemma_pow_mul_mod(b: int, e1: nat, e2: nat)
    ensures
        ((pow(b, e1) % word32()) * (pow(b, e2) % word32())) % word32() == pow(b, e1 + e2) % word32(),
{
    lemma2_to64();
    lemma_pow_adds(b, e1, e2);
    vstd::arithmetic::div_mod::lemma_mul_mod_noop_general(pow(b, e1), pow(b, e2), word32());
}

/// The generator's opening never fails, sends no blocks and sends the
/// colours of the masked difference as bits.
proof fn lemma_open_gen(pg: Party, hf: spec_fn(u128, u64) -> u128, y: Seq<u128>, mask: Seq<u128>)
    requires
        is_gen(pg),
    ensures
        sub_spec(pg, hf, 32, y, mask) is Some,
        mod_p_open(pg, hf, y, mask) is Some,
        is_gen(mod_p_open(pg, hf, y, mask).unwrap().0),
        mod_p_open(pg, hf, y, mask).unwrap().0.state.delta == pg.state.delta,
        sent_extends(pg, mod_p_open(pg, hf, y, mask).unwrap().0),
        mod_p_open(pg, hf, y, mask).unwrap().0.link.sent == sub_spec(pg, hf, 32, y, mask).unwrap().0.link.sent,
        mod_p_open(pg, hf, y, mask).unwrap().0.link.sent_bits == pg.link.sent_bits + sub_spec(
            pg,
            hf,
            32,
            y,
            mask,
        ).unwrap().1.map_values(|v: u128| lsb(v)),
{
    reveal(mod_p_open);
    lemma_sub_prefix_gen_extends(pg, hf, y, mask, 31);
}

/// The generator's lookup of one chunk never fails and only appends to
/// what it sent.
proof fn lemma_exp_chunk_gen(q: Party, hf: spec_fn(u128, u64) -> u128, base: u32, masked: Seq<u128>, lo: nat, size: nat)
    requires
        is_gen(q),
    ensures
        exp_chunk(q, hf, base, masked, lo, size) is Some,
        is_gen(exp_chunk(q, hf, base, masked, lo, size).unwrap().0),
        exp_chunk(q, hf, base, masked, lo, size).unwrap().0.state.delta == q.state.delta,
        sent_extends(q, exp_chunk(q, hf, base, masked, lo, size).unwrap().0),
        exp_chunk(q, hf, base, masked, lo, size).unwrap().0.link.sent_bits == q.link.sent_bits,
{
    reveal(exp_chunk);
    lemma_unary_step_gen(
        q,
        hf,
        ExpTable { base, shift: lo as usize },
        masked.subrange(lo as int, (lo + size) as int),
        seq![q.state.delta],
    );
}

/// The generator's first `k` chunks never fail and only append to what it
/// sent.
proof fn lemma_exp_prefix_gen(p: Party, hf: spec_fn(u128, u64) -> u128, base: u32, c: nat, masked: Seq<u128>, k: nat)
    requires
        is_gen(p),
    ensures
        exp_prefix(p, hf, base, c, masked, k) is Some,
        is_gen(exp_prefix(p, hf, base, c, masked, k).unwrap().0),
        exp_prefix(p, hf, base, c, masked, k).unwrap().0.state.delta == p.state.delta,
        sent_extends(p, exp_prefix(p, hf, base, c, masked, k).unwrap().0),
        exp_prefix(p, hf, base, c, masked, k).unwrap().0.link.sent_bits == p.link.sent_bits,
    decreases k,
{
    if k <= 1 {
        lemma_exp_chunk_gen(p, hf, base, masked, 0, c);
    } else {
        lemma_exp_prefix_gen(p, hf, base, c, masked, (k - 1) as nat);
        let (q, res) = exp_prefix(p, hf, base, c, masked, (k - 1) as nat).unwrap();
        let lo = ((k - 1) * c) as nat;
        let size = chunk_size((k - 1) as nat, c);
        lemma_exp_chunk_gen(q, hf, base, masked, lo, size);
        let (r, m) = exp_chunk(q, hf, base, masked, lo, size).unwrap();
        lemma_mul_spec_gen(r, hf, res, m);
        let s = mul_spec(r, hf, res, m).unwrap().0;
        lemma_sent_chain(q, r, s);
        lemma_sent_chain(p, q, s);
    }
}

/// The lookup of one chunk run by both parties: over a revealed vector
/// whose evaluator colours are its bits `mb`, the two looked-up vectors
/// carry `base` to the power of the chunk's digit shifted to its place,
/// modulo `2^32`.
#[verifier::rlimit(40)]
proof fn lemma_exp_chunk_two_party(
    qg: Party,
    qe: Party,
    hf: spec_fn(u128, u64) -> u128,
    base: u32,
    mg: Seq<u128>,
    me: Seq<u128>,
    mb: Seq<bool>,
    lo: nat,
    size: nat,
    rest: Seq<u128>,
)
    requires
        in_step(qg, qe),
        mg.len() == 32,
        me.len() == 32,
        mb.len() == 32,
        shares_of(mg, me, qg.state.delta, mb, 32),
        forall|k: int| 0 <= k < 32 ==> #[trigger] lsb(me[k]) == mb[k],
        1 <= size,
        lo + size <= 32,
        qe.link.pending == sent_between(qg, exp_chunk(qg, hf, base, mg, lo, size).unwrap().0) + rest,
    ensures
        exp_chunk(qg, hf, base, mg, lo, size) matches Some((rg, og)) && exp_chunk(qe, hf, base, me, lo, size) matches Some(
            (re, oe),
        ) && {
            &&& in_step(rg, re)
            &&& rg.state.delta == qg.state.delta
            &&& sent_extends(qg, rg)
            &&& rg.link.sent_bits == qg.link.sent_bits
            &&& re.link.pending == rest
            &&& re.link.pending_bits == qe.link.pending_bits
            &&& og.len() == 32
            &&& oe.len() == 32
            &&& exists|cb: Seq<bool>| {
                &&& cb.len() == 32
                &&& shares_of(og, oe, qg.state.delta, cb, 32)
                &&& bits_val(cb, 32) == pow(base as int, bits_val(mb.subrange(lo as int, (lo + size) as int), size) * pow2(lo))
                    % word32()
            }
        },
{
    reveal(exp_chunk);
    let d = qg.state.delta;
    let table = ExpTable { base, shift: lo as usize };
    let xg = mg.subrange(lo as int, (lo + size) as int);
    let xe = me.subrange(lo as int, (lo + size) as int);
    let xb = mb.subrange(lo as int, (lo + size) as int);
    let oneg = seq![d];
    let onee = seq![qe.state.delta];
    assert(shares_of(oneg, onee, d, seq![true], 1)) by {
        crate::label::lemma_xor_laws(d, d, 0);
    }
    assert(shares_of(xg, xe, d, xb, size)) by {
        assert forall|k: int| 0 <= k < size implies #[trigger] xe[k] == xg[k] ^ crate::label::sel(xb[k], d) by {
            assert(me[lo + k] == mg[lo + k] ^ crate::label::sel(mb[lo + k], d));
        }
    }
    lemma_unary_step_gen(qg, hf, table, xg, oneg);
    assert(exp_chunk(qg, hf, base, mg, lo, size).unwrap().0 == unary_step(qg, hf, table, xg, oneg).unwrap().0);
    lemma_unary_step_two_party(qg, qe, hf, table, xg, xe, xb, oneg, onee, seq![true], rest);
    let (rg, cg) = unary_step(qg, hf, table, xg, oneg).unwrap();
    let (re, ce) = unary_step(qe, hf, table, xe, onee).unwrap();
    // The evaluator's colours of the chunk are its digit.
    lemma_colors_value_bits(xe);
    lemma_bits_val_ext(Seq::new(size, |k: int| lsb(xe[k])), xb, size);
    let v = bits_val(xb, size);
    assert(colors_value(xe) == v);
    lemma_bits_val_bound(xb, size);
    lemma2_to64();
    vstd::arithmetic::power2::lemma_pow2_adds(size, lo);
    if size + lo < 32 {
        vstd::arithmetic::power2::lemma_pow2_strictly_increases(size + lo, 32);
    }
    let pl = pow2(lo);
    let ps = pow2(size);
    assert(v * pl < ps * pl) by (nonlinear_arith)
        requires
            v < ps,
            pl > 0,
    ;
    vstd::arithmetic::power2::lemma_pow2_pos(lo);
    let e = v * pl;
    assert(e < 0x1_0000_0000);
    // The row's exponent is the digit shifted to its place.
    let w = v as u64;
    assert(w == v);
    assert(lo < 32);
    vstd::bits::lemma_u64_shl_is_mul(w, lo as u64);
    assert((w << (lo as u64)) == e);
    assert(crate::exp_mod::exp_index(v as usize, lo as usize) == e);
    let r = table.spec_row(colors_value(xe) as usize);
    let rv = pow(base as int, e) % word32();
    assert(0 <= rv < 0x1_0000_0000) by {
        vstd::arithmetic::div_mod::lemma_mod_bound(pow(base as int, e), word32());
    }
    assert(r as int == rv);
    let cb = Seq::new(32, |k: int| nat_bit(rv as nat, k as nat));
    let og = Seq::new(32, |k: int| cg(k, 0));
    let oe = Seq::new(32, |k: int| ce(k, 0));
    assert(shares_of(og, oe, d, cb, 32)) by {
        assert forall|k: int| 0 <= k < 32 implies #[trigger] oe[k] == og[k] ^ crate::label::sel(cb[k], d) by {
            lemma_row_bit_value(r, k);
            assert(ce(k, 0) == cg(k, 0) ^ crate::label::sel(row_bit(r, k) && seq![true][0], d));
        }
    }
    lemma_bits_of_value(rv as nat, 32);
    vstd::arithmetic::div_mod::lemma_small_mod(rv as nat, pow2(32));
    assert(bits_val(cb, 32) == rv);
}

/// The number of low bits that the first `k` chunks of width `c` cover.
pub open spec fn chunks_len(k: nat, c: nat) -> nat {
    if k * c < 32 {
        k * c
    } else {
        32
    }
}

/// The first `k` chunks run by both parties: the running products carry
/// `base` to the power of the low `chunks_len(k, c)` bits of the revealed
/// vector, modulo `2^32`.
#[verifier::rlimit(60)]
proof fn lemma_exp_prefix_two_party(
    pg: Party,
    pe: Party,
    hf: spec_fn(u128, u64) -> u128,
    base: u32,
    c: nat,
    mg: Seq<u128>,
    me: Seq<u128>,
    mb: Seq<bool>,
    k: nat,
    rest: Seq<u128>,
)
    requires
        in_step(pg, pe),
        32 < usize::BITS,
        mg.len() == 32,
        me.len() == 32,
        mb.len() == 32,
        shares_of(mg, me, pg.state.delta, mb, 32),
        forall|i: int| 0 <= i < 32 ==> #[trigger] lsb(me[i]) == mb[i],
        1 <= c <= 32,
        1 <= k <= (31 + c) / c,
        pe.link.pending == sent_between(pg, exp_prefix(pg, hf, base, c, mg, k).unwrap().0) + rest,
    ensures
        exp_prefix(pg, hf, base, c, mg, k) matches Some((qg, og)) && exp_prefix(pe, hf, base, c, me, k) matches Some(
            (qe, oe),
        ) && {
            &&& in_step(qg, qe)
            &&& qg.state.delta == pg.state.delta
            &&& sent_extends(pg, qg)
            &&& qg.link.sent_bits == pg.link.sent_bits
            &&& qe.link.pending == rest
            &&& qe.link.pending_bits == pe.link.pending_bits
            &&& og.len() == 32
            &&& oe.len() == 32
            &&& exists|ob: Seq<bool>| {
                &&& ob.len() == 32
                &&& shares_of(og, oe, pg.state.delta, ob, 32)
                &&& bits_val(ob, 32) == pow(base as int, bits_val(mb, chunks_len(k, c))) % word32()
            }
        },
    decreases k,
{
    let d = pg.state.delta;
    lemma2_to64();
    if k <= 1 {
        lemma_exp_chunk_two_party(pg, pe, hf, base, mg, me, mb, 0, c, rest);
        lemma_bits_val_ext(mb.subrange(0, c as int), mb, c);
        assert(chunks_len(k, c) == c);
        assert(bits_val(mb.subrange(0, c as int), c) * pow2(0) == bits_val(mb, c));
        let (qg, og) = exp_chunk(pg, hf, base, mg, 0, c).unwrap();
        let (qe, oe) = exp_chunk(pe, hf, base, me, 0, c).unwrap();
        let cb = choose|cb: Seq<bool>| {
            &&& cb.len() == 32
            &&& shares_of(og, oe, d, cb, 32)
            &&& bits_val(cb, 32) == pow(base as int, bits_val(mb.subrange(0, c as int), c) * pow2(0)) % word32()
        };
        assert(bits_val(cb, 32) == pow(base as int, bits_val(mb, chunks_len(k, c))) % word32());
    } else {
        let j = (k - 1) as nat;
        lemma_exp_prefix_gen(pg, hf, base, c, mg, j);
        let (qg, resg) = exp_prefix(pg, hf, base, c, mg, j).unwrap();
        lemma_chunk_bounds(j, c);
        let lo = (j * c) as nat;
        let size = chunk_size(j, c);
        lemma_exp_chunk_gen(qg, hf, base, mg, lo, size);
        let (rg, mmg) = exp_chunk(qg, hf, base, mg, lo, size).unwrap();
        lemma_mul_spec_gen(rg, hf, resg, mmg);
        let sg = mul_spec(rg, hf, resg, mmg).unwrap().0;
        lemma_sent_chain(qg, rg, sg);
        lemma_sent_chain(pg, qg, sg);
        assert(pe.link.pending =~= sent_between(pg, qg) + (sent_between(qg, sg) + rest));
        lemma_exp_prefix_two_party(pg, pe, hf, base, c, mg, me, mb, j, sent_between(qg, sg) + rest);
        let (qe, rese) = exp_prefix(pe, hf, base, c, me, j).unwrap();
        let ob1 = choose|ob: Seq<bool>| {
            &&& ob.len() == 32
            &&& shares_of(resg, rese, d, ob, 32)
            &&& bits_val(ob, 32) == pow(base as int, bits_val(mb, chunks_len(j, c))) % word32()
        };
        assert(sent_between(qg, sg) + rest =~= sent_between(qg, rg) + (sent_between(rg, sg) + rest));
        lemma_exp_chunk_two_party(qg, qe, hf, base, mg, me, mb, lo, size, sent_between(rg, sg) + rest);
        let (re, mme) = exp_chunk(qe, hf, base, me, lo, size).unwrap();
        let digit = bits_val(mb.subrange(lo as int, (lo + size) as int), size);
        let cb = choose|cb: Seq<bool>| {
            &&& cb.len() == 32
            &&& shares_of(mmg, mme, d, cb, 32)
            &&& bits_val(cb, 32) == pow(base as int, digit * pow2(lo)) % word32()
        };
        lemma_integer_multiply_correct(rg, re, hf, resg, rese, ob1, mmg, mme, cb, rest);
        let ob = choose|ob: Seq<bool>| {
            &&& ob.len() == 32
            &&& shares_of(mul_spec(rg, hf, resg, mmg).unwrap().1, mul_spec(re, hf, rese, mme).unwrap().1, d, ob, 32)
            &&& bits_val(ob, 32) == (bits_val(ob1, 32) * bits_val(cb, 32)) % pow2(32)
        };
        // The value: the running power times the chunk's power.
        assert(chunks_len(j, c) == lo);
        assert(chunks_len(k, c) == lo + size) by {
            assert(k * c == lo + c) by (nonlinear_arith)
                requires
                    j == k - 1,
                    lo == j * c,
            ;
        }
        crate::reduction_law::lemma_bits_val_split(mb, lo, size);
        lemma_pow_mul_mod(base as int, bits_val(mb, lo), digit * pow2(lo));
        assert(bits_val(ob, 32) == pow(base as int, bits_val(mb, chunks_len(k, c))) % word32());
    }
}

/// The revealed value plus the mask is `y`, or `y + 2^32` where the
/// masked subtraction wrapped; either way the power of it is `base^y`
/// modulo `2^32` when the base is odd or the mask is at most `y`.
proof fn lemma_unmask_power(b: int, y: nat, m: nat, masked: nat)
    requires
        y < 0x1_0000_0000,
        m < 0x1_0000_0000,
        masked == (y - m) % word32(),
        b % 2 == 1 || m <= y,
    ensures
        pow(b, masked + m) % word32() == pow(b, y) % word32(),
{
    lemma2_to64();
    let w = word32();
    if m <= y {
        vstd::arithmetic::div_mod::lemma_small_mod((y - m) as nat, w as nat);
        assert(masked + m == y);
    } else {
        vstd::arithmetic::div_mod::lemma_mod_multiples_vanish(1, y - m, w);
        vstd::arithmetic::div_mod::lemma_small_mod((y - m + w) as nat, w as nat);
        assert(masked + m == y + pow2(32));
        lemma_odd_pow_wrap(b, y);
    }
}

/// Two-party correctness of the one-hot exponentiation (`exponent`):
/// when the generator and the evaluator are in step, their shares of the
/// 32 bits of `y` differ by delta exactly on the set bits, the generator
/// masks with the bits of a word `m` (the evaluator's mask bits do not
/// matter), and the evaluator has received the blocks and the bits the
/// generator sends (then `rest` and `rest_bits`), the evaluator's run
/// succeeds and the two output vectors differ by delta exactly on the
/// bits of `base^y mod 2^32`. This holds for an odd base with any mask,
/// and for any base when the mask is at most `y`: for an even base a mask
/// above `y` wraps the masked exponent, and the result is then
/// `base^(y + 2^32) mod 2^32`, which is zero.
#[verifier::rlimit(80)]
pub proof fn lemma_exponent_correct(
    pg: Party,
    pe: Party,
    hf: spec_fn(u128, u64) -> u128,
    base: u32,
    yg: Seq<u128>,
    ye: Seq<u128>,
    yb: Seq<bool>,
    c: nat,
    m: u32,
    ebits: Seq<bool>,
    rest: Seq<u128>,
    rest_bits: Seq<bool>,
)
    requires
        in_step(pg, pe),
        32 < usize::BITS,
        yg.len() == 32,
        ye.len() == 32,
        yb.len() == 32,
        shares_of(yg, ye, pg.state.delta, yb, 32),
        1 <= c <= 32,
        base % 2 == 1 || m <= bits_val(yb, 32),
        pe.link.pending == sent_between(pg, exponent_spec(pg, hf, base, yg, c, word_bits(m)).unwrap().0) + rest,
        pe.link.pending_bits == exponent_spec(pg, hf, base, yg, c, word_bits(m)).unwrap().0.link.sent_bits.skip(
            pg.link.sent_bits.len() as int,
        ) + rest_bits,
    ensures
        exponent_spec(pg, hf, base, yg, c, word_bits(m)) is Some,
        exponent_spec(pe, hf, base, ye, c, ebits) is Some,
        in_step(
            exponent_spec(pg, hf, base, yg, c, word_bits(m)).unwrap().0,
            exponent_spec(pe, hf, base, ye, c, ebits).unwrap().0,
        ),
        exponent_spec(pe, hf, base, ye, c, ebits).unwrap().0.link.pending == rest,
        exponent_spec(pe, hf, base, ye, c, ebits).unwrap().0.link.pending_bits == rest_bits,
        exists|ob: Seq<bool>| {
            &&& ob.len() == 32
            &&& shares_of(
                exponent_spec(pg, hf, base, yg, c, word_bits(m)).unwrap().1,
                exponent_spec(pe, hf, base, ye, c, ebits).unwrap().1,
                pg.state.delta,
                ob,
                32,
            )
            &&& bits_val(ob, 32) == pow(base as int, bits_val(yb, 32)) % word32()
        },
{
    let d = pg.state.delta;
    let mbits = word_bits(m);
    let maskg = mod_p_mask(pg, mbits);
    let maske = mod_p_mask(pe, ebits);
    lemma2_to64();
    // The mask: the generator's shares of the bits of `m`, the evaluator's zero.
    assert(shares_of(maskg, maske, d, mbits, 32)) by {
        assert forall|k: int| 0 <= k < 32 implies #[trigger] maske[k] == maskg[k] ^ crate::label::sel(mbits[k], d) by {
            crate::label::lemma_xor_laws(crate::label::sel(mbits[k], d), crate::label::sel(mbits[k], d), 0);
        }
    }
    assert forall|i: int| 0 <= i < 32 implies #[trigger] bit32(m, i) == lsb(maskg[i]) by {
        crate::label::lemma_lsb_flip(0u128, d, true);
        crate::label::lemma_xor_zero(d);
    }
    crate::exp_mod::lemma_colors_word(maskg, m);
    let kc = ((31 + c) / c) as nat;
    assert(1 <= kc && kc * c >= 32) by (nonlinear_arith)
        requires
            1 <= c <= 32,
            kc == (31 + c) / c,
    ;
    let wv = pow32_spec(base, m);
    assert(0 <= wv < 0x1_0000_0000) by {
        vstd::arithmetic::div_mod::lemma_mod_bound(pow(base as int, m as nat), word32());
    }
    let w = wv as u32;
    assert(w == wv);
    // The generator's stages.
    lemma_open_gen(pg, hf, yg, maskg);
    let (p1g, og) = sub_spec(pg, hf, 32, yg, maskg).unwrap();
    let (p2g, maskedg) = mod_p_open(pg, hf, yg, maskg).unwrap();
    lemma_exp_prefix_gen(p2g, hf, base, c, maskedg, kc);
    let (p3g, resg) = exp_prefix(p2g, hf, base, c, maskedg, kc).unwrap();
    let wsg = word_shares(p3g, w);
    lemma_mul_spec_gen(p3g, hf, resg, wsg);
    let (p4g, outg) = mul_spec(p3g, hf, resg, wsg).unwrap();
    lemma_sent_chain(p2g, p3g, p4g);
    lemma_sent_chain(pg, p2g, p4g);
    assert(exponent_spec(pg, hf, base, yg, c, mbits) == Some((p4g, outg)));
    let colours = og.map_values(|v: u128| lsb(v));
    assert(p4g.link.sent_bits.skip(pg.link.sent_bits.len() as int) =~= colours);
    assert(pe.link.pending_bits =~= colours + rest_bits);
    assert(sent_between(pg, p2g) == sent_between(pg, p1g));
    // Opening: subtract the mask, then reveal.
    assert(pe.link.pending =~= sent_between(pg, p1g) + (sent_between(p2g, p4g) + rest));
    lemma_integer_sub_correct(pg, pe, hf, 32, yg, maskg, ye, maske, yb, mbits, sent_between(p2g, p4g) + rest);
    let (p1e, oe) = sub_spec(pe, hf, 32, ye, maske).unwrap();
    let db = diff_bits(yb, mbits, 32);
    assert(shares_of(og, oe, d, db, og.len()));
    lemma_reveal_two_party(p1g, p1e, og, oe, db, rest_bits);
    reveal(mod_p_open);
    let (p2e, maskede) = mod_p_open(pe, hf, ye, maske).unwrap();
    // The chunks.
    assert(sent_between(p2g, p4g) + rest =~= sent_between(p2g, p3g) + (sent_between(p3g, p4g) + rest));
    lemma_exp_prefix_two_party(p2g, p2e, hf, base, c, maskedg, maskede, db, kc, sent_between(p3g, p4g) + rest);
    let (p3e, rese) = exp_prefix(p2e, hf, base, c, maskede, kc).unwrap();
    let mv = bits_val(db, 32);
    assert(chunks_len(kc, c) == 32);
    let ob1 = choose|ob: Seq<bool>| {
        &&& ob.len() == 32
        &&& shares_of(resg, rese, d, ob, 32)
        &&& bits_val(ob, 32) == pow(base as int, bits_val(db, chunks_len(kc, c))) % word32()
    };
    // The power of the mask.
    let we = pow32_spec(base, colors_word(maske)) as u32;
    let wse = word_shares(p3e, we);
    lemma_word_shares_two_party(p3g, p3e, w, we);
    lemma_word_bits_value(w);
    lemma_integer_multiply_correct(p3g, p3e, hf, resg, rese, ob1, wsg, wse, word_bits(w), rest);
    let (p4e, oute) = mul_spec(p3e, hf, rese, wse).unwrap();
    assert(exponent_spec(pe, hf, base, ye, c, ebits) == Some((p4e, oute)));
    let ob = choose|ob: Seq<bool>| {
        &&& ob.len() == 32
        &&& shares_of(outg, oute, d, ob, 32)
        &&& bits_val(ob, 32) == (bits_val(ob1, 32) * bits_val(word_bits(w), 32)) % pow2(32)
    };
    // The value.
    lemma_word_bits_value(m);
    lemma_bits_val_bound(yb, 32);
    lemma_pow_mul_mod(base as int, mv, m as nat);
    lemma_unmask_power(base as int, bits_val(yb, 32), m as nat, mv);
    assert(bits_val(ob, 32) == pow(base as int, bits_val(yb, 32)) % word32());
}

} // verus!
