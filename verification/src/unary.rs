//! The one-hot unary outer product: a punctured tree of seeds over the
//! shares of `x`, and the outer product of a truth table row with `y`.
//!
//! The keyed tweakable hash (AES under the fixed key) is computed outside
//! the library and handed in as a function `h(label, tweak)`; the channel
//! traffic is returned to, or taken from, the caller: the generator's
//! messages in the order they are sent, the evaluator's in the order they
//! are received.

use vstd::prelude::*;
use vstd::arithmetic::power2::{pow2, lemma2_to64, lemma_pow2_unfold, lemma_pow2_pos, lemma_pow2_strictly_increases};
use vstd::bits::{lemma_usize_shl_is_mul, lemma_usize_pow2_no_overflow};
use crate::label::{lsb, sel, lemma_xor_zero, lemma_lsb_flip};
use crate::share::{IdentityTable, OneHotState, Role, Share, Table};
use crate::matrix::BoolMatrix;
use crate::share_matrix::ShareMatrix;

verus! {

/// XOR of `f(i)` over `lo <= i < hi`.
pub open spec fn xor_range(f: spec_fn(int) -> u128, lo: int, hi: int) -> u128
    decreases hi - lo,
{
    if hi <= lo {
        0
    } else {
        xor_range(f, lo, hi - 1) ^ f(hi - 1)
    }
}

/// `(a ^ b) ^ c == (a ^ c) ^ b` and friends.
proof fn lemma_xor3(a: u128, b: u128, c: u128)
    by (bit_vector)
    ensures
        (a ^ b) ^ c == (a ^ c) ^ b,
        (a ^ b) ^ c == a ^ (b ^ c),
        a ^ a == 0,
        (a ^ b) ^ b == a,
{
}

/// Cancellation of a repeated term.
proof fn lemma_xor_cancel(a: u128, c: u128, e: u128)
    by (bit_vector)
    ensures
        a ^ ((a ^ c) ^ e) == c ^ e,
        (e ^ c) ^ e == c,
        e ^ e == 0,
{
}

/// XOR over a range depends only on the terms in the range.
pub proof fn lemma_xor_range_ext(f: spec_fn(int) -> u128, g: spec_fn(int) -> u128, lo: int, hi: int)
    requires
        forall|i: int| lo <= i < hi ==> #[trigger] f(i) == g(i),
    ensures
        xor_range(f, lo, hi) == xor_range(g, lo, hi),
    decreases hi - lo,
{
    if hi > lo {
        lemma_xor_range_ext(f, g, lo, hi - 1);
    }
}

/// The XOR over a range is the XOR with the term at `p` left out, xored
/// with that term.
pub proof fn lemma_xor_range_punctured(f: spec_fn(int) -> u128, lo: int, hi: int, p: int)
    requires
        lo <= p < hi,
    ensures
        xor_range(f, lo, hi) == xor_range(|i: int| if i == p { 0u128 } else { f(i) }, lo, hi) ^ f(p),
    decreases hi - lo,
{
    let g = |i: int| if i == p { 0u128 } else { f(i) };
    if hi - 1 == p {
        lemma_xor_range_ext(f, g, lo, hi - 1);
        lemma_xor_zero(xor_range(g, lo, hi - 1));
    } else {
        lemma_xor_range_punctured(f, lo, hi - 1, p);
        lemma_xor3(xor_range(g, lo, hi - 1), f(p), f(hi - 1));
    }
}

/// `h` computes a function: it accepts every input and gives one output
/// per input.
pub open spec fn is_hash<F: Fn(u128, u64) -> u128>(h: F) -> bool {
    &&& forall|x: u128, t: u64| #[trigger] h.requires((x, t))
    &&& forall|x: u128, t: u64, y1: u128, y2: u128|
        #[trigger] h.ensures((x, t), y1) && #[trigger] h.ensures((x, t), y2) ==> y1 == y2
}

/// The function that `h` computes.
pub open spec fn hash_of<F: Fn(u128, u64) -> u128>(h: F) -> spec_fn(u128, u64) -> u128 {
    |x: u128, t: u64| choose|y: u128| h.ensures((x, t), y)
}

/// Call the hash.
pub(crate) fn hash_call<F: Fn(u128, u64) -> u128>(h: &F, x: u128, t: u64) -> (y: u128)
    requires
        is_hash(*h),
    ensures
        y == hash_of(*h)(x, t),
{
    let y = h(x, t);
    proof {
        let z = choose|z: u128| h.ensures((x, t), z);
        assert(h.ensures((x, t), z));
    }
    y
}

/// The label values of a list of shares.
pub open spec fn vals(x: Seq<Share>) -> Seq<u128> {
    x.map_values(|s: Share| s.0)
}

/// The nonce after `k` wrapping increments of `nonce`.
pub open spec fn nonce_after(nonce: u64, k: nat) -> u64 {
    ((nonce + k) % 0x1_0000_0000_0000_0000) as u64
}

/// The tweak of the child at index `i`: 1 for even children, 0 for odd.
pub open spec fn child_tweak(i: int) -> u64 {
    if i % 2 == 0 { 1 } else { 0 }
}

/// The generator's seeds after the base layer: the hashes of the last
/// share's two labels, the one of colour 0 at index 0.
pub open spec fn gen_base(last: u128, delta: u128, nonce: u64, hf: spec_fn(u128, u64) -> u128, len: nat) -> Seq<u128> {
    Seq::new(
        len,
        |i: int|
            if i == 0 {
                hf(last ^ sel(!lsb(last), delta), nonce)
            } else if i == 1 {
                hf(last ^ sel(lsb(last), delta), nonce)
            } else {
                0
            },
    )
}

/// One level of expansion: the first `2^level` entries become the two
/// children of the first `2^(level - 1)` entries; the rest are kept.
pub open spec fn expand_layer(s: Seq<u128>, level: nat, hf: spec_fn(u128, u64) -> u128) -> Seq<u128> {
    Seq::new(s.len(), |i: int| if i < pow2(level) { hf(s[i / 2], child_tweak(i)) } else { s[i] })
}

/// The XOR of the children of tweak `t` of the first `2^(level - 1)`
/// parents.
pub open spec fn child_sum(s: Seq<u128>, level: nat, t: u64, hf: spec_fn(u128, u64) -> u128) -> u128 {
    xor_range(|j: int| hf(s[j], t), 0, pow2((level - 1) as nat) as int)
}

/// The generator's seeds after `level` expansion levels over the labels
/// `x` (the last label forms the base layer).
pub open spec fn gen_tree(x: Seq<u128>, delta: u128, nonce: u64, hf: spec_fn(u128, u64) -> u128, level: nat) -> Seq<u128>
    decreases level,
{
    if level == 0 {
        gen_base(x[x.len() - 1], delta, nonce, hf, pow2(x.len()))
    } else {
        expand_layer(gen_tree(x, delta, nonce, hf, (level - 1) as nat), level, hf)
    }
}

/// The label consumed at expansion level `level`.
pub open spec fn level_label(x: Seq<u128>, level: nat) -> u128 {
    x[x.len() - level - 1]
}

/// The generator's first message of level `level`: the even children
/// under the hash of the label of colour 1.
pub open spec fn gen_msg0(x: Seq<u128>, delta: u128, nonce: u64, hf: spec_fn(u128, u64) -> u128, level: nat) -> u128 {
    let xl = level_label(x, level);
    let key0 = xl ^ sel(!lsb(xl), delta);
    hf(key0, nonce_after(nonce, level)) ^ child_sum(gen_tree(x, delta, nonce, hf, (level - 1) as nat), level, 1, hf)
}

/// The generator's second message of level `level`: the odd children
/// under the hash of the label of colour 0.
pub open spec fn gen_msg1(x: Seq<u128>, delta: u128, nonce: u64, hf: spec_fn(u128, u64) -> u128, level: nat) -> u128 {
    let xl = level_label(x, level);
    let key0 = xl ^ sel(!lsb(xl), delta);
    hf(key0 ^ delta, nonce_after(nonce, level)) ^ child_sum(gen_tree(x, delta, nonce, hf, (level - 1) as nat), level, 0, hf)
}

/// The hash of tweak `t` of parent `j` of `s`, or zero for the skipped
/// parent.
pub open spec fn parent_term(s: Seq<u128>, skip: Option<usize>, t: u64, hf: spec_fn(u128, u64) -> u128) -> spec_fn(int) -> u128 {
    |j: int| if skip is Some && j == skip->0 { 0u128 } else { hf(s[j], t) }
}

/// Expand the first `half` parents of `s` into their children (level
/// `level`, where `half == 2^(level - 1)`), skipping parent `skip` when it
/// is some index; returns the XOR of the even and of the odd children
/// written.
fn expand_parents<F: Fn(u128, u64) -> u128>(
    s: &mut Vec<u128>,
    half: usize,
    skip: Option<usize>,
    h: &F,
) -> (sums: (u128, u128))
    requires
        is_hash(*h),
        2 * half <= old(s)@.len(),
    ensures
        final(s)@.len() == old(s)@.len(),
        forall|i: int| 0 <= i < old(s)@.len() ==> #[trigger] final(s)@[i]
            == if i < 2 * half && (skip is None || i / 2 != skip->0) {
                hash_of(*h)(old(s)@[i / 2], child_tweak(i))
            } else {
                old(s)@[i]
            },
        sums.0 == xor_range(parent_term(old(s)@, skip, 1, hash_of(*h)), 0, half as int),
        sums.1 == xor_range(parent_term(old(s)@, skip, 0, hash_of(*h)), 0, half as int),
{
    let ghost hf = hash_of(*h);
    let ghost old_s = s@;
    let ghost fe = parent_term(old_s, skip, 1, hf);
    let ghost fo = parent_term(old_s, skip, 0, hf);
    let parents = s.clone();
    let n = s.len();
    let mut evens: u128 = 0;
    let mut odds: u128 = 0;
    let mut j: usize = 0;
    while j < half
        invariant
            j <= half,
            2 * half <= old_s.len(),
            old_s.len() == n,
            parents@ == old_s,
            s@.len() == old_s.len(),
            hf == hash_of(*h),
            is_hash(*h),
            fe == parent_term(old_s, skip, 1, hf),
            fo == parent_term(old_s, skip, 0, hf),
            forall|i: int| 0 <= i < old_s.len() ==> #[trigger] s@[i]
                == if i < 2 * j && (skip is None || i / 2 != skip->0) {
                    hf(old_s[i / 2], child_tweak(i))
                } else {
                    old_s[i]
                },
            evens == xor_range(fe, 0, j as int),
            odds == xor_range(fo, 0, j as int),
        decreases half - j,
    {
        let skipped = match skip {
            Some(k) => k == j,
            None => false,
        };
        if !skipped {
            let p = parents[j];
            let odd = hash_call(h, p, 0);
            let even = hash_call(h, p, 1);
            s.set(2 * j + 1, odd);
            s.set(2 * j, even);
            evens = evens ^ even;
            odds = odds ^ odd;
        } else {
            proof {
                lemma_xor_zero(evens);
                lemma_xor_zero(odds);
            }
        }
        proof {
            assert(fe(j as int) == if skipped { 0u128 } else { hf(old_s[j as int], 1) });
            assert(fo(j as int) == if skipped { 0u128 } else { hf(old_s[j as int], 0) });
            assert forall|i: int| 0 <= i < old_s.len() implies #[trigger] s@[i]
                == if i < 2 * (j + 1) && (skip is None || i / 2 != skip->0) {
                    hf(old_s[i / 2], child_tweak(i))
                } else {
                    old_s[i]
                } by {
                if i == 2 * j || i == 2 * j + 1 {
                    assert(i / 2 == j);
                }
            }
        }
        j = j + 1;
    }
    (evens, odds)
}

/// The evaluator's seeds after the base layer: the hash of its share of
/// the last label at the index of the opposite colour.
pub open spec fn eval_base(last: u128, nonce: u64, hf: spec_fn(u128, u64) -> u128, len: nat) -> Seq<u128> {
    Seq::new(len, |i: int| if i == (if lsb(last) { 0int } else { 1int }) { hf(last, nonce) } else { 0 })
}

/// The hash of tweak `t` of parent `j` of `s`, or zero for parent `m`.
pub open spec fn skip_term(s: Seq<u128>, m: nat, t: u64, hf: spec_fn(u128, u64) -> u128) -> spec_fn(int) -> u128 {
    |j: int| if j == m { 0u128 } else { hf(s[j], t) }
}

/// Expansion of the first `2^(level - 1)` parents but parent `m`.
pub open spec fn expand_skip(s: Seq<u128>, m: nat, level: nat, hf: spec_fn(u128, u64) -> u128) -> Seq<u128> {
    Seq::new(s.len(), |i: int| if i < pow2(level) && i / 2 != m { hf(s[i / 2], child_tweak(i)) } else { s[i] })
}

/// One evaluator level: expand every parent but the missing one `m`,
/// then recover the sibling of the new missing seed from the generator's
/// message `g0` (colour 1) or `g1` (colour 0) of the level's label `xl`.
pub open spec fn eval_step(
    s: Seq<u128>,
    m: nat,
    level: nat,
    xl: u128,
    nonce: u64,
    g0: u128,
    g1: u128,
    hf: spec_fn(u128, u64) -> u128,
) -> (Seq<u128>, nat) {
    let b = lsb(xl);
    let half = pow2((level - 1) as nat) as int;
    let ev = xor_range(skip_term(s, m, 1, hf), 0, half);
    let od = xor_range(skip_term(s, m, 0, hf), 0, half);
    let sib = hf(xl, nonce) ^ (if b { g0 ^ ev } else { g1 ^ od });
    let expanded = expand_skip(s, m, level, hf);
    (expanded.update(if b { 2 * m as int } else { 2 * m as int + 1 }, sib), 2 * m + (if b { 1nat } else { 0nat }))
}

/// The evaluator's seeds and missing index after `level` expansion levels
/// over its labels `x`, given the generator's messages `msgs`.
pub open spec fn eval_tree(
    x: Seq<u128>,
    nonce: u64,
    hf: spec_fn(u128, u64) -> u128,
    msgs: Seq<u128>,
    level: nat,
) -> (Seq<u128>, nat)
    decreases level,
{
    if level == 0 {
        let last = x[x.len() - 1];
        (eval_base(last, nonce, hf, pow2(x.len())), if lsb(last) { 1nat } else { 0nat })
    } else {
        let prev = eval_tree(x, nonce, hf, msgs, (level - 1) as nat);
        eval_step(
            prev.0,
            prev.1,
            level,
            level_label(x, level),
            nonce_after(nonce, level),
            msgs[2 * (level - 1)],
            msgs[2 * (level - 1) + 1],
            hf,
        )
    }
}

/// One evaluator level of the seed tree (see `eval_step`).
fn eval_level<F: Fn(u128, u64) -> u128>(
    seeds: &mut Vec<u128>,
    missing: usize,
    level: usize,
    xl: Share,
    nonce: u64,
    g0: u128,
    g1: u128,
    h: &F,
) -> (m: usize)
    requires
        is_hash(*h),
        1 <= level < usize::BITS,
        missing < pow2(level as nat),
        pow2((level + 1) as nat) <= old(seeds)@.len() <= usize::MAX,
    ensures
        (final(seeds)@, m as nat) == eval_step(old(seeds)@, missing as nat, level as nat, xl.0, nonce, g0, g1, hash_of(*h)),
        m < pow2((level + 1) as nat),
{
    let ghost hf = hash_of(*h);
    let ghost before = seeds@;
    let ghost mm = missing as nat;
    let bit = xl.color();
    let half = pow2_usize(level - 1);
    proof {
        lemma_pow2_unfold(level as nat);
        lemma_pow2_unfold((level + 1) as nat);
    }
    let sums = expand_parents(seeds, half, Some(missing), h);
    let hx = hash_call(h, xl.0, nonce);
    let sibling = if bit { hx ^ g0 ^ sums.0 } else { hx ^ g1 ^ sums.1 };
    let idx = if bit { 2 * missing } else { 2 * missing + 1 };
    let ghost expanded = seeds@;
    seeds.set(idx, sibling);
    proof {
        let ev = xor_range(skip_term(before, mm, 1, hf), 0, half as int);
        let od = xor_range(skip_term(before, mm, 0, hf), 0, half as int);
        lemma_xor_range_ext(parent_term(before, Some(missing), 1, hf), skip_term(before, mm, 1, hf), 0, half as int);
        lemma_xor_range_ext(parent_term(before, Some(missing), 0, hf), skip_term(before, mm, 0, hf), 0, half as int);
        lemma_xor3(hx, g0, ev);
        lemma_xor3(hx, g1, od);
        assert(expanded =~= expand_skip(before, mm, level as nat, hf));
        let spec = eval_step(before, mm, level as nat, xl.0, nonce, g0, g1, hf);
        assert(seeds@ =~= spec.0);
    }
    2 * missing + (if bit { 1 } else { 0 })
}

/// `2^k` as a machine word, for `k` below the word size.
fn pow2_usize(k: usize) -> (r: usize)
    requires
        k < usize::BITS,
    ensures
        r == pow2(k as nat),
        r > 0,
{
    proof {
        lemma_usize_pow2_no_overflow(k as nat);
        lemma_usize_shl_is_mul(1, k);
    }
    1usize << k
}

/// Generator side of the punctured seed tree over `x`, with the nonce as
/// the base tweak: returns the `2^n` seeds (`n = x.len()`), the two
/// messages of each of the `n - 1` levels, in the order they are sent, and
/// the index whose bit `i` is the colour of `x[i]`; the nonce advances by
/// `n`.
#[verifier::rlimit(40)]
#[verifier::spinoff_prover]
pub fn populate_seeds_generator<F: Fn(u128, u64) -> u128>(
    state: &mut OneHotState,
    x: &[Share],
    h: &F,
) -> (r: (Vec<u128>, Vec<u128>, usize))
    requires
        old(state).role == Role::Generator,
        is_hash(*h),
        0 < x@.len() < 64,
        x@.len() < usize::BITS,
    ensures
        r.0@ == gen_tree(vals(x@), old(state).delta, old(state).nonce, hash_of(*h), (x@.len() - 1) as nat),
        r.1@.len() == 2 * (x@.len() - 1),
        forall|l: int| 1 <= l < x@.len() ==> #[trigger] r.1@[2 * (l - 1)]
            == gen_msg0(vals(x@), old(state).delta, old(state).nonce, hash_of(*h), l as nat),
        forall|l: int| 1 <= l < x@.len() ==> #[trigger] r.1@[2 * (l - 1) + 1]
            == gen_msg1(vals(x@), old(state).delta, old(state).nonce, hash_of(*h), l as nat),
        r.2 as nat == colors_value(vals(x@)),
        final(state).nonce == nonce_after(old(state).nonce, x@.len()),
        final(state).role == old(state).role,
        final(state).delta == old(state).delta,
{
    let ghost hf = hash_of(*h);
    let ghost xv = vals(x@);
    let ghost nonce0 = state.nonce;
    let ghost delta = state.delta;
    let n = x.len();
    let leaves = pow2_usize(n);
    proof {
        lemma2_to64();
        if n > 1 {
            lemma_pow2_strictly_increases(1, n as nat);
        }
    }
    let mut seeds: Vec<u128> = vec![0u128; leaves];
    let last = x[n - 1];
    let flipped = state.not(last);
    if last.color() {
        let a = hash_call(h, last.0, state.nonce);
        let b = hash_call(h, flipped.0, state.nonce);
        seeds.set(0, a);
        seeds.set(1, b);
    } else {
        let a = hash_call(h, last.0, state.nonce);
        let b = hash_call(h, flipped.0, state.nonce);
        seeds.set(1, a);
        seeds.set(0, b);
    }
    proof {
        lemma_xor_zero(last.0);
        assert(xv[xv.len() - 1] == last.0);
        assert(seeds@ =~= gen_base(last.0, delta, nonce0, hf, pow2(n as nat)));
        assert(seeds@ == gen_tree(xv, delta, nonce0, hf, 0));
    }
    state.bump_nonce(1);
    let d = state.delta;
    let mut missing: usize = if last.color() { 1 } else { 0 };
    proof {
        let sub = xv.subrange(n - 1, n as int);
        assert(sub.drop_first() =~= Seq::<u128>::empty());
        assert(sub[0] == last.0);
        assert(colors_value(sub.drop_first()) == 0);
        assert(colors_value(sub) == if lsb(last.0) { 1nat } else { 0nat });
        lemma_usize_pow2_no_overflow(n as nat);
    }
    let mut msgs: Vec<u128> = Vec::new();
    let mut level: usize = 1;
    while level < n
        invariant
            1 <= level <= n,
            missing as nat == colors_value(xv.subrange(n - level, n as int)),
            pow2(n as nat) < usize::MAX,
            n == x@.len(),
            0 < n < 64,
            n < usize::BITS,
            is_hash(*h),
            hf == hash_of(*h),
            xv == vals(x@),
            d == delta,
            state.role == Role::Generator,
            state.delta == delta,
            state.nonce == nonce_after(nonce0, level as nat),
            seeds@ == gen_tree(xv, delta, nonce0, hf, (level - 1) as nat),
            seeds@.len() == pow2(n as nat),
            msgs@.len() == 2 * (level - 1),
            forall|l: int| 1 <= l < level ==> #[trigger] msgs@[2 * (l - 1)] == gen_msg0(xv, delta, nonce0, hf, l as nat),
            forall|l: int| 1 <= l < level ==> #[trigger] msgs@[2 * (l - 1) + 1] == gen_msg1(xv, delta, nonce0, hf, l as nat),
        decreases n - level,
    {
        let xl = x[n - level - 1];
        let bit = xl.color();
        let key0 = xl.0 ^ (if bit { 0 } else { d });
        let key1 = key0 ^ d;
        let half = pow2_usize(level - 1);
        proof {
            lemma_pow2_unfold(level as nat);
            lemma_pow2_strictly_increases(level as nat, n as nat);
        }
        let ghost before = seeds@;
        let sums = expand_parents(&mut seeds, half, None, h);
        let msg0 = hash_call(h, key0, state.nonce) ^ sums.0;
        let msg1 = hash_call(h, key1, state.nonce) ^ sums.1;
        proof {
            assert(xv[xv.len() - level - 1] == xl.0);
            assert(key0 == xl.0 ^ sel(!lsb(xl.0), delta));
            lemma_xor_range_ext(parent_term(before, None, 1, hf), |j: int| hf(before[j], 1), 0, half as int);
            lemma_xor_range_ext(parent_term(before, None, 0, hf), |j: int| hf(before[j], 0), 0, half as int);
            assert(msg0 == gen_msg0(xv, delta, nonce0, hf, level as nat));
            assert(msg1 == gen_msg1(xv, delta, nonce0, hf, level as nat));
            assert(seeds@ =~= expand_layer(before, level as nat, hf));
        }
        msgs.push(msg0);
        msgs.push(msg1);
        state.bump_nonce(1);
        proof {
            assert(state.nonce == nonce_after(nonce0, (level + 1) as nat));
            let sub = xv.subrange(n - level - 1, n as int);
            assert(sub.drop_first() =~= xv.subrange(n - level, n as int));
            assert(sub[0] == xl.0);
            lemma_colors_value_bound(xv.subrange(n - level, n as int));
            lemma_pow2_unfold((level + 1) as nat);
            if level + 1 < n {
                lemma_pow2_strictly_increases((level + 1) as nat, n as nat);
            }
        }
        missing = 2 * missing + (if bit { 1 } else { 0 });
        level = level + 1;
    }
    proof {
        assert(xv.subrange(0, n as int) =~= xv);
    }
    (seeds, msgs, missing)
}

/// Evaluator side of the punctured seed tree over its shares `x`, given
/// the generator's `2(n - 1)` messages: returns the `2^n` seeds and the
/// index of the seed it cannot know; the nonce advances by `n`.
#[verifier::rlimit(40)]
#[verifier::spinoff_prover]
pub fn populate_seeds_evaluator<F: Fn(u128, u64) -> u128>(
    state: &mut OneHotState,
    x: &[Share],
    msgs: &[u128],
    h: &F,
) -> (r: (Vec<u128>, usize))
    requires
        old(state).role == Role::Evaluator,
        is_hash(*h),
        0 < x@.len() < 64,
        x@.len() < usize::BITS,
        msgs@.len() == 2 * (x@.len() - 1),
    ensures
        (r.0@, r.1 as nat) == eval_tree(vals(x@), old(state).nonce, hash_of(*h), msgs@, (x@.len() - 1) as nat),
        r.1 < pow2(x@.len()),
        final(state).nonce == nonce_after(old(state).nonce, x@.len()),
        final(state).role == old(state).role,
        final(state).delta == old(state).delta,
{
    let ghost hf = hash_of(*h);
    let ghost xv = vals(x@);
    let ghost nonce0 = state.nonce;
    let n = x.len();
    let leaves = pow2_usize(n);
    proof {
        lemma2_to64();
        if n > 1 {
            lemma_pow2_strictly_increases(1, n as nat);
        }
    }
    let mut seeds: Vec<u128> = vec![0u128; leaves];
    let last = x[n - 1];
    let a = hash_call(h, last.0, state.nonce);
    let mut missing: usize = if last.color() { 1 } else { 0 };
    if last.color() {
        seeds.set(0, a);
    } else {
        seeds.set(1, a);
    }
    proof {
        assert(xv[xv.len() - 1] == last.0);
        assert(seeds@ =~= eval_base(last.0, nonce0, hf, pow2(n as nat)));
    }
    state.bump_nonce(1);
    let mut level: usize = 1;
    while level < n
        invariant
            1 <= level <= n,
            n == x@.len(),
            0 < n < 64,
            n < usize::BITS,
            msgs@.len() == 2 * (n - 1),
            is_hash(*h),
            hf == hash_of(*h),
            xv == vals(x@),
            state.role == Role::Evaluator,
            state.delta == old(state).delta,
            state.nonce == nonce_after(nonce0, level as nat),
            (seeds@, missing as nat) == eval_tree(xv, nonce0, hf, msgs@, (level - 1) as nat),
            seeds@.len() == pow2(n as nat),
            leaves == pow2(n as nat),
            missing < pow2(level as nat),
        decreases n - level,
    {
        let xl = x[n - level - 1];
        let g_evens = msgs[2 * (level - 1)];
        let g_odds = msgs[2 * (level - 1) + 1];
        proof {
            assert(xv[xv.len() - level - 1] == xl.0);
            lemma_pow2_unfold((level + 1) as nat);
            if level + 1 < n {
                lemma_pow2_strictly_increases((level + 1) as nat, n as nat);
            }
        }
        missing = eval_level(&mut seeds, missing, level, xl, state.nonce, g_evens, g_odds, h);
        state.bump_nonce(1);
        level = level + 1;
    }
    (seeds, missing)
}

/// The number whose bit `i` is the colour of `x[i]`.
pub open spec fn colors_value(x: Seq<u128>) -> nat
    decreases x.len(),
{
    if x.len() == 0 {
        0
    } else {
        (if lsb(x[0]) { 1nat } else { 0nat }) + 2 * colors_value(x.drop_first())
    }
}

/// The evaluator's labels differ from the generator's by zero or delta.
pub open spec fn shares_of(xg: Seq<u128>, xe: Seq<u128>, delta: u128) -> bool {
    &&& xe.len() == xg.len()
    &&& forall|i: int| 0 <= i < xg.len() ==> #[trigger] xe[i] == xg[i] || xe[i] == xg[i] ^ delta
}

/// The messages are the generator's for labels `xg`.
pub open spec fn generator_msgs(
    xg: Seq<u128>,
    delta: u128,
    nonce: u64,
    hf: spec_fn(u128, u64) -> u128,
    msgs: Seq<u128>,
) -> bool {
    &&& msgs.len() == 2 * (xg.len() - 1)
    &&& forall|l: int| 1 <= l < xg.len() ==> #[trigger] msgs[2 * (l - 1)] == gen_msg0(xg, delta, nonce, hf, l as nat)
    &&& forall|l: int| 1 <= l < xg.len() ==> #[trigger] msgs[2 * (l - 1) + 1] == gen_msg1(xg, delta, nonce, hf, l as nat)
}

/// A share that differs from `g` by zero or delta is `g ^ sel(v, delta)`
/// for the bit `v` that flips its colour.
proof fn lemma_share_flip(g: u128, e: u128, delta: u128)
    requires
        lsb(delta),
        e == g || e == g ^ delta,
    ensures
        e == g ^ sel(lsb(g) != lsb(e), delta),
        e == g ^ sel(!lsb(g), delta) <==> lsb(e),
        e == (g ^ sel(!lsb(g), delta)) ^ delta <==> !lsb(e),
{
    lemma_xor_zero(g);
    lemma_lsb_flip(g, delta, true);
    lemma_lsb_flip(g, delta, false);
    lemma_xor3(g, delta, delta);
    lemma_xor_zero(g ^ delta);
    assert(delta != 0);
    assert((g ^ delta) != g) by (bit_vector)
        requires
            delta != 0,
    ;
}

/// Facts about one level of the trees, carried from level to level.
pub open spec fn tree_level_inv(
    xg: Seq<u128>,
    xe: Seq<u128>,
    delta: u128,
    nonce: u64,
    hf: spec_fn(u128, u64) -> u128,
    msgs: Seq<u128>,
    level: nat,
) -> bool {
    let n = xg.len();
    let sg = gen_tree(xg, delta, nonce, hf, level);
    let (se, m) = eval_tree(xe, nonce, hf, msgs, level);
    &&& sg.len() == pow2(n)
    &&& se.len() == pow2(n)
    &&& m < pow2(level + 1)
    &&& m == colors_value(xe.subrange(n - 1 - level, n as int))
    &&& forall|i: int| 0 <= i < pow2(n) && i != m ==> #[trigger] se[i] == sg[i]
    &&& forall|i: int| pow2(if level == 0 { 1nat } else { level }) <= i < pow2(n) ==> #[trigger] sg[i] == 0
}

proof fn lemma_tree_base(
    xg: Seq<u128>,
    xe: Seq<u128>,
    delta: u128,
    nonce: u64,
    hf: spec_fn(u128, u64) -> u128,
    msgs: Seq<u128>,
)
    requires
        0 < xg.len() < 64,
        lsb(delta),
        shares_of(xg, xe, delta),
    ensures
        tree_level_inv(xg, xe, delta, nonce, hf, msgs, 0),
{
    let n = xg.len();
    let lg = xg[n - 1];
    let le = xe[n - 1];
    lemma2_to64();
    if n > 1 {
        lemma_pow2_strictly_increases(1, n);
    }
    lemma_share_flip(lg, le, delta);
    lemma_xor_zero(lg);
    let sub = xe.subrange(n - 1, n as int);
    assert(sub.drop_first() =~= Seq::<u128>::empty());
    assert(sub[0] == le);
    assert(colors_value(sub.drop_first()) == 0);
}

proof fn lemma_tree_step(
    xg: Seq<u128>,
    xe: Seq<u128>,
    delta: u128,
    nonce: u64,
    hf: spec_fn(u128, u64) -> u128,
    msgs: Seq<u128>,
    level: nat,
)
    requires
        0 < xg.len() < 64,
        1 <= level < xg.len(),
        lsb(delta),
        shares_of(xg, xe, delta),
        generator_msgs(xg, delta, nonce, hf, msgs),
        tree_level_inv(xg, xe, delta, nonce, hf, msgs, (level - 1) as nat),
    ensures
        tree_level_inv(xg, xe, delta, nonce, hf, msgs, level),
{
    let n = xg.len();
    let sg = gen_tree(xg, delta, nonce, hf, (level - 1) as nat);
    let prev = eval_tree(xe, nonce, hf, msgs, (level - 1) as nat);
    let se = prev.0;
    let m = prev.1;
    let sg2 = gen_tree(xg, delta, nonce, hf, level);
    let next = eval_tree(xe, nonce, hf, msgs, level);
    let se2 = next.0;
    let m2 = next.1;
    let half = pow2((level - 1) as nat);
    let xgl = level_label(xg, level);
    let xel = level_label(xe, level);
    let b = lsb(xel);
    let nl = nonce_after(nonce, level);
    lemma_pow2_unfold(level);
    lemma_pow2_unfold(level + 1);
    lemma2_to64();
    if level + 1 < n {
        lemma_pow2_strictly_increases(level + 1, n);
    }
    if level > 1 {
        lemma_pow2_strictly_increases((level - 1) as nat, level);
    }
    assert(xel == xe[n - level - 1] && xgl == xg[n - level - 1]);
    lemma_share_flip(xgl, xel, delta);
    let key0 = xgl ^ sel(!lsb(xgl), delta);
    // the generator's XOR of the children equals the evaluator's, plus the
    // missing parent's child when that parent was expanded
    let fe = |j: int| hf(sg[j], 1);
    let fo = |j: int| hf(sg[j], 0);
    let ev = xor_range(skip_term(se, m, 1, hf), 0, half as int);
    let od = xor_range(skip_term(se, m, 0, hf), 0, half as int);
    let ce = xor_range(fe, 0, half as int);
    let co = xor_range(fo, 0, half as int);
    if m < half {
        lemma_xor_range_punctured(fe, 0, half as int, m as int);
        lemma_xor_range_punctured(fo, 0, half as int, m as int);
        lemma_xor_range_ext(|i: int| if i == m as int { 0u128 } else { fe(i) }, skip_term(se, m, 1, hf), 0, half as int);
        lemma_xor_range_ext(|i: int| if i == m as int { 0u128 } else { fo(i) }, skip_term(se, m, 0, hf), 0, half as int);
        assert(ce == ev ^ hf(sg[m as int], 1));
        assert(co == od ^ hf(sg[m as int], 0));
    } else {
        lemma_xor_range_ext(fe, skip_term(se, m, 1, hf), 0, half as int);
        lemma_xor_range_ext(fo, skip_term(se, m, 0, hf), 0, half as int);
    }
    assert(msgs[2 * (level - 1)] == hf(key0, nl) ^ ce);
    assert(msgs[2 * (level - 1) + 1] == hf(key0 ^ delta, nl) ^ co);
    let sib = se2[if b { 2 * m as int } else { 2 * m as int + 1 }];
    let target: u128 = if m < half { hf(sg[m as int], if b { 1u64 } else { 0u64 }) } else { 0u128 };
    if b {
        assert(xel == key0);
        lemma_xor_cancel(hf(key0, nl), ce, ev);
        assert(sib == hf(key0, nl) ^ ((hf(key0, nl) ^ ce) ^ ev));
        if m < half {
            lemma_xor_cancel(ev, hf(sg[m as int], 1), ev);
        }
        assert(sib == target);
    } else {
        assert(xel == key0 ^ delta);
        lemma_xor_cancel(hf(key0 ^ delta, nl), co, od);
        assert(sib == hf(key0 ^ delta, nl) ^ ((hf(key0 ^ delta, nl) ^ co) ^ od));
        if m < half {
            lemma_xor_cancel(od, hf(sg[m as int], 0), od);
        }
        assert(sib == target);
    }
    // every index but the new missing one agrees
    assert forall|i: int| 0 <= i < pow2(n) && i != m2 implies #[trigger] se2[i] == sg2[i] by {
        let idx = if b { 2 * m as int } else { 2 * m as int + 1 };
        if i == idx {
            if m < half {
                assert(i < pow2(level));
                assert(i / 2 == m);
            } else {
                assert(i >= pow2(level));
                assert(i >= pow2(if level - 1 == 0 { 1nat } else { (level - 1) as nat }));
            }
        } else if i < pow2(level) {
            if i / 2 == m {
                assert(i == 2 * m || i == 2 * m + 1);
            } else {
                assert(i / 2 < pow2(n));
            }
        } else {
            assert(i != m);
        }
    }
    assert forall|i: int| pow2(level) <= i < pow2(n) implies #[trigger] sg2[i] == 0 by {
        assert(i >= pow2(if level - 1 == 0 { 1nat } else { (level - 1) as nat }));
    }
    // the missing index collects the colours
    let sub = xe.subrange(n - 1 - level, n as int);
    assert(sub.drop_first() =~= xe.subrange(n - 1 - (level - 1), n as int));
    assert(sub[0] == xel);
}

proof fn lemma_tree_upto(
    xg: Seq<u128>,
    xe: Seq<u128>,
    delta: u128,
    nonce: u64,
    hf: spec_fn(u128, u64) -> u128,
    msgs: Seq<u128>,
    level: nat,
)
    requires
        0 < xg.len() < 64,
        level < xg.len(),
        lsb(delta),
        shares_of(xg, xe, delta),
        generator_msgs(xg, delta, nonce, hf, msgs),
    ensures
        tree_level_inv(xg, xe, delta, nonce, hf, msgs, level),
    decreases level,
{
    if level == 0 {
        lemma_tree_base(xg, xe, delta, nonce, hf, msgs);
    } else {
        lemma_tree_upto(xg, xe, delta, nonce, hf, msgs, (level - 1) as nat);
        lemma_tree_step(xg, xe, delta, nonce, hf, msgs, level);
    }
}

/// Correctness of the punctured seed tree.  If the evaluator's labels of
/// `x` differ from the generator's by zero or delta (delta of colour 1),
/// both hash with the same function and the evaluator receives the
/// generator's messages, then the two parties' seeds agree at every index
/// but the evaluator's missing index, and that index is the number whose
/// bit `i` is the colour of the evaluator's label of `x[i]`.
pub proof fn lemma_seed_tree_punctured(
    xg: Seq<u128>,
    xe: Seq<u128>,
    delta: u128,
    nonce: u64,
    hf: spec_fn(u128, u64) -> u128,
    msgs: Seq<u128>,
)
    requires
        0 < xg.len() < 64,
        lsb(delta),
        shares_of(xg, xe, delta),
        generator_msgs(xg, delta, nonce, hf, msgs),
    ensures
        ({
            let n = xg.len();
            let sg = gen_tree(xg, delta, nonce, hf, (n - 1) as nat);
            let (se, m) = eval_tree(xe, nonce, hf, msgs, (n - 1) as nat);
            &&& m == colors_value(xe)
            &&& m < pow2(n)
            &&& sg.len() == pow2(n)
            &&& se.len() == pow2(n)
            &&& forall|i: int| 0 <= i < pow2(n) && i != m ==> #[trigger] se[i] == sg[i]
        }),
{
    let n = xg.len();
    lemma_tree_upto(xg, xe, delta, nonce, hf, msgs, (n - 1) as nat);
    assert(xe.subrange(0, n as int) =~= xe);
}

/// Bit `k` of a table row.
pub open spec fn row_bit(r: usize, k: int) -> bool {
    ((r as u64) >> (k as u64)) & 1u64 == 1u64
}

/// The tweak of leaf `i` for output column `j`.
pub open spec fn leaf_tweak(base: u64, leaves: nat, i: int, j: int) -> u64 {
    (base + leaves * j + i) as u64
}

/// The pad that leaf `i` contributes to column `j`.
pub open spec fn leaf_pad(seeds: Seq<u128>, base: u64, j: int, hf: spec_fn(u128, u64) -> u128) -> spec_fn(int) -> u128 {
    |i: int| hf(seeds[i], leaf_tweak(base, seeds.len(), i, j))
}

/// The pad of leaf `i` for column `j`, if bit `k` of the table row of `i`
/// is set.
pub open spec fn cell_term<T: Table>(
    table: T,
    seeds: Seq<u128>,
    base: u64,
    j: int,
    k: int,
    hf: spec_fn(u128, u64) -> u128,
) -> spec_fn(int) -> u128 {
    |i: int| sel(row_bit(table.spec_row(i as usize), k), leaf_pad(seeds, base, j, hf)(i))
}

/// What the generator XORs into cell `(k, j)`.
pub open spec fn gen_cell<T: Table>(table: T, seeds: Seq<u128>, base: u64, j: int, k: int, hf: spec_fn(u128, u64) -> u128) -> u128 {
    xor_range(cell_term(table, seeds, base, j, k, hf), 0, seeds.len() as int)
}

/// The generator's message for column `j` of a share `yj`.
pub open spec fn gen_col_msg(seeds: Seq<u128>, base: u64, j: int, hf: spec_fn(u128, u64) -> u128, yj: u128) -> u128 {
    xor_range(leaf_pad(seeds, base, j, hf), 0, seeds.len() as int) ^ yj
}

/// What the evaluator, missing seed `p`, XORs into cell `(k, j)` given the
/// generator's column message `g` and its share `yj`.
pub open spec fn eval_cell<T: Table>(
    table: T,
    seeds: Seq<u128>,
    p: int,
    base: u64,
    j: int,
    k: int,
    hf: spec_fn(u128, u64) -> u128,
    g: u128,
    yj: u128,
) -> u128 {
    xor_range(punct(cell_term(table, seeds, base, j, k, hf), p), 0, seeds.len() as int)
        ^ sel(
        row_bit(table.spec_row(p as usize), k),
        (xor_range(punct(leaf_pad(seeds, base, j, hf), p), 0, seeds.len() as int) ^ g) ^ yj,
    )
}

/// `f` with the term at `p` set to zero.
pub open spec fn punct(f: spec_fn(int) -> u128, p: int) -> spec_fn(int) -> u128 {
    |i: int| if i == p { 0u128 } else { f(i) }
}

/// XOR `s` into every row `k` of column `j` whose bit is set in `frow`.
fn xor_row_bits(out: &mut ShareMatrix, j: usize, frow: usize, s: u128)
    requires
        old(out).wf(),
        j < old(out).ncols(),
        old(out).nrows() <= 64,
    ensures
        final(out).wf(),
        final(out).nrows() == old(out).nrows(),
        final(out).ncols() == old(out).ncols(),
        forall|k: int, c: int| 0 <= k < old(out).nrows() && 0 <= c < old(out).ncols() ==> #[trigger] final(out).entry(k, c)
            == if c == j { old(out).entry(k, c) ^ sel(row_bit(frow, k), s) } else { old(out).entry(k, c) },
{
    let l = out.rows();
    let mut k: usize = 0;
    while k < l
        invariant
            k <= l,
            l == old(out).nrows(),
            l <= 64,
            j < old(out).ncols(),
            out.wf(),
            out.nrows() == old(out).nrows(),
            out.ncols() == old(out).ncols(),
            forall|r: int, c: int| 0 <= r < l && 0 <= c < old(out).ncols() ==> #[trigger] out.entry(r, c)
                == if c == j && r < k { old(out).entry(r, c) ^ sel(row_bit(frow, r), s) } else { old(out).entry(r, c) },
        decreases l - k,
    {
        if ((frow as u64) >> (k as u64)) & 1 == 1 {
            out.xor_cell(k, j, Share(s));
        }
        proof {
            assert forall|r: int, c: int| 0 <= r < l && 0 <= c < old(out).ncols() implies #[trigger] out.entry(r, c)
                == if c == j && r < k + 1 { old(out).entry(r, c) ^ sel(row_bit(frow, r), s) } else { old(out).entry(r, c) } by {
                if r == k && c == j && !row_bit(frow, r) {
                    lemma_xor_zero(old(out).entry(r, c));
                }
            }
        }
        k = k + 1;
    }
}

/// The tweak of leaf `i` for column `j`, computed without overflow.
fn tweak_of(base: u64, leaves: usize, i: usize, j: usize, m: usize) -> (t: u64)
    requires
        i < leaves,
        j < m,
        base + leaves * m <= u64::MAX,
    ensures
        t == leaf_tweak(base, leaves as nat, i as int, j as int),
        t == base + leaves * j + i,
{
    proof {
        assert(leaves * j + i < leaves * m) by (nonlinear_arith)
            requires
                i < leaves,
                j < m,
        ;
    }
    base + (leaves as u64) * (j as u64) + (i as u64)
}

/// One generator column: XOR each leaf's pad into the rows its table row
/// selects, and return the XOR of all pads.
fn generator_column<T: Table, F: Fn(u128, u64) -> u128>(
    out: &mut ShareMatrix,
    table: &T,
    seeds: &Vec<u128>,
    base: u64,
    j: usize,
    m: usize,
    h: &F,
) -> (sum: u128)
    requires
        is_hash(*h),
        old(out).wf(),
        old(out).nrows() <= 64,
        j < m,
        m == old(out).ncols(),
        base + seeds@.len() * m <= u64::MAX,
    ensures
        final(out).wf(),
        final(out).nrows() == old(out).nrows(),
        final(out).ncols() == old(out).ncols(),
        sum == xor_range(leaf_pad(seeds@, base, j as int, hash_of(*h)), 0, seeds@.len() as int),
        forall|k: int, c: int| 0 <= k < old(out).nrows() && 0 <= c < old(out).ncols() ==> #[trigger] final(out).entry(k, c)
            == if c == j {
                old(out).entry(k, c) ^ gen_cell(*table, seeds@, base, j as int, k, hash_of(*h))
            } else {
                old(out).entry(k, c)
            },
{
    let ghost hf = hash_of(*h);
    let leaves = seeds.len();
    let mut sum: u128 = 0;
    let mut i: usize = 0;
    assert forall|k: int, c: int| 0 <= k < old(out).nrows() && 0 <= c < old(out).ncols() implies #[trigger] out.entry(k, c)
        == if c == j {
            old(out).entry(k, c) ^ xor_range(cell_term(*table, seeds@, base, j as int, k, hf), 0, 0)
        } else {
            old(out).entry(k, c)
        } by {
        lemma_xor_zero(out.entry(k, c));
    }
    while i < leaves
        invariant
            i <= leaves,
            leaves == seeds@.len(),
            is_hash(*h),
            hf == hash_of(*h),
            j < m,
            m == old(out).ncols(),
            base + leaves * m <= u64::MAX,
            old(out).nrows() <= 64,
            out.wf(),
            out.nrows() == old(out).nrows(),
            out.ncols() == old(out).ncols(),
            sum == xor_range(leaf_pad(seeds@, base, j as int, hf), 0, i as int),
            forall|k: int, c: int| 0 <= k < old(out).nrows() && 0 <= c < old(out).ncols() ==> #[trigger] out.entry(k, c)
                == if c == j {
                    old(out).entry(k, c) ^ xor_range(cell_term(*table, seeds@, base, j as int, k, hf), 0, i as int)
                } else {
                    old(out).entry(k, c)
                },
        decreases leaves - i,
    {
        let t = tweak_of(base, leaves, i, j, m);
        let s = hash_call(h, seeds[i], t);
        sum = sum ^ s;
        let frow = table.row(i);
        let ghost mid = *out;
        xor_row_bits(out, j, frow, s);
        proof {
            assert forall|k: int, c: int| 0 <= k < old(out).nrows() && 0 <= c < old(out).ncols() implies #[trigger] out.entry(k, c)
                == if c == j {
                    old(out).entry(k, c) ^ xor_range(cell_term(*table, seeds@, base, j as int, k, hf), 0, i + 1)
                } else {
                    old(out).entry(k, c)
                } by {
                if c == j {
                    assert(mid.entry(k, c) == old(out).entry(k, c) ^ xor_range(cell_term(*table, seeds@, base, j as int, k, hf), 0, i as int));
                    assert(cell_term(*table, seeds@, base, j as int, k, hf)(i as int) == sel(row_bit(frow, k), s));
                    lemma_xor3(old(out).entry(k, c), xor_range(cell_term(*table, seeds@, base, j as int, k, hf), 0, i as int), sel(row_bit(frow, k), s));
                }
            }
        }
        i = i + 1;
    }
    sum
}

/// One evaluator column: XOR each known leaf's pad into the rows its
/// table row selects, then recover the missing leaf's pad from the
/// generator's column message `g` and the share `yj`.
fn evaluator_column<T: Table, F: Fn(u128, u64) -> u128>(
    out: &mut ShareMatrix,
    table: &T,
    seeds: &Vec<u128>,
    p: usize,
    base: u64,
    j: usize,
    m: usize,
    g: u128,
    yj: u128,
    h: &F,
)
    requires
        is_hash(*h),
        old(out).wf(),
        old(out).nrows() <= 64,
        j < m,
        m == old(out).ncols(),
        p < seeds@.len(),
        base + seeds@.len() * m <= u64::MAX,
    ensures
        final(out).wf(),
        final(out).nrows() == old(out).nrows(),
        final(out).ncols() == old(out).ncols(),
        forall|k: int, c: int| 0 <= k < old(out).nrows() && 0 <= c < old(out).ncols() ==> #[trigger] final(out).entry(k, c)
            == if c == j {
                old(out).entry(k, c) ^ eval_cell(*table, seeds@, p as int, base, j as int, k, hash_of(*h), g, yj)
            } else {
                old(out).entry(k, c)
            },
{
    let ghost hf = hash_of(*h);
    let leaves = seeds.len();
    let mut e_sum: u128 = 0;
    let mut i: usize = 0;
    assert forall|k: int, c: int| 0 <= k < old(out).nrows() && 0 <= c < old(out).ncols() implies #[trigger] out.entry(k, c)
        == if c == j {
            old(out).entry(k, c) ^ xor_range(punct(cell_term(*table, seeds@, base, j as int, k, hf), p as int), 0, 0)
        } else {
            old(out).entry(k, c)
        } by {
        lemma_xor_zero(out.entry(k, c));
    }
    while i < leaves
        invariant
            i <= leaves,
            leaves == seeds@.len(),
            p < leaves,
            is_hash(*h),
            hf == hash_of(*h),
            j < m,
            m == old(out).ncols(),
            base + leaves * m <= u64::MAX,
            old(out).nrows() <= 64,
            out.wf(),
            out.nrows() == old(out).nrows(),
            out.ncols() == old(out).ncols(),
            e_sum == xor_range(punct(leaf_pad(seeds@, base, j as int, hf), p as int), 0, i as int),
            forall|k: int, c: int| 0 <= k < old(out).nrows() && 0 <= c < old(out).ncols() ==> #[trigger] out.entry(k, c)
                == if c == j {
                    old(out).entry(k, c) ^ xor_range(punct(cell_term(*table, seeds@, base, j as int, k, hf), p as int), 0, i as int)
                } else {
                    old(out).entry(k, c)
                },
        decreases leaves - i,
    {
        if i != p {
            let t = tweak_of(base, leaves, i, j, m);
            let s = hash_call(h, seeds[i], t);
            e_sum = e_sum ^ s;
            let frow = table.row(i);
            let ghost mid = *out;
            xor_row_bits(out, j, frow, s);
            proof {
                assert forall|k: int, c: int| 0 <= k < old(out).nrows() && 0 <= c < old(out).ncols() implies #[trigger] out.entry(k, c)
                    == if c == j {
                        old(out).entry(k, c) ^ xor_range(punct(cell_term(*table, seeds@, base, j as int, k, hf), p as int), 0, i + 1)
                    } else {
                        old(out).entry(k, c)
                    } by {
                    if c == j {
                        assert(mid.entry(k, c) == old(out).entry(k, c)
                            ^ xor_range(punct(cell_term(*table, seeds@, base, j as int, k, hf), p as int), 0, i as int));
                        assert(punct(cell_term(*table, seeds@, base, j as int, k, hf), p as int)(i as int) == sel(row_bit(frow, k), s));
                        lemma_xor3(
                            old(out).entry(k, c),
                            xor_range(punct(cell_term(*table, seeds@, base, j as int, k, hf), p as int), 0, i as int),
                            sel(row_bit(frow, k), s),
                        );
                    }
                }
            }
        } else {
            proof {
                lemma_xor_zero(e_sum);
                assert forall|k: int, c: int| 0 <= k < old(out).nrows() && 0 <= c < old(out).ncols() implies #[trigger] out.entry(k, c)
                    == if c == j {
                        old(out).entry(k, c) ^ xor_range(punct(cell_term(*table, seeds@, base, j as int, k, hf), p as int), 0, i + 1)
                    } else {
                        old(out).entry(k, c)
                    } by {
                    if c == j {
                        lemma_xor_zero(xor_range(punct(cell_term(*table, seeds@, base, j as int, k, hf), p as int), 0, i as int));
                    }
                }
            }
        }
        i = i + 1;
    }
    let s = e_sum ^ g ^ yj;
    let frow = table.row(p);
    let ghost mid = *out;
    xor_row_bits(out, j, frow, s);
    proof {
        assert forall|k: int, c: int| 0 <= k < old(out).nrows() && 0 <= c < old(out).ncols() implies #[trigger] out.entry(k, c)
            == if c == j {
                old(out).entry(k, c) ^ eval_cell(*table, seeds@, p as int, base, j as int, k, hf, g, yj)
            } else {
                old(out).entry(k, c)
            } by {
            if c == j {
                lemma_xor3(
                    old(out).entry(k, c),
                    xor_range(punct(cell_term(*table, seeds@, base, j as int, k, hf), p as int), 0, leaves as int),
                    sel(row_bit(frow, k), s),
                );
            }
        }
    }
}

/// The generator's tree has `2^n` seeds at every level.
pub proof fn lemma_gen_tree_len(x: Seq<u128>, delta: u128, nonce: u64, hf: spec_fn(u128, u64) -> u128, level: nat)
    requires
        x.len() > 0,
    ensures
        gen_tree(x, delta, nonce, hf, level).len() == pow2(x.len()),
    decreases level,
{
    if level > 0 {
        lemma_gen_tree_len(x, delta, nonce, hf, (level - 1) as nat);
    }
}

/// The evaluator's tree has `2^n` seeds at every level.
pub proof fn lemma_eval_tree_len(x: Seq<u128>, nonce: u64, hf: spec_fn(u128, u64) -> u128, msgs: Seq<u128>, level: nat)
    requires
        x.len() > 0,
        level < x.len(),
    ensures
        eval_tree(x, nonce, hf, msgs, level).0.len() == pow2(x.len()),
        eval_tree(x, nonce, hf, msgs, level).1 < pow2(level + 1),
    decreases level,
{
    lemma_pow2_unfold(level + 1);
    if level + 1 < x.len() {
        lemma_pow2_strictly_increases(level + 1, x.len());
    }
    if level > 0 {
        lemma_eval_tree_len(x, nonce, hf, msgs, (level - 1) as nat);
        lemma_pow2_unfold(level);
    } else {
        lemma2_to64();
    }
}

/// Generator side of the one-hot unary outer product: XORs into `out` its
/// share of `T(x) * y`, where `T(x)` is the table row at the masked value
/// of `x`.  Returns the messages for the evaluator: those of the seed tree,
/// then one per column of `out`.  The nonce ends past every tweak used.
pub fn unary_outer_product_generator<T: Table, F: Fn(u128, u64) -> u128>(
    state: &mut OneHotState,
    table: &T,
    x: &[Share],
    y: &[Share],
    out: &mut ShareMatrix,
    h: &F,
) -> (msgs: (Vec<u128>, Vec<u128>))
    requires
        old(state).role == Role::Generator,
        is_hash(*h),
        0 < x@.len() < 64,
        x@.len() < usize::BITS,
        old(out).wf(),
        old(out).nrows() <= 64,
        y@.len() == old(out).ncols(),
        nonce_after(old(state).nonce, x@.len()) + pow2(x@.len()) * y@.len() <= u64::MAX,
    ensures
        ({
            let hf = hash_of(*h);
            let seeds = gen_tree(vals(x@), old(state).delta, old(state).nonce, hf, (x@.len() - 1) as nat);
            let base = nonce_after(old(state).nonce, x@.len());
            &&& generator_msgs(vals(x@), old(state).delta, old(state).nonce, hf, msgs.0@)
            &&& msgs.1@.len() == y@.len()
            &&& forall|j: int| 0 <= j < y@.len() ==> #[trigger] msgs.1@[j] == gen_col_msg(seeds, base, j, hf, y@[j].0)
            &&& final(out).wf()
            &&& final(out).nrows() == old(out).nrows()
            &&& final(out).ncols() == old(out).ncols()
            &&& forall|k: int, c: int| 0 <= k < old(out).nrows() && 0 <= c < old(out).ncols() ==> #[trigger] final(out).entry(k, c)
                == old(out).entry(k, c) ^ gen_cell(*table, seeds, base, c, k, hf)
            &&& final(state).nonce == base + pow2(x@.len()) * y@.len()
            &&& final(state).role == old(state).role
            &&& final(state).delta == old(state).delta
        }),
{
    let ghost hf = hash_of(*h);
    let m = y.len();
    let r = populate_seeds_generator(state, x, h);
    let seeds = r.0;
    let tree_msgs = r.1;
    let base = state.nonce;
    let leaves = seeds.len();
    proof {
        lemma_gen_tree_len(vals(x@), old(state).delta, old(state).nonce, hf, (x@.len() - 1) as nat);
    }
    let mut col_msgs: Vec<u128> = Vec::new();
    let mut j: usize = 0;
    while j < m
        invariant
            j <= m,
            m == y@.len(),
            m == old(out).ncols(),
            old(out).nrows() <= 64,
            is_hash(*h),
            hf == hash_of(*h),
            leaves == seeds@.len(),
            base + leaves * m <= u64::MAX,
            out.wf(),
            out.nrows() == old(out).nrows(),
            out.ncols() == old(out).ncols(),
            col_msgs@.len() == j,
            forall|c: int| 0 <= c < j ==> #[trigger] col_msgs@[c] == gen_col_msg(seeds@, base, c, hf, y@[c].0),
            forall|k: int, c: int| 0 <= k < old(out).nrows() && 0 <= c < old(out).ncols() ==> #[trigger] out.entry(k, c)
                == if c < j { old(out).entry(k, c) ^ gen_cell(*table, seeds@, base, c, k, hf) } else { old(out).entry(k, c) },
        decreases m - j,
    {
        let sum = generator_column(out, table, &seeds, base, j, m, h);
        col_msgs.push(sum ^ y[j].0);
        j = j + 1;
    }
    proof {
        assert(leaves as u64 * m as u64 <= u64::MAX - base);
    }
    state.set_nonce(base + (leaves as u64) * (m as u64));
    (tree_msgs, col_msgs)
}

/// Evaluator side of the one-hot unary outer product, given the
/// generator's tree and column messages: XORs into `out` its share of
/// `T(x) * y`.  The nonce ends past every tweak used.
pub fn unary_outer_product_evaluator<T: Table, F: Fn(u128, u64) -> u128>(
    state: &mut OneHotState,
    table: &T,
    x: &[Share],
    y: &[Share],
    out: &mut ShareMatrix,
    tree_msgs: &[u128],
    col_msgs: &[u128],
    h: &F,
)
    requires
        old(state).role == Role::Evaluator,
        is_hash(*h),
        0 < x@.len() < 64,
        x@.len() < usize::BITS,
        old(out).wf(),
        old(out).nrows() <= 64,
        y@.len() == old(out).ncols(),
        tree_msgs@.len() == 2 * (x@.len() - 1),
        col_msgs@.len() == y@.len(),
        nonce_after(old(state).nonce, x@.len()) + pow2(x@.len()) * y@.len() <= u64::MAX,
    ensures
        ({
            let hf = hash_of(*h);
            let tree = eval_tree(vals(x@), old(state).nonce, hf, tree_msgs@, (x@.len() - 1) as nat);
            let base = nonce_after(old(state).nonce, x@.len());
            &&& final(out).wf()
            &&& final(out).nrows() == old(out).nrows()
            &&& final(out).ncols() == old(out).ncols()
            &&& forall|k: int, c: int| 0 <= k < old(out).nrows() && 0 <= c < old(out).ncols() ==> #[trigger] final(out).entry(k, c)
                == old(out).entry(k, c) ^ eval_cell(*table, tree.0, tree.1 as int, base, c, k, hf, col_msgs@[c], y@[c].0)
            &&& final(state).nonce == base + pow2(x@.len()) * y@.len()
            &&& final(state).role == old(state).role
            &&& final(state).delta == old(state).delta
        }),
{
    let ghost hf = hash_of(*h);
    let m = y.len();
    let r = populate_seeds_evaluator(state, x, tree_msgs, h);
    let seeds = r.0;
    let p = r.1;
    let base = state.nonce;
    let leaves = seeds.len();
    proof {
        lemma_eval_tree_len(vals(x@), old(state).nonce, hf, tree_msgs@, (x@.len() - 1) as nat);
    }
    let mut j: usize = 0;
    while j < m
        invariant
            j <= m,
            m == y@.len(),
            m == col_msgs@.len(),
            m == old(out).ncols(),
            old(out).nrows() <= 64,
            is_hash(*h),
            hf == hash_of(*h),
            leaves == seeds@.len(),
            p < leaves,
            base + leaves * m <= u64::MAX,
            out.wf(),
            out.nrows() == old(out).nrows(),
            out.ncols() == old(out).ncols(),
            forall|k: int, c: int| 0 <= k < old(out).nrows() && 0 <= c < old(out).ncols() ==> #[trigger] out.entry(k, c)
                == if c < j {
                    old(out).entry(k, c) ^ eval_cell(*table, seeds@, p as int, base, c, k, hf, col_msgs@[c], y@[c].0)
                } else {
                    old(out).entry(k, c)
                },
        decreases m - j,
    {
        evaluator_column(out, table, &seeds, p, base, j, m, col_msgs[j], y[j].0, h);
        j = j + 1;
    }
    proof {
        assert(leaves as u64 * m as u64 <= u64::MAX - base);
    }
    state.set_nonce(base + (leaves as u64) * (m as u64));
}

/// The XOR algebra of one output cell.
proof fn lemma_cell_alg(a: u128, b: u128, pp: u128, yg: u128, ye: u128, rb: bool)
    by (bit_vector)
    ensures
        (a ^ (if rb { pp } else { 0 })) ^ (a ^ (if rb { (b ^ ((b ^ pp) ^ yg)) ^ ye } else { 0 }))
            == (if rb { yg ^ ye } else { 0 }),
{
}

/// One output cell: when the two parties' seeds agree except at `p`, the
/// generator's and the evaluator's contributions to cell `(k, j)` XOR to
/// bit `k` of the table row of `p` times the difference of their shares
/// of `y[j]`.
pub proof fn lemma_unary_cell<T: Table>(
    table: T,
    sg: Seq<u128>,
    se: Seq<u128>,
    p: int,
    base: u64,
    j: int,
    k: int,
    hf: spec_fn(u128, u64) -> u128,
    yg: u128,
    ye: u128,
)
    requires
        se.len() == sg.len(),
        0 <= p < sg.len(),
        forall|i: int| 0 <= i < sg.len() && i != p ==> #[trigger] se[i] == sg[i],
    ensures
        gen_cell(table, sg, base, j, k, hf) ^ eval_cell(table, se, p, base, j, k, hf, gen_col_msg(sg, base, j, hf, yg), ye)
            == sel(row_bit(table.spec_row(p as usize), k), yg ^ ye),
{
    let len = sg.len() as int;
    let cg = cell_term(table, sg, base, j, k, hf);
    let ce = cell_term(table, se, base, j, k, hf);
    let lg = leaf_pad(sg, base, j, hf);
    let le = leaf_pad(se, base, j, hf);
    lemma_xor_range_punctured(cg, 0, len, p);
    lemma_xor_range_ext(|i: int| if i == p { 0u128 } else { cg(i) }, punct(ce, p), 0, len);
    lemma_xor_range_punctured(lg, 0, len, p);
    lemma_xor_range_ext(|i: int| if i == p { 0u128 } else { lg(i) }, punct(le, p), 0, len);
    let a = xor_range(punct(ce, p), 0, len);
    let b = xor_range(punct(le, p), 0, len);
    let rb = row_bit(table.spec_row(p as usize), k);
    assert(cg(p) == sel(rb, lg(p)));
    lemma_cell_alg(a, b, lg(p), yg, ye, rb);
}

/// Correctness of the one-hot unary outer product.  If the evaluator's
/// labels of `x` differ from the generator's by zero or delta (delta of
/// colour 1), both hash with the same function and the evaluator receives
/// the generator's messages, then in every cell `(k, c)` the two parties'
/// contributions XOR to bit `k` of the table row at the masked value of
/// `x` (the number whose bit `i` is the colour of the evaluator's label
/// of `x[i]`) times the difference of their shares of `y[c]`.
pub proof fn lemma_unary_outer_product<T: Table>(
    table: T,
    xg: Seq<u128>,
    xe: Seq<u128>,
    delta: u128,
    nonce: u64,
    hf: spec_fn(u128, u64) -> u128,
    tree_msgs: Seq<u128>,
    yg: u128,
    ye: u128,
    c: int,
    k: int,
)
    requires
        0 < xg.len() < 64,
        lsb(delta),
        shares_of(xg, xe, delta),
        generator_msgs(xg, delta, nonce, hf, tree_msgs),
    ensures
        ({
            let n = xg.len();
            let sg = gen_tree(xg, delta, nonce, hf, (n - 1) as nat);
            let tree = eval_tree(xe, nonce, hf, tree_msgs, (n - 1) as nat);
            let base = nonce_after(nonce, n);
            gen_cell(table, sg, base, c, k, hf)
                ^ eval_cell(table, tree.0, tree.1 as int, base, c, k, hf, gen_col_msg(sg, base, c, hf, yg), ye)
                == sel(row_bit(table.spec_row(colors_value(xe) as usize), k), yg ^ ye)
        }),
{
    let n = xg.len();
    let sg = gen_tree(xg, delta, nonce, hf, (n - 1) as nat);
    let tree = eval_tree(xe, nonce, hf, tree_msgs, (n - 1) as nat);
    lemma_seed_tree_punctured(xg, xe, delta, nonce, hf, tree_msgs);
    lemma_unary_cell(table, sg, tree.0, tree.1 as int, nonce_after(nonce, n), c, k, hf, yg, ye);
}

/// The colours of a list of shares.
pub fn share_colors(x: &[Share]) -> (c: Vec<bool>)
    ensures
        c@.len() == x@.len(),
        forall|i: int| 0 <= i < x@.len() ==> #[trigger] c@[i] == lsb(x@[i].0),
{
    let mut c: Vec<bool> = Vec::new();
    let mut i: usize = 0;
    while i < x.len()
        invariant
            i <= x@.len(),
            c@.len() == i,
            forall|k: int| 0 <= k < i ==> #[trigger] c@[k] == lsb(x@[k].0),
        decreases x.len() - i,
    {
        c.push(x[i].color());
        i = i + 1;
    }
    c
}

/// Generator side of the half outer product `(x + colour(x)) * y`: the
/// unary outer product with the identity table, into an
/// `x.len() * y.len()` matrix.
pub fn half_outer_product_generator<F: Fn(u128, u64) -> u128>(
    state: &mut OneHotState,
    x: &[Share],
    y: &[Share],
    out: &mut ShareMatrix,
    h: &F,
) -> (msgs: (Vec<u128>, Vec<u128>))
    requires
        old(state).role == Role::Generator,
        is_hash(*h),
        0 < x@.len() < 64,
        x@.len() < usize::BITS,
        old(out).wf(),
        old(out).nrows() == x@.len(),
        old(out).ncols() == y@.len(),
        nonce_after(old(state).nonce, x@.len()) + pow2(x@.len()) * y@.len() <= u64::MAX,
    ensures
        ({
            let hf = hash_of(*h);
            let seeds = gen_tree(vals(x@), old(state).delta, old(state).nonce, hf, (x@.len() - 1) as nat);
            let base = nonce_after(old(state).nonce, x@.len());
            &&& generator_msgs(vals(x@), old(state).delta, old(state).nonce, hf, msgs.0@)
            &&& msgs.1@.len() == y@.len()
            &&& forall|j: int| 0 <= j < y@.len() ==> #[trigger] msgs.1@[j] == gen_col_msg(seeds, base, j, hf, y@[j].0)
            &&& final(out).wf()
            &&& final(out).nrows() == old(out).nrows()
            &&& final(out).ncols() == old(out).ncols()
            &&& forall|k: int, c: int| 0 <= k < old(out).nrows() && 0 <= c < old(out).ncols() ==> #[trigger] final(out).entry(k, c)
                == old(out).entry(k, c) ^ gen_cell(IdentityTable, seeds, base, c, k, hf)
            &&& final(state).nonce == base + pow2(x@.len()) * y@.len()
            &&& final(state).role == old(state).role
            &&& final(state).delta == old(state).delta
        }),
{
    unary_outer_product_generator(state, &IdentityTable, x, y, out, h)
}

/// Evaluator side of the half outer product, given the generator's
/// messages.
pub fn half_outer_product_evaluator<F: Fn(u128, u64) -> u128>(
    state: &mut OneHotState,
    x: &[Share],
    y: &[Share],
    out: &mut ShareMatrix,
    tree_msgs: &[u128],
    col_msgs: &[u128],
    h: &F,
)
    requires
        old(state).role == Role::Evaluator,
        is_hash(*h),
        0 < x@.len() < 64,
        x@.len() < usize::BITS,
        old(out).wf(),
        old(out).nrows() == x@.len(),
        old(out).ncols() == y@.len(),
        tree_msgs@.len() == 2 * (x@.len() - 1),
        col_msgs@.len() == y@.len(),
        nonce_after(old(state).nonce, x@.len()) + pow2(x@.len()) * y@.len() <= u64::MAX,
    ensures
        ({
            let hf = hash_of(*h);
            let tree = eval_tree(vals(x@), old(state).nonce, hf, tree_msgs@, (x@.len() - 1) as nat);
            let base = nonce_after(old(state).nonce, x@.len());
            &&& final(out).wf()
            &&& final(out).nrows() == old(out).nrows()
            &&& final(out).ncols() == old(out).ncols()
            &&& forall|k: int, c: int| 0 <= k < old(out).nrows() && 0 <= c < old(out).ncols() ==> #[trigger] final(out).entry(k, c)
                == old(out).entry(k, c) ^ eval_cell(IdentityTable, tree.0, tree.1 as int, base, c, k, hf, col_msgs@[c], y@[c].0)
            &&& final(state).nonce == base + pow2(x@.len()) * y@.len()
            &&& final(state).role == old(state).role
            &&& final(state).delta == old(state).delta
        }),
{
    unary_outer_product_evaluator(state, &IdentityTable, x, y, out, tree_msgs, col_msgs, h)
}

/// The nonce at which the second half of an outer product of `n` and `m`
/// shares starts.
pub open spec fn outer_mid_nonce(n0: u64, n: nat, m: nat) -> u64 {
    (nonce_after(n0, n) + pow2(n) * m) as u64
}

/// The generator's entry `(i, j)` of the outer product of labels `xg`,
/// `yg` started at nonce `n0`.
pub open spec fn outer_gen_entry(
    xg: Seq<u128>,
    yg: Seq<u128>,
    delta: u128,
    n0: u64,
    hf: spec_fn(u128, u64) -> u128,
    i: int,
    j: int,
) -> u128 {
    let n = xg.len();
    let m = yg.len();
    let s1 = gen_tree(xg, delta, n0, hf, (n - 1) as nat);
    let b1 = nonce_after(n0, n);
    let n1 = outer_mid_nonce(n0, n, m);
    let s2 = gen_tree(yg, delta, n1, hf, (m - 1) as nat);
    let b2 = nonce_after(n1, m);
    (gen_cell(IdentityTable, s1, b1, j, i, hf) ^ gen_cell(IdentityTable, s2, b2, i, j, hf)) ^ sel(
        lsb(xg[i]) && lsb(yg[j]),
        delta,
    )
}

/// The evaluator's entry `(i, j)` of the outer product of its labels `xe`,
/// `ye`, given the messages of the two halves; `de` is its delta.
pub open spec fn outer_eval_entry(
    xe: Seq<u128>,
    ye: Seq<u128>,
    de: u128,
    n0: u64,
    hf: spec_fn(u128, u64) -> u128,
    tree_x: Seq<u128>,
    cols_x: Seq<u128>,
    tree_y: Seq<u128>,
    cols_y: Seq<u128>,
    i: int,
    j: int,
) -> u128 {
    let n = xe.len();
    let m = ye.len();
    let t1 = eval_tree(xe, n0, hf, tree_x, (n - 1) as nat);
    let b1 = nonce_after(n0, n);
    let n1 = outer_mid_nonce(n0, n, m);
    let t2 = eval_tree(ye, n1, hf, tree_y, (m - 1) as nat);
    let b2 = nonce_after(n1, m);
    (eval_cell(IdentityTable, t1.0, t1.1 as int, b1, j, i, hf, cols_x[j], ye[j])
        ^ eval_cell(IdentityTable, t2.0, t2.1 as int, b2, i, j, hf, cols_y[i], sel(lsb(xe[i]), de))) ^ sel(
        lsb(xe[i]) && lsb(ye[j]),
        de,
    )
}

/// The messages of the generator's outer product, in the order sent:
/// the tree and column messages of `x`, then those of `y`.
pub struct OuterProductMsgs {
    pub tree_x: Vec<u128>,
    pub cols_x: Vec<u128>,
    pub tree_y: Vec<u128>,
    pub cols_y: Vec<u128>,
}

/// Generator side of the one-hot outer product `x * y^T`: returns its
/// `x.len() * y.len()` share matrix and the messages for the evaluator.
#[verifier::rlimit(40)]
pub fn outer_product_generator<F: Fn(u128, u64) -> u128>(
    state: &mut OneHotState,
    x: &[Share],
    y: &[Share],
    h: &F,
) -> (r: (ShareMatrix, OuterProductMsgs))
    requires
        old(state).role == Role::Generator,
        is_hash(*h),
        0 < x@.len() < 64,
        0 < y@.len() < 64,
        x@.len() < usize::BITS,
        y@.len() < usize::BITS,
        nonce_after(old(state).nonce, x@.len()) + pow2(x@.len()) * y@.len() <= u64::MAX,
        nonce_after(outer_mid_nonce(old(state).nonce, x@.len(), y@.len()), y@.len()) + pow2(y@.len()) * x@.len()
            <= u64::MAX,
    ensures
        ({
            let hf = hash_of(*h);
            let d = old(state).delta;
            let n0 = old(state).nonce;
            let n1 = outer_mid_nonce(n0, x@.len(), y@.len());
            let s1 = gen_tree(vals(x@), d, n0, hf, (x@.len() - 1) as nat);
            let s2 = gen_tree(vals(y@), d, n1, hf, (y@.len() - 1) as nat);
            &&& r.0.wf()
            &&& r.0.nrows() == x@.len()
            &&& r.0.ncols() == y@.len()
            &&& forall|i: int, j: int| 0 <= i < x@.len() && 0 <= j < y@.len() ==> #[trigger] r.0.entry(i, j)
                == outer_gen_entry(vals(x@), vals(y@), d, n0, hf, i, j)
            &&& generator_msgs(vals(x@), d, n0, hf, r.1.tree_x@)
            &&& r.1.cols_x@.len() == y@.len()
            &&& forall|j: int| 0 <= j < y@.len() ==> #[trigger] r.1.cols_x@[j]
                == gen_col_msg(s1, nonce_after(n0, x@.len()), j, hf, y@[j].0)
            &&& generator_msgs(vals(y@), d, n1, hf, r.1.tree_y@)
            &&& r.1.cols_y@.len() == x@.len()
            &&& forall|i: int| 0 <= i < x@.len() ==> #[trigger] r.1.cols_y@[i]
                == gen_col_msg(s2, nonce_after(n1, y@.len()), i, hf, sel(lsb(x@[i].0), d))
            &&& final(state).nonce == nonce_after(n1, y@.len()) + pow2(y@.len()) * x@.len()
            &&& final(state).role == old(state).role
            &&& final(state).delta == old(state).delta
        }),
{
    let ghost hf = hash_of(*h);
    let ghost d = state.delta;
    let n = x.len();
    let m = y.len();
    proof {
        assert(n * m <= 64 * 64) by (nonlinear_arith)
            requires
                n < 64,
                m < 64,
        ;
    }
    let mut out = ShareMatrix::new(n, m);
    let ghost out0 = out;
    let (tree_x, cols_x) = half_outer_product_generator(state, x, y, &mut out, h);
    let ghost out1 = out;
    let xc = share_colors(x);
    let yc = share_colors(y);
    let xm = BoolMatrix::from_vec(n, 1, share_colors(x));
    let x_const = ShareMatrix::constant(state, &xm);
    let xs = x_const.as_slice();
    let mut tr = ShareMatrix::new(m, n);
    let ghost tr0 = tr;
    let (tree_y, cols_y) = half_outer_product_generator(state, y, xs, &mut tr, h);
    out.xor_transpose_assign(&tr);
    let ghost out2 = out;
    let xy = BoolMatrix::outer_product(xc.as_slice(), yc.as_slice());
    let xy_share = ShareMatrix::constant(state, &xy);
    out.xor_assign(&xy_share);
    proof {
        assert(vals(xs@) =~= Seq::new(n as nat, |i: int| sel(lsb(x@[i].0), d)));
        assert forall|i: int, j: int| 0 <= i < n && 0 <= j < m implies #[trigger] out.entry(i, j)
            == outer_gen_entry(vals(x@), vals(y@), d, old(state).nonce, hf, i, j) by {
            assert(vals(x@)[i] == x@[i].0);
            assert(vals(y@)[j] == y@[j].0);
            assert(xm.entry(i, 0) == xc@[i]);
            lemma_xor_zero(gen_cell(
                IdentityTable,
                gen_tree(vals(x@), d, old(state).nonce, hf, (n - 1) as nat),
                nonce_after(old(state).nonce, n as nat),
                j,
                i,
                hf,
            ));
            lemma_xor_zero(gen_cell(
                IdentityTable,
                gen_tree(vals(y@), d, outer_mid_nonce(old(state).nonce, n as nat, m as nat), hf, (m - 1) as nat),
                nonce_after(outer_mid_nonce(old(state).nonce, n as nat, m as nat), m as nat),
                i,
                j,
                hf,
            ));
        }
        assert forall|i: int| 0 <= i < n implies #[trigger] cols_y@[i]
            == gen_col_msg(
                gen_tree(vals(y@), d, outer_mid_nonce(old(state).nonce, n as nat, m as nat), hf, (m - 1) as nat),
                nonce_after(outer_mid_nonce(old(state).nonce, n as nat, m as nat), m as nat),
                i,
                hf,
                sel(lsb(x@[i].0), d),
            ) by {
            assert(xs@[i].0 == sel(lsb(x@[i].0), d));
        }
    }
    (out, OuterProductMsgs { tree_x, cols_x, tree_y, cols_y })
}

/// Evaluator side of the one-hot outer product `x * y^T`, given the
/// generator's messages: returns its share matrix.
#[verifier::rlimit(40)]
pub fn outer_product_evaluator<F: Fn(u128, u64) -> u128>(
    state: &mut OneHotState,
    x: &[Share],
    y: &[Share],
    msgs: &OuterProductMsgs,
    h: &F,
) -> (r: ShareMatrix)
    requires
        old(state).role == Role::Evaluator,
        is_hash(*h),
        0 < x@.len() < 64,
        0 < y@.len() < 64,
        x@.len() < usize::BITS,
        y@.len() < usize::BITS,
        msgs.tree_x@.len() == 2 * (x@.len() - 1),
        msgs.cols_x@.len() == y@.len(),
        msgs.tree_y@.len() == 2 * (y@.len() - 1),
        msgs.cols_y@.len() == x@.len(),
        nonce_after(old(state).nonce, x@.len()) + pow2(x@.len()) * y@.len() <= u64::MAX,
        nonce_after(outer_mid_nonce(old(state).nonce, x@.len(), y@.len()), y@.len()) + pow2(y@.len()) * x@.len()
            <= u64::MAX,
    ensures
        ({
            let hf = hash_of(*h);
            let n0 = old(state).nonce;
            let n1 = outer_mid_nonce(n0, x@.len(), y@.len());
            &&& r.wf()
            &&& r.nrows() == x@.len()
            &&& r.ncols() == y@.len()
            &&& forall|i: int, j: int| 0 <= i < x@.len() && 0 <= j < y@.len() ==> #[trigger] r.entry(i, j)
                == outer_eval_entry(
                    vals(x@),
                    vals(y@),
                    old(state).delta,
                    n0,
                    hf,
                    msgs.tree_x@,
                    msgs.cols_x@,
                    msgs.tree_y@,
                    msgs.cols_y@,
                    i,
                    j,
                )
            &&& final(state).nonce == nonce_after(n1, y@.len()) + pow2(y@.len()) * x@.len()
            &&& final(state).role == old(state).role
            &&& final(state).delta == old(state).delta
        }),
{
    let ghost hf = hash_of(*h);
    let ghost d = state.delta;
    let n = x.len();
    let m = y.len();
    proof {
        assert(n * m <= 64 * 64) by (nonlinear_arith)
            requires
                n < 64,
                m < 64,
        ;
    }
    let mut out = ShareMatrix::new(n, m);
    half_outer_product_evaluator(state, x, y, &mut out, msgs.tree_x.as_slice(), msgs.cols_x.as_slice(), h);
    let xc = share_colors(x);
    let yc = share_colors(y);
    let xm = BoolMatrix::from_vec(n, 1, share_colors(x));
    let x_const = ShareMatrix::constant(state, &xm);
    let xs = x_const.as_slice();
    let mut tr = ShareMatrix::new(m, n);
    half_outer_product_evaluator(state, y, xs, &mut tr, msgs.tree_y.as_slice(), msgs.cols_y.as_slice(), h);
    out.xor_transpose_assign(&tr);
    let xy = BoolMatrix::outer_product(xc.as_slice(), yc.as_slice());
    let xy_share = ShareMatrix::constant(state, &xy);
    out.xor_assign(&xy_share);
    proof {
        assert forall|i: int, j: int| 0 <= i < n && 0 <= j < m implies #[trigger] out.entry(i, j)
            == outer_eval_entry(
                vals(x@),
                vals(y@),
                d,
                old(state).nonce,
                hf,
                msgs.tree_x@,
                msgs.cols_x@,
                msgs.tree_y@,
                msgs.cols_y@,
                i,
                j,
            ) by {
            assert(vals(x@)[i] == x@[i].0);
            assert(vals(y@)[j] == y@[j].0);
            assert(xm.entry(i, 0) == xc@[i]);
            assert(xs@[i].0 == sel(lsb(x@[i].0), d));
            let n0 = old(state).nonce;
            let n1 = outer_mid_nonce(n0, n as nat, m as nat);
            let t1 = eval_tree(vals(x@), n0, hf, msgs.tree_x@, (n - 1) as nat);
            let t2 = eval_tree(vals(y@), n1, hf, msgs.tree_y@, (m - 1) as nat);
            lemma_xor_zero(eval_cell(IdentityTable, t1.0, t1.1 as int, nonce_after(n0, n as nat), j, i, hf, msgs.cols_x@[j], y@[j].0));
            lemma_xor_zero(eval_cell(IdentityTable, t2.0, t2.1 as int, nonce_after(n1, m as nat), i, j, hf, msgs.cols_y@[i], xs@[i].0));
        }
    }
    out
}

/// The masked value of `n` labels is below `2^n`.
pub proof fn lemma_colors_value_bound(s: Seq<u128>)
    ensures
        colors_value(s) < pow2(s.len()),
    decreases s.len(),
{
    if s.len() == 0 {
        lemma2_to64();
    } else {
        lemma_colors_value_bound(s.drop_first());
        lemma_pow2_unfold(s.len());
    }
}

proof fn lemma_low_bits(c: u64, w: u64, k: u64)
    by (bit_vector)
    requires
        c <= 1,
        w < 0x4000_0000_0000_0000,
        k < 64,
    ensures
        ((((c + 2 * w) as u64) & 1u64) == 1u64) == (c == 1),
        k > 0 ==> (((((c + 2 * w) as u64) >> k) & 1u64) == 1u64) == (((w >> ((k - 1) as u64)) & 1u64) == 1u64),
{
}

/// Bit `k` of the masked value is the colour of label `k`.
pub proof fn lemma_colors_bit(s: Seq<u128>, k: int)
    requires
        0 <= k < s.len() < 63,
    ensures
        ((colors_value(s) as u64 >> (k as u64)) & 1u64 == 1u64) == lsb(s[k]),
    decreases s.len(),
{
    let rest = s.drop_first();
    let c: u64 = if lsb(s[0]) { 1 } else { 0 };
    lemma_colors_value_bound(rest);
    lemma2_to64();
    vstd::arithmetic::power2::lemma2_to64_rest();
    if rest.len() < 62 {
        lemma_pow2_strictly_increases(rest.len(), 62);
    }
    assert(colors_value(rest) < 0x4000_0000_0000_0000);
    let w = colors_value(rest) as u64;
    assert(w as nat == colors_value(rest));
    assert(colors_value(s) == c + 2 * w);
    lemma_low_bits(c, w, k as u64);
    if k > 0 {
        lemma_colors_bit(rest, k - 1);
        assert(rest[k - 1] == s[k]);
    } else {
        assert((colors_value(s) as u64 >> 0u64) == colors_value(s) as u64) by {
            assert(forall|v: u64| (v >> 0u64) == v) by (bit_vector);
        }
    }
}

proof fn lemma_sel3(a: bool, b: bool, c: bool, d: u128)
    by (bit_vector)
    ensures
        ((if a { d } else { 0 }) ^ (if b { d } else { 0 })) ^ (if c { d } else { 0 }) == (if (a != b) != c { d } else { 0 }),
{
}

proof fn lemma_xor6(g1: u128, g2: u128, sg: u128, e1: u128, e2: u128, se: u128)
    by (bit_vector)
    ensures
        ((g1 ^ g2) ^ sg) ^ ((e1 ^ e2) ^ se) == ((g1 ^ e1) ^ (g2 ^ e2)) ^ (sg ^ se),
{
}

/// Correctness of the one-hot outer product.  If the evaluator (delta
/// zero) holds labels of `x` and `y` that differ from the generator's by
/// zero or delta (delta of colour 1), both hash with the same function and
/// the evaluator receives the generator's messages, then entry `(i, j)` of
/// the two parties' matrices differs by delta exactly when `x[i]` and
/// `y[j]` both hold.
pub proof fn lemma_outer_product(
    xg: Seq<u128>,
    xe: Seq<u128>,
    yg: Seq<u128>,
    ye: Seq<u128>,
    delta: u128,
    n0: u64,
    hf: spec_fn(u128, u64) -> u128,
    tree_x: Seq<u128>,
    tree_y: Seq<u128>,
    i: int,
    j: int,
)
    requires
        0 < xg.len() < 63,
        0 < yg.len() < 63,
        xg.len() < usize::BITS,
        yg.len() < usize::BITS,
        lsb(delta),
        shares_of(xg, xe, delta),
        shares_of(yg, ye, delta),
        generator_msgs(xg, delta, n0, hf, tree_x),
        generator_msgs(yg, delta, outer_mid_nonce(n0, xg.len(), yg.len()), hf, tree_y),
        0 <= i < xg.len(),
        0 <= j < yg.len(),
    ensures
        ({
            let n = xg.len();
            let m = yg.len();
            let n1 = outer_mid_nonce(n0, n, m);
            let s1 = gen_tree(xg, delta, n0, hf, (n - 1) as nat);
            let s2 = gen_tree(yg, delta, n1, hf, (m - 1) as nat);
            let cols_x = Seq::new(m, |c: int| gen_col_msg(s1, nonce_after(n0, n), c, hf, yg[c]));
            let cols_y = Seq::new(n, |c: int| gen_col_msg(s2, nonce_after(n1, m), c, hf, sel(lsb(xg[c]), delta)));
            outer_gen_entry(xg, yg, delta, n0, hf, i, j)
                ^ outer_eval_entry(xe, ye, 0, n0, hf, tree_x, cols_x, tree_y, cols_y, i, j)
                == sel(xg[i] != xe[i] && yg[j] != ye[j], delta)
        }),
{
    let n = xg.len();
    let m = yg.len();
    let n1 = outer_mid_nonce(n0, n, m);
    let s1 = gen_tree(xg, delta, n0, hf, (n - 1) as nat);
    let s2 = gen_tree(yg, delta, n1, hf, (m - 1) as nat);
    let b1 = nonce_after(n0, n);
    let b2 = nonce_after(n1, m);
    let cols_x = Seq::new(m, |c: int| gen_col_msg(s1, b1, c, hf, yg[c]));
    let cols_y = Seq::new(n, |c: int| gen_col_msg(s2, b2, c, hf, sel(lsb(xg[c]), delta)));
    let t1 = eval_tree(xe, n0, hf, tree_x, (n - 1) as nat);
    let t2 = eval_tree(ye, n1, hf, tree_y, (m - 1) as nat);
    let xgi = xg[i];
    let xei = xe[i];
    let ygj = yg[j];
    let yej = ye[j];
    let g1 = gen_cell(IdentityTable, s1, b1, j, i, hf);
    let g2 = gen_cell(IdentityTable, s2, b2, i, j, hf);
    let e1 = eval_cell(IdentityTable, t1.0, t1.1 as int, b1, j, i, hf, cols_x[j], yej);
    let zero_share = sel(lsb(xei), 0u128);
    let e2 = eval_cell(IdentityTable, t2.0, t2.1 as int, b2, i, j, hf, cols_y[i], zero_share);
    assert(zero_share == 0);
    lemma_unary_outer_product(IdentityTable, xg, xe, delta, n0, hf, tree_x, ygj, yej, j, i);
    lemma_unary_outer_product(IdentityTable, yg, ye, delta, n1, hf, tree_y, sel(lsb(xgi), delta), 0u128, i, j);
    lemma_colors_bit(xe, i);
    lemma_colors_bit(ye, j);
    lemma_colors_value_bound(xe);
    lemma_colors_value_bound(ye);
    lemma_usize_pow2_no_overflow(n);
    lemma_usize_pow2_no_overflow(m);
    let px = colors_value(xe);
    let py = colors_value(ye);
    assert(row_bit(px as usize, i) == lsb(xei));
    assert(row_bit(py as usize, j) == lsb(yej));
    lemma_share_flip(xgi, xei, delta);
    lemma_share_flip(ygj, yej, delta);
    let x = xgi != xei;
    let y = ygj != yej;
    // the differences of the generator's and evaluator's inputs
    assert(ygj ^ yej == sel(y, delta)) by {
        lemma_xor3(ygj, delta, delta);
        lemma_xor_zero(ygj);
        lemma_xor_cancel(ygj, 0, ygj);
        if y {
            assert(yej == ygj ^ delta);
            lemma_xor3(ygj, ygj, delta);
            lemma_xor_zero(delta);
        }
    }
    assert(sel(lsb(xgi), delta) ^ 0u128 == sel(lsb(xgi), delta)) by {
        lemma_xor_zero(sel(lsb(xgi), delta));
    }
    assert(g1 ^ e1 == sel(lsb(xei) && y, delta));
    assert(g2 ^ e2 == sel(lsb(yej) && lsb(xgi), delta));
    lemma_xor6(g1, g2, sel(lsb(xgi) && lsb(ygj), delta), e1, e2, sel(lsb(xei) && lsb(yej), 0u128));
    lemma_xor_zero(sel(lsb(xgi) && lsb(ygj), delta));
    lemma_sel3(lsb(xei) && y, lsb(yej) && lsb(xgi), lsb(xgi) && lsb(ygj), delta);
    if x {
        assert(xei == xgi ^ delta);
        lemma_lsb_flip(xgi, delta, true);
    }
    if y {
        assert(yej == ygj ^ delta);
        lemma_lsb_flip(ygj, delta, true);
    }
    assert(lsb(xei) == (lsb(xgi) != x));
    assert(lsb(yej) == (lsb(ygj) != y));
}

} // verus!
