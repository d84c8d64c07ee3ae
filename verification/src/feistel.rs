//! A four-round Feistel network on 128-bit blocks, whose round function
//! (a keyed function of the right half) is supplied by the caller.
//!
//! A block splits into its low half `l` and its high half `r`; a round
//! maps `(l, r)` to `(r, l ^ f(r))`, where `f` sees `r` in the high half of
//! a block and only the low half of its output is used.

use vstd::prelude::*;

verus! {

/// The low 64 bits of a block.
pub open spec fn lo(x: u128) -> u64 {
    (x & 0xffff_ffff_ffff_ffffu128) as u64
}

/// The high 64 bits of a block.
pub open spec fn hi(x: u128) -> u64 {
    (x >> 64u128) as u64
}

/// The block with halves `l` (low) and `r` (high).
pub open spec fn join(l: u64, r: u64) -> u128 {
    ((r as u128) << 64u128) | (l as u128)
}

/// The round function applied to a half: `f` sees it in the high half,
/// and the low half of `f`'s output is kept.
pub open spec fn round_value(g: spec_fn(u128) -> u128, r: u64) -> u64 {
    lo(g(join(0, r)))
}

/// `k` forward rounds on the halves `(l, r)`.
pub open spec fn rounds(g: spec_fn(u128) -> u128, l: u64, r: u64, k: nat) -> (u64, u64)
    decreases k,
{
    if k == 0 {
        (l, r)
    } else {
        let (l1, r1) = rounds(g, l, r, (k - 1) as nat);
        (r1, l1 ^ round_value(g, r1))
    }
}

/// `k` inverse rounds on the halves `(l, r)`.
pub open spec fn inv_rounds(g: spec_fn(u128) -> u128, l: u64, r: u64, k: nat) -> (u64, u64)
    decreases k,
{
    if k == 0 {
        (l, r)
    } else {
        let (l1, r1) = inv_rounds(g, l, r, (k - 1) as nat);
        (r1 ^ round_value(g, l1), l1)
    }
}

/// The permutation: four forward rounds.
pub open spec fn feistel_spec(state: u128, g: spec_fn(u128) -> u128) -> u128 {
    let (l, r) = rounds(g, lo(state), hi(state), 4);
    join(l, r)
}

/// The inverse permutation: four inverse rounds.
pub open spec fn feistel_inverse_spec(state: u128, g: spec_fn(u128) -> u128) -> u128 {
    let (l, r) = inv_rounds(g, lo(state), hi(state), 4);
    join(l, r)
}

/// `f` accepts every block and gives one output per block.
pub open spec fn is_function<F: Fn(u128) -> u128>(f: F) -> bool {
    &&& forall|x: u128| #[trigger] f.requires((x,))
    &&& forall|x: u128, y1: u128, y2: u128| #[trigger] f.ensures((x,), y1) && #[trigger] f.ensures((x,), y2) ==> y1 == y2
}

/// The function that `f` computes.
pub open spec fn function_of<F: Fn(u128) -> u128>(f: F) -> spec_fn(u128) -> u128 {
    |x: u128| choose|y: u128| f.ensures((x,), y)
}

proof fn lemma_halves(l: u64, r: u64, x: u128)
    by (bit_vector)
    ensures
        lo(join(l, r)) == l,
        hi(join(l, r)) == r,
        join(lo(x), hi(x)) == x,
{
}

/// One round's right half, computed through `f`.
fn round_half<F: Fn(u128) -> u128>(f: &F, r: u64) -> (v: u64)
    requires
        is_function(*f),
    ensures
        v == round_value(function_of(*f), r),
{
    let x = ((r as u128) << 64u128) | 0u128;
    proof {
        assert(((r as u128) << 64u128) | 0u128 == join(0, r)) by (bit_vector);
    }
    let y = f(x);
    proof {
        let z = choose|z: u128| f.ensures((x,), z);
        assert(f.ensures((x,), z));
    }
    (y & 0xffff_ffff_ffff_ffffu128) as u64
}

/// Permute a block with the round function `f`.
pub fn feistel<F: Fn(u128) -> u128>(state: u128, f: &F) -> (out: u128)
    requires
        is_function(*f),
    ensures
        out == feistel_spec(state, function_of(*f)),
{
    let ghost g = function_of(*f);
    let mut l: u64 = (state & 0xffff_ffff_ffff_ffffu128) as u64;
    let mut r: u64 = (state >> 64u128) as u64;
    let mut k: usize = 0;
    while k < 4
        invariant
            k <= 4,
            is_function(*f),
            g == function_of(*f),
            (l, r) == rounds(g, lo(state), hi(state), k as nat),
        decreases 4 - k,
    {
        let fr = round_half(f, r);
        let nl = r;
        let nr = l ^ fr;
        l = nl;
        r = nr;
        k = k + 1;
    }
    ((r as u128) << 64u128) | (l as u128)
}

/// Invert a permuted block with the round function `f`.
pub fn feistel_inverse<F: Fn(u128) -> u128>(state: u128, f: &F) -> (out: u128)
    requires
        is_function(*f),
    ensures
        out == feistel_inverse_spec(state, function_of(*f)),
{
    let ghost g = function_of(*f);
    let mut l: u64 = (state & 0xffff_ffff_ffff_ffffu128) as u64;
    let mut r: u64 = (state >> 64u128) as u64;
    let mut k: usize = 0;
    while k < 4
        invariant
            k <= 4,
            is_function(*f),
            g == function_of(*f),
            (l, r) == inv_rounds(g, lo(state), hi(state), k as nat),
        decreases 4 - k,
    {
        let fr = round_half(f, l);
        let nl = r ^ fr;
        let nr = l;
        l = nl;
        r = nr;
        k = k + 1;
    }
    ((r as u128) << 64u128) | (l as u128)
}

proof fn lemma_xor64(a: u64, b: u64)
    by (bit_vector)
    ensures
        (a ^ b) ^ b == a,
{
}

/// `k` inverse rounds undo `k` forward rounds.
proof fn lemma_rounds_inverse(g: spec_fn(u128) -> u128, l: u64, r: u64, k: nat)
    ensures
        ({
            let (a, b) = rounds(g, l, r, k);
            let (c, d) = rounds_undo(g, a, b, k);
            c == l && d == r
        }),
    decreases k,
{
    if k > 0 {
        let (l1, r1) = rounds(g, l, r, (k - 1) as nat);
        let a = r1;
        let b = l1 ^ round_value(g, r1);
        lemma_xor64(l1, round_value(g, r1));
        lemma_rounds_inverse(g, l, r, (k - 1) as nat);
    }
}

/// Undo `k` forward rounds, last round first.
spec fn rounds_undo(g: spec_fn(u128) -> u128, a: u64, b: u64, k: nat) -> (u64, u64)
    decreases k,
{
    if k == 0 {
        (a, b)
    } else {
        rounds_undo(g, b ^ round_value(g, a), a, (k - 1) as nat)
    }
}

/// Undoing `k` rounds one at a time is `k` inverse rounds.
proof fn lemma_undo_is_inverse(g: spec_fn(u128) -> u128, a: u64, b: u64, k: nat)
    ensures
        rounds_undo(g, a, b, k) == inv_rounds(g, a, b, k),
    decreases k,
{
    if k > 0 {
        lemma_undo_is_inverse(g, b ^ round_value(g, a), a, (k - 1) as nat);
        lemma_undo_shift(g, a, b, (k - 1) as nat);
    }
}

/// One inverse round after `k` of them equals `k` of them after one.
proof fn lemma_undo_shift(g: spec_fn(u128) -> u128, a: u64, b: u64, k: nat)
    ensures
        inv_rounds(g, b ^ round_value(g, a), a, k) == inv_rounds(g, a, b, k + 1),
    decreases k,
{
    reveal_with_fuel(inv_rounds, 2);
    if k > 0 {
        lemma_undo_shift(g, a, b, (k - 1) as nat);
    }
}

/// Inverting a permuted block gives the block back, for every round
/// function.
pub proof fn lemma_feistel_round_trip(state: u128, g: spec_fn(u128) -> u128)
    ensures
        feistel_inverse_spec(feistel_spec(state, g), g) == state,
{
    let (a, b) = rounds(g, lo(state), hi(state), 4);
    lemma_halves(a, b, state);
    lemma_rounds_inverse(g, lo(state), hi(state), 4);
    lemma_undo_is_inverse(g, a, b, 4);
}

/// One forward round followed by `k` more is `k + 1` rounds.
proof fn lemma_rounds_shift(g: spec_fn(u128) -> u128, a: u64, b: u64, k: nat)
    ensures
        rounds(g, a, b, k + 1) == rounds(g, b, a ^ round_value(g, b), k),
    decreases k,
{
    reveal_with_fuel(rounds, 2);
    if k > 0 {
        lemma_rounds_shift(g, a, b, (k - 1) as nat);
    }
}

/// `k` forward rounds undo `k` inverse rounds.
proof fn lemma_inverse_rounds(g: spec_fn(u128) -> u128, l: u64, r: u64, k: nat)
    ensures
        ({
            let (a, b) = inv_rounds(g, l, r, k);
            rounds(g, a, b, k) == (l, r)
        }),
    decreases k,
{
    if k > 0 {
        let (l1, r1) = inv_rounds(g, l, r, (k - 1) as nat);
        lemma_rounds_shift(g, r1 ^ round_value(g, l1), l1, (k - 1) as nat);
        lemma_xor64(r1, round_value(g, l1));
        lemma_inverse_rounds(g, l, r, (k - 1) as nat);
    }
}

/// Permuting an inverted block gives the block back, for every round
/// function: the inverse is a two-sided inverse.
pub proof fn lemma_feistel_inverse_round_trip(state: u128, g: spec_fn(u128) -> u128)
    ensures
        feistel_spec(feistel_inverse_spec(state, g), g) == state,
{
    let (a, b) = inv_rounds(g, lo(state), hi(state), 4);
    lemma_halves(a, b, state);
    lemma_inverse_rounds(g, lo(state), hi(state), 4);
}

} // verus!
