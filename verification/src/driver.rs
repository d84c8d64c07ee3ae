//! The bookkeeping of a garble-and-evaluate run: which requested outputs
//! must be revealed through the protocol, and how the revealed bits and the
//! caller's public outputs merge back in the requested order.

use vstd::prelude::*;
use crate::label::OutputDecoder;

verus! {

/// Result of a driver run: decoded bits and the decoder used.
#[derive(Clone, Debug)]
pub struct DriverResult {
    /// Decoded output bits (ordered as requested).
    pub bits: Vec<bool>,
    /// Decoder that was used on the garbler side (secret outputs only).
    pub decoder: OutputDecoder,
}

/// The value the last entry for wire `idx` in `public` gives it, if any
/// (a later entry overrides an earlier one).
pub open spec fn public_value(public: Seq<(usize, bool)>, idx: usize) -> Option<bool>
    decreases public.len(),
{
    if public.len() == 0 {
        None
    } else if public.last().0 == idx {
        Some(public.last().1)
    } else {
        public_value(public.drop_last(), idx)
    }
}

/// The requested outputs that are not public, in order.
pub open spec fn secret_spec(outputs: Seq<usize>, public: Seq<(usize, bool)>) -> Seq<usize> {
    outputs.filter(|idx: usize| public_value(public, idx) is None)
}

/// The number of secret outputs among the first `n` requested.
pub open spec fn secret_before(outputs: Seq<usize>, public: Seq<(usize, bool)>, n: int) -> nat {
    secret_spec(outputs.take(n), public).len()
}

/// The merged output bits: the public value of each public output, and the
/// next revealed bit for each secret one.
pub open spec fn merged_spec(outputs: Seq<usize>, public: Seq<(usize, bool)>, revealed: Seq<bool>) -> Seq<bool> {
    Seq::new(
        outputs.len(),
        |i: int|
            match public_value(public, outputs[i]) {
                Some(v) => v,
                None => revealed[secret_before(outputs, public, i) as int],
            },
    )
}

/// The value the caller gave wire `idx` as a public output, if any.
pub fn public_lookup(public: &[(usize, bool)], idx: usize) -> (r: Option<bool>)
    ensures
        r == public_value(public@, idx),
{
    let mut i = public.len();
    assert(public@.take(i as int) =~= public@);
    while i > 0
        invariant
            i <= public@.len(),
            public_value(public@, idx) == public_value(public@.take(i as int), idx),
        decreases i,
    {
        assert(public@.take(i as int).drop_last() =~= public@.take(i - 1));
        if public[i - 1].0 == idx {
            return Some(public[i - 1].1);
        }
        i = i - 1;
    }
    None
}

/// The requested outputs that are not public outputs, in order.
pub fn secret_outputs(outputs: &[usize], public: &[(usize, bool)]) -> (s: Vec<usize>)
    ensures
        s@ == secret_spec(outputs@, public@),
{
    let mut s: Vec<usize> = Vec::new();
    let mut i: usize = 0;
    assert(outputs@.take(0) =~= Seq::<usize>::empty());
    while i < outputs.len()
        invariant
            i <= outputs@.len(),
            s@ == secret_spec(outputs@.take(i as int), public@),
        decreases outputs.len() - i,
    {
        let idx = outputs[i];
        proof {
            lemma_filter_step(outputs@, |idx: usize| public_value(public@, idx) is None, i as int);
        }
        if public_lookup(public, idx).is_none() {
            s.push(idx);
        }
        i = i + 1;
    }
    assert(outputs@.take(outputs@.len() as int) =~= outputs@);
    s
}

/// Merge the public outputs and the revealed secret bits in the requested
/// order.
pub fn merge_outputs(outputs: &[usize], public: &[(usize, bool)], revealed: &[bool]) -> (bits: Vec<bool>)
    requires
        revealed@.len() >= secret_spec(outputs@, public@).len(),
    ensures
        bits@ == merged_spec(outputs@, public@, revealed@),
{
    let mut bits: Vec<bool> = Vec::new();
    let mut next: usize = 0;
    let mut i: usize = 0;
    while i < outputs.len()
        invariant
            i <= outputs@.len(),
            revealed@.len() >= secret_spec(outputs@, public@).len(),
            next == secret_before(outputs@, public@, i as int),
            bits@.len() == i,
            forall|k: int| 0 <= k < i ==> #[trigger] bits@[k] == merged_spec(outputs@, public@, revealed@)[k],
        decreases outputs.len() - i,
    {
        let idx = outputs[i];
        proof {
            lemma_filter_step(outputs@, |idx: usize| public_value(public@, idx) is None, i as int);
            lemma_filter_prefix(outputs@, |idx: usize| public_value(public@, idx) is None, i + 1);
        }
        match public_lookup(public, idx) {
            Some(v) => {
                bits.push(v);
            },
            None => {
                bits.push(revealed[next]);
                next = next + 1;
            },
        }
        i = i + 1;
    }
    assert(bits@ =~= merged_spec(outputs@, public@, revealed@));
    bits
}

/// One more element of the prefix: filtering keeps it or drops it.
proof fn lemma_filter_step(s: Seq<usize>, f: spec_fn(usize) -> bool, n: int)
    requires
        0 <= n < s.len(),
    ensures
        s.take(n + 1).filter(f) == if f(s[n]) { s.take(n).filter(f).push(s[n]) } else { s.take(n).filter(f) },
{
    reveal(Seq::filter);
    assert(s.take(n + 1).drop_last() =~= s.take(n));
    assert(s.take(n + 1).last() == s[n]);
}

/// Merging returns each public output's value and the revealed bits in the
/// order of the secret outputs: the `j`-th secret output gets the `j`-th
/// revealed bit.
pub proof fn lemma_merge_secret_order(outputs: Seq<usize>, public: Seq<(usize, bool)>, revealed: Seq<bool>, i: int)
    requires
        0 <= i < outputs.len(),
        public_value(public, outputs[i]) is None,
    ensures
        secret_spec(outputs, public)[secret_before(outputs, public, i) as int] == outputs[i],
        merged_spec(outputs, public, revealed)[i] == revealed[secret_before(outputs, public, i) as int],
{
    let pre = outputs.take(i);
    let pre1 = outputs.take(i + 1);
    assert(pre1.drop_last() =~= pre);
    assert(pre1.last() == outputs[i]);
    let f = |idx: usize| public_value(public, idx) is None;
    lemma_filter_step(outputs, f, i);
    lemma_filter_prefix(outputs, f, i + 1);
}

/// Filtering a prefix gives a prefix of the filtered sequence.
proof fn lemma_filter_prefix(s: Seq<usize>, f: spec_fn(usize) -> bool, n: int)
    requires
        0 <= n <= s.len(),
    ensures
        s.take(n).filter(f).len() <= s.filter(f).len(),
        forall|k: int| 0 <= k < s.take(n).filter(f).len() ==> #[trigger] s.filter(f)[k] == s.take(n).filter(f)[k],
{
    assert(s =~= s.take(n) + s.skip(n));
    Seq::filter_distributes_over_add(s.take(n), s.skip(n), f);
}

} // verus!
