//! Correlated and random OT derived from correlated OT: the messages of
//! the correlation and the hashed pads.

use vstd::prelude::*;
use crate::block_hash::{hash_block_idx_spec, hash_block_with_idx};
use crate::label::{lemma_xor_zero, sel};

verus! {

/// The second message of each correlated pair: `q[i] ^ delta`.
pub fn correlated_messages(q: &[u128], delta: u128) -> (m1: Vec<u128>)
    ensures
        m1@.len() == q@.len(),
        forall|i: int| 0 <= i < q@.len() ==> #[trigger] m1@[i] == q@[i] ^ delta,
{
    let mut m1: Vec<u128> = Vec::new();
    let mut i: usize = 0;
    while i < q.len()
        invariant
            i <= q@.len(),
            m1@.len() == i,
            forall|k: int| 0 <= k < i ==> #[trigger] m1@[k] == q@[k] ^ delta,
        decreases q@.len() - i,
    {
        m1.push(q[i] ^ delta);
        i = i + 1;
    }
    m1
}

/// The sender's random-OT pads from its correlated seeds: the hash of
/// `q[i]` and of `q[i] ^ delta`, each with its index.
pub fn rot_pads(q: &[u128], delta: u128) -> (r: (Vec<u128>, Vec<u128>))
    requires
        q@.len() <= u64::MAX,
    ensures
        r.0@.len() == q@.len(),
        r.1@.len() == q@.len(),
        forall|i: int| 0 <= i < q@.len() ==> #[trigger] r.0@[i] == hash_block_idx_spec(q@[i], i as u64),
        forall|i: int| 0 <= i < q@.len() ==> #[trigger] r.1@[i] == hash_block_idx_spec(q@[i] ^ delta, i as u64),
{
    let mut out0: Vec<u128> = Vec::new();
    let mut out1: Vec<u128> = Vec::new();
    let mut i: usize = 0;
    while i < q.len()
        invariant
            i <= q@.len(),
            q@.len() <= u64::MAX,
            out0@.len() == i,
            out1@.len() == i,
            forall|k: int| 0 <= k < i ==> #[trigger] out0@[k] == hash_block_idx_spec(q@[k], k as u64),
            forall|k: int| 0 <= k < i ==> #[trigger] out1@[k] == hash_block_idx_spec(q@[k] ^ delta, k as u64),
        decreases q@.len() - i,
    {
        out0.push(hash_block_with_idx(q[i], i as u64));
        out1.push(hash_block_with_idx(q[i] ^ delta, i as u64));
        i = i + 1;
    }
    (out0, out1)
}

/// The receiver's random-OT outputs from its correlated seeds: the hash
/// of each seed with its index.
pub fn rot_outputs(seeds: &[u128]) -> (out: Vec<u128>)
    requires
        seeds@.len() <= u64::MAX,
    ensures
        out@.len() == seeds@.len(),
        forall|i: int| 0 <= i < seeds@.len() ==> #[trigger] out@[i] == hash_block_idx_spec(seeds@[i], i as u64),
{
    let mut out: Vec<u128> = Vec::new();
    let mut i: usize = 0;
    while i < seeds.len()
        invariant
            i <= seeds@.len(),
            seeds@.len() <= u64::MAX,
            out@.len() == i,
            forall|k: int| 0 <= k < i ==> #[trigger] out@[k] == hash_block_idx_spec(seeds@[k], k as u64),
        decreases seeds@.len() - i,
    {
        out.push(hash_block_with_idx(seeds[i], i as u64));
        i = i + 1;
    }
    out
}

/// When the receiver's seed is the sender's `q[i]` with `delta` XORed in
/// exactly for a true choice, its random-OT output is the sender's pad of
/// that choice.
pub proof fn lemma_rot_matches_choice(q: u128, delta: u128, choice: bool, idx: u64)
    ensures
        hash_block_idx_spec(q ^ sel(choice, delta), idx) == if choice {
            hash_block_idx_spec(q ^ delta, idx)
        } else {
            hash_block_idx_spec(q, idx)
        },
{
    lemma_xor_zero(q);
}

} // verus!
