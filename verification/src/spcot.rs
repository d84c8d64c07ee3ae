//! The computations of single-point correlated OT around its channel and
//! its base OT: the sender's masked leaves and secret sum, and the
//! receiver's rebuilt leaves and recovered value.

use vstd::prelude::*;
use vstd::arithmetic::power2::{lemma_pow2_unfold, pow2};
use crate::feistel::is_function;
use crate::ggm::{
    ggm_expand, ggm_level, ggm_msg, ggm_tree_reconstruction, lemma_ggm_level_len, lemma_ggm_reconstruction,
    missing_index, prp_fn, recon, TwoKeyPrp,
};
use crate::ot_bits::{compute_choice_pos, msb_value, word_modulus, xor_all};

verus! {

/// Every block with its colour (least significant) bit cleared.
pub open spec fn mask_lsb(v: Seq<u128>) -> Seq<u128> {
    v.map_values(|x: u128| x & !1u128)
}

/// A zero block of the given length.
fn zeros(n: usize) -> (v: Vec<u128>)
    ensures
        v@.len() == n,
        forall|i: int| 0 <= i < n ==> #[trigger] v@[i] == 0,
{
    let mut v: Vec<u128> = Vec::new();
    let mut i: usize = 0;
    while i < n
        invariant
            i <= n,
            v@.len() == i,
            forall|k: int| 0 <= k < i ==> #[trigger] v@[k] == 0,
        decreases n - i,
    {
        v.push(0);
        i = i + 1;
    }
    v
}

/// Clear the colour bits of `v` and return the XOR of the results.
fn mask_and_sum(v: &mut Vec<u128>) -> (s: u128)
    ensures
        final(v)@ == mask_lsb(old(v)@),
        s == xor_all(mask_lsb(old(v)@)),
{
    let ghost m = mask_lsb(v@);
    let mut s: u128 = 0;
    let mut i: usize = 0;
    while i < v.len()
        invariant
            i <= v@.len(),
            v@.len() == old(v)@.len(),
            m == mask_lsb(old(v)@),
            forall|k: int| 0 <= k < v@.len() ==> #[trigger] v@[k] == if k < i { m[k] } else { old(v)@[k] },
            s == xor_all(m.take(i as int)),
        decreases v@.len() - i,
    {
        let x = v[i] & !1u128;
        v.set(i, x);
        proof {
            assert(m.take(i + 1).drop_last() =~= m.take(i as int));
        }
        s = s ^ x;
        i = i + 1;
    }
    assert(v@ =~= m);
    assert(m.take(m.len() as int) =~= m);
    s
}

/// The sender's side of single-point correlated OT around its channel:
/// expand the tree of `seed` over `depth` levels, clear the colour bit of
/// every leaf and XOR the leaves.  Returns the masked leaves, the two
/// per-level sums to transfer by OT, and the secret sum.
pub fn spcot_sender_expand<F: Fn(u128) -> u128>(prp: &TwoKeyPrp<F>, seed: u128, depth: usize) -> (r: (
    Vec<u128>,
    Vec<u128>,
    Vec<u128>,
    u128,
))
    requires
        is_function(prp.round),
        2 <= depth,
        depth - 1 < usize::BITS,
    ensures
        r.0@ == mask_lsb(ggm_level(prp_fn(*prp), seed, (depth - 1) as nat)),
        r.1@.len() == depth - 1,
        r.2@.len() == depth - 1,
        forall|h: int| 0 <= h < depth - 1 ==> #[trigger] r.1@[h] == ggm_msg(prp_fn(*prp), seed, h as nat, 0),
        forall|h: int| 0 <= h < depth - 1 ==> #[trigger] r.2@[h] == ggm_msg(prp_fn(*prp), seed, h as nat, 1),
        r.3 == xor_all(r.0@),
{
    proof {
        vstd::bits::lemma_usize_pow2_no_overflow((depth - 1) as nat);
        vstd::bits::lemma_usize_shl_is_mul(1, (depth - 1) as usize);
    }
    let leave_n = 1usize << (depth - 1);
    let mut leaves = zeros(leave_n);
    let mut m0 = zeros(depth - 1);
    let mut m1 = zeros(depth - 1);
    ggm_expand(prp, seed, depth, leaves.as_mut_slice(), m0.as_mut_slice(), m1.as_mut_slice());
    let secret_sum = mask_and_sum(&mut leaves);
    (leaves, m0, m1, secret_sum)
}

/// A path of `n` bits names a leaf below `2^n`.
pub proof fn lemma_msb_value_bound(bits: Seq<bool>)
    ensures
        msb_value(bits) < pow2(bits.len()),
    decreases bits.len(),
{
    if bits.len() == 0 {
        vstd::arithmetic::power2::lemma2_to64();
    } else {
        lemma_msb_value_bound(bits.drop_last());
        lemma_pow2_unfold(bits.len());
    }
}

/// The receiver's side of single-point correlated OT around its channel:
/// rebuild the leaves from the choice bits and the sums it received,
/// clear their colour bits, and return the XOR of all of them, the
/// secret sum and the leaf at the position the bits name.
pub fn spcot_receiver_recover<F: Fn(u128) -> u128>(
    prp: &TwoKeyPrp<F>,
    depth: usize,
    choice_bits: &[bool],
    ot_out: &[u128],
    secret_sum: u128,
) -> (recovered: u128)
    requires
        is_function(prp.round),
        2 <= depth,
        depth - 1 < usize::BITS,
        choice_bits@.len() == depth - 1,
        ot_out@.len() == depth - 1,
    ensures
        ({
            let leaves = mask_lsb(recon(prp_fn(*prp), choice_bits@, ot_out@, (depth - 1) as nat).0);
            recovered == xor_all(leaves) ^ secret_sum ^ leaves[msb_value(choice_bits@) as int]
        }),
{
    let ghost pf = prp_fn(*prp);
    proof {
        vstd::bits::lemma_usize_pow2_no_overflow((depth - 1) as nat);
        vstd::bits::lemma_usize_shl_is_mul(1, (depth - 1) as usize);
        lemma_msb_value_bound(choice_bits@);
        lemma_recon_len(pf, choice_bits@, ot_out@, (depth - 1) as nat);
    }
    let leaf_n = 1usize << (depth - 1);
    let mut leaves = zeros(leaf_n);
    ggm_tree_reconstruction(prp, depth, choice_bits, ot_out, leaves.as_mut_slice());
    proof {
        assert(leaves@ =~= recon(pf, choice_bits@, ot_out@, (depth - 1) as nat).0);
    }
    let all = mask_and_sum(&mut leaves);
    let choice_pos = compute_choice_pos(choice_bits);
    proof {
        vstd::arithmetic::div_mod::lemma_small_mod(msb_value(choice_bits@), word_modulus());
    }
    all ^ secret_sum ^ leaves[choice_pos]
}

/// The receiver's tree after `i` levels has `2^i` nodes and its missing
/// index is among them.
pub proof fn lemma_recon_len(pf: spec_fn(u128) -> u128, bits: Seq<bool>, msgs: Seq<u128>, i: nat)
    requires
        bits.len() >= i,
        msgs.len() >= i,
    ensures
        recon(pf, bits, msgs, i).0.len() == pow2(i),
        recon(pf, bits, msgs, i).1 < pow2(i),
        recon(pf, bits, msgs, i).0[recon(pf, bits, msgs, i).1 as int] == 0,
    decreases i,
{
    if i == 0 {
        vstd::arithmetic::power2::lemma2_to64();
    } else {
        lemma_recon_len(pf, bits, msgs, (i - 1) as nat);
        lemma_pow2_unfold(i);
    }
}

/// A shared term cancels: `(x ^ y) ^ (x ^ z) == y ^ z`.
proof fn lemma_xor_shared(x: u128, y: u128, z: u128)
    by (bit_vector)
    ensures
        (x ^ y) ^ (x ^ z) == y ^ z,
        (y ^ x) ^ (z ^ x) == y ^ z,
{
}

/// Two lists that differ at position `p` alone XOR to values that differ
/// by the XOR of their entries at `p`.
proof fn lemma_xor_all_differ(a: Seq<u128>, b: Seq<u128>, p: int)
    requires
        a.len() == b.len(),
        0 <= p < a.len(),
        forall|k: int| 0 <= k < a.len() && k != p ==> #[trigger] a[k] == b[k],
    ensures
        xor_all(a) ^ xor_all(b) == a[p] ^ b[p],
    decreases a.len(),
{
    let n = a.len() as int;
    if p == n - 1 {
        assert(a.drop_last() =~= b.drop_last());
        lemma_xor_shared(xor_all(a.drop_last()), a[p], b[p]);
    } else {
        lemma_xor_all_differ(a.drop_last(), b.drop_last(), p);
        let xa = xor_all(a.drop_last());
        let xb = xor_all(b.drop_last());
        let l = a.last();
        assert(b.last() == l);
        lemma_xor_shared(l, xa, xb);
    }
}

/// A receiver that got, on each level, the sender's sum of the side its
/// bit names recovers the sender's (masked) leaf at its missing index
/// from the XOR of its own masked leaves and the secret sum.
pub proof fn lemma_spcot_recovers_missing_leaf(
    pf: spec_fn(u128) -> u128,
    seed: u128,
    bits: Seq<bool>,
    ot_out: Seq<u128>,
    d: nat,
)
    requires
        bits.len() == d,
        ot_out.len() == d,
        forall|h: int| 0 <= h < d ==> #[trigger] ot_out[h] == ggm_msg(pf, seed, h as nat, if bits[h] { 1 } else { 0 }),
    ensures
        ({
            let sender = mask_lsb(ggm_level(pf, seed, d));
            let receiver = mask_lsb(recon(pf, bits, ot_out, d).0);
            let p = missing_index(bits, d) as int;
            &&& 0 <= p < pow2(d)
            &&& forall|k: int| 0 <= k < pow2(d) && k != p ==> #[trigger] receiver[k] == sender[k]
            &&& xor_all(receiver) ^ xor_all(sender) == sender[p]
        }),
{
    lemma_ggm_reconstruction(pf, seed, bits, ot_out, d);
    lemma_recon_len(pf, bits, ot_out, d);
    lemma_ggm_level_len(pf, seed, d);
    let sender = mask_lsb(ggm_level(pf, seed, d));
    let receiver = mask_lsb(recon(pf, bits, ot_out, d).0);
    let p = missing_index(bits, d) as int;
    lemma_xor_all_differ(receiver, sender, p);
    assert(receiver[p] == 0) by {
        assert(0u128 & !1u128 == 0) by (bit_vector);
    }
    crate::label::lemma_xor_zero(sender[p]);
}

} // verus!
