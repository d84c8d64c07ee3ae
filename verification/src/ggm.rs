//! The two-key pseudorandom permutation and the GGM tree of single-point
//! correlated OT: the sender expands a seed into a full binary tree and
//! sends, per level, the XOR of the left and of the right children; a
//! receiver that learns one of the two sums per level rebuilds every leaf
//! but one.

use vstd::prelude::*;
use vstd::arithmetic::power2::{lemma_pow2_unfold, pow2};
use crate::feistel::{feistel, feistel_inverse, feistel_inverse_spec, feistel_spec, function_of, is_function};
use crate::label::lemma_xor_zero;
use crate::unary::{lemma_xor_range_ext, lemma_xor_range_punctured, xor_range};

verus! {

/// A permutation of blocks given by a four-round Feistel network whose
/// round function (keyed by two keys) is `round`.
pub struct TwoKeyPrp<F> {
    pub round: F,
}

/// The permutation of a two-key PRP.
pub open spec fn prp_fn<F: Fn(u128) -> u128>(prp: TwoKeyPrp<F>) -> spec_fn(u128) -> u128 {
    |x: u128| feistel_spec(x, function_of(prp.round))
}

/// A two-key PRP is a permutation: inverting undoes permuting and
/// permuting undoes inverting, for every round function.
pub proof fn lemma_prp_inverse<F: Fn(u128) -> u128>(prp: TwoKeyPrp<F>, x: u128)
    ensures
        feistel_inverse_spec(prp_fn(prp)(x), function_of(prp.round)) == x,
        prp_fn(prp)(feistel_inverse_spec(x, function_of(prp.round))) == x,
{
    crate::feistel::lemma_feistel_round_trip(x, function_of(prp.round));
    crate::feistel::lemma_feistel_inverse_round_trip(x, function_of(prp.round));
}

impl<F: Fn(u128) -> u128> TwoKeyPrp<F> {
    /// A PRP with the given round function.
    pub fn new(round: F) -> (p: TwoKeyPrp<F>)
        ensures
            p.round == round,
    {
        TwoKeyPrp { round }
    }

    /// Permute a block.
    pub fn permute(&self, input: u128) -> (out: u128)
        requires
            is_function(self.round),
        ensures
            out == prp_fn(*self)(input),
    {
        feistel(input, &self.round)
    }

    /// Invert a permuted block.
    pub fn invert(&self, input: u128) -> (out: u128)
        requires
            is_function(self.round),
        ensures
            out == feistel_inverse_spec(input, function_of(self.round)),
    {
        feistel_inverse(input, &self.round)
    }

    /// Expand one parent into its two children: the permutations of the
    /// parent with 0 and with 1 XORed in.
    pub fn node_expand_1to2(&self, children: &mut [u128], parent: u128)
        requires
            is_function(self.round),
            old(children)@.len() >= 2,
        ensures
            final(children)@ == old(children)@.update(0, prp_fn(*self)(parent ^ 0)).update(1, prp_fn(*self)(parent ^ 1)),
    {
        let left = self.permute(parent ^ 0u128);
        let right = self.permute(parent ^ 1u128);
        children[0] = left;
        children[1] = right;
    }

    /// Expand two parents into four children.
    pub fn node_expand_2to4(&self, children: &mut [u128], parents: &[u128])
        requires
            is_function(self.round),
            old(children)@.len() >= 4,
            parents@.len() >= 2,
        ensures
            final(children)@.len() == old(children)@.len(),
            forall|k: int| 0 <= k < 4 ==> #[trigger] final(children)@[k] == prp_fn(*self)(parents@[k / 2] ^ ((k % 2) as u128)),
            forall|k: int| 4 <= k < old(children)@.len() ==> #[trigger] final(children)@[k] == old(children)@[k],
    {
        let mut k: usize = 0;
        while k < 4
            invariant
                is_function(self.round),
                k <= 4,
                old(children)@.len() >= 4,
                parents@.len() >= 2,
                children@.len() == old(children)@.len(),
                forall|a: int| 0 <= a < k ==> #[trigger] children@[a] == prp_fn(*self)(parents@[a / 2] ^ ((a % 2) as u128)),
                forall|a: int| k <= a < children@.len() ==> #[trigger] children@[a] == old(children)@[a],
            decreases 4 - k,
        {
            let v = self.permute(parents[k / 2] ^ ((k % 2) as u128));
            children[k] = v;
            k = k + 1;
        }
    }

    /// Expand four parents into eight children.
    pub fn node_expand_4to8(&self, children: &mut [u128], parents: &[u128])
        requires
            is_function(self.round),
            old(children)@.len() >= 8,
            parents@.len() >= 4,
        ensures
            final(children)@.len() == old(children)@.len(),
            forall|k: int| 0 <= k < 8 ==> #[trigger] final(children)@[k] == prp_fn(*self)(parents@[k / 2] ^ ((k % 2) as u128)),
            forall|k: int| 8 <= k < old(children)@.len() ==> #[trigger] final(children)@[k] == old(children)@[k],
    {
        let mut k: usize = 0;
        while k < 8
            invariant
                is_function(self.round),
                k <= 8,
                old(children)@.len() >= 8,
                parents@.len() >= 4,
                children@.len() == old(children)@.len(),
                forall|a: int| 0 <= a < k ==> #[trigger] children@[a] == prp_fn(*self)(parents@[a / 2] ^ ((a % 2) as u128)),
                forall|a: int| k <= a < children@.len() ==> #[trigger] children@[a] == old(children)@[a],
            decreases 8 - k,
        {
            let v = self.permute(parents[k / 2] ^ ((k % 2) as u128));
            children[k] = v;
            k = k + 1;
        }
    }
}

/// The children of every node of `s`, in order: node `k / 2` permuted
/// with `k % 2` XORed in.
pub open spec fn expand_all(pf: spec_fn(u128) -> u128, s: Seq<u128>) -> Seq<u128> {
    Seq::new(2 * s.len(), |k: int| pf(s[k / 2] ^ ((k % 2) as u128)))
}

/// Level `l` of the GGM tree of `seed` (`2^l` nodes).
pub open spec fn ggm_level(pf: spec_fn(u128) -> u128, seed: u128, l: nat) -> Seq<u128>
    decreases l,
{
    if l == 0 {
        seq![seed]
    } else {
        expand_all(pf, ggm_level(pf, seed, (l - 1) as nat))
    }
}

/// The XOR of the children of side `c` (0 for left, 1 for right) on level
/// `h + 1`: the sender's message of level `h`.
pub open spec fn ggm_msg(pf: spec_fn(u128) -> u128, seed: u128, h: nat, c: int) -> u128 {
    xor_range(|j: int| ggm_level(pf, seed, h + 1)[2 * j + c], 0, pow2(h) as int)
}

/// Level `l` has `2^l` nodes.
pub proof fn lemma_ggm_level_len(pf: spec_fn(u128) -> u128, seed: u128, l: nat)
    ensures
        ggm_level(pf, seed, l).len() == pow2(l),
    decreases l,
{
    if l > 0 {
        lemma_ggm_level_len(pf, seed, (l - 1) as nat);
        lemma_pow2_unfold(l);
    } else {
        vstd::arithmetic::power2::lemma2_to64();
    }
}

/// Expand `level` into its children, returning them with the XOR of the
/// left and of the right children.
fn expand_level<F: Fn(u128) -> u128>(prp: &TwoKeyPrp<F>, level: &Vec<u128>) -> (r: (Vec<u128>, u128, u128))
    requires
        is_function(prp.round),
        2 * level@.len() <= usize::MAX,
    ensures
        r.0@ == expand_all(prp_fn(*prp), level@),
        r.1 == xor_range(|j: int| expand_all(prp_fn(*prp), level@)[2 * j], 0, level@.len() as int),
        r.2 == xor_range(|j: int| expand_all(prp_fn(*prp), level@)[2 * j + 1], 0, level@.len() as int),
{
    let ghost pf = prp_fn(*prp);
    let ghost full = expand_all(pf, level@);
    let mut next: Vec<u128> = Vec::new();
    let mut xor0: u128 = 0;
    let mut xor1: u128 = 0;
    let mut j: usize = 0;
    while j < level.len()
        invariant
            is_function(prp.round),
            pf == prp_fn(*prp),
            full == expand_all(pf, level@),
            2 * level@.len() <= usize::MAX,
            j <= level@.len(),
            next@ =~= full.take(2 * j),
            xor0 == xor_range(|k: int| full[2 * k], 0, j as int),
            xor1 == xor_range(|k: int| full[2 * k + 1], 0, j as int),
        decreases level@.len() - j,
    {
        let c0 = prp.permute(level[j] ^ 0u128);
        let c1 = prp.permute(level[j] ^ 1u128);
        proof {
            assert(full[2 * j as int] == c0);
            assert(full[2 * j + 1] == c1);
        }
        next.push(c0);
        next.push(c1);
        xor0 = xor0 ^ c0;
        xor1 = xor1 ^ c1;
        j = j + 1;
    }
    (next, xor0, xor1)
}

/// Expand a GGM tree of `depth` levels from `seed`: `leaves` gets the
/// `2^(depth - 1)` leaves, and `ot_msgs0[h]`, `ot_msgs1[h]` the XOR of
/// the left and of the right children on level `h + 1`.
pub fn ggm_expand<F: Fn(u128) -> u128>(
    prp: &TwoKeyPrp<F>,
    seed: u128,
    depth: usize,
    leaves: &mut [u128],
    ot_msgs0: &mut [u128],
    ot_msgs1: &mut [u128],
)
    requires
        is_function(prp.round),
        depth >= 2,
        old(leaves)@.len() == pow2((depth - 1) as nat),
        old(ot_msgs0)@.len() == depth - 1,
        old(ot_msgs1)@.len() == depth - 1,
    ensures
        final(leaves)@ == ggm_level(prp_fn(*prp), seed, (depth - 1) as nat),
        final(ot_msgs0)@.len() == depth - 1,
        final(ot_msgs1)@.len() == depth - 1,
        forall|h: int| 0 <= h < depth - 1 ==> #[trigger] final(ot_msgs0)@[h] == ggm_msg(prp_fn(*prp), seed, h as nat, 0),
        forall|h: int| 0 <= h < depth - 1 ==> #[trigger] final(ot_msgs1)@[h] == ggm_msg(prp_fn(*prp), seed, h as nat, 1),
{
    let ghost pf = prp_fn(*prp);
    let mut level: Vec<u128> = vec![seed];
    let mut h: usize = 0;
    let _n_leaves = leaves.len();
    proof {
        lemma_ggm_level_len(pf, seed, 0);
        lemma_ggm_level_len(pf, seed, (depth - 1) as nat);
    }
    while h < depth - 1
        invariant
            is_function(prp.round),
            pf == prp_fn(*prp),
            depth >= 2,
            h <= depth - 1,
            leaves@.len() == pow2((depth - 1) as nat),
            leaves@.len() <= usize::MAX,
            ot_msgs0@.len() == depth - 1,
            ot_msgs1@.len() == depth - 1,
            level@ == ggm_level(pf, seed, h as nat),
            forall|g: int| 0 <= g < h ==> #[trigger] ot_msgs0@[g] == ggm_msg(pf, seed, g as nat, 0),
            forall|g: int| 0 <= g < h ==> #[trigger] ot_msgs1@[g] == ggm_msg(pf, seed, g as nat, 1),
        decreases depth - 1 - h,
    {
        proof {
            lemma_ggm_level_len(pf, seed, h as nat);
            lemma_pow2_unfold((h + 1) as nat);
            if h + 1 < depth - 1 {
                vstd::arithmetic::power2::lemma_pow2_strictly_increases((h + 1) as nat, (depth - 1) as nat);
            }
        }
        let (next, x0, x1) = expand_level(prp, &level);
        proof {
            let full = expand_all(pf, level@);
            assert(ggm_level(pf, seed, (h + 1) as nat) == full);
            lemma_xor_range_ext(|j: int| full[2 * j], |j: int| ggm_level(pf, seed, (h + 1) as nat)[2 * j + 0], 0, level@.len() as int);
            lemma_xor_range_ext(|j: int| full[2 * j + 1], |j: int| ggm_level(pf, seed, (h + 1) as nat)[2 * j + 1], 0, level@.len() as int);
        }
        ot_msgs0[h] = x0;
        ot_msgs1[h] = x1;
        level = next;
        h = h + 1;
    }
    let n = level.len();
    let mut k: usize = 0;
    while k < n
        invariant
            k <= n,
            n == level@.len(),
            leaves@.len() == n,
            forall|a: int| 0 <= a < k ==> #[trigger] leaves@[a] == level@[a],
        decreases n - k,
    {
        leaves[k] = level[k];
        k = k + 1;
    }
    assert(leaves@ =~= level@);
}

/// The receiver's tree after `i` levels and its missing index: each level
/// expands the previous one, clears the two children of the missing node,
/// and recovers the child on the side of `bits[i - 1]` (1 for right) from
/// the XOR `msgs[i - 1]` of that side; the other child is missing next.
pub open spec fn recon(pf: spec_fn(u128) -> u128, bits: Seq<bool>, msgs: Seq<u128>, i: nat) -> (Seq<u128>, nat)
    decreases i,
{
    if i == 0 {
        (seq![0u128], 0)
    } else {
        let prev = recon(pf, bits, msgs, (i - 1) as nat);
        let p = prev.1 as int;
        let lr: int = if bits[i - 1] { 1 } else { 0 };
        let z = expand_all(pf, prev.0).update(2 * p, 0).update(2 * p + 1, 0);
        let sum = xor_range(|j: int| z[2 * j + lr], 0, prev.0.len() as int) ^ msgs[i - 1];
        (z.update(2 * p + lr, sum), (2 * p + 1 - lr) as nat)
    }
}

/// The missing index after `i` levels: the bits read most significant
/// first, negated.
pub open spec fn missing_index(bits: Seq<bool>, i: nat) -> nat
    decreases i,
{
    if i == 0 {
        0
    } else {
        2 * missing_index(bits, (i - 1) as nat) + if bits[i - 1] { 0nat } else { 1nat }
    }
}

/// One receiver level (see `recon`).
fn layer_recover<F: Fn(u128) -> u128>(
    prp: &TwoKeyPrp<F>,
    level: &Vec<u128>,
    missing: usize,
    right: bool,
    sum: u128,
) -> (r: (Vec<u128>, usize))
    requires
        is_function(prp.round),
        missing < level@.len(),
        2 * level@.len() <= usize::MAX,
    ensures
        ({
            let lr: int = if right { 1 } else { 0 };
            let z = expand_all(prp_fn(*prp), level@).update(2 * missing, 0).update(2 * missing + 1, 0);
            let s = xor_range(|j: int| z[2 * j + lr], 0, level@.len() as int) ^ sum;
            &&& r.0@ == z.update(2 * missing + lr, s)
            &&& r.1 == 2 * missing + 1 - lr
        }),
{
    let ghost pf = prp_fn(*prp);
    let (mut next, _x0, _x1) = expand_level(prp, level);
    next.set(2 * missing, 0);
    next.set(2 * missing + 1, 0);
    let ghost z = next@;
    let lr: usize = if right { 1 } else { 0 };
    let mut nodes_sum: u128 = 0;
    let mut j: usize = 0;
    while j < level.len()
        invariant
            j <= level@.len(),
            lr <= 1,
            2 * level@.len() <= usize::MAX,
            next@ == z,
            z.len() == 2 * level@.len(),
            nodes_sum == xor_range(|k: int| z[2 * k + lr], 0, j as int),
        decreases level@.len() - j,
    {
        nodes_sum = nodes_sum ^ next[2 * j + lr];
        j = j + 1;
    }
    proof {
        lemma_xor_range_ext(|k: int| z[2 * k + lr], |k: int| z[2 * k + (if right { 1int } else { 0int })], 0, level@.len() as int);
    }
    next.set(2 * missing + lr, nodes_sum ^ sum);
    (next, 2 * missing + 1 - lr)
}

/// Rebuild the leaves of a GGM tree of `depth` levels into `ggm_tree`
/// from the receiver's bits and the sums it learned (see `recon`); the
/// entries past the leaves are left as they were.
pub fn ggm_tree_reconstruction<F: Fn(u128) -> u128>(
    prp: &TwoKeyPrp<F>,
    depth: usize,
    choice_bits: &[bool],
    msgs: &[u128],
    ggm_tree: &mut [u128],
)
    requires
        is_function(prp.round),
        depth >= 2,
        choice_bits@.len() >= depth - 1,
        msgs@.len() == depth - 1,
        old(ggm_tree)@.len() >= pow2((depth - 1) as nat),
    ensures
        final(ggm_tree)@.len() == old(ggm_tree)@.len(),
        forall|k: int| 0 <= k < pow2((depth - 1) as nat) ==> #[trigger] final(ggm_tree)@[k] == recon(
            prp_fn(*prp),
            choice_bits@,
            msgs@,
            (depth - 1) as nat,
        ).0[k],
        forall|k: int| pow2((depth - 1) as nat) <= k < old(ggm_tree)@.len() ==> #[trigger] final(ggm_tree)@[k] == old(
            ggm_tree,
        )@[k],
{
    let ghost pf = prp_fn(*prp);
    let mut level: Vec<u128> = vec![0u128];
    let mut missing: usize = 0;
    let _n_tree = ggm_tree.len();
    let mut i: usize = 1;
    proof {
        vstd::arithmetic::power2::lemma2_to64();
        assert(level@ =~= seq![0u128]);
    }
    while i < depth
        invariant
            is_function(prp.round),
            pf == prp_fn(*prp),
            depth >= 2,
            1 <= i <= depth,
            choice_bits@.len() >= depth - 1,
            msgs@.len() == depth - 1,
            ggm_tree@.len() >= pow2((depth - 1) as nat),
            ggm_tree@.len() <= usize::MAX,
            level@.len() == pow2((i - 1) as nat),
            (level@, missing as nat) == recon(pf, choice_bits@, msgs@, (i - 1) as nat),
            missing < level@.len(),
        decreases depth - i,
    {
        proof {
            lemma_pow2_unfold(i as nat);
            if i < depth - 1 {
                vstd::arithmetic::power2::lemma_pow2_strictly_increases(i as nat, (depth - 1) as nat);
            }
        }
        let (next, m) = layer_recover(prp, &level, missing, choice_bits[i - 1], msgs[i - 1]);
        level = next;
        missing = m;
        i = i + 1;
    }
    let n = level.len();
    let mut k: usize = 0;
    while k < n
        invariant
            k <= n,
            n == level@.len(),
            n <= ggm_tree@.len(),
            ggm_tree@.len() == old(ggm_tree)@.len(),
            forall|a: int| 0 <= a < k ==> #[trigger] ggm_tree@[a] == level@[a],
            forall|a: int| n <= a < ggm_tree@.len() ==> #[trigger] ggm_tree@[a] == old(ggm_tree)@[a],
        decreases n - k,
    {
        ggm_tree[k] = level[k];
        k = k + 1;
    }
}

/// XOR cancels: `a ^ (a ^ b) == b`.
proof fn lemma_xor_cancel_left(a: u128, b: u128)
    by (bit_vector)
    ensures
        a ^ (a ^ b) == b,
{
}

/// A receiver that learns, on each level, the sum of the side its bit
/// names rebuilds every leaf of the sender's tree but one, and the
/// missing leaf's index is its bits negated (most significant first).
pub proof fn lemma_ggm_reconstruction(pf: spec_fn(u128) -> u128, seed: u128, bits: Seq<bool>, msgs: Seq<u128>, d: nat)
    requires
        bits.len() >= d,
        msgs.len() >= d,
        forall|h: int| 0 <= h < d ==> #[trigger] msgs[h] == ggm_msg(pf, seed, h as nat, if bits[h] { 1 } else { 0 }),
    ensures
        recon(pf, bits, msgs, d).0.len() == pow2(d),
        recon(pf, bits, msgs, d).1 == missing_index(bits, d),
        recon(pf, bits, msgs, d).1 < pow2(d),
        forall|k: int| 0 <= k < pow2(d) && k != recon(pf, bits, msgs, d).1 ==> #[trigger] recon(pf, bits, msgs, d).0[k]
            == ggm_level(pf, seed, d)[k],
    decreases d,
{
    lemma_ggm_level_len(pf, seed, d);
    if d == 0 {
        vstd::arithmetic::power2::lemma2_to64();
    } else {
        let d1 = (d - 1) as nat;
        lemma_ggm_reconstruction(pf, seed, bits, msgs, d1);
        lemma_ggm_level_len(pf, seed, d1);
        lemma_pow2_unfold(d);
        let prev = recon(pf, bits, msgs, d1);
        let p = prev.1 as int;
        let lev_prev = ggm_level(pf, seed, d1);
        let lev = ggm_level(pf, seed, d);
        let lr: int = if bits[d1 as int] { 1 } else { 0 };
        let z = expand_all(pf, prev.0).update(2 * p, 0).update(2 * p + 1, 0);
        let n = prev.0.len() as int;
        assert(lev == expand_all(pf, lev_prev));
        assert forall|k: int| 0 <= k < 2 * n && k / 2 != p implies z[k] == lev[k] by {
            assert(prev.0[k / 2] == lev_prev[k / 2]);
        }
        let f = |j: int| lev[2 * j + lr];
        let g = |j: int| z[2 * j + lr];
        lemma_xor_range_punctured(f, 0, n, p);
        lemma_xor_range_ext(g, |j: int| if j == p { 0u128 } else { f(j) }, 0, n);
        lemma_xor_range_ext(f, |j: int| ggm_level(pf, seed, d1 + 1)[2 * j + lr], 0, n);
        assert(msgs[d1 as int] == xor_range(f, 0, n));
        let xg = xor_range(g, 0, n);
        lemma_xor_cancel_left(xg, f(p));
        assert(xg ^ msgs[d1 as int] == lev[2 * p + lr]);
    }
}

} // verus!
