//! The one-hot outer products run over a party's context: the generator
//! sends its messages on its link, the evaluator reads them from its link.

use vstd::prelude::*;
use vstd::arithmetic::power2::pow2;
use crate::context::{is_gen, OneHotContext, Party};
use crate::label::{lsb, sel};
use crate::link::{after_read, after_send_all};
use crate::share::{OneHotState, Share, Table};
use crate::share_matrix::ShareMatrix;
use crate::unary::{
    eval_cell, eval_tree, gen_cell, gen_col_msg, gen_msg0, gen_msg1, gen_tree, generator_msgs, hash_of, is_hash,
    nonce_after, outer_eval_entry, outer_gen_entry, outer_mid_nonce, outer_product_evaluator, outer_product_generator,
    unary_outer_product_evaluator, unary_outer_product_generator, vals, OuterProductMsgs,
};

verus! {

/// The generator's seed-tree messages over labels `x`, in the order sent:
/// the two messages of each level.
pub open spec fn tree_msgs(x: Seq<u128>, delta: u128, nonce: u64, hf: spec_fn(u128, u64) -> u128) -> Seq<u128> {
    Seq::new(
        (2 * (x.len() - 1)) as nat,
        |k: int|
            if k % 2 == 0 {
                gen_msg0(x, delta, nonce, hf, (k / 2 + 1) as nat)
            } else {
                gen_msg1(x, delta, nonce, hf, (k / 2 + 1) as nat)
            },
    )
}

/// The generator's column messages of a unary outer product.
pub open spec fn col_msgs(seeds: Seq<u128>, base: u64, hf: spec_fn(u128, u64) -> u128, y: Seq<u128>) -> Seq<u128> {
    Seq::new(y.len(), |j: int| gen_col_msg(seeds, base, j, hf, y[j]))
}

/// The generator's messages, as a list, are the tree messages.
proof fn lemma_tree_msgs(x: Seq<u128>, delta: u128, nonce: u64, hf: spec_fn(u128, u64) -> u128, msgs: Seq<u128>)
    requires
        x.len() >= 1,
        generator_msgs(x, delta, nonce, hf, msgs),
    ensures
        msgs == tree_msgs(x, delta, nonce, hf),
{
    assert forall|k: int| 0 <= k < msgs.len() implies #[trigger] msgs[k] == tree_msgs(x, delta, nonce, hf)[k] by {
        let l = k / 2 + 1;
        if k % 2 == 0 {
            assert(msgs[2 * (l - 1)] == gen_msg0(x, delta, nonce, hf, l as nat));
        } else {
            assert(msgs[2 * (l - 1) + 1] == gen_msg1(x, delta, nonce, hf, l as nat));
        }
    }
    assert(msgs =~= tree_msgs(x, delta, nonce, hf));
}

/// The state after a unary outer product of `n` and `m` shares: the
/// nonce is past the `n` tree tweaks and the `2^n * m` leaf tweaks.
pub open spec fn unary_state(st: OneHotState, n: nat, m: nat) -> OneHotState {
    OneHotState { nonce: (nonce_after(st.nonce, n) + pow2(n) * m) as u64, ..st }
}

/// The one-hot unary outer product of `x` (looked up in `table`) and `y`:
/// the party after it and what it XORs into output cell `(k, c)`.
#[verifier::opaque]
pub open spec fn unary_step<T: Table>(
    p: Party,
    hf: spec_fn(u128, u64) -> u128,
    table: T,
    x: Seq<u128>,
    y: Seq<u128>,
) -> Option<(Party, spec_fn(int, int) -> u128)> {
    let n = x.len();
    let m = y.len();
    let base = nonce_after(p.state.nonce, n);
    let st = unary_state(p.state, n, m);
    if is_gen(p) {
        let seeds = gen_tree(x, p.state.delta, p.state.nonce, hf, (n - 1) as nat);
        let msgs = tree_msgs(x, p.state.delta, p.state.nonce, hf) + col_msgs(seeds, base, hf, y);
        Some((Party { state: st, link: after_send_all(p.link, msgs) }, |k: int, c: int| gen_cell(table, seeds, base, c, k, hf)))
    } else if p.link.pending.len() >= 2 * (n - 1) + m {
        let tm = p.link.pending.take(2 * (n - 1));
        let cm = p.link.pending.subrange(2 * (n - 1), 2 * (n - 1) + m);
        let tree = eval_tree(x, p.state.nonce, hf, tm, (n - 1) as nat);
        Some((
            Party { state: st, link: after_read(p.link, (2 * (n - 1) + m) as nat) },
            |k: int, c: int| eval_cell(table, tree.0, tree.1 as int, base, c, k, hf, cm[c], y[c]),
        ))
    } else {
        None
    }
}

/// The one-hot unary outer product over the context (see `unary_step`):
/// XORs this party's share of `T(x) * y` into `out`.  Returns false, with
/// `out` unchanged, when the evaluator lacks a message.
pub fn unary_outer_product<T: Table, F: Fn(u128, u64) -> u128>(
    ctx: &mut OneHotContext,
    h: &F,
    table: &T,
    x: &[Share],
    y: &[Share],
    out: &mut ShareMatrix,
) -> (ok: bool)
    requires
        is_hash(*h),
        0 < x@.len() < 64,
        x@.len() < usize::BITS,
        old(out).wf(),
        old(out).nrows() <= 64,
        y@.len() == old(out).ncols(),
        nonce_after(old(ctx)@.state.nonce, x@.len()) + pow2(x@.len()) * y@.len() <= u64::MAX,
    ensures
        final(out).wf(),
        final(out).nrows() == old(out).nrows(),
        final(out).ncols() == old(out).ncols(),
        match unary_step(old(ctx)@, hash_of(*h), *table, vals(x@), vals(y@)) {
            Some((q, cells)) => {
                &&& ok
                &&& final(ctx)@ == q
                &&& q.state == unary_state(old(ctx)@.state, x@.len(), y@.len())
                &&& forall|k: int, c: int| 0 <= k < old(out).nrows() && 0 <= c < old(out).ncols() ==> #[trigger] final(out).entry(k, c)
                    == old(out).entry(k, c) ^ cells(k, c)
            },
            None => !ok && *final(out) == *old(out),
        },
{
    reveal(unary_step);
    let ghost hf = hash_of(*h);
    let n = x.len();
    let m = y.len();
    if ctx.state.is_generator() {
        let (tm, cm) = unary_outer_product_generator(&mut ctx.state, table, x, y, out, h);
        ctx.link.send_blocks(tm.as_slice());
        ctx.link.send_blocks(cm.as_slice());
        proof {
            let p = old(ctx)@;
            lemma_tree_msgs(vals(x@), p.state.delta, p.state.nonce, hf, tm@);
            let seeds = gen_tree(vals(x@), p.state.delta, p.state.nonce, hf, (n - 1) as nat);
            assert(cm@ =~= col_msgs(seeds, nonce_after(p.state.nonce, n as nat), hf, vals(y@)));
            assert(ctx.link@.sent =~= p.link.sent + (tm@ + cm@));
        }
        true
    } else {
        let tm = match ctx.link.recv_blocks(2 * (n - 1)) {
            None => {
                return false;
            },
            Some(v) => v,
        };
        let cm = match ctx.link.recv_blocks(m) {
            None => {
                return false;
            },
            Some(v) => v,
        };
        unary_outer_product_evaluator(&mut ctx.state, table, x, y, out, tm.as_slice(), cm.as_slice(), h);
        proof {
            let p = old(ctx)@;
            let k0 = 2 * (n - 1);
            assert(tm@ =~= p.link.pending.take(k0));
            assert(cm@ =~= p.link.pending.subrange(k0, k0 + m));
            assert(ctx.link@.pending =~= p.link.pending.skip(k0 + m));
            assert forall|c: int| 0 <= c < m implies #[trigger] vals(y@)[c] == y@[c].0 by {}
        }
        true
    }
}

/// The state after an outer product of `n` by `m` shares.
pub open spec fn outer_state(st: OneHotState, n: nat, m: nat) -> OneHotState {
    let n1 = outer_mid_nonce(st.nonce, n, m);
    OneHotState { nonce: (nonce_after(n1, m) + pow2(m) * n) as u64, ..st }
}

/// The one-hot outer product `x * y^T`: the party after it and its share
/// of entry `(i, j)`.
#[verifier::opaque]
pub open spec fn outer_step(p: Party, hf: spec_fn(u128, u64) -> u128, x: Seq<u128>, y: Seq<u128>) -> Option<
    (Party, spec_fn(int, int) -> u128),
> {
    let n = x.len();
    let m = y.len();
    let d = p.state.delta;
    let n0 = p.state.nonce;
    let n1 = outer_mid_nonce(n0, n, m);
    let st = outer_state(p.state, n, m);
    if is_gen(p) {
        let s1 = gen_tree(x, d, n0, hf, (n - 1) as nat);
        let s2 = gen_tree(y, d, n1, hf, (m - 1) as nat);
        let yx = Seq::new(n, |i: int| sel(lsb(x[i]), d));
        let msgs = tree_msgs(x, d, n0, hf) + col_msgs(s1, nonce_after(n0, n), hf, y) + tree_msgs(y, d, n1, hf) + col_msgs(
            s2,
            nonce_after(n1, m),
            hf,
            yx,
        );
        Some((Party { state: st, link: after_send_all(p.link, msgs) }, |i: int, j: int| outer_gen_entry(x, y, d, n0, hf, i, j)))
    } else if p.link.pending.len() >= 2 * (n - 1) + m + 2 * (m - 1) + n {
        let a = 2 * (n - 1);
        let b = a + m;
        let c = b + 2 * (m - 1);
        let pm = p.link.pending;
        let tx = pm.subrange(0, a);
        let cx = pm.subrange(a, b);
        let ty = pm.subrange(b, c);
        let cy = pm.subrange(c, c + n);
        Some((
            Party { state: st, link: after_read(p.link, (c + n) as nat) },
            |i: int, j: int| outer_eval_entry(x, y, d, n0, hf, tx, cx, ty, cy, i, j),
        ))
    } else {
        None
    }
}

/// The one-hot outer product over the context (see `outer_step`).
#[verifier::rlimit(40)]
pub fn outer_product<F: Fn(u128, u64) -> u128>(ctx: &mut OneHotContext, h: &F, x: &[Share], y: &[Share]) -> (r: Option<ShareMatrix>)
    requires
        is_hash(*h),
        0 < x@.len() < 64,
        0 < y@.len() < 64,
        x@.len() < usize::BITS,
        y@.len() < usize::BITS,
        nonce_after(old(ctx)@.state.nonce, x@.len()) + pow2(x@.len()) * y@.len() <= u64::MAX,
        nonce_after(outer_mid_nonce(old(ctx)@.state.nonce, x@.len(), y@.len()), y@.len()) + pow2(y@.len()) * x@.len()
            <= u64::MAX,
    ensures
        match outer_step(old(ctx)@, hash_of(*h), vals(x@), vals(y@)) {
            Some((q, cells)) => r matches Some(o) && {
                &&& o.wf()
                &&& o.nrows() == x@.len()
                &&& o.ncols() == y@.len()
                &&& final(ctx)@ == q
                &&& q.state == outer_state(old(ctx)@.state, x@.len(), y@.len())
                &&& forall|i: int, j: int| 0 <= i < x@.len() && 0 <= j < y@.len() ==> #[trigger] o.entry(i, j) == cells(i, j)
            },
            None => r is None,
        },
{
    reveal(outer_step);
    let ghost hf = hash_of(*h);
    let n = x.len();
    let m = y.len();
    if ctx.state.is_generator() {
        let (o, msgs) = outer_product_generator(&mut ctx.state, x, y, h);
        ctx.link.send_blocks(msgs.tree_x.as_slice());
        ctx.link.send_blocks(msgs.cols_x.as_slice());
        ctx.link.send_blocks(msgs.tree_y.as_slice());
        ctx.link.send_blocks(msgs.cols_y.as_slice());
        proof {
            let p = old(ctx)@;
            let d = p.state.delta;
            let n0 = p.state.nonce;
            let n1 = outer_mid_nonce(n0, n as nat, m as nat);
            lemma_tree_msgs(vals(x@), d, n0, hf, msgs.tree_x@);
            lemma_tree_msgs(vals(y@), d, n1, hf, msgs.tree_y@);
            let s1 = gen_tree(vals(x@), d, n0, hf, (n - 1) as nat);
            let s2 = gen_tree(vals(y@), d, n1, hf, (m - 1) as nat);
            assert(msgs.cols_x@ =~= col_msgs(s1, nonce_after(n0, n as nat), hf, vals(y@)));
            assert(msgs.cols_y@ =~= col_msgs(s2, nonce_after(n1, m as nat), hf, Seq::new(n as nat, |i: int| sel(lsb(vals(x@)[i]), d))));
            assert(ctx.link@.sent =~= p.link.sent + (msgs.tree_x@ + msgs.cols_x@ + msgs.tree_y@ + msgs.cols_y@));
        }
        Some(o)
    } else {
        let tx = match ctx.link.recv_blocks(2 * (n - 1)) {
            None => {
                return None;
            },
            Some(v) => v,
        };
        let cx = match ctx.link.recv_blocks(m) {
            None => {
                return None;
            },
            Some(v) => v,
        };
        let ty = match ctx.link.recv_blocks(2 * (m - 1)) {
            None => {
                return None;
            },
            Some(v) => v,
        };
        let cy = match ctx.link.recv_blocks(n) {
            None => {
                return None;
            },
            Some(v) => v,
        };
        let msgs = OuterProductMsgs { tree_x: tx, cols_x: cx, tree_y: ty, cols_y: cy };
        let o = outer_product_evaluator(&mut ctx.state, x, y, &msgs, h);
        proof {
            let pm = old(ctx)@.link.pending;
            let a = 2 * (n - 1);
            let b = a + m;
            let c = b + 2 * (m - 1);
            assert(msgs.tree_x@ =~= pm.subrange(0, a));
            assert(msgs.cols_x@ =~= pm.subrange(a, b));
            assert(msgs.tree_y@ =~= pm.subrange(b, c));
            assert(msgs.cols_y@ =~= pm.subrange(c, c + n));
            assert(ctx.link@.pending =~= pm.skip(c + n));
        }
        Some(o)
    }
}

} // verus!
