//! Integer gadgets over one-hot shares: ripple-carry addition and
//! subtraction, conditional swap and conditional subtraction.
//!
//! Vectors are column vectors of shares, least significant bit first.
//! Each gadget states what it returns and how the party (nonce and link)
//! changes as a function of its inputs and of the keyed hash; the
//! evaluator's gadgets fail exactly when a message they read is missing.

use vstd::prelude::*;
use crate::context::{advanced, and_step, eq_share, lemma_advanced_twice, lemma_advanced_zero, not_share, or_step, OneHotContext, Party};
use crate::gf256_shares::col_vals;
use crate::share::Share;
use crate::share_matrix::ShareMatrix;
use crate::unary::{hash_of, is_hash, nonce_after};

verus! {

/// The first `i` stages of a ripple-carry adder: the party after them,
/// the `i` sum shares and the carry share.
pub open spec fn add_prefix(
    p: Party,
    hf: spec_fn(u128, u64) -> u128,
    x: Seq<u128>,
    y: Seq<u128>,
    i: nat,
) -> Option<(Party, Seq<u128>, u128)>
    decreases i,
{
    if i == 0 {
        Some((p, Seq::empty(), 0u128))
    } else {
        match add_prefix(p, hf, x, y, (i - 1) as nat) {
            None => None,
            Some((q, o, c)) => {
                let xc = x[i - 1] ^ c;
                match and_step(q, hf, xc, y[i - 1] ^ c) {
                    None => None,
                    Some((r, t)) => Some((r, o.push(xc ^ y[i - 1]), c ^ t)),
                }
            },
        }
    }
}

/// Addition of the first `n` shares of `x` and `y`: `n - 1` carry stages,
/// then the top bit without a carry out.
pub open spec fn add_spec(p: Party, hf: spec_fn(u128, u64) -> u128, n: nat, x: Seq<u128>, y: Seq<u128>) -> Option<
    (Party, Seq<u128>),
> {
    match add_prefix(p, hf, x, y, (n - 1) as nat) {
        None => None,
        Some((q, o, c)) => Some((q, o.push(x[n - 1] ^ y[n - 1] ^ c))),
    }
}

/// The first `i` stages of a ripple-borrow subtractor: the party after
/// them, the `i` difference shares and the borrow share.
pub open spec fn sub_prefix(
    p: Party,
    hf: spec_fn(u128, u64) -> u128,
    x: Seq<u128>,
    y: Seq<u128>,
    i: nat,
) -> Option<(Party, Seq<u128>, u128)>
    decreases i,
{
    if i == 0 {
        Some((p, Seq::empty(), 0u128))
    } else {
        match sub_prefix(p, hf, x, y, (i - 1) as nat) {
            None => None,
            Some((q, o, b)) => {
                let xy = x[i - 1] ^ y[i - 1];
                match and_step(q, hf, xy, y[i - 1] ^ b) {
                    None => None,
                    Some((r, t)) => Some((r, o.push(xy ^ b), b ^ t)),
                }
            },
        }
    }
}

/// Subtraction `x - y` of two `n`-share vectors.
pub open spec fn sub_spec(p: Party, hf: spec_fn(u128, u64) -> u128, n: nat, x: Seq<u128>, y: Seq<u128>) -> Option<
    (Party, Seq<u128>),
> {
    match sub_prefix(p, hf, x, y, (n - 1) as nat) {
        None => None,
        Some((q, o, b)) => Some((q, o.push(x[n - 1] ^ y[n - 1] ^ b))),
    }
}

/// AND of each share of `v` with `s`, in order.
pub open spec fn and_each(p: Party, hf: spec_fn(u128, u64) -> u128, v: Seq<u128>, s: u128) -> Option<(Party, Seq<u128>)>
    decreases v.len(),
{
    if v.len() == 0 {
        Some((p, Seq::empty()))
    } else {
        match and_each(p, hf, v.drop_last(), s) {
            None => None,
            Some((q, o)) => match and_step(q, hf, v.last(), s) {
                None => None,
                Some((r, t)) => Some((r, o.push(t))),
            },
        }
    }
}

/// AND of each share of each row of `d` with `s`, row by row.
pub open spec fn and_rows(p: Party, hf: spec_fn(u128, u64) -> u128, d: Seq<Seq<u128>>, s: u128) -> Option<
    (Party, Seq<Seq<u128>>),
>
    decreases d.len(),
{
    if d.len() == 0 {
        Some((p, Seq::empty()))
    } else {
        match and_rows(p, hf, d.drop_last(), s) {
            None => None,
            Some((q, rows)) => match and_each(q, hf, d.last(), s) {
                None => None,
                Some((r, row)) => Some((r, rows.push(row))),
            },
        }
    }
}

/// The rows of a matrix of shares.
pub open spec fn rows_of(m: ShareMatrix) -> Seq<Seq<u128>> {
    Seq::new(m.nrows(), |i: int| Seq::new(m.ncols(), |j: int| m.entry(i, j)))
}

/// A vector as a one-column matrix.
pub open spec fn column(v: Seq<u128>) -> Seq<Seq<u128>> {
    Seq::new(v.len(), |i: int| seq![v[i]])
}

/// The entrywise XOR of two matrices of the shape of `x`.
pub open spec fn xor_rows(x: Seq<Seq<u128>>, y: Seq<Seq<u128>>) -> Seq<Seq<u128>> {
    Seq::new(x.len(), |i: int| Seq::new(x[i].len(), |j: int| x[i][j] ^ y[i][j]))
}

/// Conditional swap: `s * (x ^ y) ^ y`, which is `x` when `s` is 1 and
/// `y` when it is 0, computed row by row.
pub open spec fn swap_spec(p: Party, hf: spec_fn(u128, u64) -> u128, s: u128, x: Seq<Seq<u128>>, y: Seq<Seq<u128>>) -> Option<
    (Party, Seq<Seq<u128>>),
> {
    match and_rows(p, hf, xor_rows(x, y), s) {
        None => None,
        Some((q, m)) => Some((q, xor_rows(m, y))),
    }
}

/// Conditional subtraction of 32-share vectors: `x - y` when `x > y`
/// (as decided from the top bits of `x`, `y` and `x - y`), else `x`.
#[verifier::opaque]
pub open spec fn sub_if_greater_spec(p: Party, hf: spec_fn(u128, u64) -> u128, x: Seq<u128>, y: Seq<u128>) -> Option<
    (Party, Seq<u128>),
> {
    match sub_spec(p, hf, 32, x, y) {
        None => None,
        Some((p1, diff)) => {
            let eq_top = eq_share(p1, x[31], y[31]);
            let neq_top = not_share(p1, eq_top);
            let msb_flip = eq_share(p1, x[31], diff[31]);
            match and_step(p1, hf, eq_top, not_share(p1, msb_flip)) {
                None => None,
                Some((p2, left)) => match and_step(p2, hf, neq_top, x[31]) {
                    None => None,
                    Some((p3, right)) => match or_step(p3, hf, left, right) {
                        None => None,
                        Some((p4, gt)) => match swap_spec(p4, hf, gt, column(x), column(diff)) {
                            None => None,
                            Some((p5, m)) => Some((p5, Seq::new(32, |i: int| m[i][0]))),
                        },
                    },
                },
            }
        },
    }
}

/// Once the adder fails it stays failed.
proof fn lemma_add_prefix_none(p: Party, hf: spec_fn(u128, u64) -> u128, x: Seq<u128>, y: Seq<u128>, i: nat, j: nat)
    requires
        i <= j,
        add_prefix(p, hf, x, y, i) is None,
    ensures
        add_prefix(p, hf, x, y, j) is None,
    decreases j,
{
    if i < j {
        lemma_add_prefix_none(p, hf, x, y, i, (j - 1) as nat);
    }
}

/// Once the subtractor fails it stays failed.
proof fn lemma_sub_prefix_none(p: Party, hf: spec_fn(u128, u64) -> u128, x: Seq<u128>, y: Seq<u128>, i: nat, j: nat)
    requires
        i <= j,
        sub_prefix(p, hf, x, y, i) is None,
    ensures
        sub_prefix(p, hf, x, y, j) is None,
    decreases j,
{
    if i < j {
        lemma_sub_prefix_none(p, hf, x, y, i, (j - 1) as nat);
    }
}

/// A failure on a prefix of `v` is a failure on `v`.
pub(crate) proof fn lemma_and_each_none(p: Party, hf: spec_fn(u128, u64) -> u128, v: Seq<u128>, s: u128, j: nat)
    requires
        j <= v.len(),
        and_each(p, hf, v.take(j as int), s) is None,
    ensures
        and_each(p, hf, v, s) is None,
    decreases v.len(),
{
    if j < v.len() {
        assert(v.drop_last().take(j as int) =~= v.take(j as int));
        lemma_and_each_none(p, hf, v.drop_last(), s, j);
    } else {
        assert(v.take(j as int) =~= v);
    }
}

/// A failure on a prefix of the rows is a failure on all of them.
proof fn lemma_and_rows_none(p: Party, hf: spec_fn(u128, u64) -> u128, d: Seq<Seq<u128>>, s: u128, j: nat)
    requires
        j <= d.len(),
        and_rows(p, hf, d.take(j as int), s) is None,
    ensures
        and_rows(p, hf, d, s) is None,
    decreases d.len(),
{
    if j < d.len() {
        assert(d.drop_last().take(j as int) =~= d.take(j as int));
        lemma_and_rows_none(p, hf, d.drop_last(), s, j);
    } else {
        assert(d.take(j as int) =~= d);
    }
}

/// Add the first `bits_to_add` shares of the column vectors `x` and `y`
/// (ripple carry, one AND gate per stage but the last).
pub fn integer_add<F: Fn(u128, u64) -> u128>(
    ctx: &mut OneHotContext,
    h: &F,
    bits_to_add: usize,
    x: &ShareMatrix,
    y: &ShareMatrix,
) -> (r: Option<ShareMatrix>)
    requires
        is_hash(*h),
        x.wf(),
        y.wf(),
        x.ncols() == 1,
        y.ncols() == 1,
        1 <= bits_to_add,
        bits_to_add <= x.nrows(),
        bits_to_add <= y.nrows(),
    ensures
        match r {
            Some(o) => {
                &&& o.wf()
                &&& o.nrows() == bits_to_add
                &&& o.ncols() == 1
                &&& add_spec(old(ctx)@, hash_of(*h), bits_to_add as nat, col_vals(*x), col_vals(*y)) == Some(
                    (final(ctx)@, col_vals(o)),
                )
                &&& final(ctx)@.state == advanced(old(ctx)@.state, (2 * (bits_to_add - 1)) as nat)
            },
            None => add_spec(old(ctx)@, hash_of(*h), bits_to_add as nat, col_vals(*x), col_vals(*y)) is None,
        },
{
    let ghost hf = hash_of(*h);
    let ghost xs = col_vals(*x);
    let ghost ys = col_vals(*y);
    let n = bits_to_add;
    let mut out = ShareMatrix::vector(n);
    let mut carry = ctx.bit(false);
    let mut i: usize = 0;
    proof {
        lemma_advanced_zero(old(ctx)@.state);
    }
    while i < n - 1
        invariant
            is_hash(*h),
            hf == hash_of(*h),
            x.wf(),
            y.wf(),
            x.ncols() == 1,
            y.ncols() == 1,
            xs == col_vals(*x),
            ys == col_vals(*y),
            n == bits_to_add,
            1 <= n <= x.nrows(),
            n <= y.nrows(),
            i <= n - 1,
            out.wf(),
            out.nrows() == n,
            out.ncols() == 1,
            add_prefix(old(ctx)@, hf, xs, ys, i as nat) == Some(
                (ctx@, Seq::new(i as nat, |k: int| out.entry(k, 0)), carry.0),
            ),
            ctx@.state == advanced(old(ctx)@.state, (2 * i) as nat),
        decreases n - 1 - i,
    {
        let ghost before = Seq::new(i as nat, |k: int| out.entry(k, 0));
        let xi = x.at(i);
        let yi = y.at(i);
        let xc = xi.xor(carry);
        out.set_at(i, xc.xor(yi));
        match ctx.and_gate(h, xc, yi.xor(carry)) {
            None => {
                proof {
                    assert(xs[i as int] == xi.0);
                    assert(ys[i as int] == yi.0);
                    assert(add_prefix(old(ctx)@, hf, xs, ys, (i + 1) as nat) is None);
                    lemma_add_prefix_none(old(ctx)@, hf, xs, ys, (i + 1) as nat, (n - 1) as nat);
                }
                return None;
            },
            Some(t) => {
                carry = carry.xor(t);
            },
        }
        proof {
            lemma_advanced_twice(old(ctx)@.state, (2 * i) as nat, 2);
        }
        proof {
            assert(Seq::new((i + 1) as nat, |k: int| out.entry(k, 0)) =~= before.push(xc.0 ^ yi.0));
        }
        i = i + 1;
    }
    let top = x.at(n - 1).xor(y.at(n - 1)).xor(carry);
    let ghost before = Seq::new((n - 1) as nat, |k: int| out.entry(k, 0));
    out.set_at(n - 1, top);
    proof {
        assert(col_vals(out) =~= before.push(top.0));
    }
    Some(out)
}

/// Add two column vectors of the same length.
pub fn integer_add_full<F: Fn(u128, u64) -> u128>(
    ctx: &mut OneHotContext,
    h: &F,
    x: &ShareMatrix,
    y: &ShareMatrix,
) -> (r: Option<ShareMatrix>)
    requires
        is_hash(*h),
        x.wf(),
        y.wf(),
        x.ncols() == 1,
        y.ncols() == 1,
        x.nrows() == y.nrows(),
        x.nrows() >= 1,
    ensures
        match r {
            Some(o) => {
                &&& o.wf()
                &&& o.nrows() == x.nrows()
                &&& o.ncols() == 1
                &&& add_spec(old(ctx)@, hash_of(*h), x.nrows(), col_vals(*x), col_vals(*y)) == Some((final(ctx)@, col_vals(o)))
                &&& final(ctx)@.state == advanced(old(ctx)@.state, (2 * (x.nrows() - 1)) as nat)
            },
            None => add_spec(old(ctx)@, hash_of(*h), x.nrows(), col_vals(*x), col_vals(*y)) is None,
        },
{
    integer_add(ctx, h, x.rows(), x, y)
}

/// The first `stages` stages of the ripple-borrow subtractor `x - y` (see
/// `sub_prefix`): the difference shares in the first `stages` entries of
/// a fresh vector of the length of `x`, and the borrow share.
pub(crate) fn sub_stages<F: Fn(u128, u64) -> u128>(
    ctx: &mut OneHotContext,
    h: &F,
    x: &ShareMatrix,
    y: &ShareMatrix,
    stages: usize,
) -> (r: Option<(ShareMatrix, Share)>)
    requires
        is_hash(*h),
        x.wf(),
        y.wf(),
        x.ncols() == 1,
        y.ncols() == 1,
        x.nrows() == y.nrows(),
        stages <= x.nrows(),
    ensures
        match r {
            Some((o, b)) => {
                &&& o.wf()
                &&& o.nrows() == x.nrows()
                &&& o.ncols() == 1
                &&& sub_prefix(old(ctx)@, hash_of(*h), col_vals(*x), col_vals(*y), stages as nat) == Some(
                    (final(ctx)@, Seq::new(stages as nat, |k: int| o.entry(k, 0)), b.0),
                )
                &&& final(ctx)@.state == advanced(old(ctx)@.state, (2 * stages) as nat)
            },
            None => sub_prefix(old(ctx)@, hash_of(*h), col_vals(*x), col_vals(*y), stages as nat) is None,
        },
{
    let ghost hf = hash_of(*h);
    let ghost xs = col_vals(*x);
    let ghost ys = col_vals(*y);
    let n = x.rows();
    let mut out = ShareMatrix::vector(n);
    let mut borrow = ctx.bit(false);
    let mut i: usize = 0;
    proof {
        lemma_advanced_zero(old(ctx)@.state);
    }
    while i < stages
        invariant
            is_hash(*h),
            hf == hash_of(*h),
            x.wf(),
            y.wf(),
            x.ncols() == 1,
            y.ncols() == 1,
            xs == col_vals(*x),
            ys == col_vals(*y),
            n == x.nrows(),
            n == y.nrows(),
            stages <= n,
            i <= stages,
            out.wf(),
            out.nrows() == n,
            out.ncols() == 1,
            sub_prefix(old(ctx)@, hf, xs, ys, i as nat) == Some(
                (ctx@, Seq::new(i as nat, |k: int| out.entry(k, 0)), borrow.0),
            ),
            ctx@.state == advanced(old(ctx)@.state, (2 * i) as nat),
        decreases stages - i,
    {
        let ghost before = Seq::new(i as nat, |k: int| out.entry(k, 0));
        let ghost b0 = borrow.0;
        let xi = x.at(i);
        let yi = y.at(i);
        let xy = xi.xor(yi);
        let yc = yi.xor(borrow);
        out.set_at(i, xy.xor(borrow));
        match ctx.and_gate(h, xy, yc) {
            None => {
                proof {
                    lemma_sub_prefix_none(old(ctx)@, hf, xs, ys, (i + 1) as nat, stages as nat);
                }
                return None;
            },
            Some(t) => {
                borrow = borrow.xor(t);
            },
        }
        proof {
            lemma_advanced_twice(old(ctx)@.state, (2 * i) as nat, 2);
        }
        proof {
            assert(Seq::new((i + 1) as nat, |k: int| out.entry(k, 0)) =~= before.push(xy.0 ^ b0));
        }
        i = i + 1;
    }
    Some((out, borrow))
}

/// Subtract the column vector `y` from `x` (ripple borrow, one AND gate
/// per stage but the last), wrapping modulo `2^n`.
pub fn integer_sub<F: Fn(u128, u64) -> u128>(
    ctx: &mut OneHotContext,
    h: &F,
    x: &ShareMatrix,
    y: &ShareMatrix,
) -> (r: Option<ShareMatrix>)
    requires
        is_hash(*h),
        x.wf(),
        y.wf(),
        x.ncols() == 1,
        y.ncols() == 1,
        x.nrows() == y.nrows(),
        x.nrows() >= 1,
    ensures
        match r {
            Some(o) => {
                &&& o.wf()
                &&& o.nrows() == x.nrows()
                &&& o.ncols() == 1
                &&& sub_spec(old(ctx)@, hash_of(*h), x.nrows(), col_vals(*x), col_vals(*y)) == Some((final(ctx)@, col_vals(o)))
                &&& final(ctx)@.state == advanced(old(ctx)@.state, (2 * (x.nrows() - 1)) as nat)
            },
            None => sub_spec(old(ctx)@, hash_of(*h), x.nrows(), col_vals(*x), col_vals(*y)) is None,
        },
{
    let n = x.rows();
    let (mut out, borrow) = match sub_stages(ctx, h, x, y, n - 1) {
        None => {
            return None;
        },
        Some(v) => v,
    };
    let top = x.at(n - 1).xor(y.at(n - 1)).xor(borrow);
    let ghost before = Seq::new((n - 1) as nat, |k: int| out.entry(k, 0));
    out.set_at(n - 1, top);
    proof {
        assert(col_vals(out) =~= before.push(top.0));
    }
    Some(out)
}

/// Conditionally swap: returns `x` where `s` is a share of 1 and `y`
/// where it is a share of 0, as `s * (x ^ y) ^ y`, entry by entry in
/// row-major order.
pub fn swap<F: Fn(u128, u64) -> u128>(
    ctx: &mut OneHotContext,
    h: &F,
    s: Share,
    x: &ShareMatrix,
    y: &ShareMatrix,
) -> (r: Option<ShareMatrix>)
    requires
        is_hash(*h),
        x.wf(),
        y.wf(),
        x.nrows() == y.nrows(),
        x.ncols() == y.ncols(),
    ensures
        match r {
            Some(o) => {
                &&& o.wf()
                &&& o.nrows() == x.nrows()
                &&& o.ncols() == x.ncols()
                &&& swap_spec(old(ctx)@, hash_of(*h), s.0, rows_of(*x), rows_of(*y)) == Some((final(ctx)@, rows_of(o)))
                &&& final(ctx)@.state == advanced(old(ctx)@.state, (2 * x.nrows() * x.ncols()) as nat)
            },
            None => swap_spec(old(ctx)@, hash_of(*h), s.0, rows_of(*x), rows_of(*y)) is None,
        },
{
    let ghost hf = hash_of(*h);
    let n = x.rows();
    let m = x.cols();
    proof {
        x.lemma_size();
    }
    let mut out = ShareMatrix::new(n, m);
    let ghost d = xor_rows(rows_of(*x), rows_of(*y));
    let ghost mut done: Seq<Seq<u128>> = Seq::empty();
    let mut i: usize = 0;
    proof {
        lemma_advanced_zero(old(ctx)@.state);
        assert(2 * i * m == 0) by (nonlinear_arith)
            requires
                i == 0,
        ;
        assert(d.take(0) =~= Seq::<Seq<u128>>::empty());
    }
    while i < n
        invariant
            is_hash(*h),
            hf == hash_of(*h),
            x.wf(),
            y.wf(),
            n == x.nrows(),
            m == x.ncols(),
            n == y.nrows(),
            m == y.ncols(),
            d == xor_rows(rows_of(*x), rows_of(*y)),
            i <= n,
            out.wf(),
            out.nrows() == n,
            out.ncols() == m,
            done.len() == i,
            and_rows(old(ctx)@, hf, d.take(i as int), s.0) == Some((ctx@, done)),
            forall|a: int| 0 <= a < i ==> (#[trigger] done[a]).len() == m,
            forall|a: int, b: int| 0 <= a < i && 0 <= b < m ==> #[trigger] out.entry(a, b) == done[a][b] ^ y.entry(a, b),
            ctx@.state == advanced(old(ctx)@.state, (2 * i * m) as nat),
        decreases n - i,
    {
        let ghost p_i = ctx@;
        let ghost mut row: Seq<u128> = Seq::empty();
        let mut j: usize = 0;
        proof {
            assert(d[i as int].take(0) =~= Seq::<u128>::empty());
        }
        while j < m
            invariant
                is_hash(*h),
                hf == hash_of(*h),
                x.wf(),
                y.wf(),
                n == x.nrows(),
                m == x.ncols(),
                n == y.nrows(),
                m == y.ncols(),
                d == xor_rows(rows_of(*x), rows_of(*y)),
                i < n,
                j <= m,
                out.wf(),
                out.nrows() == n,
                out.ncols() == m,
                done.len() == i,
                and_rows(old(ctx)@, hf, d.take(i as int), s.0) == Some((p_i, done)),
                forall|a: int| 0 <= a < i ==> (#[trigger] done[a]).len() == m,
                forall|a: int, b: int| 0 <= a < i && 0 <= b < m ==> #[trigger] out.entry(a, b) == done[a][b] ^ y.entry(a, b),
                row.len() == j,
                and_each(p_i, hf, d[i as int].take(j as int), s.0) == Some((ctx@, row)),
                forall|b: int| 0 <= b < j ==> #[trigger] out.entry(i as int, b) == row[b] ^ y.entry(i as int, b),
                ctx@.state == advanced(old(ctx)@.state, (2 * i * m + 2 * j) as nat),
            decreases m - j,
        {
            let yij = y.get(i, j);
            let dij = x.get(i, j).xor(yij);
            proof {
                assert(d[i as int][j as int] == dij.0);
                assert(d[i as int].take(j + 1).drop_last() =~= d[i as int].take(j as int));
            }
            match ctx.and_gate(h, dij, s) {
                None => {
                    proof {
                        lemma_and_each_none(p_i, hf, d[i as int], s.0, (j + 1) as nat);
                        assert(d.take(i + 1).drop_last() =~= d.take(i as int));
                        assert(and_rows(old(ctx)@, hf, d.take(i + 1), s.0) is None);
                        lemma_and_rows_none(old(ctx)@, hf, d, s.0, (i + 1) as nat);
                    }
                    return None;
                },
                Some(t) => {
                    out.set(i, j, t.xor(yij));
                    proof {
                        row = row.push(t.0);
                        lemma_advanced_twice(old(ctx)@.state, (2 * i * m + 2 * j) as nat, 2);
                    }
                },
            }
            j = j + 1;
        }
        proof {
            assert(2 * i * m + 2 * m == 2 * (i + 1) * m) by (nonlinear_arith);
            assert(d[i as int].take(m as int) =~= d[i as int]);
            assert(d.take(i + 1).drop_last() =~= d.take(i as int));
            done = done.push(row);
        }
        i = i + 1;
    }
    proof {
        assert(d.take(n as int) =~= d);
        assert forall|a: int| 0 <= a < n implies #[trigger] rows_of(out)[a] =~= xor_rows(done, rows_of(*y))[a] by {}
        assert(rows_of(out) =~= xor_rows(done, rows_of(*y)));
    }
    Some(out)
}

/// OR of two shares through one AND gate.
fn or_gate<F: Fn(u128, u64) -> u128>(ctx: &mut OneHotContext, h: &F, a: Share, b: Share) -> (r: Option<Share>)
    requires
        is_hash(*h),
    ensures
        match r {
            Some(o) => or_step(old(ctx)@, hash_of(*h), a.0, b.0) == Some((final(ctx)@, o.0)),
            None => or_step(old(ctx)@, hash_of(*h), a.0, b.0) is None,
        },
{
    let na = ctx.not(a);
    let nb = ctx.not(b);
    match ctx.and_gate(h, na, nb) {
        None => None,
        Some(t) => Some(ctx.not(t)),
    }
}

/// A column vector as a one-column matrix of rows.
proof fn lemma_rows_of_column(m: ShareMatrix)
    requires
        m.ncols() == 1,
    ensures
        rows_of(m) == column(col_vals(m)),
{
    assert forall|i: int| 0 <= i < m.nrows() implies #[trigger] rows_of(m)[i] =~= column(col_vals(m))[i] by {}
    assert(rows_of(m) =~= column(col_vals(m)));
}

/// Subtract `y` from `x` when `x > y`, for 32-share column vectors.
pub fn sub_if_greater<F: Fn(u128, u64) -> u128>(
    ctx: &mut OneHotContext,
    h: &F,
    x: &ShareMatrix,
    y: &ShareMatrix,
) -> (r: Option<ShareMatrix>)
    requires
        is_hash(*h),
        x.wf(),
        y.wf(),
        x.nrows() == 32,
        y.nrows() == 32,
        x.ncols() == 1,
        y.ncols() == 1,
    ensures
        match r {
            Some(o) => {
                &&& o.wf()
                &&& o.nrows() == 32
                &&& o.ncols() == 1
                &&& sub_if_greater_spec(old(ctx)@, hash_of(*h), col_vals(*x), col_vals(*y)) == Some(
                    (final(ctx)@, col_vals(o)),
                )
                &&& final(ctx)@.state == advanced(old(ctx)@.state, 132)
            },
            None => sub_if_greater_spec(old(ctx)@, hash_of(*h), col_vals(*x), col_vals(*y)) is None,
        },
{
    reveal(sub_if_greater_spec);
    let ghost hf = hash_of(*h);
    let diff = match integer_sub(ctx, h, x, y) {
        None => {
            return None;
        },
        Some(d) => d,
    };
    let x31 = x.at(31);
    let eq_top = ctx.not(x31.xor(y.at(31)));
    let neq_top = ctx.not(eq_top);
    let msb_flip = ctx.not(x31.xor(diff.at(31)));
    let nm = ctx.not(msb_flip);
    let left = match ctx.and_gate(h, eq_top, nm) {
        None => {
            return None;
        },
        Some(v) => v,
    };
    let right = match ctx.and_gate(h, neq_top, x31) {
        None => {
            return None;
        },
        Some(v) => v,
    };
    let gt = match or_gate(ctx, h, left, right) {
        None => {
            return None;
        },
        Some(v) => v,
    };
    proof {
        lemma_rows_of_column(*x);
        lemma_rows_of_column(diff);
    }
    proof {
        lemma_advanced_twice(old(ctx)@.state, 62, 2);
        lemma_advanced_twice(old(ctx)@.state, 64, 2);
        lemma_advanced_twice(old(ctx)@.state, 66, 2);
    }
    match swap(ctx, h, gt, x, &diff) {
        None => None,
        Some(o) => {
            proof {
                lemma_advanced_twice(old(ctx)@.state, 68, 64);
                assert(col_vals(o) =~= Seq::new(32, |i: int| rows_of(o)[i][0]));
            }
            Some(o)
        },
    }
}

} // verus!
