//! Multiplication, exponentiation and reduction modulo 65521 of 32-share
//! integers, built from outer products, table lookups and the adders.

use vstd::prelude::*;
use vstd::arithmetic::power2::{lemma2_to64, pow2};
use vstd::arithmetic::div_mod::{lemma_mul_mod_noop_general, lemma_mul_mod_noop_left};
use crate::context::{advanced, is_gen, lemma_advanced_twice, lemma_advanced_zero, reveal_step, cm_entries, OneHotContext, Party};
use crate::gf256_shares::col_vals;
use crate::integer::{bit32, from_u32, lemma_bits32_eq, pow32, pow32_spec, to_u32, MOD_P};
use crate::integer_gadgets::{and_each, lemma_and_each_none, add_spec, integer_add, integer_add_full, integer_sub, sub_if_greater, sub_if_greater_spec, sub_prefix, sub_spec, sub_stages};
use crate::label::{lemma_xor_zero, lsb, sel};
use crate::one_hot_ops::{outer_product, outer_state, outer_step, unary_outer_product, unary_state, unary_step};
use crate::share::{OneHotState, Share, Table};
use crate::share_matrix::ShareMatrix;
use crate::unary::{hash_of, is_hash, nonce_after, outer_mid_nonce, vals};

verus! {

/// The shares of the bits of the word `v` (least significant first).
pub open spec fn word_shares(p: Party, v: u32) -> Seq<u128> {
    Seq::new(32, |i: int| sel(bit32(v, i), p.state.delta))
}

/// Bit `i` of `w` is the colour of `v[i]`, for `i < 32`.
pub open spec fn is_colors_word(w: u32, v: Seq<u128>) -> bool {
    forall|i: int| 0 <= i < 32 ==> #[trigger] bit32(w, i) == lsb(v[i])
}

/// The word whose bit `i` is the colour of `v[i]`.
pub open spec fn colors_word(v: Seq<u128>) -> u32 {
    choose|w: u32| #[trigger] is_colors_word(w, v)
}

/// A word whose bits are the colours of `v` is `colors_word(v)`.
pub(crate) proof fn lemma_colors_word(v: Seq<u128>, w: u32)
    requires
        forall|i: int| 0 <= i < 32 ==> #[trigger] bit32(w, i) == lsb(v[i]),
    ensures
        colors_word(v) == w,
{
    assert(is_colors_word(w, v));
    let c = colors_word(v);
    assert(is_colors_word(c, v));
    assert forall|i: int| 0 <= i < 32 implies #[trigger] bit32(c, i) == bit32(w, i) by {}
    lemma_bits32_eq(c, w);
}

/// The reduction table: row `i` is `i * 2^shift mod 65521`.
#[derive(Clone, Copy, Debug)]
pub struct ModpTable {
    pub shift: usize,
}

impl Table for ModpTable {
    open spec fn spec_row(&self, index: usize) -> usize {
        ((index * pow2(self.shift as nat)) % (MOD_P as int)) as usize
    }

    fn row(&self, index: usize) -> (r: usize) {
        let p: u64 = MOD_P as u64;
        let mut t: u64 = 1;
        let mut k: usize = 0;
        proof {
            lemma2_to64();
        }
        while k < self.shift
            invariant
                k <= self.shift,
                p == 65521,
                t == pow2(k as nat) % 65521,
            decreases self.shift - k,
        {
            proof {
                vstd::arithmetic::power2::lemma_pow2_unfold((k + 1) as nat);
                lemma_mul_mod_noop_left(pow2(k as nat) as int, 2, 65521);
            }
            t = (t * 2) % p;
            k = k + 1;
        }
        let a: u64 = (index % (MOD_P as usize)) as u64;
        proof {
            lemma_mul_mod_noop_general(index as int, pow2(self.shift as nat) as int, 65521);
            assert(a * t < 65521 * 65521) by (nonlinear_arith)
                requires
                    a < 65521,
                    t < 65521,
            ;
        }
        ((a * t) % p) as usize
    }
}

/// The first `k` stages of the shift-and-add product of an `n`-share
/// outer product `xy` (entry `(i, j)` a share of `x[i] * y[j]`): stage
/// `i` doubles the sum so far and adds `x[n - 1 - i]` times the low
/// `i + 1` bits of `y`, giving an `(i + 1)`-share vector.
pub open spec fn mul_prefix(p: Party, hf: spec_fn(u128, u64) -> u128, xy: spec_fn(int, int) -> u128, n: nat, k: nat) -> Option<
    (Party, Seq<u128>),
>
    decreases k,
{
    if k <= 1 {
        Some((p, seq![xy(n - 1, 0)]))
    } else {
        match mul_prefix(p, hf, xy, n, (k - 1) as nat) {
            None => None,
            Some((q, sum)) => {
                let i = k - 1;
                add_spec(q, hf, k, seq![0u128] + sum, Seq::new(k, |j: int| xy(n - i - 1, j)))
            },
        }
    }
}

/// The product of two `n`-share vectors modulo `2^n`.
#[verifier::opaque]
pub open spec fn mul_spec(p: Party, hf: spec_fn(u128, u64) -> u128, x: Seq<u128>, y: Seq<u128>) -> Option<(Party, Seq<u128>)> {
    match outer_step(p, hf, x, y) {
        None => None,
        Some((q, xy)) => mul_prefix(q, hf, xy, x.len(), x.len()),
    }
}

/// Once the product fails it stays failed.
proof fn lemma_mul_prefix_none(p: Party, hf: spec_fn(u128, u64) -> u128, xy: spec_fn(int, int) -> u128, n: nat, i: nat, j: nat)
    requires
        1 <= i <= j,
        mul_prefix(p, hf, xy, n, i) is None,
    ensures
        mul_prefix(p, hf, xy, n, j) is None,
    decreases j,
{
    if i < j {
        lemma_mul_prefix_none(p, hf, xy, n, i, (j - 1) as nat);
    }
}

/// Multiply two column vectors of `n` shares (the product modulo `2^n`).
#[verifier::rlimit(40)]
pub fn integer_multiply<F: Fn(u128, u64) -> u128>(
    ctx: &mut OneHotContext,
    h: &F,
    x: &ShareMatrix,
    y: &ShareMatrix,
) -> (r: Option<ShareMatrix>)
    requires
        is_hash(*h),
        x.wf(),
        y.wf(),
        x.ncols() == 1,
        y.ncols() == 1,
        x.nrows() == y.nrows(),
        0 < x.nrows() < 64,
        x.nrows() < usize::BITS,
        nonce_after(old(ctx)@.state.nonce, x.nrows()) + pow2(x.nrows()) * x.nrows() <= u64::MAX,
        nonce_after(outer_mid_nonce(old(ctx)@.state.nonce, x.nrows(), x.nrows()), x.nrows()) + pow2(x.nrows())
            * x.nrows() <= u64::MAX,
    ensures
        match r {
            Some(o) => {
                &&& o.wf()
                &&& o.nrows() == x.nrows()
                &&& o.ncols() == 1
                &&& mul_spec(old(ctx)@, hash_of(*h), col_vals(*x), col_vals(*y)) == Some((final(ctx)@, col_vals(o)))
                &&& final(ctx)@.state == advanced(
                    outer_state(old(ctx)@.state, x.nrows(), x.nrows()),
                    (x.nrows() * (x.nrows() - 1)) as nat,
                )
            },
            None => mul_spec(old(ctx)@, hash_of(*h), col_vals(*x), col_vals(*y)) is None,
        },
{
    reveal(mul_spec);
    let ghost hf = hash_of(*h);
    let n = x.rows();
    let xs = x.as_slice();
    let ys = y.as_slice();
    proof {
        assert(vals(xs@) =~= col_vals(*x));
        assert(vals(ys@) =~= col_vals(*y));
    }
    let xy = match outer_product(ctx, h, xs, ys) {
        None => {
            return None;
        },
        Some(m) => m,
    };
    let ghost q = ctx@;
    let ghost cells = match outer_step(old(ctx)@, hf, col_vals(*x), col_vals(*y)) {
        Some((_, c)) => c,
        None => |a: int, b: int| 0u128,
    };
    assert(outer_step(old(ctx)@, hf, col_vals(*x), col_vals(*y)) == Some((q, cells)));
    let mut sum = ShareMatrix::vector(1);
    sum.set_at(0, xy.get(n - 1, 0));
    proof {
        assert(col_vals(sum) =~= seq![cells(n - 1, 0)]);
        lemma_advanced_zero(q.state);
    }
    let mut i: usize = 1;
    while i < n
        invariant
            is_hash(*h),
            hf == hash_of(*h),
            1 <= i <= n,
            n < 64,
            n == x.nrows(),
            outer_step(old(ctx)@, hf, col_vals(*x), col_vals(*y)) == Some((q, cells)),
            xy.wf(),
            xy.nrows() == n,
            xy.ncols() == n,
            forall|a: int, b: int| 0 <= a < n && 0 <= b < n ==> #[trigger] xy.entry(a, b) == cells(a, b),
            sum.wf(),
            sum.nrows() == i,
            sum.ncols() == 1,
            mul_prefix(q, hf, cells, n as nat, i as nat) == Some((ctx@, col_vals(sum))),
            ctx@.state == advanced(q.state, (i * (i - 1)) as nat),
        decreases n - i,
    {
        let mut shifted = ShareMatrix::vector(i + 1);
        let mut j: usize = 0;
        while j < i
            invariant
                j <= i,
                sum.wf(),
                sum.nrows() == i,
                sum.ncols() == 1,
                shifted.wf(),
                shifted.nrows() == i + 1,
                shifted.ncols() == 1,
                shifted.entry(0, 0) == 0,
                forall|k: int| 1 <= k <= j ==> #[trigger] shifted.entry(k, 0) == sum.entry(k - 1, 0),
                forall|k: int| j < k <= i ==> #[trigger] shifted.entry(k, 0) == 0,
            decreases i - j,
        {
            shifted.set_at(j + 1, sum.at(j));
            j = j + 1;
        }
        let mut row_vec = ShareMatrix::vector(i + 1);
        let mut j: usize = 0;
        while j <= i
            invariant
                j <= i + 1,
                i < n,
                xy.wf(),
                xy.nrows() == n,
                xy.ncols() == n,
                row_vec.wf(),
                row_vec.nrows() == i + 1,
                row_vec.ncols() == 1,
                forall|k: int| 0 <= k < j ==> #[trigger] row_vec.entry(k, 0) == xy.entry(n - i - 1, k),
            decreases i + 1 - j,
        {
            row_vec.set_at(j, xy.get(n - i - 1, j));
            j = j + 1;
        }
        proof {
            assert(col_vals(shifted) =~= seq![0u128] + col_vals(sum));
            assert(col_vals(row_vec) =~= Seq::new((i + 1) as nat, |k: int| cells(n - i - 1, k)));
        }
        match integer_add(ctx, h, i + 1, &shifted, &row_vec) {
            None => {
                proof {
                    reveal(mul_spec);
                    assert(mul_prefix(q, hf, cells, n as nat, (i + 1) as nat) is None);
                    lemma_mul_prefix_none(q, hf, cells, n as nat, (i + 1) as nat, n as nat);
                }
                return None;
            },
            Some(s) => {
                proof {
                    lemma_advanced_twice(q.state, (i * (i - 1)) as nat, (2 * i) as nat);
                    assert(i * (i - 1) + 2 * i == (i + 1) * i) by (nonlinear_arith);
                }
                sum = s;
            },
        }
        i = i + 1;
    }
    Some(sum)
}

/// After the masked input is revealed: the low 16 shares, plus the table
/// lookups of bits 16..24 and 24..32 (each `bits * 2^shift mod 65521`).
#[verifier::opaque]
pub open spec fn mod_p_lookup(p: Party, hf: spec_fn(u128, u64) -> u128, masked: Seq<u128>) -> Option<(Party, Seq<u128>)> {
    let one = seq![p.state.delta];
    let low = Seq::new(32, |i: int| if i < 16 { masked[i] } else { 0u128 });
    match unary_step(p, hf, ModpTable { shift: 16 }, masked.subrange(16, 24), one) {
        None => None,
        Some((p1, midc)) => match unary_step(p1, hf, ModpTable { shift: 24 }, masked.subrange(24, 32), one) {
            None => None,
            Some((p2, highc)) => match add_spec(p2, hf, 32, low, Seq::new(32, |k: int| midc(k, 0))) {
                None => None,
                Some((p3, s1)) => add_spec(p3, hf, 32, s1, Seq::new(32, |k: int| highc(k, 0))),
            },
        },
    }
}

/// The residue `p - 2^32 mod p` that undoes a wrap of the masked
/// subtraction modulo 65521.
pub open spec fn wrap_fix() -> u32 {
    65296u32
}

/// The shares of `b * c` for a share `b` of a bit and a public word `c`:
/// `b` where a bit of `c` is set, zero elsewhere.
pub open spec fn scaled_shares(b: u128, c: u32) -> Seq<u128> {
    Seq::new(32, |i: int| if (c >> (i as u32)) & 1u32 == 1u32 { b } else { 0u128 })
}

/// The last stage of the reduction: add the residue `r` of the mask and,
/// where the masked subtraction wrapped (the share `borrow`), the residue
/// that undoes the wrap; then subtract 4p, 2p and p where the sum exceeds
/// them.
#[verifier::opaque]
pub open spec fn mod_p_reduce(p: Party, hf: spec_fn(u128, u64) -> u128, sum: Seq<u128>, r: u32, borrow: u128) -> Option<
    (Party, Seq<u128>),
> {
    match add_spec(p, hf, 32, sum, word_shares(p, r)) {
        None => None,
        Some((p3, s3)) => match add_spec(p3, hf, 32, s3, scaled_shares(borrow, wrap_fix())) {
            None => None,
            Some((p4, s4)) => mod_p_subtract(p4, hf, s4),
        },
    }
}

/// Subtract 4p, 2p and p, each where the value exceeds it.
pub open spec fn mod_p_subtract(p: Party, hf: spec_fn(u128, u64) -> u128, s: Seq<u128>) -> Option<(Party, Seq<u128>)> {
    match sub_if_greater_spec(p, hf, s, word_shares(p, 262084u32)) {
        None => None,
        Some((p5, s5)) => match sub_if_greater_spec(p5, hf, s5, word_shares(p5, 131042u32)) {
            None => None,
            Some((p6, s6)) => sub_if_greater_spec(p6, hf, s6, word_shares(p6, 65521u32)),
        },
    }
}

/// The random mask of the reduction: the generator's shares of
/// `mask_bits`, the evaluator's zero shares.
pub open spec fn mod_p_mask(p: Party, mask_bits: Seq<bool>) -> Seq<u128> {
    Seq::new(32, |i: int| if is_gen(p) { sel(mask_bits[i], p.state.delta) } else { 0u128 })
}

/// Reduction modulo 65521 of a 32-share vector: mask it with random bits
/// (`mask_bits`, the generator's samples), reveal the masked value, look
/// up its chunks, add back the mask's residue and the correction of a
/// wrapped subtraction, then subtract 4p, 2p and p where the sum exceeds
/// them.
pub open spec fn mod_p_spec(p: Party, hf: spec_fn(u128, u64) -> u128, x: Seq<u128>, mask_bits: Seq<bool>) -> Option<
    (Party, Seq<u128>),
> {
    let mask = mod_p_mask(p, mask_bits);
    match mod_p_open_borrow(p, hf, x, mask) {
        None => None,
        Some((p2, masked, borrow)) => match mod_p_lookup(p2, hf, masked) {
            None => None,
            Some((p3, sum)) => mod_p_reduce(p3, hf, sum, (colors_word(mask) % 65521) as u32, borrow),
        },
    }
}

/// The opening stage of the reduction: subtract the mask over all 32
/// stages, keeping the final borrow (whether the subtraction wrapped) as
/// a share, and reveal the difference.
#[verifier::opaque]
pub open spec fn mod_p_open_borrow(p: Party, hf: spec_fn(u128, u64) -> u128, x: Seq<u128>, mask: Seq<u128>) -> Option<
    (Party, Seq<u128>, u128),
> {
    match sub_prefix(p, hf, x, mask, 32) {
        None => None,
        Some((p1, diff, borrow)) => match reveal_step(p1, diff) {
            None => None,
            Some((p2, masked)) => Some((p2, masked, borrow)),
        },
    }
}

/// The opening stage of the reduction: subtract the mask and reveal.
#[verifier::opaque]
pub open spec fn mod_p_open(p: Party, hf: spec_fn(u128, u64) -> u128, x: Seq<u128>, mask: Seq<u128>) -> Option<(Party, Seq<u128>)> {
    match sub_spec(p, hf, 32, x, mask) {
        None => None,
        Some((p1, diff)) => reveal_step(p1, diff),
    }
}

/// The column-major entries of a column vector are its entries.
proof fn lemma_cm_entries_column(m: ShareMatrix)
    requires
        m.ncols() == 1,
    ensures
        cm_entries(m) == col_vals(m),
{
    assert forall|k: int| 0 <= k < m.nrows() implies #[trigger] cm_entries(m)[k] == col_vals(m)[k] by {
        let r = m.nrows() as int;
        assert(k % r == k && k / r == 0) by (nonlinear_arith)
            requires
                0 <= k < r,
        ;
    }
    assert(cm_entries(m) =~= col_vals(m));
}

/// The shares `start .. start + len` of a column vector.
fn sub_vector(m: &ShareMatrix, start: usize, len: usize) -> (r: ShareMatrix)
    requires
        m.wf(),
        m.ncols() == 1,
        start + len <= m.nrows(),
    ensures
        r.wf(),
        r.nrows() == len,
        r.ncols() == 1,
        col_vals(r) == col_vals(*m).subrange(start as int, start + len),
{
    let mut r = ShareMatrix::vector(len);
    let mut i: usize = 0;
    proof {
        m.lemma_size();
    }
    while i < len
        invariant
            m.wf(),
            m.ncols() == 1,
            start + len <= m.nrows(),
            start + len <= usize::MAX,
            i <= len,
            r.wf(),
            r.nrows() == len,
            r.ncols() == 1,
            forall|k: int| 0 <= k < i ==> #[trigger] r.entry(k, 0) == m.entry(start + k, 0),
        decreases len - i,
    {
        r.set_at(i, m.at(start + i));
        i = i + 1;
    }
    assert(col_vals(r) =~= col_vals(*m).subrange(start as int, start + len));
    r
}

/// The first `keep` shares of a 32-share vector, the rest zero.
fn low_part(m: &ShareMatrix, keep: usize) -> (r: ShareMatrix)
    requires
        m.wf(),
        m.ncols() == 1,
        m.nrows() == 32,
        keep <= 32,
    ensures
        r.wf(),
        r.nrows() == 32,
        r.ncols() == 1,
        col_vals(r) == Seq::new(32, |i: int| if i < keep { col_vals(*m)[i] } else { 0u128 }),
{
    let mut r = ShareMatrix::vector(32);
    let mut i: usize = 0;
    while i < keep
        invariant
            m.wf(),
            m.ncols() == 1,
            m.nrows() == 32,
            i <= keep <= 32,
            r.wf(),
            r.nrows() == 32,
            r.ncols() == 1,
            forall|k: int| 0 <= k < 32 ==> #[trigger] r.entry(k, 0) == if k < i { m.entry(k, 0) } else { 0u128 },
        decreases keep - i,
    {
        r.set_at(i, m.at(i));
        i = i + 1;
    }
    assert(col_vals(r) =~= Seq::new(32, |i: int| if i < keep { col_vals(*m)[i] } else { 0u128 }));
    r
}

/// The party's shares of the bits of the word `v`.
fn word_constant(ctx: &OneHotContext, v: u32) -> (r: ShareMatrix)
    ensures
        r.wf(),
        r.nrows() == 32,
        r.ncols() == 1,
        col_vals(r) == word_shares(ctx@, v),
{
    let r = ShareMatrix::constant(&ctx.state, &from_u32(v));
    assert(col_vals(r) =~= word_shares(ctx@, v));
    r
}

/// The word of the colours of a 32-share vector.
fn colors_of(m: &ShareMatrix) -> (w: u32)
    requires
        m.wf(),
        m.ncols() == 1,
        m.nrows() == 32,
    ensures
        w == colors_word(col_vals(*m)),
{
    let w = to_u32(&m.colors());
    proof {
        lemma_colors_word(col_vals(*m), w);
    }
    w
}

/// One table lookup of shares `start .. start + size` of `masked`, times
/// the constant share of 1, into a fresh 32-share vector.
fn lookup_chunk<T: Table, F: Fn(u128, u64) -> u128>(
    ctx: &mut OneHotContext,
    h: &F,
    table: &T,
    masked: &ShareMatrix,
    start: usize,
    size: usize,
) -> (r: Option<ShareMatrix>)
    requires
        is_hash(*h),
        masked.wf(),
        masked.ncols() == 1,
        masked.nrows() == 32,
        0 < size < usize::BITS,
        start + size <= 32,
        nonce_after(old(ctx)@.state.nonce, size as nat) + pow2(size as nat) <= u64::MAX,
    ensures
        match unary_step(
            old(ctx)@,
            hash_of(*h),
            *table,
            col_vals(*masked).subrange(start as int, start + size),
            seq![old(ctx)@.state.delta],
        ) {
            Some((q, cells)) => r matches Some(o) && {
                &&& o.wf()
                &&& o.nrows() == 32
                &&& o.ncols() == 1
                &&& final(ctx)@ == q
                &&& col_vals(o) == Seq::new(32, |k: int| cells(k, 0))
                &&& q.state.nonce == nonce_after(old(ctx)@.state.nonce, size as nat) + pow2(size as nat)
                &&& q.state.role == old(ctx)@.state.role
                &&& q.state.delta == old(ctx)@.state.delta
            },
            None => r is None,
        },
{
    reveal(unary_step);
    let chunk = sub_vector(masked, start, size);
    let mut one = ShareMatrix::vector(1);
    one.set_at(0, ctx.bit(true));
    let mut out = ShareMatrix::vector(32);
    let cs = chunk.as_slice();
    let os = one.as_slice();
    proof {
        assert(vals(cs@) =~= col_vals(chunk));
        assert(vals(os@) =~= seq![old(ctx)@.state.delta]);
        assert(cs@.len() == size);
        assert(os@.len() == 1);
        assert(pow2(size as nat) * 1 == pow2(size as nat)) by (nonlinear_arith);
    }
    let ok = unary_outer_product(ctx, h, table, cs, os, &mut out);
    if ok {
        proof {
            let cells = match unary_step(old(ctx)@, hash_of(*h), *table, col_vals(chunk), seq![old(ctx)@.state.delta]) {
                Some((_, c)) => c,
                None => |a: int, b: int| 0u128,
            };
            assert forall|k: int| 0 <= k < 32 implies #[trigger] col_vals(out)[k] == cells(k, 0) by {
                lemma_xor_zero(cells(k, 0));
            }
            assert(col_vals(out) =~= Seq::new(32, |k: int| cells(k, 0)));
        }
        Some(out)
    } else {
        None
    }
}

/// The lookup stage of the reduction (see `mod_p_lookup`).
#[verifier::spinoff_prover]
fn lookup_sum<F: Fn(u128, u64) -> u128>(ctx: &mut OneHotContext, h: &F, masked: &ShareMatrix) -> (r: Option<ShareMatrix>)
    requires
        is_hash(*h),
        masked.wf(),
        masked.ncols() == 1,
        masked.nrows() == 32,
        old(ctx)@.state.nonce + 528 <= u64::MAX,
    ensures
        match r {
            Some(o) => {
                &&& o.wf()
                &&& o.nrows() == 32
                &&& o.ncols() == 1
                &&& mod_p_lookup(old(ctx)@, hash_of(*h), col_vals(*masked)) == Some((final(ctx)@, col_vals(o)))
            },
            None => mod_p_lookup(old(ctx)@, hash_of(*h), col_vals(*masked)) is None,
        },
{
    reveal(mod_p_lookup);
    let low = low_part(masked, 16);
    proof {
        lemma2_to64();
    }
    let mid = match lookup_chunk(ctx, h, &ModpTable { shift: 16 }, masked, 16, 8) {
        None => {
            return None;
        },
        Some(v) => v,
    };
    proof {
        lemma2_to64();
        assert(ctx@.state.nonce == old(ctx)@.state.nonce + 264);
        assert(ctx@.state.delta == old(ctx)@.state.delta);
    }
    let high = match lookup_chunk(ctx, h, &ModpTable { shift: 24 }, masked, 24, 8) {
        None => {
            return None;
        },
        Some(v) => v,
    };
    let s1 = match integer_add_full(ctx, h, &low, &mid) {
        None => {
            return None;
        },
        Some(v) => v,
    };
    integer_add_full(ctx, h, &s1, &high)
}

/// The shares of `b * c` for a share `b` of a bit and a public word `c`
/// (see `scaled_shares`).
fn scaled_word(b: Share, c: u32) -> (r: ShareMatrix)
    ensures
        r.wf(),
        r.nrows() == 32,
        r.ncols() == 1,
        col_vals(r) == scaled_shares(b.0, c),
{
    let mut r = ShareMatrix::vector(32);
    let mut i: u32 = 0;
    while i < 32
        invariant
            i <= 32,
            r.wf(),
            r.nrows() == 32,
            r.ncols() == 1,
            forall|k: int| 0 <= k < 32 ==> #[trigger] r.entry(k, 0) == if k < i { scaled_shares(b.0, c)[k] } else { 0u128 },
        decreases 32 - i,
    {
        if (c >> i) & 1u32 == 1u32 {
            r.set_at(i as usize, b);
        }
        i = i + 1;
    }
    assert(col_vals(r) =~= scaled_shares(b.0, c));
    r
}

/// The last stage of the reduction (see `mod_p_reduce`).
#[verifier::spinoff_prover]
fn reduce_steps<F: Fn(u128, u64) -> u128>(
    ctx: &mut OneHotContext,
    h: &F,
    sum: &ShareMatrix,
    residue: u32,
    borrow: Share,
) -> (r: Option<ShareMatrix>)
    requires
        is_hash(*h),
        sum.wf(),
        sum.ncols() == 1,
        sum.nrows() == 32,
    ensures
        match r {
            Some(o) => {
                &&& o.wf()
                &&& o.nrows() == 32
                &&& o.ncols() == 1
                &&& mod_p_reduce(old(ctx)@, hash_of(*h), col_vals(*sum), residue, borrow.0) == Some((final(ctx)@, col_vals(o)))
            },
            None => mod_p_reduce(old(ctx)@, hash_of(*h), col_vals(*sum), residue, borrow.0) is None,
        },
{
    reveal(mod_p_reduce);
    let rc = word_constant(ctx, residue);
    let s3 = match integer_add_full(ctx, h, sum, &rc) {
        None => {
            return None;
        },
        Some(v) => v,
    };
    let fix = scaled_word(borrow, MOD_P - 225);
    let s4 = match integer_add_full(ctx, h, &s3, &fix) {
        None => {
            return None;
        },
        Some(v) => v,
    };
    let c4 = word_constant(ctx, MOD_P * 4);
    let s5 = match sub_if_greater(ctx, h, &s4, &c4) {
        None => {
            return None;
        },
        Some(v) => v,
    };
    let c2 = word_constant(ctx, MOD_P * 2);
    let s6 = match sub_if_greater(ctx, h, &s5, &c2) {
        None => {
            return None;
        },
        Some(v) => v,
    };
    let c1 = word_constant(ctx, MOD_P);
    sub_if_greater(ctx, h, &s6, &c1)
}

/// The opening stage of the reduction (see `mod_p_open_borrow`).
#[verifier::spinoff_prover]
fn open_masked_borrow<F: Fn(u128, u64) -> u128>(
    ctx: &mut OneHotContext,
    h: &F,
    x: &ShareMatrix,
    mask: &ShareMatrix,
) -> (r: Option<(ShareMatrix, Share)>)
    requires
        is_hash(*h),
        x.wf(),
        x.nrows() == 32,
        x.ncols() == 1,
        mask.wf(),
        mask.nrows() == 32,
        mask.ncols() == 1,
    ensures
        match r {
            Some((o, b)) => {
                &&& o.wf()
                &&& o.nrows() == 32
                &&& o.ncols() == 1
                &&& mod_p_open_borrow(old(ctx)@, hash_of(*h), col_vals(*x), col_vals(*mask)) == Some(
                    (final(ctx)@, col_vals(o), b.0),
                )
                &&& final(ctx)@.state == advanced(old(ctx)@.state, 64)
            },
            None => mod_p_open_borrow(old(ctx)@, hash_of(*h), col_vals(*x), col_vals(*mask)) is None,
        },
{
    reveal(mod_p_open_borrow);
    let (mut masked, borrow) = match sub_stages(ctx, h, x, mask, 32) {
        None => {
            return None;
        },
        Some(v) => v,
    };
    proof {
        assert(Seq::new(32, |k: int| masked.entry(k, 0)) =~= col_vals(masked));
        lemma_cm_entries_column(masked);
    }
    if !masked.reveal_all(ctx) {
        return None;
    }
    proof {
        lemma_cm_entries_column(masked);
    }
    Some((masked, borrow))
}

/// The opening stage of the reduction (see `mod_p_open`).
#[verifier::spinoff_prover]
fn open_masked<F: Fn(u128, u64) -> u128>(
    ctx: &mut OneHotContext,
    h: &F,
    x: &ShareMatrix,
    mask: &ShareMatrix,
) -> (r: Option<ShareMatrix>)
    requires
        is_hash(*h),
        x.wf(),
        x.nrows() == 32,
        x.ncols() == 1,
        mask.wf(),
        mask.nrows() == 32,
        mask.ncols() == 1,
    ensures
        match r {
            Some(o) => {
                &&& o.wf()
                &&& o.nrows() == 32
                &&& o.ncols() == 1
                &&& mod_p_open(old(ctx)@, hash_of(*h), col_vals(*x), col_vals(*mask)) == Some((final(ctx)@, col_vals(o)))
                &&& final(ctx)@.state == advanced(old(ctx)@.state, 62)
            },
            None => mod_p_open(old(ctx)@, hash_of(*h), col_vals(*x), col_vals(*mask)) is None,
        },
{
    reveal(mod_p_open);
    let mut masked = match integer_sub(ctx, h, x, mask) {
        None => {
            return None;
        },
        Some(m) => m,
    };
    proof {
        lemma_cm_entries_column(masked);
    }
    if !masked.reveal_all(ctx) {
        return None;
    }
    proof {
        lemma_cm_entries_column(masked);
    }
    Some(masked)
}

/// Reduce a 32-share vector modulo 65521 (see `mod_p_spec`); `mask_bits`
/// are the generator's 32 random mask bits.
#[verifier::spinoff_prover]
pub fn mod_p<F: Fn(u128, u64) -> u128>(
    ctx: &mut OneHotContext,
    h: &F,
    x: &ShareMatrix,
    mask_bits: &[bool],
) -> (r: Option<ShareMatrix>)
    requires
        is_hash(*h),
        x.wf(),
        x.nrows() == 32,
        x.ncols() == 1,
        mask_bits@.len() == 32,
        old(ctx)@.state.nonce + 592 <= u64::MAX,
    ensures
        match r {
            Some(o) => {
                &&& o.wf()
                &&& o.nrows() == 32
                &&& o.ncols() == 1
                &&& mod_p_spec(old(ctx)@, hash_of(*h), col_vals(*x), mask_bits@) == Some((final(ctx)@, col_vals(o)))
            },
            None => mod_p_spec(old(ctx)@, hash_of(*h), col_vals(*x), mask_bits@) is None,
        },
{
    let ghost p0 = old(ctx)@;
    let mask = ShareMatrix::uniform(&ctx.state, 32, 1, mask_bits);
    proof {
        assert(col_vals(mask) =~= mod_p_mask(p0, mask_bits@));
    }
    let (masked, borrow) = match open_masked_borrow(ctx, h, x, &mask) {
        None => {
            return None;
        },
        Some(m) => m,
    };
    let sum = match lookup_sum(ctx, h, &masked) {
        None => {
            return None;
        },
        Some(v) => v,
    };
    let mw = colors_of(&mask);
    reduce_steps(ctx, h, &sum, mw % MOD_P, borrow)
}

/// AND of each share of a column vector with `s` (see `and_each`).
fn and_column<F: Fn(u128, u64) -> u128>(ctx: &mut OneHotContext, h: &F, v: &ShareMatrix, s: Share) -> (r: Option<ShareMatrix>)
    requires
        is_hash(*h),
        v.wf(),
        v.ncols() == 1,
    ensures
        match r {
            Some(o) => {
                &&& o.wf()
                &&& o.nrows() == v.nrows()
                &&& o.ncols() == 1
                &&& and_each(old(ctx)@, hash_of(*h), col_vals(*v), s.0) == Some((final(ctx)@, col_vals(o)))
                &&& final(ctx)@.state == advanced(old(ctx)@.state, 2 * v.nrows())
            },
            None => and_each(old(ctx)@, hash_of(*h), col_vals(*v), s.0) is None,
        },
{
    let ghost hf = hash_of(*h);
    let n = v.rows();
    let mut out = ShareMatrix::vector(n);
    let mut i: usize = 0;
    proof {
        lemma_advanced_zero(old(ctx)@.state);
        assert(col_vals(*v).take(0) =~= Seq::<u128>::empty());
    }
    while i < n
        invariant
            is_hash(*h),
            hf == hash_of(*h),
            v.wf(),
            v.ncols() == 1,
            n == v.nrows(),
            i <= n,
            out.wf(),
            out.nrows() == n,
            out.ncols() == 1,
            and_each(old(ctx)@, hf, col_vals(*v).take(i as int), s.0) == Some((ctx@, col_vals(out).take(i as int))),
            ctx@.state == advanced(old(ctx)@.state, (2 * i) as nat),
        decreases n - i,
    {
        let ghost before = col_vals(out).take(i as int);
        let vi = v.at(i);
        proof {
            assert(col_vals(*v).take(i + 1).drop_last() =~= col_vals(*v).take(i as int));
        }
        match ctx.and_gate(h, vi, s) {
            None => {
                proof {
                    lemma_and_each_none(old(ctx)@, hf, col_vals(*v), s.0, (i + 1) as nat);
                }
                return None;
            },
            Some(t) => {
                out.set_at(i, t);
                proof {
                    assert(col_vals(out).take(i + 1) =~= before.push(t.0));
                    lemma_advanced_twice(old(ctx)@.state, (2 * i) as nat, 2);
                }
            },
        }
        i = i + 1;
    }
    proof {
        assert(col_vals(*v).take(n as int) =~= col_vals(*v));
        assert(col_vals(out).take(n as int) =~= col_vals(out));
    }
    Some(out)
}

/// The first `k` stages of the naive exponentiation: the shares of
/// `base` masked by bit 0 of `y`, then for each further bit `i` the
/// product with the shares of `base * 2^i` masked by bit `i`.
pub open spec fn naive_prefix(p: Party, hf: spec_fn(u128, u64) -> u128, base: u32, y: Seq<u128>, k: nat) -> Option<
    (Party, Seq<u128>),
>
    decreases k,
{
    if k <= 1 {
        and_each(p, hf, word_shares(p, base), y[0])
    } else {
        match naive_prefix(p, hf, base, y, (k - 1) as nat) {
            None => None,
            Some((q, out)) => naive_step(q, hf, base, (k - 1) as u32, out, y[k - 1]),
        }
    }
}

/// One stage of the naive exponentiation: multiply by the shares of
/// `base * 2^i` masked by `yi`.
pub open spec fn naive_step(q: Party, hf: spec_fn(u128, u64) -> u128, base: u32, i: u32, out: Seq<u128>, yi: u128) -> Option<
    (Party, Seq<u128>),
> {
    match and_each(q, hf, word_shares(q, base.wrapping_mul(1u32 << i)), yi) {
        None => None,
        Some((r, mul)) => mul_spec(r, hf, out, mul),
    }
}

/// One stage of the naive exponentiation (see `naive_step`).
#[verifier::spinoff_prover]
fn naive_stage<F: Fn(u128, u64) -> u128>(
    ctx: &mut OneHotContext,
    h: &F,
    base: u32,
    i: u32,
    out: &ShareMatrix,
    yi: Share,
) -> (r: Option<ShareMatrix>)
    requires
        is_hash(*h),
        out.wf(),
        out.nrows() == 32,
        out.ncols() == 1,
        i < 32,
        32 < usize::BITS,
        old(ctx)@.state.nonce < 0x1800_0000_0000_0000,
    ensures
        match r {
            Some(o) => {
                &&& o.wf()
                &&& o.nrows() == 32
                &&& o.ncols() == 1
                &&& naive_step(old(ctx)@, hash_of(*h), base, i, col_vals(*out), yi.0) == Some((final(ctx)@, col_vals(o)))
                &&& final(ctx)@.state.nonce == old(ctx)@.state.nonce + 128 + 0x40_0000_0000 + 992
                &&& final(ctx)@.state.role == old(ctx)@.state.role
                &&& final(ctx)@.state.delta == old(ctx)@.state.delta
            },
            None => naive_step(old(ctx)@, hash_of(*h), base, i, col_vals(*out), yi.0) is None,
        },
{
    let c = word_constant(ctx, base.wrapping_mul(1u32 << i));
    let mul = match and_column(ctx, h, &c, yi) {
        None => {
            return None;
        },
        Some(v) => v,
    };
    proof {
        assert(ctx@.state.nonce == old(ctx)@.state.nonce + 64);
        lemma_mul32_nonce(ctx@.state);
    }
    integer_multiply(ctx, h, out, &mul)
}

/// Once the naive exponentiation fails it stays failed.
proof fn lemma_naive_prefix_none(p: Party, hf: spec_fn(u128, u64) -> u128, base: u32, y: Seq<u128>, i: nat, j: nat)
    requires
        1 <= i <= j,
        naive_prefix(p, hf, base, y, i) is None,
    ensures
        naive_prefix(p, hf, base, y, j) is None,
    decreases j,
{
    if i < j {
        lemma_naive_prefix_none(p, hf, base, y, i, (j - 1) as nat);
    }
}

/// The nonce after one product of 32-share vectors, from a small nonce.
proof fn lemma_mul32_nonce(st: OneHotState)
    requires
        st.nonce < 0x2000_0000_0000_0000,
    ensures
        nonce_after(st.nonce, 32) + pow2(32) * 32 <= u64::MAX,
        nonce_after(outer_mid_nonce(st.nonce, 32, 32), 32) + pow2(32) * 32 <= u64::MAX,
        advanced(outer_state(st, 32, 32), 992).nonce == st.nonce + 64 + 0x40_0000_0000 + 992,
        advanced(outer_state(st, 32, 32), 992).role == st.role,
        advanced(outer_state(st, 32, 32), 992).delta == st.delta,
{
    lemma2_to64();
}

/// `base^y` modulo `2^32` for a 32-share `y`, by one product per bit of
/// `y` (see `naive_prefix`).
#[verifier::spinoff_prover]
pub fn naive_exponent<F: Fn(u128, u64) -> u128>(ctx: &mut OneHotContext, h: &F, base: u32, y: &ShareMatrix) -> (r: Option<
    ShareMatrix,
>)
    requires
        is_hash(*h),
        y.wf(),
        y.nrows() == 32,
        y.ncols() == 1,
        32 < usize::BITS,
        old(ctx)@.state.nonce < 0x1000_0000_0000_0000,
    ensures
        match r {
            Some(o) => {
                &&& o.wf()
                &&& o.nrows() == 32
                &&& o.ncols() == 1
                &&& naive_prefix(old(ctx)@, hash_of(*h), base, col_vals(*y), 32) == Some((final(ctx)@, col_vals(o)))
            },
            None => naive_prefix(old(ctx)@, hash_of(*h), base, col_vals(*y), 32) is None,
        },
{
    let ghost hf = hash_of(*h);
    let ghost ys = col_vals(*y);
    let start = word_constant(ctx, base);
    let mut out = match and_column(ctx, h, &start, y.at(0)) {
        None => {
            proof {
                lemma_naive_prefix_none(old(ctx)@, hf, base, ys, 1, 32);
            }
            return None;
        },
        Some(v) => v,
    };
    proof {
        assert(ctx@.state.nonce == old(ctx)@.state.nonce + 64);
    }
    let mut i: u32 = 1;
    while i < 32
        invariant
            is_hash(*h),
            hf == hash_of(*h),
            y.wf(),
            y.nrows() == 32,
            y.ncols() == 1,
            ys == col_vals(*y),
            1 <= i <= 32,
            out.wf(),
            out.nrows() == 32,
            out.ncols() == 1,
            naive_prefix(old(ctx)@, hf, base, ys, i as nat) == Some((ctx@, col_vals(out))),
            old(ctx)@.state.nonce < 0x1000_0000_0000_0000,
            32 < usize::BITS,
            ctx@.state.nonce <= old(ctx)@.state.nonce + 64 + i * 0x80_0000_0000,
            ctx@.state.role == old(ctx)@.state.role,
            ctx@.state.delta == old(ctx)@.state.delta,
        decreases 32 - i,
    {
        out = match naive_stage(ctx, h, base, i, &out, y.at(i as usize)) {
            None => {
                proof {
                    lemma_naive_prefix_none(old(ctx)@, hf, base, ys, (i + 1) as nat, 32);
                }
                return None;
            },
            Some(v) => v,
        };
        i = i + 1;
    }
    Some(out)
}

/// The exponent of row `index` of an exponentiation table: the low 32
/// bits of `index` shifted left by `shift`.
pub open spec fn exp_index(index: usize, shift: usize) -> u32 {
    if shift < 32 {
        ((index as u64) << (shift as u64)) as u32
    } else {
        0
    }
}

/// The exponentiation table: row `i` is `base^(i << shift)` modulo `2^32`.
#[derive(Clone, Copy, Debug)]
pub struct ExpTable {
    pub base: u32,
    pub shift: usize,
}

impl Table for ExpTable {
    open spec fn spec_row(&self, index: usize) -> usize {
        pow32_spec(self.base, exp_index(index, self.shift)) as usize
    }

    fn row(&self, index: usize) -> (r: usize) {
        let e: u32 = if self.shift < 32 {
            ((index as u64) << (self.shift as u64)) as u32
        } else {
            0
        };
        pow32(self.base, e) as usize
    }
}

/// The lookup of shares `lo .. lo + size` of `masked` in the table of
/// `base` shifted by `lo`.
#[verifier::opaque]
pub open spec fn exp_chunk(q: Party, hf: spec_fn(u128, u64) -> u128, base: u32, masked: Seq<u128>, lo: nat, size: nat) -> Option<
    (Party, Seq<u128>),
> {
    match unary_step(q, hf, ExpTable { base, shift: lo as usize }, masked.subrange(lo as int, (lo + size) as int), seq![q.state.delta]) {
        None => None,
        Some((r, cells)) => Some((r, Seq::new(32, |k: int| cells(k, 0)))),
    }
}

/// The size of chunk `i` of width `c`: `c`, or what is left of 32.
pub open spec fn chunk_size(i: nat, c: nat) -> nat {
    if 32 - i * c < c {
        (32 - i * c) as nat
    } else {
        c
    }
}

/// The first `k` chunks of the exponentiation: the lookup of chunk 0,
/// then for each further chunk the product with its lookup.
pub open spec fn exp_prefix(p: Party, hf: spec_fn(u128, u64) -> u128, base: u32, c: nat, masked: Seq<u128>, k: nat) -> Option<
    (Party, Seq<u128>),
>
    decreases k,
{
    if k <= 1 {
        exp_chunk(p, hf, base, masked, 0, c)
    } else {
        match exp_prefix(p, hf, base, c, masked, (k - 1) as nat) {
            None => None,
            Some((q, res)) => match exp_chunk(q, hf, base, masked, ((k - 1) * c) as nat, chunk_size((k - 1) as nat, c)) {
                None => None,
                Some((r, m)) => mul_spec(r, hf, res, m),
            },
        }
    }
}

/// One-hot exponentiation `base^y` modulo `2^32` of a 32-share `y` with
/// chunks of `c` bits: mask `y`, reveal it, look up each chunk of the
/// masked value and multiply the lookups, then multiply by the shares of
/// `base` to the power of the mask.
pub open spec fn exponent_spec(
    p: Party,
    hf: spec_fn(u128, u64) -> u128,
    base: u32,
    y: Seq<u128>,
    c: nat,
    mask_bits: Seq<bool>,
) -> Option<(Party, Seq<u128>)> {
    let mask = mod_p_mask(p, mask_bits);
    match mod_p_open(p, hf, y, mask) {
        None => None,
        Some((p2, masked)) => match exp_prefix(p2, hf, base, c, masked, ((31 + c) / c) as nat) {
            None => None,
            Some((p3, res)) => mul_spec(p3, hf, res, word_shares(p3, pow32_spec(base, colors_word(mask)) as u32)),
        },
    }
}

/// Once the exponentiation fails it stays failed.
proof fn lemma_exp_prefix_none(p: Party, hf: spec_fn(u128, u64) -> u128, base: u32, c: nat, masked: Seq<u128>, i: nat, j: nat)
    requires
        1 <= i <= j,
        exp_prefix(p, hf, base, c, masked, i) is None,
    ensures
        exp_prefix(p, hf, base, c, masked, j) is None,
    decreases j,
{
    if i < j {
        lemma_exp_prefix_none(p, hf, base, c, masked, i, (j - 1) as nat);
    }
}

/// A chunk fits within 32 shares and its table stays below `2^32` rows.
pub(crate) proof fn lemma_chunk_bounds(i: nat, c: nat)
    requires
        1 <= c <= 32,
        i < (31 + c) / c,
    ensures
        i * c < 32,
        1 <= chunk_size(i, c) <= c,
        i * c + chunk_size(i, c) <= 32,
        pow2(chunk_size(i, c)) <= pow2(32),
        (31 + c) / c <= 32,
{
    assert(i * c < 32) by (nonlinear_arith)
        requires
            1 <= c,
            i < (31 + c) / c,
    ;
    assert((31 + c) / c <= 32) by (nonlinear_arith)
        requires
            1 <= c,
    ;
    if chunk_size(i, c) < 32 {
        vstd::arithmetic::power2::lemma_pow2_strictly_increases(chunk_size(i, c), 32);
    }
}

/// One chunk of the exponentiation and its product with the running
/// result (see `exp_prefix`).
#[verifier::spinoff_prover]
fn exp_stage<F: Fn(u128, u64) -> u128>(
    ctx: &mut OneHotContext,
    h: &F,
    base: u32,
    masked: &ShareMatrix,
    lo: usize,
    size: usize,
    res: &ShareMatrix,
) -> (r: Option<ShareMatrix>)
    requires
        is_hash(*h),
        masked.wf(),
        masked.ncols() == 1,
        masked.nrows() == 32,
        res.wf(),
        res.ncols() == 1,
        res.nrows() == 32,
        0 < size <= 32,
        size < usize::BITS,
        32 < usize::BITS,
        lo + size <= 32,
        old(ctx)@.state.nonce < 0x1800_0000_0000_0000,
    ensures
        match r {
            Some(o) => {
                &&& o.wf()
                &&& o.nrows() == 32
                &&& o.ncols() == 1
                &&& (match exp_chunk(old(ctx)@, hash_of(*h), base, col_vals(*masked), lo as nat, size as nat) {
                    Some((q, m)) => mul_spec(q, hash_of(*h), col_vals(*res), m) == Some((final(ctx)@, col_vals(o))),
                    None => false,
                })
                &&& final(ctx)@.state.nonce <= old(ctx)@.state.nonce + 0x80_0000_0000
                &&& final(ctx)@.state.role == old(ctx)@.state.role
                &&& final(ctx)@.state.delta == old(ctx)@.state.delta
            },
            None => match exp_chunk(old(ctx)@, hash_of(*h), base, col_vals(*masked), lo as nat, size as nat) {
                Some((q, m)) => mul_spec(q, hash_of(*h), col_vals(*res), m) is None,
                None => true,
            },
        },
{
    reveal(exp_chunk);
    proof {
        lemma2_to64();
        if size < 32 {
            vstd::arithmetic::power2::lemma_pow2_strictly_increases(size as nat, 32);
        }
    }
    let m = match lookup_chunk(ctx, h, &ExpTable { base, shift: lo }, masked, lo, size) {
        None => {
            return None;
        },
        Some(v) => v,
    };
    proof {
        assert(ctx@.state.nonce <= old(ctx)@.state.nonce + 32 + 0x1_0000_0000);
        lemma_mul32_nonce(ctx@.state);
    }
    integer_multiply(ctx, h, res, &m)
}

/// The first chunk of the exponentiation (see `exp_chunk`).
#[verifier::spinoff_prover]
fn exp_first<F: Fn(u128, u64) -> u128>(ctx: &mut OneHotContext, h: &F, base: u32, masked: &ShareMatrix, c: usize) -> (r: Option<
    ShareMatrix,
>)
    requires
        is_hash(*h),
        masked.wf(),
        masked.ncols() == 1,
        masked.nrows() == 32,
        1 <= c <= 32,
        32 < usize::BITS,
        old(ctx)@.state.nonce < 0x1800_0000_0000_0000,
    ensures
        match r {
            Some(o) => {
                &&& o.wf()
                &&& o.nrows() == 32
                &&& o.ncols() == 1
                &&& exp_chunk(old(ctx)@, hash_of(*h), base, col_vals(*masked), 0, c as nat) == Some((final(ctx)@, col_vals(o)))
                &&& final(ctx)@.state.nonce <= old(ctx)@.state.nonce + 0x2_0000_0000
                &&& final(ctx)@.state.role == old(ctx)@.state.role
                &&& final(ctx)@.state.delta == old(ctx)@.state.delta
            },
            None => exp_chunk(old(ctx)@, hash_of(*h), base, col_vals(*masked), 0, c as nat) is None,
        },
{
    reveal(exp_chunk);
    proof {
        lemma2_to64();
        if c < 32 {
            vstd::arithmetic::power2::lemma_pow2_strictly_increases(c as nat, 32);
        }
    }
    lookup_chunk(ctx, h, &ExpTable { base, shift: 0 }, masked, 0, c)
}

/// One-hot exponentiation `base^y` modulo `2^32` with chunks of
/// `chunking` bits (see `exponent_spec`); `mask_bits` are the generator's
/// 32 random mask bits.
#[verifier::spinoff_prover]
pub fn exponent<F: Fn(u128, u64) -> u128>(
    ctx: &mut OneHotContext,
    h: &F,
    base: u32,
    y: &ShareMatrix,
    chunking: usize,
    mask_bits: &[bool],
) -> (r: Option<ShareMatrix>)
    requires
        is_hash(*h),
        y.wf(),
        y.nrows() == 32,
        y.ncols() == 1,
        1 <= chunking <= 32,
        32 < usize::BITS,
        mask_bits@.len() == 32,
        old(ctx)@.state.nonce < 0x1000_0000_0000_0000,
    ensures
        match r {
            Some(o) => {
                &&& o.wf()
                &&& o.nrows() == 32
                &&& o.ncols() == 1
                &&& exponent_spec(old(ctx)@, hash_of(*h), base, col_vals(*y), chunking as nat, mask_bits@) == Some(
                    (final(ctx)@, col_vals(o)),
                )
            },
            None => exponent_spec(old(ctx)@, hash_of(*h), base, col_vals(*y), chunking as nat, mask_bits@) is None,
        },
{
    let ghost hf = hash_of(*h);
    let ghost p0 = old(ctx)@;
    let c = chunking;
    let n_chunks = (32 + c - 1) / c;
    let mask = ShareMatrix::uniform(&ctx.state, 32, 1, mask_bits);
    proof {
        assert(col_vals(mask) =~= mod_p_mask(p0, mask_bits@));
    }
    let masked = match open_masked(ctx, h, y, &mask) {
        None => {
            return None;
        },
        Some(m) => m,
    };
    let ghost p2 = ctx@;
    let ghost mv = col_vals(masked);
    proof {
        assert(0 < (31 + c as nat) / (c as nat)) by (nonlinear_arith)
            requires
                1 <= c <= 32,
        ;
        lemma_chunk_bounds(0, c as nat);
        assert(ctx@.state.nonce == p0.state.nonce + 62);
    }
    let mut result = match exp_first(ctx, h, base, &masked, c) {
        None => {
            proof {
                lemma_exp_prefix_none(p2, hf, base, c as nat, mv, 1, n_chunks as nat);
            }
            return None;
        },
        Some(v) => v,
    };
    let mut i: usize = 1;
    let mut lo: usize = c;
    while i < n_chunks
        invariant
            is_hash(*h),
            hf == hash_of(*h),
            1 <= c <= 32,
            c == chunking,
            p0 == old(ctx)@,
            32 < usize::BITS,
            n_chunks == (31 + c as nat) / (c as nat),
            1 <= i <= n_chunks,
            n_chunks <= 32,
            lo == i * c,
            masked.wf(),
            masked.ncols() == 1,
            masked.nrows() == 32,
            mv == col_vals(masked),
            mod_p_open(p0, hf, col_vals(*y), mod_p_mask(p0, mask_bits@)) == Some((p2, mv)),
            result.wf(),
            result.nrows() == 32,
            result.ncols() == 1,
            exp_prefix(p2, hf, base, c as nat, mv, i as nat) == Some((ctx@, col_vals(result))),
            p0.state.nonce < 0x1000_0000_0000_0000,
            ctx@.state.nonce <= p0.state.nonce + 0x2_0000_0000 + i * 0x80_0000_0000,
            ctx@.state.role == p0.state.role,
            ctx@.state.delta == p0.state.delta,
        decreases n_chunks - i,
    {
        proof {
            lemma_chunk_bounds(i as nat, c as nat);
        }
        let size = if 32 - lo < c { 32 - lo } else { c };
        result = match exp_stage(ctx, h, base, &masked, lo, size, &result) {
            None => {
                proof {
                    let k = (i + 1) as nat;
                    assert(((k - 1) * c) as nat == lo as nat);
                    assert(chunk_size((k - 1) as nat, c as nat) == size as nat);
                    assert(exp_prefix(p2, hf, base, c as nat, mv, k) is None);
                    lemma_exp_prefix_none(p2, hf, base, c as nat, mv, (i + 1) as nat, n_chunks as nat);
                }
                return None;
            },
            Some(v) => v,
        };
        proof {
            assert((i + 1) * c == i * c + c) by (nonlinear_arith);
        }
        i = i + 1;
        lo = lo + c;
    }
    let mw = colors_of(&mask);
    let pm = word_constant(ctx, pow32(base, mw));
    proof {
        lemma_mul32_nonce(ctx@.state);
    }
    integer_multiply(ctx, h, &result, &pm)
}

} // verus!
