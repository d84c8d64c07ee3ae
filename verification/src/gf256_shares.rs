//! GF(2^8) arithmetic on one-hot shares of bytes: the reduction of a
//! polynomial product, the fixed matrices of the AES S-box, and the
//! garbled half products built on the one-hot outer product.

use vstd::prelude::*;
use crate::gf256::{bit_of, bits_value, bools_to_byte, byte_to_bools, gf_inv, gf_mul, invert_byte, mul_byte, xpow, xtime};
use crate::label::lsb;
use crate::matrix::cm_index;
use crate::label::{lemma_xor_zero, sel};
use crate::matrix::BoolMatrix;
use crate::share::{IdentityTable, OneHotState, Role, Table};
use crate::share_matrix::{row_xor, ShareMatrix};
use crate::unary::{
    eval_cell, eval_tree, gen_cell, gen_col_msg, gen_tree, generator_msgs, half_outer_product_evaluator,
    half_outer_product_generator, hash_of, is_hash, nonce_after, unary_outer_product_evaluator,
    unary_outer_product_generator, vals, xor_range,
};
use crate::share::Share;
use vstd::arithmetic::power2::pow2;

verus! {

/// Multiply by `x` in GF(2^8).
pub fn xtime_byte(a: u8) -> (r: u8)
    ensures
        r == xtime(a),
{
    if a & 0x80u8 != 0 { (a << 1u8) ^ 0x1Bu8 } else { a << 1u8 }
}

/// Entry `(r, c)` of the reduction matrix: bit `r` of `x^c` reduced by the
/// AES polynomial.
pub open spec fn reduction_entry(r: int, c: int) -> bool {
    bit_of(xpow(1u8, c as nat), r)
}

/// The 8 x 15 matrix that reduces a product polynomial of degree below 15
/// to a byte: column `c` holds the bits of `x^c mod (x^8 + x^4 + x^3 + x + 1)`.
pub fn reduction_table() -> (m: BoolMatrix)
    ensures
        m.wf(),
        m.nrows() == 8,
        m.ncols() == 15,
        forall|r: int, c: int| 0 <= r < 8 && 0 <= c < 15 ==> #[trigger] m.entry(r, c) == reduction_entry(r, c),
{
    let mut m = BoolMatrix::new(8, 15);
    let mut p: u8 = 1;
    let mut c: usize = 0;
    while c < 15
        invariant
            c <= 15,
            m.wf(),
            m.nrows() == 8,
            m.ncols() == 15,
            p == xpow(1u8, c as nat),
            forall|r: int, k: int| 0 <= r < 8 && 0 <= k < 15 ==> #[trigger] m.entry(r, k)
                == if k < c { reduction_entry(r, k) } else { false },
        decreases 15 - c,
    {
        let mut r: usize = 0;
        while r < 8
            invariant
                r <= 8,
                c < 15,
                m.wf(),
                m.nrows() == 8,
                m.ncols() == 15,
                p == xpow(1u8, c as nat),
                forall|i: int, k: int| 0 <= i < 8 && 0 <= k < 15 ==> #[trigger] m.entry(i, k)
                    == if k < c || (k == c && i < r) { reduction_entry(i, k) } else { false },
            decreases 8 - r,
        {
            m.set(r, c, (p >> (r as u8)) & 1u8 == 1u8);
            r = r + 1;
        }
        p = xtime_byte(p);
        c = c + 1;
    }
    m
}

/// Entry `(i, j)` of the AES affine matrix: set when `j - i` is 0, 4, 5, 6
/// or 7 modulo 8.
pub open spec fn affine_entry(i: int, j: int) -> bool {
    let d = (j - i + 8) % 8;
    d == 0 || d >= 4
}

/// The 8 x 8 bit matrix of the AES S-box's affine map.
pub fn aes_linear_matrix() -> (m: BoolMatrix)
    ensures
        m.wf(),
        m.nrows() == 8,
        m.ncols() == 8,
        forall|i: int, j: int| 0 <= i < 8 && 0 <= j < 8 ==> #[trigger] m.entry(i, j) == affine_entry(i, j),
{
    let mut m = BoolMatrix::new(8, 8);
    let mut i: usize = 0;
    while i < 8
        invariant
            i <= 8,
            m.wf(),
            m.nrows() == 8,
            m.ncols() == 8,
            forall|a: int, b: int| 0 <= a < 8 && 0 <= b < 8 ==> #[trigger] m.entry(a, b)
                == if a < i { affine_entry(a, b) } else { false },
        decreases 8 - i,
    {
        let mut j: usize = 0;
        while j < 8
            invariant
                j <= 8,
                i < 8,
                m.wf(),
                m.nrows() == 8,
                m.ncols() == 8,
                forall|a: int, b: int| 0 <= a < 8 && 0 <= b < 8 ==> #[trigger] m.entry(a, b)
                    == if a < i || (a == i && b < j) { affine_entry(a, b) } else { false },
            decreases 8 - j,
        {
            let d = (j + 8 - i) % 8;
            m.set(i, j, d == 0 || d >= 4);
            j = j + 1;
        }
        i = i + 1;
    }
    m
}

/// The constant of the AES S-box's affine map, `0x63`, as a bit vector.
pub fn aes_linear_shift() -> (m: BoolMatrix)
    ensures
        m.wf(),
        m.nrows() == 8,
        m.ncols() == 1,
        forall|i: int| 0 <= i < 8 ==> #[trigger] m.entry(i, 0) == (i == 0 || i == 1 || i == 5 || i == 6),
{
    let mut m = BoolMatrix::vector(8);
    m.set(0, 0, true);
    m.set(1, 0, true);
    m.set(5, 0, true);
    m.set(6, 0, true);
    m
}

/// The truth table of inversion in GF(2^8) (of the index's low byte).
#[derive(Clone, Copy, Debug)]
pub struct InverseTable;

impl Table for InverseTable {
    open spec fn spec_row(&self, index: usize) -> usize {
        gf_inv(index as u8) as usize
    }

    fn row(&self, index: usize) -> (r: usize) {
        invert_byte(index as u8) as usize
    }
}

/// Coefficient `k` of the product polynomial of an 8 x 8 outer product
/// `m`: the XOR of `m(i, j)` over `i + j == k`.
pub open spec fn product_coeff(m: spec_fn(int, int) -> u128, k: int) -> u128 {
    xor_range(|i: int| if 0 <= k - i < 8 { m(i, k - i) } else { 0u128 }, 0, 8)
}

/// Bit `r` of the reduced product: the XOR of the coefficients `c < n`
/// whose reduction column has bit `r` set.
pub open spec fn reduced_bit(m: spec_fn(int, int) -> u128, r: int, n: nat) -> u128
    decreases n,
{
    if n == 0 {
        0
    } else {
        reduced_bit(m, r, (n - 1) as nat) ^ sel(reduction_entry(r, n - 1), product_coeff(m, n - 1))
    }
}

/// The entries of a share matrix as a function.
pub open spec fn entries(m: ShareMatrix) -> spec_fn(int, int) -> u128 {
    |i: int, j: int| m.entry(i, j)
}

proof fn lemma_row_xor_reduction(mat: BoolMatrix, v: Seq<u128>, m: spec_fn(int, int) -> u128, r: int, n: nat)
    requires
        0 <= r < 8,
        n <= 15,
        mat.nrows() == 8,
        mat.ncols() == 15,
        forall|a: int, c: int| 0 <= a < 8 && 0 <= c < 15 ==> #[trigger] mat.entry(a, c) == reduction_entry(a, c),
        v.len() == 15,
        forall|k: int| 0 <= k < 15 ==> #[trigger] v[k] == product_coeff(m, k),
    ensures
        row_xor(mat, v, r, n) == reduced_bit(m, r, n),
    decreases n,
{
    if n > 0 {
        lemma_row_xor_reduction(mat, v, m, r, (n - 1) as nat);
    }
}

/// Reduce an 8 x 8 outer product of shares to the eight shares of the
/// product byte: sum the anti-diagonals into 15 coefficients, then apply
/// the reduction matrix.
pub fn reduce_product(xy: &ShareMatrix) -> (out: ShareMatrix)
    requires
        xy.wf(),
        xy.nrows() == 8,
        xy.ncols() == 8,
    ensures
        out.wf(),
        out.nrows() == 8,
        out.ncols() == 1,
        forall|r: int| 0 <= r < 8 ==> #[trigger] out.entry(r, 0) == reduced_bit(entries(*xy), r, 15),
{
    let ghost m = entries(*xy);
    let mut unreduced = ShareMatrix::vector(15);
    let mut i: usize = 0;
    assert forall|k: int| 0 <= k < 15 implies #[trigger] unreduced.entry(k, 0)
        == xor_range(|a: int| if 0 <= k - a < 8 { m(a, k - a) } else { 0u128 }, 0, 0) by {
    }
    while i < 8
        invariant
            i <= 8,
            xy.wf(),
            xy.nrows() == 8,
            xy.ncols() == 8,
            m == entries(*xy),
            unreduced.wf(),
            unreduced.nrows() == 15,
            unreduced.ncols() == 1,
            forall|k: int| 0 <= k < 15 ==> #[trigger] unreduced.entry(k, 0)
                == xor_range(|a: int| if 0 <= k - a < 8 { m(a, k - a) } else { 0u128 }, 0, i as int),
        decreases 8 - i,
    {
        let mut j: usize = 0;
        while j < 8
            invariant
                j <= 8,
                i < 8,
                xy.wf(),
                xy.nrows() == 8,
                xy.ncols() == 8,
                m == entries(*xy),
                unreduced.wf(),
                unreduced.nrows() == 15,
                unreduced.ncols() == 1,
                forall|k: int| 0 <= k < 15 ==> #[trigger] unreduced.entry(k, 0)
                    == if i <= k < i + j {
                        xor_range(|a: int| if 0 <= k - a < 8 { m(a, k - a) } else { 0u128 }, 0, i + 1)
                    } else {
                        xor_range(|a: int| if 0 <= k - a < 8 { m(a, k - a) } else { 0u128 }, 0, i as int)
                    },
            decreases 8 - j,
        {
            let s = xy.get(i, j);
            unreduced.xor_cell(i + j, 0, s);
            j = j + 1;
        }
        proof {
            assert forall|k: int| 0 <= k < 15 implies #[trigger] unreduced.entry(k, 0)
                == xor_range(|a: int| if 0 <= k - a < 8 { m(a, k - a) } else { 0u128 }, 0, i + 1) by {
                if !(i <= k < i + 8) {
                    lemma_xor_zero(xor_range(|a: int| if 0 <= k - a < 8 { m(a, k - a) } else { 0u128 }, 0, i as int));
                }
            }
        }
        i = i + 1;
    }
    let table = reduction_table();
    let out = ShareMatrix::mul_bool_matrix(&table, &unreduced);
    proof {
        let v = Seq::new(15, |k: int| unreduced.entry(k, 0));
        assert forall|r: int| 0 <= r < 8 implies #[trigger] out.entry(r, 0) == reduced_bit(m, r, 15) by {
            lemma_row_xor_reduction(table, v, m, r, 15);
        }
    }
    out
}

/// Reduction depends only on the 8 x 8 entries.
pub proof fn lemma_reduced_bit_ext(m1: spec_fn(int, int) -> u128, m2: spec_fn(int, int) -> u128, r: int, n: nat)
    requires
        forall|i: int, j: int| 0 <= i < 8 && 0 <= j < 8 ==> #[trigger] m1(i, j) == m2(i, j),
    ensures
        reduced_bit(m1, r, n) == reduced_bit(m2, r, n),
    decreases n,
{
    if n > 0 {
        lemma_reduced_bit_ext(m1, m2, r, (n - 1) as nat);
        let k = n - 1;
        crate::unary::lemma_xor_range_ext(
            |i: int| if 0 <= k - i < 8 { m1(i, k - i) } else { 0u128 },
            |i: int| if 0 <= k - i < 8 { m2(i, k - i) } else { 0u128 },
            0,
            8,
        );
    }
}

/// The shares of a column vector, as labels.
pub open spec fn col_vals(m: ShareMatrix) -> Seq<u128> {
    Seq::new(m.nrows(), |i: int| m.entry(i, 0))
}

/// The generator's cells of the half outer product over `seeds`.
pub open spec fn half_gen_cells(seeds: Seq<u128>, base: u64, hf: spec_fn(u128, u64) -> u128) -> spec_fn(int, int) -> u128 {
    |i: int, j: int| gen_cell(IdentityTable, seeds, base, j, i, hf)
}

/// The evaluator's cells of the half outer product, with column messages
/// `cols` and shares `y` of the second factor.
pub open spec fn half_eval_cells(
    seeds: Seq<u128>,
    p: int,
    base: u64,
    hf: spec_fn(u128, u64) -> u128,
    cols: Seq<u128>,
    y: Seq<u128>,
) -> spec_fn(int, int) -> u128 {
    |i: int, j: int| eval_cell(IdentityTable, seeds, p, base, j, i, hf, cols[j], y[j])
}

/// Generator side of `(x + colour(x)) * y` in GF(2^8) for byte shares `x`,
/// `y`: the half outer product, reduced.  Returns the product's shares
/// and the messages of the outer product.
pub fn half_mul_gf256_generator<F: Fn(u128, u64) -> u128>(
    state: &mut OneHotState,
    x: &ShareMatrix,
    y: &ShareMatrix,
    h: &F,
) -> (r: (ShareMatrix, Vec<u128>, Vec<u128>))
    requires
        old(state).role == Role::Generator,
        is_hash(*h),
        x.wf(),
        y.wf(),
        x.nrows() == 8,
        x.ncols() == 1,
        y.nrows() == 8,
        y.ncols() == 1,
        nonce_after(old(state).nonce, 8) + 256 * 8 <= u64::MAX,
    ensures
        ({
            let hf = hash_of(*h);
            let seeds = gen_tree(col_vals(*x), old(state).delta, old(state).nonce, hf, 7);
            let base = nonce_after(old(state).nonce, 8);
            &&& r.0.wf()
            &&& r.0.nrows() == 8
            &&& r.0.ncols() == 1
            &&& forall|b: int| 0 <= b < 8 ==> #[trigger] r.0.entry(b, 0) == reduced_bit(half_gen_cells(seeds, base, hf), b, 15)
            &&& generator_msgs(col_vals(*x), old(state).delta, old(state).nonce, hf, r.1@)
            &&& r.2@.len() == 8
            &&& forall|j: int| 0 <= j < 8 ==> #[trigger] r.2@[j] == gen_col_msg(seeds, base, j, hf, y.entry(j, 0))
            &&& final(state).nonce == base + 256 * 8
            &&& final(state).role == old(state).role
            &&& final(state).delta == old(state).delta
        }),
{
    let ghost hf = hash_of(*h);
    let xs = x.as_slice();
    let ys = y.as_slice();
    proof {
        assert(vals(xs@) =~= col_vals(*x));
        vstd::arithmetic::power2::lemma2_to64();
    }
    let mut xy = ShareMatrix::new(8, 8);
    let (tree, cols) = half_outer_product_generator(state, xs, ys, &mut xy, h);
    let out = reduce_product(&xy);
    proof {
        let seeds = gen_tree(col_vals(*x), old(state).delta, old(state).nonce, hf, 7);
        let base = nonce_after(old(state).nonce, 8);
        assert forall|i: int, j: int| 0 <= i < 8 && 0 <= j < 8 implies #[trigger] entries(xy)(i, j)
            == half_gen_cells(seeds, base, hf)(i, j) by {
            lemma_xor_zero(gen_cell(IdentityTable, seeds, base, j, i, hf));
        }
        assert forall|b: int| 0 <= b < 8 implies #[trigger] out.entry(b, 0)
            == reduced_bit(half_gen_cells(seeds, base, hf), b, 15) by {
            lemma_reduced_bit_ext(entries(xy), half_gen_cells(seeds, base, hf), b, 15);
        }
        assert forall|j: int| 0 <= j < 8 implies #[trigger] cols@[j] == gen_col_msg(seeds, base, j, hf, y.entry(j, 0)) by {
            assert(ys@[j].0 == y.entry(j, 0));
        }
    }
    (out, tree, cols)
}

/// Evaluator side of `(x + colour(x)) * y` in GF(2^8), given the
/// generator's messages of the outer product.
pub fn half_mul_gf256_evaluator<F: Fn(u128, u64) -> u128>(
    state: &mut OneHotState,
    x: &ShareMatrix,
    y: &ShareMatrix,
    tree_msgs: &[u128],
    col_msgs: &[u128],
    h: &F,
) -> (out: ShareMatrix)
    requires
        old(state).role == Role::Evaluator,
        is_hash(*h),
        x.wf(),
        y.wf(),
        x.nrows() == 8,
        x.ncols() == 1,
        y.nrows() == 8,
        y.ncols() == 1,
        tree_msgs@.len() == 14,
        col_msgs@.len() == 8,
        nonce_after(old(state).nonce, 8) + 256 * 8 <= u64::MAX,
    ensures
        ({
            let hf = hash_of(*h);
            let tree = eval_tree(col_vals(*x), old(state).nonce, hf, tree_msgs@, 7);
            let base = nonce_after(old(state).nonce, 8);
            &&& out.wf()
            &&& out.nrows() == 8
            &&& out.ncols() == 1
            &&& forall|b: int| 0 <= b < 8 ==> #[trigger] out.entry(b, 0)
                == reduced_bit(half_eval_cells(tree.0, tree.1 as int, base, hf, col_msgs@, col_vals(*y)), b, 15)
            &&& final(state).nonce == base + 256 * 8
            &&& final(state).role == old(state).role
            &&& final(state).delta == old(state).delta
        }),
{
    let ghost hf = hash_of(*h);
    let xs = x.as_slice();
    let ys = y.as_slice();
    proof {
        assert(vals(xs@) =~= col_vals(*x));
        vstd::arithmetic::power2::lemma2_to64();
    }
    let mut xy = ShareMatrix::new(8, 8);
    half_outer_product_evaluator(state, xs, ys, &mut xy, tree_msgs, col_msgs, h);
    let out = reduce_product(&xy);
    proof {
        let tree = eval_tree(col_vals(*x), old(state).nonce, hf, tree_msgs@, 7);
        let base = nonce_after(old(state).nonce, 8);
        let cells = half_eval_cells(tree.0, tree.1 as int, base, hf, col_msgs@, col_vals(*y));
        assert forall|i: int, j: int| 0 <= i < 8 && 0 <= j < 8 implies #[trigger] entries(xy)(i, j) == cells(i, j) by {
            assert(ys@[j].0 == y.entry(j, 0));
            lemma_xor_zero(cells(i, j));
        }
        assert forall|b: int| 0 <= b < 8 implies #[trigger] out.entry(b, 0) == reduced_bit(cells, b, 15) by {
            lemma_reduced_bit_ext(entries(xy), cells, b, 15);
        }
    }
    out
}

/// The byte whose bit `i` is the colour of share `i` of a column vector.
pub open spec fn color_byte(m: ShareMatrix) -> u8 {
    bits_value(Seq::new(8, |i: int| lsb(m.entry(i, 0))), 8)
}

/// The colour byte of a byte's shares.
fn color_byte_of(m: &ShareMatrix) -> (c: u8)
    requires
        m.wf(),
        m.nrows() == 8,
        m.ncols() == 1,
    ensures
        c == color_byte(*m),
{
    let colors = m.colors();
    let s = colors.as_slice();
    proof {
        assert forall|i: int| 0 <= i < 8 implies #[trigger] s@[i] == lsb(m.entry(i, 0)) by {
            assert(cm_index(8, i as nat, 0) == i);
            assert(colors.entry(i, 0) == s@[cm_index(8, i as nat, 0) as int]);
        }
        assert(s@ =~= Seq::new(8, |i: int| lsb(m.entry(i, 0))));
    }
    bools_to_byte(s)
}

/// The shares of a public byte: delta for each set bit (generator), zero
/// (evaluator).
fn constant_byte(state: &OneHotState, v: u8) -> (m: ShareMatrix)
    ensures
        m.wf(),
        m.nrows() == 8,
        m.ncols() == 1,
        forall|b: int| 0 <= b < 8 ==> #[trigger] m.entry(b, 0) == sel(bit_of(v, b), state.delta),
{
    let bits = BoolMatrix::from_vec(8, 1, byte_to_bools(v));
    proof {
        assert forall|b: int| 0 <= b < 8 implies #[trigger] bits.entry(b, 0) == bit_of(v, b) by {
            assert(cm_index(8, b as nat, 0) == b);
        }
    }
    ShareMatrix::constant(state, &bits)
}

/// Shares of the colour bits of a byte's shares, as a public constant.
fn constant_colors(state: &OneHotState, x: &ShareMatrix) -> (m: ShareMatrix)
    requires
        x.wf(),
        x.nrows() == 8,
        x.ncols() == 1,
    ensures
        m.wf(),
        m.nrows() == 8,
        m.ncols() == 1,
        forall|b: int| 0 <= b < 8 ==> #[trigger] m.entry(b, 0) == sel(lsb(x.entry(b, 0)), state.delta),
{
    let colors = x.colors();
    ShareMatrix::constant(state, &colors)
}

/// The messages of a GF(2^8) multiplication, in the order sent: those of
/// the half product `x * y`, then those of `y * colour(x)`.
pub struct MulMsgs {
    pub tree_1: Vec<u128>,
    pub cols_1: Vec<u128>,
    pub tree_2: Vec<u128>,
    pub cols_2: Vec<u128>,
}

/// The generator's shares of `x * y` in GF(2^8): the half product
/// `(x + cx) * y`, the half product `(y + cy) * cx`, and the public
/// product `cx * cy` of the colour bytes.
pub open spec fn mul_gen_bit(
    x: ShareMatrix,
    y: ShareMatrix,
    delta: u128,
    n0: u64,
    hf: spec_fn(u128, u64) -> u128,
    b: int,
) -> u128 {
    let n1 = (nonce_after(n0, 8) + 256 * 8) as u64;
    let s1 = gen_tree(col_vals(x), delta, n0, hf, 7);
    let s2 = gen_tree(col_vals(y), delta, n1, hf, 7);
    (reduced_bit(half_gen_cells(s1, nonce_after(n0, 8), hf), b, 15)
        ^ reduced_bit(half_gen_cells(s2, nonce_after(n1, 8), hf), b, 15))
        ^ sel(bit_of(gf_mul(color_byte(x), color_byte(y)), b), delta)
}

/// The evaluator's shares of `x * y` in GF(2^8), given the messages.
pub open spec fn mul_eval_bit(
    x: ShareMatrix,
    y: ShareMatrix,
    de: u128,
    n0: u64,
    hf: spec_fn(u128, u64) -> u128,
    msgs: (Seq<u128>, Seq<u128>, Seq<u128>, Seq<u128>),
    b: int,
) -> u128 {
    let n1 = (nonce_after(n0, 8) + 256 * 8) as u64;
    let t1 = eval_tree(col_vals(x), n0, hf, msgs.0, 7);
    let t2 = eval_tree(col_vals(y), n1, hf, msgs.2, 7);
    let xc = Seq::new(8, |i: int| sel(lsb(x.entry(i, 0)), de));
    (reduced_bit(half_eval_cells(t1.0, t1.1 as int, nonce_after(n0, 8), hf, msgs.1, col_vals(y)), b, 15)
        ^ reduced_bit(half_eval_cells(t2.0, t2.1 as int, nonce_after(n1, 8), hf, msgs.3, xc), b, 15))
        ^ sel(bit_of(gf_mul(color_byte(x), color_byte(y)), b), de)
}

/// The messages are the generator's for the product of `x` and `y`: the
/// seed-tree and column messages of each of its two half products.
pub open spec fn mul_msgs_ok(
    x: ShareMatrix,
    y: ShareMatrix,
    delta: u128,
    n0: u64,
    hf: spec_fn(u128, u64) -> u128,
    msgs: (Seq<u128>, Seq<u128>, Seq<u128>, Seq<u128>),
) -> bool {
    let n1 = (nonce_after(n0, 8) + 256 * 8) as u64;
    let s1 = gen_tree(col_vals(x), delta, n0, hf, 7);
    let s2 = gen_tree(col_vals(y), delta, n1, hf, 7);
    &&& generator_msgs(col_vals(x), delta, n0, hf, msgs.0)
    &&& msgs.1.len() == 8
    &&& forall|j: int| 0 <= j < 8 ==> #[trigger] msgs.1[j] == gen_col_msg(s1, nonce_after(n0, 8), j, hf, y.entry(j, 0))
    &&& generator_msgs(col_vals(y), delta, n1, hf, msgs.2)
    &&& msgs.3.len() == 8
    &&& forall|j: int| 0 <= j < 8 ==> #[trigger] msgs.3[j] == gen_col_msg(s2, nonce_after(n1, 8), j, hf, sel(lsb(x.entry(j, 0)), delta))
}

/// Generator side of multiplication in GF(2^8) of byte shares `x`, `y`.
pub fn mul_gf256_generator<F: Fn(u128, u64) -> u128>(
    state: &mut OneHotState,
    x: &ShareMatrix,
    y: &ShareMatrix,
    h: &F,
) -> (r: (ShareMatrix, MulMsgs))
    requires
        old(state).role == Role::Generator,
        is_hash(*h),
        x.wf(),
        y.wf(),
        x.nrows() == 8,
        x.ncols() == 1,
        y.nrows() == 8,
        y.ncols() == 1,
        nonce_after((nonce_after(old(state).nonce, 8) + 256 * 8) as u64, 8) + 256 * 8 <= u64::MAX,
        nonce_after(old(state).nonce, 8) + 256 * 8 <= u64::MAX,
    ensures
        r.0.wf(),
        r.0.nrows() == 8,
        r.0.ncols() == 1,
        forall|b: int| 0 <= b < 8 ==> #[trigger] r.0.entry(b, 0)
            == mul_gen_bit(*x, *y, old(state).delta, old(state).nonce, hash_of(*h), b),
        mul_msgs_ok(*x, *y, old(state).delta, old(state).nonce, hash_of(*h), (r.1.tree_1@, r.1.cols_1@, r.1.tree_2@, r.1.cols_2@)),
        final(state).role == old(state).role,
        final(state).delta == old(state).delta,
        final(state).nonce == nonce_after((nonce_after(old(state).nonce, 8) + 256 * 8) as u64, 8) + 256 * 8,
{
    let ghost hf = hash_of(*h);
    let cx = color_byte_of(x);
    let cy = color_byte_of(y);
    let (mut out, tree_1, cols_1) = half_mul_gf256_generator(state, x, y, h);
    let x_const = constant_colors(state, x);
    let (o2, tree_2, cols_2) = half_mul_gf256_generator(state, y, &x_const, h);
    out.xor_assign(&o2);
    let c = constant_byte(state, mul_byte(cx, cy));
    out.xor_assign(&c);
    (out, MulMsgs { tree_1, cols_1, tree_2, cols_2 })
}

/// Evaluator side of multiplication in GF(2^8), given the generator's
/// messages.
pub fn mul_gf256_evaluator<F: Fn(u128, u64) -> u128>(
    state: &mut OneHotState,
    x: &ShareMatrix,
    y: &ShareMatrix,
    msgs: &MulMsgs,
    h: &F,
) -> (out: ShareMatrix)
    requires
        old(state).role == Role::Evaluator,
        is_hash(*h),
        x.wf(),
        y.wf(),
        x.nrows() == 8,
        x.ncols() == 1,
        y.nrows() == 8,
        y.ncols() == 1,
        msgs.tree_1@.len() == 14,
        msgs.cols_1@.len() == 8,
        msgs.tree_2@.len() == 14,
        msgs.cols_2@.len() == 8,
        nonce_after((nonce_after(old(state).nonce, 8) + 256 * 8) as u64, 8) + 256 * 8 <= u64::MAX,
        nonce_after(old(state).nonce, 8) + 256 * 8 <= u64::MAX,
    ensures
        out.wf(),
        out.nrows() == 8,
        out.ncols() == 1,
        forall|b: int| 0 <= b < 8 ==> #[trigger] out.entry(b, 0) == mul_eval_bit(
            *x,
            *y,
            old(state).delta,
            old(state).nonce,
            hash_of(*h),
            (msgs.tree_1@, msgs.cols_1@, msgs.tree_2@, msgs.cols_2@),
            b,
        ),
        final(state).role == old(state).role,
        final(state).delta == old(state).delta,
        final(state).nonce == nonce_after((nonce_after(old(state).nonce, 8) + 256 * 8) as u64, 8) + 256 * 8,
{
    let ghost hf = hash_of(*h);
    let cx = color_byte_of(x);
    let cy = color_byte_of(y);
    let mut out = half_mul_gf256_evaluator(state, x, y, msgs.tree_1.as_slice(), msgs.cols_1.as_slice(), h);
    let x_const = constant_colors(state, x);
    let o2 = half_mul_gf256_evaluator(state, y, &x_const, msgs.tree_2.as_slice(), msgs.cols_2.as_slice(), h);
    out.xor_assign(&o2);
    let c = constant_byte(state, mul_byte(cx, cy));
    out.xor_assign(&c);
    proof {
        assert(col_vals(x_const) =~= Seq::new(8, |i: int| sel(lsb(x.entry(i, 0)), old(state).delta)));
    }
    out
}

/// The generator's candidate mask for inversion: the shares of the
/// sampled bits, kept only if their byte is nonzero (otherwise a new
/// sample is needed).
pub fn invert_mask_candidate(state: &OneHotState, bits: &[bool]) -> (r: Option<ShareMatrix>)
    requires
        bits@.len() == 8,
    ensures
        match r {
            Some(y) => {
                &&& y.wf()
                &&& y.nrows() == 8
                &&& y.ncols() == 1
                &&& forall|i: int| 0 <= i < 8 ==> #[trigger] y.entry(i, 0)
                    == if state.role == Role::Generator { sel(bits@[i], state.delta) } else { 0 }
                &&& color_byte(y) != 0
            },
            None => color_byte_spec_of(state, bits@) == 0,
        },
{
    let cand = ShareMatrix::uniform(state, 8, 1, bits);
    let c = color_byte_of(&cand);
    proof {
        assert(col_colors(cand) =~= col_colors_of(state, bits@));
    }
    if c != 0 {
        Some(cand)
    } else {
        None
    }
}

/// The colours of a column vector's eight shares.
pub open spec fn col_colors(m: ShareMatrix) -> Seq<bool> {
    Seq::new(8, |i: int| lsb(m.entry(i, 0)))
}

/// The colours of the shares of sampled bits.
pub open spec fn col_colors_of(state: &OneHotState, bits: Seq<bool>) -> Seq<bool> {
    Seq::new(8, |i: int| lsb(if state.role == Role::Generator { sel(bits[i], state.delta) } else { 0 }))
}

/// The colour byte of the shares of sampled bits.
pub open spec fn color_byte_spec_of(state: &OneHotState, bits: Seq<bool>) -> u8 {
    bits_value(col_colors_of(state, bits), 8)
}

/// The generator's first step of inversion in GF(2^8): shares of
/// `x * y`, where `y` is its nonzero random mask, to be revealed.
pub fn invert_start_generator<F: Fn(u128, u64) -> u128>(
    state: &mut OneHotState,
    x: &ShareMatrix,
    y: &ShareMatrix,
    h: &F,
) -> (r: (ShareMatrix, Vec<u128>, Vec<u128>))
    requires
        old(state).role == Role::Generator,
        is_hash(*h),
        x.wf(),
        y.wf(),
        x.nrows() == 8,
        x.ncols() == 1,
        y.nrows() == 8,
        y.ncols() == 1,
        nonce_after(old(state).nonce, 8) + 256 * 8 <= u64::MAX,
    ensures
        ({
            let hf = hash_of(*h);
            let seeds = gen_tree(col_vals(*x), old(state).delta, old(state).nonce, hf, 7);
            let base = nonce_after(old(state).nonce, 8);
            &&& r.0.wf()
            &&& r.0.nrows() == 8
            &&& r.0.ncols() == 1
            &&& forall|b: int| 0 <= b < 8 ==> #[trigger] r.0.entry(b, 0)
                == reduced_bit(half_gen_cells(seeds, base, hf), b, 15)
                ^ sel(bit_of(gf_mul(color_byte(*x), color_byte(*y)), b), old(state).delta)
            &&& generator_msgs(col_vals(*x), old(state).delta, old(state).nonce, hf, r.1@)
            &&& r.2@.len() == 8
            &&& forall|j: int| 0 <= j < 8 ==> #[trigger] r.2@[j] == gen_col_msg(seeds, base, j, hf, y.entry(j, 0))
            &&& final(state).nonce == base + 256 * 8
            &&& final(state).role == old(state).role
            &&& final(state).delta == old(state).delta
        }),
{
    let cx = color_byte_of(x);
    let cy = color_byte_of(y);
    let (mut xy, tree, cols) = half_mul_gf256_generator(state, x, y, h);
    let c = constant_byte(state, mul_byte(cx, cy));
    xy.xor_assign(&c);
    (xy, tree, cols)
}

/// The evaluator's first step of inversion in GF(2^8), given the
/// generator's messages; its mask `y` is zero.
pub fn invert_start_evaluator<F: Fn(u128, u64) -> u128>(
    state: &mut OneHotState,
    x: &ShareMatrix,
    y: &ShareMatrix,
    tree_msgs: &[u128],
    col_msgs: &[u128],
    h: &F,
) -> (out: ShareMatrix)
    requires
        old(state).role == Role::Evaluator,
        is_hash(*h),
        x.wf(),
        y.wf(),
        x.nrows() == 8,
        x.ncols() == 1,
        y.nrows() == 8,
        y.ncols() == 1,
        tree_msgs@.len() == 14,
        col_msgs@.len() == 8,
        nonce_after(old(state).nonce, 8) + 256 * 8 <= u64::MAX,
    ensures
        ({
            let hf = hash_of(*h);
            let tree = eval_tree(col_vals(*x), old(state).nonce, hf, tree_msgs@, 7);
            let base = nonce_after(old(state).nonce, 8);
            &&& out.wf()
            &&& out.nrows() == 8
            &&& out.ncols() == 1
            &&& forall|b: int| 0 <= b < 8 ==> #[trigger] out.entry(b, 0)
                == reduced_bit(half_eval_cells(tree.0, tree.1 as int, base, hf, col_msgs@, col_vals(*y)), b, 15)
                ^ sel(bit_of(gf_mul(color_byte(*x), color_byte(*y)), b), old(state).delta)
            &&& final(state).nonce == base + 256 * 8
            &&& final(state).role == old(state).role
            &&& final(state).delta == old(state).delta
        }),
{
    let cx = color_byte_of(x);
    let cy = color_byte_of(y);
    let mut xy = half_mul_gf256_evaluator(state, x, y, tree_msgs, col_msgs, h);
    let c = constant_byte(state, mul_byte(cx, cy));
    xy.xor_assign(&c);
    xy
}

/// The cells of the outer product of the inverse table row at the
/// revealed `x * y` with `y`, on the generator's side.
pub open spec fn inverse_gen_cells(seeds: Seq<u128>, base: u64, hf: spec_fn(u128, u64) -> u128) -> spec_fn(int, int) -> u128 {
    |i: int, j: int| gen_cell(InverseTable, seeds, base, j, i, hf)
}

/// The same cells on the evaluator's side.
pub open spec fn inverse_eval_cells(
    seeds: Seq<u128>,
    p: int,
    base: u64,
    hf: spec_fn(u128, u64) -> u128,
    cols: Seq<u128>,
    y: Seq<u128>,
) -> spec_fn(int, int) -> u128 {
    |i: int, j: int| eval_cell(InverseTable, seeds, p, base, j, i, hf, cols[j], y[j])
}

/// The generator's last step of inversion: with `xy` revealed, the outer
/// product of the inverse of `xy` (through the one-hot inverse table) with
/// the mask `y`, reduced, gives shares of `x^-1`.
pub fn invert_finish_generator<F: Fn(u128, u64) -> u128>(
    state: &mut OneHotState,
    xy: &ShareMatrix,
    y: &ShareMatrix,
    h: &F,
) -> (r: (ShareMatrix, Vec<u128>, Vec<u128>))
    requires
        old(state).role == Role::Generator,
        is_hash(*h),
        xy.wf(),
        y.wf(),
        xy.nrows() == 8,
        xy.ncols() == 1,
        y.nrows() == 8,
        y.ncols() == 1,
        nonce_after(old(state).nonce, 8) + 256 * 8 <= u64::MAX,
    ensures
        ({
            let hf = hash_of(*h);
            let seeds = gen_tree(col_vals(*xy), old(state).delta, old(state).nonce, hf, 7);
            let base = nonce_after(old(state).nonce, 8);
            &&& r.0.wf()
            &&& r.0.nrows() == 8
            &&& r.0.ncols() == 1
            &&& forall|b: int| 0 <= b < 8 ==> #[trigger] r.0.entry(b, 0) == reduced_bit(inverse_gen_cells(seeds, base, hf), b, 15)
            &&& generator_msgs(col_vals(*xy), old(state).delta, old(state).nonce, hf, r.1@)
            &&& r.2@.len() == 8
            &&& forall|j: int| 0 <= j < 8 ==> #[trigger] r.2@[j] == gen_col_msg(seeds, base, j, hf, y.entry(j, 0))
            &&& final(state).nonce == base + 256 * 8
            &&& final(state).role == old(state).role
            &&& final(state).delta == old(state).delta
        }),
{
    let ghost hf = hash_of(*h);
    let xs = xy.as_slice();
    let ys = y.as_slice();
    proof {
        assert(vals(xs@) =~= col_vals(*xy));
        vstd::arithmetic::power2::lemma2_to64();
    }
    let mut outer = ShareMatrix::new(8, 8);
    let (tree, cols) = unary_outer_product_generator(state, &InverseTable, xs, ys, &mut outer, h);
    let out = reduce_product(&outer);
    proof {
        let seeds = gen_tree(col_vals(*xy), old(state).delta, old(state).nonce, hf, 7);
        let base = nonce_after(old(state).nonce, 8);
        assert forall|i: int, j: int| 0 <= i < 8 && 0 <= j < 8 implies #[trigger] entries(outer)(i, j)
            == inverse_gen_cells(seeds, base, hf)(i, j) by {
            lemma_xor_zero(gen_cell(InverseTable, seeds, base, j, i, hf));
        }
        assert forall|b: int| 0 <= b < 8 implies #[trigger] out.entry(b, 0)
            == reduced_bit(inverse_gen_cells(seeds, base, hf), b, 15) by {
            lemma_reduced_bit_ext(entries(outer), inverse_gen_cells(seeds, base, hf), b, 15);
        }
        assert forall|j: int| 0 <= j < 8 implies #[trigger] cols@[j] == gen_col_msg(seeds, base, j, hf, y.entry(j, 0)) by {
            assert(ys@[j].0 == y.entry(j, 0));
        }
    }
    (out, tree, cols)
}

/// The evaluator's last step of inversion, given the generator's messages.
pub fn invert_finish_evaluator<F: Fn(u128, u64) -> u128>(
    state: &mut OneHotState,
    xy: &ShareMatrix,
    y: &ShareMatrix,
    tree_msgs: &[u128],
    col_msgs: &[u128],
    h: &F,
) -> (out: ShareMatrix)
    requires
        old(state).role == Role::Evaluator,
        is_hash(*h),
        xy.wf(),
        y.wf(),
        xy.nrows() == 8,
        xy.ncols() == 1,
        y.nrows() == 8,
        y.ncols() == 1,
        tree_msgs@.len() == 14,
        col_msgs@.len() == 8,
        nonce_after(old(state).nonce, 8) + 256 * 8 <= u64::MAX,
    ensures
        ({
            let hf = hash_of(*h);
            let tree = eval_tree(col_vals(*xy), old(state).nonce, hf, tree_msgs@, 7);
            let base = nonce_after(old(state).nonce, 8);
            &&& out.wf()
            &&& out.nrows() == 8
            &&& out.ncols() == 1
            &&& forall|b: int| 0 <= b < 8 ==> #[trigger] out.entry(b, 0)
                == reduced_bit(inverse_eval_cells(tree.0, tree.1 as int, base, hf, col_msgs@, col_vals(*y)), b, 15)
            &&& final(state).nonce == base + 256 * 8
            &&& final(state).role == old(state).role
            &&& final(state).delta == old(state).delta
        }),
{
    let ghost hf = hash_of(*h);
    let xs = xy.as_slice();
    let ys = y.as_slice();
    proof {
        assert(vals(xs@) =~= col_vals(*xy));
        vstd::arithmetic::power2::lemma2_to64();
    }
    let mut outer = ShareMatrix::new(8, 8);
    unary_outer_product_evaluator(state, &InverseTable, xs, ys, &mut outer, tree_msgs, col_msgs, h);
    let out = reduce_product(&outer);
    proof {
        let tree = eval_tree(col_vals(*xy), old(state).nonce, hf, tree_msgs@, 7);
        let base = nonce_after(old(state).nonce, 8);
        let cells = inverse_eval_cells(tree.0, tree.1 as int, base, hf, col_msgs@, col_vals(*y));
        assert forall|i: int, j: int| 0 <= i < 8 && 0 <= j < 8 implies #[trigger] entries(outer)(i, j) == cells(i, j) by {
            assert(ys@[j].0 == y.entry(j, 0));
            lemma_xor_zero(cells(i, j));
        }
        assert forall|b: int| 0 <= b < 8 implies #[trigger] out.entry(b, 0) == reduced_bit(cells, b, 15) by {
            lemma_reduced_bit_ext(entries(outer), cells, b, 15);
        }
    }
    out
}

/// Mask a byte's shares with the zero flag: `x ^ (zero, 0, ..., 0)`, so
/// that a zero input is inverted as one.
pub fn sbox_mask(x: &ShareMatrix, zero: Share) -> (m: ShareMatrix)
    requires
        x.wf(),
        x.nrows() == 8,
        x.ncols() == 1,
    ensures
        m.wf(),
        m.nrows() == 8,
        m.ncols() == 1,
        forall|i: int| 0 <= i < 8 ==> #[trigger] m.entry(i, 0) == if i == 0 { x.entry(0, 0) ^ zero.0 } else { x.entry(i, 0) },
{
    let mut m = ShareMatrix::vector(8);
    let mut i: usize = 0;
    while i < 8
        invariant
            i <= 8,
            x.wf(),
            x.nrows() == 8,
            x.ncols() == 1,
            m.wf(),
            m.nrows() == 8,
            m.ncols() == 1,
            forall|k: int| 0 <= k < 8 ==> #[trigger] m.entry(k, 0) == if k < i { x.entry(k, 0) } else { 0 },
        decreases 8 - i,
    {
        m.set_at(i, x.at(i));
        i = i + 1;
    }
    m.xor_cell(0, 0, zero);
    m
}

/// Bit `b` of the affine matrix applied to `v`: the XOR of the `v[i]`,
/// `i < n`, whose matrix entry is set.
pub open spec fn affine_xor(v: Seq<u128>, b: int, n: nat) -> u128
    decreases n,
{
    if n == 0 {
        0
    } else {
        affine_xor(v, b, (n - 1) as nat) ^ sel(affine_entry(b, n - 1), v[n - 1])
    }
}

proof fn lemma_row_xor_affine(mat: BoolMatrix, v: Seq<u128>, b: int, n: nat)
    requires
        0 <= b < 8,
        n <= 8,
        mat.nrows() == 8,
        mat.ncols() == 8,
        forall|i: int, j: int| 0 <= i < 8 && 0 <= j < 8 ==> #[trigger] mat.entry(i, j) == affine_entry(i, j),
    ensures
        row_xor(mat, v, b, n) == affine_xor(v, b, n),
    decreases n,
{
    if n > 0 {
        lemma_row_xor_affine(mat, v, b, (n - 1) as nat);
    }
}

/// The affine output map of the AES S-box applied to the masked inverse:
/// remove the zero flag, multiply by the affine matrix and add `0x63`.
pub fn sbox_affine(state: &OneHotState, inv: &ShareMatrix, zero: Share) -> (out: ShareMatrix)
    requires
        inv.wf(),
        inv.nrows() == 8,
        inv.ncols() == 1,
    ensures
        out.wf(),
        out.nrows() == 8,
        out.ncols() == 1,
        forall|b: int| 0 <= b < 8 ==> #[trigger] out.entry(b, 0) == affine_xor(
            Seq::new(8, |i: int| if i == 0 { inv.entry(0, 0) ^ zero.0 } else { inv.entry(i, 0) }),
            b,
            8,
        ) ^ sel(b == 0 || b == 1 || b == 5 || b == 6, state.delta),
{
    let unmasked = sbox_mask(inv, zero);
    let mat = aes_linear_matrix();
    let mut out = ShareMatrix::mul_bool_matrix(&mat, &unmasked);
    let shift = ShareMatrix::constant(state, &aes_linear_shift());
    out.xor_assign(&shift);
    proof {
        let v = Seq::new(8, |j: int| unmasked.entry(j, 0));
        assert(v =~= Seq::new(8, |i: int| if i == 0 { inv.entry(0, 0) ^ zero.0 } else { inv.entry(i, 0) }));
        assert forall|b: int| 0 <= b < 8 implies row_xor(mat, v, b, 8) == #[trigger] affine_xor(v, b, 8) by {
            lemma_row_xor_affine(mat, v, b, 8);
        }
    }
    out
}

} // verus!
