//! Column-major matrices of one-hot shares.

use vstd::prelude::*;
use crate::label::{lsb, sel, lemma_xor_zero};
use crate::matrix::{cm_index, lemma_cm_index_bound, lemma_cm_index_inj, lemma_rm_index_bound, BoolMatrix};
use crate::share::{OneHotState, Role, Share};

verus! {

/// Column-major matrix of shares.
#[derive(Clone, Debug)]
pub struct ShareMatrix {
    rows: usize,
    cols: usize,
    data: Vec<Share>,
}

/// XOR of `v[j]` over the columns `j < n` where row `i` of `mat` is set.
pub open spec fn row_xor(mat: BoolMatrix, v: Seq<u128>, i: int, n: nat) -> u128
    decreases n,
{
    if n == 0 {
        0
    } else {
        row_xor(mat, v, i, (n - 1) as nat) ^ sel(mat.entry(i, n - 1), v[n - 1])
    }
}

impl ShareMatrix {
    /// The buffer holds exactly `rows * cols` shares.
    pub closed spec fn wf(&self) -> bool {
        &&& self.data@.len() == self.rows * self.cols
        &&& self.rows * self.cols <= usize::MAX
    }

    /// Number of rows.
    pub closed spec fn nrows(&self) -> nat {
        self.rows as nat
    }

    /// Number of columns.
    pub closed spec fn ncols(&self) -> nat {
        self.cols as nat
    }

    /// The label at `(row, col)`.
    pub closed spec fn entry(&self, row: int, col: int) -> u128 {
        self.data@[cm_index(self.rows as nat, row as nat, col as nat) as int].0
    }

    /// A well-formed matrix has at most `usize::MAX` entries.
    pub proof fn lemma_size(&self)
        requires
            self.wf(),
        ensures
            self.nrows() * self.ncols() <= usize::MAX,
    {
    }

    /// Create an all-zero matrix.
    pub fn new(rows: usize, cols: usize) -> (m: ShareMatrix)
        requires
            rows * cols <= usize::MAX,
        ensures
            m.wf(),
            m.nrows() == rows,
            m.ncols() == cols,
            forall|i: int, j: int| 0 <= i < rows && 0 <= j < cols ==> #[trigger] m.entry(i, j) == 0,
    {
        let n = rows * cols;
        let mut data: Vec<Share> = Vec::new();
        let mut k: usize = 0;
        while k < n
            invariant
                k <= n,
                data@.len() == k,
                forall|q: int| 0 <= q < k ==> (#[trigger] data@[q]).0 == 0,
            decreases n - k,
        {
            data.push(Share(0));
            k = k + 1;
        }
        let m = ShareMatrix { rows, cols, data };
        assert forall|i: int, j: int| 0 <= i < rows && 0 <= j < cols implies #[trigger] m.entry(i, j) == 0 by {
            lemma_cm_index_bound(rows as nat, cols as nat, i as nat, j as nat);
        }
        m
    }

    /// Create an all-zero column vector.
    pub fn vector(len: usize) -> (m: ShareMatrix)
        ensures
            m.wf(),
            m.nrows() == len,
            m.ncols() == 1,
            forall|i: int| 0 <= i < len ==> #[trigger] m.entry(i, 0) == 0,
    {
        ShareMatrix::new(len, 1)
    }

    /// Number of rows.
    pub fn rows(&self) -> (r: usize)
        ensures
            r == self.nrows(),
    {
        self.rows
    }

    /// Number of columns.
    pub fn cols(&self) -> (c: usize)
        ensures
            c == self.ncols(),
    {
        self.cols
    }

    fn idx(&self, row: usize, col: usize) -> (k: usize)
        requires
            self.wf(),
            row < self.nrows(),
            col < self.ncols(),
        ensures
            k == cm_index(self.nrows(), row as nat, col as nat),
            k < self.data@.len(),
    {
        proof {
            lemma_cm_index_bound(self.rows as nat, self.cols as nat, row as nat, col as nat);
            assert(col * self.rows <= col * self.rows + row);
        }
        col * self.rows + row
    }

    /// The share at `(row, col)`.
    pub fn get(&self, row: usize, col: usize) -> (s: Share)
        requires
            self.wf(),
            row < self.nrows(),
            col < self.ncols(),
        ensures
            s.0 == self.entry(row as int, col as int),
    {
        let k = self.idx(row, col);
        self.data[k]
    }

    /// Replace the share at `(row, col)`.
    pub fn set(&mut self, row: usize, col: usize, s: Share)
        requires
            old(self).wf(),
            row < old(self).nrows(),
            col < old(self).ncols(),
        ensures
            final(self).wf(),
            final(self).nrows() == old(self).nrows(),
            final(self).ncols() == old(self).ncols(),
            forall|i: int, j: int| 0 <= i < old(self).nrows() && 0 <= j < old(self).ncols() ==> #[trigger] final(self).entry(i, j)
                == if i == row && j == col { s.0 } else { old(self).entry(i, j) },
    {
        let k = self.idx(row, col);
        self.data.set(k, s);
        proof {
            assert forall|i: int, j: int| 0 <= i < old(self).nrows() && 0 <= j < old(self).ncols() implies #[trigger] self.entry(i, j)
                == if i == row && j == col { s.0 } else { old(self).entry(i, j) } by {
                lemma_cm_index_bound(self.rows as nat, self.cols as nat, i as nat, j as nat);
                if !(i == row && j == col) {
                    if cm_index(self.rows as nat, i as nat, j as nat) == k {
                        lemma_cm_index_inj(self.rows as nat, i as nat, j as nat, row as nat, col as nat);
                    }
                }
            }
        }
    }

    /// The `i`th share of a column vector.
    pub fn at(&self, i: usize) -> (s: Share)
        requires
            self.wf(),
            self.ncols() == 1,
            i < self.nrows(),
        ensures
            s.0 == self.entry(i as int, 0),
    {
        self.get(i, 0)
    }

    /// Replace the `i`th share of a column vector.
    pub fn set_at(&mut self, i: usize, s: Share)
        requires
            old(self).wf(),
            old(self).ncols() == 1,
            i < old(self).nrows(),
        ensures
            final(self).wf(),
            final(self).nrows() == old(self).nrows(),
            final(self).ncols() == 1,
            forall|k: int| 0 <= k < old(self).nrows() ==> #[trigger] final(self).entry(k, 0)
                == if k == i { s.0 } else { old(self).entry(k, 0) },
    {
        self.set(i, 0, s);
    }

    /// XOR a share into a single cell.
    pub fn xor_cell(&mut self, row: usize, col: usize, share: Share)
        requires
            old(self).wf(),
            row < old(self).nrows(),
            col < old(self).ncols(),
        ensures
            final(self).wf(),
            final(self).nrows() == old(self).nrows(),
            final(self).ncols() == old(self).ncols(),
            forall|i: int, j: int| 0 <= i < old(self).nrows() && 0 <= j < old(self).ncols() ==> #[trigger] final(self).entry(i, j)
                == if i == row && j == col { old(self).entry(i, j) ^ share.0 } else { old(self).entry(i, j) },
    {
        let cur = self.get(row, col);
        self.set(row, col, cur.xor(share));
    }

    /// XOR another matrix of the same dimensions into this one.
    pub fn xor_assign(&mut self, other: &ShareMatrix)
        requires
            old(self).wf(),
            other.wf(),
            old(self).nrows() == other.nrows(),
            old(self).ncols() == other.ncols(),
        ensures
            final(self).wf(),
            final(self).nrows() == old(self).nrows(),
            final(self).ncols() == old(self).ncols(),
            forall|i: int, j: int| 0 <= i < old(self).nrows() && 0 <= j < old(self).ncols() ==> #[trigger] final(self).entry(i, j)
                == old(self).entry(i, j) ^ other.entry(i, j),
    {
        let mut i: usize = 0;
        while i < self.rows
            invariant
                self.wf(),
                other.wf(),
                i <= self.nrows(),
                self.nrows() == old(self).nrows() == other.nrows(),
                self.ncols() == old(self).ncols() == other.ncols(),
                forall|a: int, b: int| 0 <= a < self.nrows() && 0 <= b < self.ncols() ==> #[trigger] self.entry(a, b)
                    == if a < i { old(self).entry(a, b) ^ other.entry(a, b) } else { old(self).entry(a, b) },
            decreases self.rows - i,
        {
            let mut j: usize = 0;
            while j < self.cols
                invariant
                    self.wf(),
                    other.wf(),
                    i < self.nrows(),
                    j <= self.ncols(),
                    self.nrows() == old(self).nrows() == other.nrows(),
                    self.ncols() == old(self).ncols() == other.ncols(),
                    forall|a: int, b: int| 0 <= a < self.nrows() && 0 <= b < self.ncols() ==> #[trigger] self.entry(a, b)
                        == if a < i || (a == i && b < j) { old(self).entry(a, b) ^ other.entry(a, b) } else { old(self).entry(a, b) },
                decreases self.cols - j,
            {
                let o = other.get(i, j);
                self.xor_cell(i, j, o);
                j = j + 1;
            }
            i = i + 1;
        }
    }

    /// XOR the transpose of `other` into this matrix.
    pub fn xor_transpose_assign(&mut self, other: &ShareMatrix)
        requires
            old(self).wf(),
            other.wf(),
            old(self).nrows() == other.ncols(),
            old(self).ncols() == other.nrows(),
        ensures
            final(self).wf(),
            final(self).nrows() == old(self).nrows(),
            final(self).ncols() == old(self).ncols(),
            forall|i: int, j: int| 0 <= i < old(self).nrows() && 0 <= j < old(self).ncols() ==> #[trigger] final(self).entry(i, j)
                == old(self).entry(i, j) ^ other.entry(j, i),
    {
        let mut i: usize = 0;
        while i < self.rows
            invariant
                self.wf(),
                other.wf(),
                i <= self.nrows(),
                self.nrows() == old(self).nrows() == other.ncols(),
                self.ncols() == old(self).ncols() == other.nrows(),
                forall|a: int, b: int| 0 <= a < self.nrows() && 0 <= b < self.ncols() ==> #[trigger] self.entry(a, b)
                    == if a < i { old(self).entry(a, b) ^ other.entry(b, a) } else { old(self).entry(a, b) },
            decreases self.rows - i,
        {
            let mut j: usize = 0;
            while j < self.cols
                invariant
                    self.wf(),
                    other.wf(),
                    i < self.nrows(),
                    j <= self.ncols(),
                    self.nrows() == old(self).nrows() == other.ncols(),
                    self.ncols() == old(self).ncols() == other.nrows(),
                    forall|a: int, b: int| 0 <= a < self.nrows() && 0 <= b < self.ncols() ==> #[trigger] self.entry(a, b)
                        == if a < i || (a == i && b < j) { old(self).entry(a, b) ^ other.entry(b, a) } else { old(self).entry(a, b) },
                decreases self.cols - j,
            {
                let o = other.get(j, i);
                self.xor_cell(i, j, o);
                j = j + 1;
            }
            i = i + 1;
        }
    }

    /// Generator side of revealing every share: returns the colour bits
    /// to send (in column-major order) and clears them.
    pub fn reveal_generator(&mut self) -> (bits: Vec<bool>)
        requires
            old(self).wf(),
        ensures
            final(self).wf(),
            final(self).nrows() == old(self).nrows(),
            final(self).ncols() == old(self).ncols(),
            bits@.len() == old(self).nrows() * old(self).ncols(),
            forall|i: int, j: int| 0 <= i < old(self).nrows() && 0 <= j < old(self).ncols() ==> #[trigger] final(self).entry(i, j)
                == old(self).entry(i, j) & !1u128,
            forall|i: int, j: int| 0 <= i < old(self).nrows() && 0 <= j < old(self).ncols() ==> bits@[cm_index(
                old(self).nrows(),
                i as nat,
                j as nat,
            ) as int] == lsb(#[trigger] old(self).entry(i, j)),
    {
        let n = self.data.len();
        let mut bits: Vec<bool> = Vec::new();
        let mut k: usize = 0;
        while k < n
            invariant
                k <= n,
                n == self.data@.len(),
                self.wf(),
                self.rows == old(self).rows,
                self.cols == old(self).cols,
                bits@.len() == k,
                forall|a: int| 0 <= a < k ==> #[trigger] bits@[a] == lsb(old(self).data@[a].0),
                forall|a: int| 0 <= a < n ==> #[trigger] self.data@[a].0
                    == if a < k { old(self).data@[a].0 & !1u128 } else { old(self).data@[a].0 },
            decreases n - k,
        {
            let mut s = self.data[k];
            bits.push(s.color());
            s.clear_color();
            self.data.set(k, s);
            k = k + 1;
        }
        proof {
            assert forall|i: int, j: int| 0 <= i < old(self).nrows() && 0 <= j < old(self).ncols() implies #[trigger] self.entry(i, j)
                == old(self).entry(i, j) & !1u128 by {
                lemma_cm_index_bound(self.rows as nat, self.cols as nat, i as nat, j as nat);
            }
            assert forall|i: int, j: int| 0 <= i < old(self).nrows() && 0 <= j < old(self).ncols() implies bits@[cm_index(
                old(self).nrows(),
                i as nat,
                j as nat,
            ) as int] == lsb(#[trigger] old(self).entry(i, j)) by {
                lemma_cm_index_bound(self.rows as nat, self.cols as nat, i as nat, j as nat);
            }
        }
        bits
    }

    /// Evaluator side of revealing every share: XOR the received colour
    /// bits (in column-major order) into the shares.
    pub fn reveal_evaluator(&mut self, bits: &[bool])
        requires
            old(self).wf(),
            bits@.len() == old(self).nrows() * old(self).ncols(),
        ensures
            final(self).wf(),
            final(self).nrows() == old(self).nrows(),
            final(self).ncols() == old(self).ncols(),
            forall|i: int, j: int| 0 <= i < old(self).nrows() && 0 <= j < old(self).ncols() ==> #[trigger] final(self).entry(i, j)
                == if bits@[cm_index(old(self).nrows(), i as nat, j as nat) as int] {
                    old(self).entry(i, j) ^ 1u128
                } else {
                    old(self).entry(i, j)
                },
    {
        let n = self.data.len();
        let mut k: usize = 0;
        while k < n
            invariant
                k <= n,
                n == self.data@.len(),
                n == bits@.len(),
                self.wf(),
                self.rows == old(self).rows,
                self.cols == old(self).cols,
                forall|a: int| 0 <= a < n ==> #[trigger] self.data@[a].0
                    == if a < k && bits@[a] { old(self).data@[a].0 ^ 1u128 } else { old(self).data@[a].0 },
            decreases n - k,
        {
            let mut s = self.data[k];
            s.xor_color(bits[k]);
            self.data.set(k, s);
            k = k + 1;
        }
        proof {
            assert forall|i: int, j: int| 0 <= i < old(self).nrows() && 0 <= j < old(self).ncols() implies #[trigger] self.entry(i, j)
                == if bits@[cm_index(old(self).nrows(), i as nat, j as nat) as int] {
                    old(self).entry(i, j) ^ 1u128
                } else {
                    old(self).entry(i, j)
                } by {
                lemma_cm_index_bound(self.rows as nat, self.cols as nat, i as nat, j as nat);
            }
        }
    }

    /// The shares of a column vector, in order.
    pub fn as_slice(&self) -> (s: &[Share])
        requires
            self.wf(),
            self.ncols() == 1,
        ensures
            s@.len() == self.nrows(),
            forall|i: int| 0 <= i < self.nrows() ==> #[trigger] s@[i].0 == self.entry(i, 0),
    {
        proof {
            assert forall|i: int| 0 <= i < self.nrows() implies #[trigger] self.data@[i].0 == self.entry(i, 0) by {
                assert(cm_index(self.rows as nat, i as nat, 0) == i);
            }
        }
        self.data.as_slice()
    }

    /// Multiply a Boolean matrix by a share vector: entry `i` is the XOR of
    /// the shares `vec[j]` for which `mat[i][j]` is set.
    pub fn mul_bool_matrix(mat: &BoolMatrix, vec: &ShareMatrix) -> (out: ShareMatrix)
        requires
            mat.wf(),
            vec.wf(),
            mat.ncols() == vec.nrows(),
            vec.ncols() == 1,
        ensures
            out.wf(),
            out.nrows() == mat.nrows(),
            out.ncols() == 1,
            forall|i: int| 0 <= i < mat.nrows() ==> #[trigger] out.entry(i, 0) == row_xor(
                *mat,
                Seq::new(vec.nrows(), |j: int| vec.entry(j, 0)),
                i,
                mat.ncols(),
            ),
    {
        let ghost v = Seq::new(vec.nrows(), |j: int| vec.entry(j, 0));
        let mut out = ShareMatrix::vector(mat.rows());
        let mut i: usize = 0;
        while i < mat.rows()
            invariant
                mat.wf(),
                vec.wf(),
                out.wf(),
                mat.ncols() == vec.nrows(),
                vec.ncols() == 1,
                v == Seq::new(vec.nrows(), |j: int| vec.entry(j, 0)),
                i <= mat.nrows(),
                out.nrows() == mat.nrows(),
                out.ncols() == 1,
                forall|k: int| 0 <= k < mat.nrows() ==> #[trigger] out.entry(k, 0)
                    == if k < i { row_xor(*mat, v, k, mat.ncols()) } else { 0 },
            decreases mat.nrows() - i,
        {
            let mut j: usize = 0;
            while j < mat.cols()
                invariant
                    mat.wf(),
                    vec.wf(),
                    out.wf(),
                    mat.ncols() == vec.nrows(),
                    vec.ncols() == 1,
                    v == Seq::new(vec.nrows(), |j: int| vec.entry(j, 0)),
                    i < mat.nrows(),
                    j <= mat.ncols(),
                    out.nrows() == mat.nrows(),
                    out.ncols() == 1,
                    forall|k: int| 0 <= k < mat.nrows() ==> #[trigger] out.entry(k, 0)
                        == if k < i { row_xor(*mat, v, k, mat.ncols()) } else if k == i { row_xor(*mat, v, k, j as nat) } else { 0 },
                decreases mat.ncols() - j,
            {
                if mat.get(i, j) {
                    let s = vec.get(j, 0);
                    out.xor_cell(i, 0, s);
                }
                proof {
                    let r = row_xor(*mat, v, i as int, j as nat);
                    lemma_xor_zero(r);
                }
                j = j + 1;
            }
            proof {
                assert(row_xor(*mat, v, i as int, 0) == 0);
            }
            i = i + 1;
        }
        out
    }

    /// The colour bits as a Boolean matrix.
    pub fn colors(&self) -> (m: BoolMatrix)
        requires
            self.wf(),
        ensures
            m.wf(),
            m.nrows() == self.nrows(),
            m.ncols() == self.ncols(),
            forall|i: int, j: int| 0 <= i < self.nrows() && 0 <= j < self.ncols() ==> #[trigger] m.entry(i, j)
                == lsb(self.entry(i, j)),
    {
        let mut out = BoolMatrix::new(self.rows, self.cols);
        let mut i: usize = 0;
        while i < self.rows
            invariant
                self.wf(),
                out.wf(),
                i <= self.nrows(),
                out.nrows() == self.nrows(),
                out.ncols() == self.ncols(),
                forall|a: int, b: int| 0 <= a < self.nrows() && 0 <= b < self.ncols() ==> #[trigger] out.entry(a, b)
                    == if a < i { lsb(self.entry(a, b)) } else { false },
            decreases self.rows - i,
        {
            let mut j: usize = 0;
            while j < self.cols
                invariant
                    self.wf(),
                    out.wf(),
                    i < self.nrows(),
                    j <= self.ncols(),
                    out.nrows() == self.nrows(),
                    out.ncols() == self.ncols(),
                    forall|a: int, b: int| 0 <= a < self.nrows() && 0 <= b < self.ncols() ==> #[trigger] out.entry(a, b)
                        == if a < i || (a == i && b < j) { lsb(self.entry(a, b)) } else { false },
                decreases self.cols - j,
            {
                let c = self.get(i, j).color();
                out.set(i, j, c);
                j = j + 1;
            }
            i = i + 1;
        }
        out
    }

    /// The transpose as a new matrix.
    pub fn transpose(&self) -> (t: ShareMatrix)
        requires
            self.wf(),
        ensures
            t.wf(),
            t.nrows() == self.ncols(),
            t.ncols() == self.nrows(),
            forall|i: int, j: int| 0 <= i < self.ncols() && 0 <= j < self.nrows() ==> #[trigger] t.entry(i, j)
                == self.entry(j, i),
    {
        assert(self.cols * self.rows == self.rows * self.cols) by (nonlinear_arith);
        let mut out = ShareMatrix::new(self.cols, self.rows);
        let mut i: usize = 0;
        while i < self.rows
            invariant
                self.wf(),
                out.wf(),
                i <= self.nrows(),
                out.nrows() == self.ncols(),
                out.ncols() == self.nrows(),
                forall|a: int, b: int| 0 <= a < self.ncols() && 0 <= b < self.nrows() ==> #[trigger] out.entry(a, b)
                    == if b < i { self.entry(b, a) } else { 0 },
            decreases self.rows - i,
        {
            let mut j: usize = 0;
            while j < self.cols
                invariant
                    self.wf(),
                    out.wf(),
                    i < self.nrows(),
                    j <= self.ncols(),
                    out.nrows() == self.ncols(),
                    out.ncols() == self.nrows(),
                    forall|a: int, b: int| 0 <= a < self.ncols() && 0 <= b < self.nrows() ==> #[trigger] out.entry(a, b)
                        == if b < i || (b == i && a < j) { self.entry(b, a) } else { 0 },
                decreases self.cols - j,
            {
                let s = self.get(i, j);
                out.set(j, i, s);
                j = j + 1;
            }
            i = i + 1;
        }
        out
    }

    /// The constant matrix of a party: each entry is its share of the
    /// corresponding bit.
    pub fn constant(ctx: &OneHotState, matrix: &BoolMatrix) -> (m: ShareMatrix)
        requires
            matrix.wf(),
        ensures
            m.wf(),
            m.nrows() == matrix.nrows(),
            m.ncols() == matrix.ncols(),
            forall|i: int, j: int| 0 <= i < matrix.nrows() && 0 <= j < matrix.ncols() ==> #[trigger] m.entry(i, j)
                == sel(matrix.entry(i, j), ctx.delta),
    {
        proof { matrix.lemma_size(); }
        let mut out = ShareMatrix::new(matrix.rows(), matrix.cols());
        let mut i: usize = 0;
        while i < matrix.rows()
            invariant
                matrix.wf(),
                out.wf(),
                i <= matrix.nrows(),
                out.nrows() == matrix.nrows(),
                out.ncols() == matrix.ncols(),
                forall|a: int, b: int| 0 <= a < matrix.nrows() && 0 <= b < matrix.ncols() ==> #[trigger] out.entry(a, b)
                    == if a < i { sel(matrix.entry(a, b), ctx.delta) } else { 0 },
            decreases matrix.nrows() - i,
        {
            let mut j: usize = 0;
            while j < matrix.cols()
                invariant
                    matrix.wf(),
                    out.wf(),
                    i < matrix.nrows(),
                    j <= matrix.ncols(),
                    out.nrows() == matrix.nrows(),
                    out.ncols() == matrix.ncols(),
                    forall|a: int, b: int| 0 <= a < matrix.nrows() && 0 <= b < matrix.ncols() ==> #[trigger] out.entry(a, b)
                        == if a < i || (a == i && b < j) { sel(matrix.entry(a, b), ctx.delta) } else { 0 },
                decreases matrix.ncols() - j,
            {
                let s = ctx.bit(matrix.get(i, j));
                out.set(i, j, s);
                j = j + 1;
            }
            i = i + 1;
        }
        out
    }

    /// A matrix of shares of random bits: `bits` are the generator's
    /// sampled bits in row-major order (the evaluator's shares are zero).
    pub fn uniform(ctx: &OneHotState, rows: usize, cols: usize, bits: &[bool]) -> (m: ShareMatrix)
        requires
            rows * cols <= usize::MAX,
            bits@.len() == rows * cols,
        ensures
            m.wf(),
            m.nrows() == rows,
            m.ncols() == cols,
            forall|i: int, j: int| 0 <= i < rows && 0 <= j < cols ==> #[trigger] m.entry(i, j)
                == if ctx.role == Role::Generator { sel(bits@[i * cols + j], ctx.delta) } else { 0 },
    {
        let mut out = ShareMatrix::new(rows, cols);
        let mut i: usize = 0;
        while i < rows
            invariant
                out.wf(),
                i <= rows,
                rows * cols <= usize::MAX,
                bits@.len() == rows * cols,
                out.nrows() == rows,
                out.ncols() == cols,
                forall|a: int, b: int| 0 <= a < rows && 0 <= b < cols ==> #[trigger] out.entry(a, b)
                    == if a < i { if ctx.role == Role::Generator { sel(bits@[a * cols + b], ctx.delta) } else { 0 } } else { 0 },
            decreases rows - i,
        {
            let mut j: usize = 0;
            while j < cols
                invariant
                    out.wf(),
                    i < rows,
                    j <= cols,
                    rows * cols <= usize::MAX,
                    bits@.len() == rows * cols,
                    out.nrows() == rows,
                    out.ncols() == cols,
                    forall|a: int, b: int| 0 <= a < rows && 0 <= b < cols ==> #[trigger] out.entry(a, b)
                        == if a < i || (a == i && b < j) { if ctx.role == Role::Generator { sel(bits@[a * cols + b], ctx.delta) } else { 0 } } else { 0 },
                decreases cols - j,
            {
                proof {
                    lemma_rm_index_bound(rows as nat, cols as nat, i as nat, j as nat);
                }
                let s = ctx.uniform_bit(bits[i * cols + j]);
                out.set(i, j, s);
                j = j + 1;
            }
            i = i + 1;
        }
        out
    }
}

/// Decode generator and evaluator shares into a Boolean matrix: an entry
/// is true when the two shares differ (by delta).
pub fn decode_matrix(delta: u128, generator: &ShareMatrix, evaluator: &ShareMatrix) -> (out: BoolMatrix)
    requires
        generator.wf(),
        evaluator.wf(),
        generator.nrows() == evaluator.nrows(),
        generator.ncols() == evaluator.ncols(),
        forall|i: int, j: int| 0 <= i < generator.nrows() && 0 <= j < generator.ncols() ==> (#[trigger] generator.entry(i, j)
            ^ evaluator.entry(i, j) == 0 || generator.entry(i, j) ^ evaluator.entry(i, j) == delta),
    ensures
        out.wf(),
        out.nrows() == generator.nrows(),
        out.ncols() == generator.ncols(),
        forall|i: int, j: int| 0 <= i < generator.nrows() && 0 <= j < generator.ncols() ==> #[trigger] out.entry(i, j)
            == (generator.entry(i, j) ^ evaluator.entry(i, j) != 0),
{
    let mut out = BoolMatrix::new(generator.rows(), generator.cols());
    let mut i: usize = 0;
    while i < generator.rows()
        invariant
            generator.wf(),
            evaluator.wf(),
            out.wf(),
            generator.nrows() == evaluator.nrows(),
            generator.ncols() == evaluator.ncols(),
            i <= generator.nrows(),
            out.nrows() == generator.nrows(),
            out.ncols() == generator.ncols(),
            forall|a: int, b: int| 0 <= a < generator.nrows() && 0 <= b < generator.ncols() ==> #[trigger] out.entry(a, b)
                == if a < i { generator.entry(a, b) ^ evaluator.entry(a, b) != 0 } else { false },
        decreases generator.nrows() - i,
    {
        let mut j: usize = 0;
        while j < generator.cols()
            invariant
                generator.wf(),
                evaluator.wf(),
                out.wf(),
                generator.nrows() == evaluator.nrows(),
                generator.ncols() == evaluator.ncols(),
                i < generator.nrows(),
                j <= generator.ncols(),
                out.nrows() == generator.nrows(),
                out.ncols() == generator.ncols(),
                forall|a: int, b: int| 0 <= a < generator.nrows() && 0 <= b < generator.ncols() ==> #[trigger] out.entry(a, b)
                    == if a < i || (a == i && b < j) { generator.entry(a, b) ^ evaluator.entry(a, b) != 0 } else { false },
            decreases generator.ncols() - j,
        {
            let val = generator.get(i, j).0 ^ evaluator.get(i, j).0;
            if val == 0 {
                out.set(i, j, false);
            } else {
                out.set(i, j, true);
            }
            j = j + 1;
        }
        i = i + 1;
    }
    out
}

} // verus!
