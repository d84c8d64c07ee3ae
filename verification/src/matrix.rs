//! Plain Boolean matrices, stored column-major.

use vstd::prelude::*;

verus! {

/// Position of entry `(row, col)` in a column-major buffer with `rows` rows.
pub open spec fn cm_index(rows: nat, row: nat, col: nat) -> nat {
    col * rows + row
}

/// An entry of a `rows` by `cols` matrix lies inside its buffer.
pub proof fn lemma_cm_index_bound(rows: nat, cols: nat, row: nat, col: nat)
    requires
        row < rows,
        col < cols,
    ensures
        cm_index(rows, row, col) < rows * cols,
{
    assert(col * rows + row < rows * cols) by (nonlinear_arith)
        requires
            row < rows,
            col < cols,
    ;
}

/// Position `k` of a column-major buffer holds entry
/// `(k % rows, k / rows)`.
pub proof fn lemma_cm_index_split(rows: nat, cols: nat, k: nat)
    requires
        k < rows * cols,
    ensures
        rows > 0,
        k % rows < rows,
        k / rows < cols,
        cm_index(rows, k % rows, k / rows) == k,
{
    assert(rows > 0) by (nonlinear_arith)
        requires
            k < rows * cols,
    ;
    assert(k / rows < cols && (k / rows) * rows + k % rows == k && k % rows < rows) by (nonlinear_arith)
        requires
            k < rows * cols,
            rows > 0,
    ;
}

/// Entry `(row, col)` in row-major order lies inside the buffer.
pub proof fn lemma_rm_index_bound(rows: nat, cols: nat, row: nat, col: nat)
    requires
        row < rows,
        col < cols,
    ensures
        row * cols + col < rows * cols,
{
    assert(row * cols + col < rows * cols) by (nonlinear_arith)
        requires
            row < rows,
            col < cols,
    ;
}

/// Distinct entries occupy distinct positions.
pub proof fn lemma_cm_index_inj(rows: nat, r1: nat, c1: nat, r2: nat, c2: nat)
    requires
        r1 < rows,
        r2 < rows,
        cm_index(rows, r1, c1) == cm_index(rows, r2, c2),
    ensures
        r1 == r2 && c1 == c2,
{
    assert(r1 == r2 && c1 == c2) by (nonlinear_arith)
        requires
            r1 < rows,
            r2 < rows,
            c1 * rows + r1 == c2 * rows + r2,
    ;
}

/// Plain Boolean matrix (column-major).
#[derive(Clone, Debug, PartialEq, Eq)]
pub struct BoolMatrix {
    rows: usize,
    cols: usize,
    data: Vec<bool>,
}

impl BoolMatrix {
    /// The buffer holds exactly `rows * cols` entries.
    pub closed spec fn wf(&self) -> bool {
        &&& self.data@.len() == self.rows * self.cols
        &&& self.rows * self.cols <= usize::MAX
    }

    /// Number of rows.
    pub closed spec fn nrows(&self) -> nat {
        self.rows as nat
    }

    /// Number of columns.
    pub closed spec fn ncols(&self) -> nat {
        self.cols as nat
    }

    /// Entry `(row, col)`.
    pub closed spec fn entry(&self, row: int, col: int) -> bool {
        self.data@[cm_index(self.rows as nat, row as nat, col as nat) as int]
    }

    /// The column-major buffer.
    pub closed spec fn buffer(&self) -> Seq<bool> {
        self.data@
    }

    /// Two well-formed matrices of the same shape with the same entries
    /// have the same buffer.
    pub proof fn lemma_entries_ext(&self, other: &BoolMatrix)
        requires
            self.wf(),
            other.wf(),
            self.nrows() == other.nrows(),
            self.ncols() == other.ncols(),
            forall|i: int, j: int| 0 <= i < self.nrows() && 0 <= j < self.ncols() ==> #[trigger] self.entry(i, j)
                == other.entry(i, j),
        ensures
            self.buffer() == other.buffer(),
    {
        assert forall|k: int| 0 <= k < self.data@.len() implies self.data@[k] == other.data@[k] by {
            lemma_cm_index_split(self.rows as nat, self.cols as nat, k as nat);
            let i = (k as nat) % (self.rows as nat);
            let j = (k as nat) / (self.rows as nat);
            assert(self.entry(i as int, j as int) == other.entry(i as int, j as int));
        }
        assert(self.data@ =~= other.data@);
    }

    /// A well-formed matrix has at most `usize::MAX` entries.
    pub proof fn lemma_size(&self)
        requires
            self.wf(),
        ensures
            self.nrows() * self.ncols() <= usize::MAX,
    {
    }

    /// Create a zero matrix.
    pub fn new(rows: usize, cols: usize) -> (m: BoolMatrix)
        requires
            rows * cols <= usize::MAX,
        ensures
            m.wf(),
            m.nrows() == rows,
            m.ncols() == cols,
            forall|i: int, j: int| 0 <= i < rows && 0 <= j < cols ==> !#[trigger] m.entry(i, j),
    {
        let n = rows * cols;
        let data = vec![false; n];
        let m = BoolMatrix { rows, cols, data };
        assert forall|i: int, j: int| 0 <= i < rows && 0 <= j < cols implies !#[trigger] m.entry(i, j) by {
            lemma_cm_index_bound(rows as nat, cols as nat, i as nat, j as nat);
        }
        m
    }

    /// Create a column vector of length `len`.
    pub fn vector(len: usize) -> (m: BoolMatrix)
        ensures
            m.wf(),
            m.nrows() == len,
            m.ncols() == 1,
            forall|i: int| 0 <= i < len ==> !#[trigger] m.entry(i, 0),
    {
        BoolMatrix::new(len, 1)
    }

    /// Construct from a flat column-major buffer of `rows * cols` entries.
    pub fn from_vec(rows: usize, cols: usize, data: Vec<bool>) -> (m: BoolMatrix)
        requires
            rows * cols == data@.len(),
        ensures
            m.wf(),
            m.nrows() == rows,
            m.ncols() == cols,
            m.buffer() == data@,
            forall|i: int, j: int| 0 <= i < rows && 0 <= j < cols ==> #[trigger] m.entry(i, j)
                == data@[cm_index(rows as nat, i as nat, j as nat) as int],
    {
        let _n = data.len();
        BoolMatrix { rows, cols, data }
    }

    /// Number of rows.
    pub fn rows(&self) -> (r: usize)
        ensures
            r == self.nrows(),
    {
        self.rows
    }

    /// Number of columns.
    pub fn cols(&self) -> (c: usize)
        ensures
            c == self.ncols(),
    {
        self.cols
    }

    /// The position `(row, col)` reaches in the column-major buffer lies
    /// inside it: always so for an entry of the matrix, and so for some
    /// positions past the last row too.
    pub open spec fn reaches_buffer(&self, row: usize, col: usize) -> bool {
        (row < self.nrows() && col < self.ncols()) || cm_index(self.nrows(), row as nat, col as nat) < self.nrows() * self.ncols()
    }

    fn idx(&self, row: usize, col: usize) -> (k: usize)
        requires
            self.wf(),
            self.reaches_buffer(row, col),
        ensures
            k == cm_index(self.nrows(), row as nat, col as nat),
            k < self.buffer().len(),
    {
        proof {
            if row < self.nrows() && col < self.ncols() {
                lemma_cm_index_bound(self.rows as nat, self.cols as nat, row as nat, col as nat);
            }
            assert(col * self.rows <= col * self.rows + row);
        }
        col * self.rows + row
    }

    /// Get an entry: the value at position `col * rows + row` of the
    /// buffer.
    pub fn get(&self, row: usize, col: usize) -> (b: bool)
        requires
            self.wf(),
            self.reaches_buffer(row, col),
        ensures
            b == self.entry(row as int, col as int),
            b == self.buffer()[cm_index(self.nrows(), row as nat, col as nat) as int],
    {
        let k = self.idx(row, col);
        self.data[k]
    }

    /// Set an entry: position `col * rows + row` of the buffer.
    pub fn set(&mut self, row: usize, col: usize, value: bool)
        requires
            old(self).wf(),
            old(self).reaches_buffer(row, col),
        ensures
            final(self).wf(),
            final(self).nrows() == old(self).nrows(),
            final(self).ncols() == old(self).ncols(),
            final(self).buffer() == old(self).buffer().update(cm_index(old(self).nrows(), row as nat, col as nat) as int, value),
            row < old(self).nrows() && col < old(self).ncols() ==> forall|i: int, j: int|
                0 <= i < old(self).nrows() && 0 <= j < old(self).ncols() ==> #[trigger] final(self).entry(i, j)
                == if i == row && j == col { value } else { old(self).entry(i, j) },
    {
        let k = self.idx(row, col);
        self.data.set(k, value);
        proof {
            assert(self.data@ == old(self).data@.update(k as int, value));
            if row < old(self).nrows() && col < old(self).ncols() {
                assert forall|i: int, j: int| 0 <= i < old(self).nrows() && 0 <= j < old(self).ncols() implies #[trigger] self.entry(i, j)
                    == if i == row && j == col { value } else { old(self).entry(i, j) } by {
                    lemma_cm_index_bound(self.rows as nat, self.cols as nat, i as nat, j as nat);
                    if !(i == row && j == col) {
                        if cm_index(self.rows as nat, i as nat, j as nat) == k {
                            lemma_cm_index_inj(self.rows as nat, i as nat, j as nat, row as nat, col as nat);
                        }
                    }
                }
            }
        }
    }

    /// Transpose into a new matrix.
    pub fn transpose(&self) -> (t: BoolMatrix)
        requires
            self.wf(),
        ensures
            t.wf(),
            t.nrows() == self.ncols(),
            t.ncols() == self.nrows(),
            forall|i: int, j: int| 0 <= i < self.ncols() && 0 <= j < self.nrows() ==> #[trigger] t.entry(i, j)
                == self.entry(j, i),
    {
                assert(self.cols * self.rows == self.rows * self.cols) by (nonlinear_arith);
        let mut out = BoolMatrix::new(self.cols, self.rows);
        let mut i: usize = 0;
        while i < self.rows
            invariant
                i <= self.nrows(),
                self.wf(),
                out.wf(),
                out.nrows() == self.ncols(),
                out.ncols() == self.nrows(),
                forall|a: int, b: int| 0 <= a < self.ncols() && 0 <= b < self.nrows() ==> #[trigger] out.entry(a, b)
                    == if b < i { self.entry(b, a) } else { false },
            decreases self.rows - i,
        {
            let mut j: usize = 0;
            while j < self.cols
                invariant
                    i < self.nrows(),
                    j <= self.ncols(),
                    self.wf(),
                    out.wf(),
                    out.nrows() == self.ncols(),
                    out.ncols() == self.nrows(),
                    forall|a: int, b: int| 0 <= a < self.ncols() && 0 <= b < self.nrows() ==> #[trigger] out.entry(a, b)
                        == if b < i || (b == i && a < j) { self.entry(b, a) } else { false },
                decreases self.cols - j,
            {
                let v = self.get(i, j);
                out.set(j, i, v);
                j = j + 1;
            }
            i = i + 1;
        }
        out
    }

    /// The outer product: entry `(i, j)` is `x[i] & y[j]`.
    pub fn outer_product(x: &[bool], y: &[bool]) -> (m: BoolMatrix)
        requires
            x@.len() * y@.len() <= usize::MAX,
        ensures
            m.wf(),
            m.nrows() == x@.len(),
            m.ncols() == y@.len(),
            forall|i: int, j: int| 0 <= i < x@.len() && 0 <= j < y@.len() ==> #[trigger] m.entry(i, j)
                == (x@[i] && y@[j]),
    {
        let mut out = BoolMatrix::new(x.len(), y.len());
        let mut i: usize = 0;
        while i < x.len()
            invariant
                i <= x@.len(),
                out.wf(),
                out.nrows() == x@.len(),
                out.ncols() == y@.len(),
                forall|a: int, b: int| 0 <= a < x@.len() && 0 <= b < y@.len() ==> #[trigger] out.entry(a, b)
                    == if a < i { x@[a] && y@[b] } else { false },
            decreases x.len() - i,
        {
            let mut j: usize = 0;
            while j < y.len()
                invariant
                    i < x@.len(),
                    j <= y@.len(),
                    out.wf(),
                    out.nrows() == x@.len(),
                    out.ncols() == y@.len(),
                    forall|a: int, b: int| 0 <= a < x@.len() && 0 <= b < y@.len() ==> #[trigger] out.entry(a, b)
                        == if a < i || (a == i && b < j) { x@[a] && y@[b] } else { false },
                decreases y.len() - j,
            {
                out.set(i, j, x[i] && y[j]);
                j = j + 1;
            }
            i = i + 1;
        }
        out
    }

    /// The underlying column-major buffer.
    pub fn as_slice(&self) -> (s: &[bool])
        requires
            self.wf(),
        ensures
            s@ == self.buffer(),
            s@.len() == self.nrows() * self.ncols(),
            forall|i: int, j: int| 0 <= i < self.nrows() && 0 <= j < self.ncols() ==> #[trigger] self.entry(i, j)
                == s@[cm_index(self.nrows(), i as nat, j as nat) as int],
    {
                self.data.as_slice()
    }
}

} // verus!
