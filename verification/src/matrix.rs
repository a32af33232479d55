use crate::scalar::Scalar;
use crate::vector::{dot_spec, dot_upto, filled, constant};
use vstd::prelude::*;

verus! {

/// Row-major positions stay inside the matrix.
pub proof fn lemma_position(i: int, j: int, rows: int, cols: int)
    requires
        0 <= i < rows,
        0 <= j < cols,
    ensures
        0 <= i * cols + j < rows * cols,
        i * cols <= i * cols + j,
        (i + 1) * cols <= rows * cols,
{
    assert(0 <= i * cols) by (nonlinear_arith)
        requires
            0 <= i,
            0 <= cols,
    ;
    assert((i + 1) * cols <= rows * cols) by (nonlinear_arith)
        requires
            i + 1 <= rows,
            0 <= cols,
    ;
    assert((i + 1) * cols == i * cols + cols) by (nonlinear_arith);
}

/// Two row-major positions with column indices in range are equal only for equal indices.
pub proof fn lemma_position_unique(i: int, j: int, a: int, b: int, cols: int)
    requires
        0 <= j < cols,
        0 <= b < cols,
        i * cols + j == a * cols + b,
    ensures
        i == a,
        j == b,
{
    assert((i - a) * cols == b - j) by (nonlinear_arith)
        requires
            i * cols + j == a * cols + b,
    ;
    if i > a {
        assert((i - a) * cols >= cols) by (nonlinear_arith)
            requires
                i - a >= 1,
                cols >= 0,
        ;
    }
    if i < a {
        assert((i - a) * cols <= -cols) by (nonlinear_arith)
            requires
                i - a <= -1,
                cols >= 0,
        ;
    }
}

/// Row `i` of the matrix whose rows of length `cols` stand one behind the other in `data`.
pub open spec fn raw_row<T>(data: Seq<T>, cols: nat, i: int) -> Seq<T> {
    Seq::new(cols, |j: int| data[i * cols + j])
}

/// Column `j` of the matrix whose rows of length `cols` stand one behind the other in `data`.
pub open spec fn raw_column<T>(data: Seq<T>, rows: nat, cols: nat, j: int) -> Seq<T> {
    Seq::new(rows, |i: int| data[i * cols + j])
}

/// The entry in row `i` and column `j` of a matrix stored by rows of length `cols`.
pub fn raw_get<T: Copy>(data: &[T], rows: usize, cols: usize, i: usize, j: usize) -> (r: T)
    requires
        data@.len() == rows * cols,
        i < rows,
        j < cols,
    ensures
        r == data@[i * cols + j],
{
    let len: usize = data.len();
    proof {
        lemma_position(i as int, j as int, rows as int, cols as int);
    }
    data[i * cols + j]
}

/// A dense matrix, stored by rows.
pub struct DenseMatrix<T> {
    pub nrows: usize,
    pub ncols: usize,
    pub data: Vec<T>,
}

impl<T: Scalar> DenseMatrix<T> {
    /// The storage holds exactly the entries.
    pub open spec fn wf(self) -> bool {
        self.data@.len() == self.nrows * self.ncols
    }

    /// The entry in row `i` and column `j`.
    pub open spec fn at(self, i: int, j: int) -> T {
        self.data@[i * self.ncols + j]
    }

    /// Row `i` as a vector.
    pub open spec fn row(self, i: int) -> Seq<T> {
        raw_row(self.data@, self.ncols as nat, i)
    }

    /// Column `j` as a vector.
    pub open spec fn column(self, j: int) -> Seq<T> {
        raw_column(self.data@, self.nrows as nat, self.ncols as nat, j)
    }

    /// The matrix has this many rows and columns.
    pub open spec fn sized(self, nrows: nat, ncols: nat) -> bool {
        self.wf() && self.nrows == nrows && self.ncols == ncols
    }

    /// Every entry is given by `f`.
    pub open spec fn entries_are(self, f: spec_fn(int, int) -> T) -> bool {
        forall|i: int, j: int|
            0 <= i < self.nrows && 0 <= j < self.ncols ==> #[trigger] self.at(i, j) == f(i, j)
    }

    /// The matrix of zeros.
    pub fn zeros(nrows: usize, ncols: usize) -> (r: DenseMatrix<T>)
        requires
            nrows * ncols <= usize::MAX,
        ensures
            r.sized(nrows as nat, ncols as nat),
            r.data@ == constant(T::zero(), (nrows * ncols) as nat),
            forall|i: int, j: int| 0 <= i < nrows && 0 <= j < ncols ==> #[trigger] r.at(i, j) == T::zero(),
    {
        let data = filled(T::zero(), nrows * ncols);
        let r = DenseMatrix { nrows, ncols, data };
        proof {
            assert forall|i: int, j: int| 0 <= i < nrows && 0 <= j < ncols implies #[trigger] r.at(i, j)
                == T::zero() by {
                lemma_position(i, j, nrows as int, ncols as int);
            }
        }
        r
    }

    /// The matrix whose rows stand one behind the other in `data`.
    pub fn from_row_major(nrows: usize, ncols: usize, data: Vec<T>) -> (r: DenseMatrix<T>)
        requires
            data@.len() == nrows * ncols,
        ensures
            r.sized(nrows as nat, ncols as nat),
            r.data == data,
    {
        DenseMatrix { nrows, ncols, data }
    }

    /// The entry in row `i` and column `j`.
    pub fn get(&self, i: usize, j: usize) -> (r: T)
        requires
            self.wf(),
            i < self.nrows,
            j < self.ncols,
        ensures
            r == self.at(i as int, j as int),
    {
        proof {
            lemma_position(i as int, j as int, self.nrows as int, self.ncols as int);
            assert(self.data@.len() == self.data.len());
        }
        self.data[i * self.ncols + j]
    }

    /// Replaces the entry in row `i` and column `j`.
    pub fn set(&mut self, i: usize, j: usize, v: T)
        requires
            old(self).wf(),
            i < old(self).nrows,
            j < old(self).ncols,
        ensures
            final(self).sized(old(self).nrows as nat, old(self).ncols as nat),
            final(self).data@ == old(self).data@.update(i * old(self).ncols + j, v),
            forall|a: int, b: int|
                0 <= a < old(self).nrows && 0 <= b < old(self).ncols ==> #[trigger] final(self).at(a, b)
                    == (if a == i && b == j {
                    v
                } else {
                    old(self).at(a, b)
                }),
    {
        proof {
            lemma_position(i as int, j as int, self.nrows as int, self.ncols as int);
            assert(self.data@.len() == self.data.len());
        }
        let k: usize = i * self.ncols + j;
        self.data[k] = v;
        proof {
            assert forall|a: int, b: int|
                0 <= a < self.nrows && 0 <= b < self.ncols implies #[trigger] self.at(a, b) == (if a == i
                && b == j {
                v
            } else {
                old(self).at(a, b)
            }) by {
                lemma_position(a, b, self.nrows as int, self.ncols as int);
                if a * self.ncols + b == k {
                    lemma_position_unique(a, b, i as int, j as int, self.ncols as int);
                }
            }
        }
    }

    /// A copy of the matrix.
    pub fn duplicate(&self) -> (r: DenseMatrix<T>)
        ensures
            r.nrows == self.nrows,
            r.ncols == self.ncols,
            r.data@ == self.data@,
    {
        DenseMatrix { nrows: self.nrows, ncols: self.ncols, data: crate::vector::copied(&self.data) }
    }

    /// The product of row `i` with the vector `v`.
    pub fn row_dot(&self, i: usize, v: &[T]) -> (r: T)
        requires
            self.wf(),
            i < self.nrows,
            v@.len() == self.ncols,
        ensures
            r == dot_spec(self.row(i as int), v@),
    {
        let mut acc = T::zero();
        let mut j: usize = 0;
        while j < self.ncols
            invariant
                self.wf(),
                i < self.nrows,
                v@.len() == self.ncols,
                j <= self.ncols,
                acc == dot_upto(self.row(i as int), v@, j as nat),
            decreases self.ncols - j,
        {
            acc = acc.plus(self.get(i, j).times(v[j]));
            j += 1;
        }
        acc
    }

    /// The product of column `j` with the vector `v`.
    pub fn column_dot(&self, j: usize, v: &[T]) -> (r: T)
        requires
            self.wf(),
            j < self.ncols,
            v@.len() == self.nrows,
        ensures
            r == dot_spec(self.column(j as int), v@),
    {
        let mut acc = T::zero();
        let mut i: usize = 0;
        while i < self.nrows
            invariant
                self.wf(),
                j < self.ncols,
                v@.len() == self.nrows,
                i <= self.nrows,
                acc == dot_upto(self.column(j as int), v@, i as nat),
            decreases self.nrows - i,
        {
            acc = acc.plus(self.get(i, j).times(v[i]));
            i += 1;
        }
        acc
    }

    /// The product of the matrix with the vector `v`.
    pub fn matvec(&self, v: &[T]) -> (r: Vec<T>)
        requires
            self.wf(),
            v@.len() == self.ncols,
        ensures
            r@ == matvec_spec(*self, v@),
    {
        let mut r: Vec<T> = Vec::with_capacity(self.nrows);
        let mut i: usize = 0;
        while i < self.nrows
            invariant
                self.wf(),
                v@.len() == self.ncols,
                i <= self.nrows,
                r@ =~= matvec_spec(*self, v@).subrange(0, i as int),
            decreases self.nrows - i,
        {
            r.push(self.row_dot(i, v));
            i += 1;
        }
        assert(r@ =~= matvec_spec(*self, v@));
        r
    }

    /// The product of the transposed matrix with the vector `v`.
    pub fn matvec_t(&self, v: &[T]) -> (r: Vec<T>)
        requires
            self.wf(),
            v@.len() == self.nrows,
        ensures
            r@ == matvec_t_spec(*self, v@),
    {
        let mut r: Vec<T> = Vec::with_capacity(self.ncols);
        let mut j: usize = 0;
        while j < self.ncols
            invariant
                self.wf(),
                v@.len() == self.nrows,
                j <= self.ncols,
                r@ =~= matvec_t_spec(*self, v@).subrange(0, j as int),
            decreases self.ncols - j,
        {
            r.push(self.column_dot(j, v));
            j += 1;
        }
        assert(r@ =~= matvec_t_spec(*self, v@));
        r
    }

    /// The number of entries of the matrix that are not zero.
    pub fn count_nonzeros(&self) -> (r: usize)
        ensures
            r == nonzero_count(self.data@, self.data@.len()),
    {
        let mut k: usize = 0;
        let mut count: usize = 0;
        while k < self.data.len()
            invariant
                k <= self.data@.len(),
                count <= k,
                count == nonzero_count(self.data@, k as nat),
            decreases self.data@.len() - k,
        {
            if !self.data[k].equals(T::zero()) {
                count += 1;
            }
            k += 1;
        }
        count
    }

    /// Whether every entry is zero.
    pub fn is_zero(&self) -> (r: bool)
        requires
            self.wf(),
        ensures
            r == zero_matrix(*self),
    {
        let mut i: usize = 0;
        while i < self.nrows
            invariant
                self.wf(),
                i <= self.nrows,
                forall|a: int, b: int|
                    0 <= a < i && 0 <= b < self.ncols ==> (#[trigger] self.at(a, b)).equals(T::zero()),
            decreases self.nrows - i,
        {
            let mut j: usize = 0;
            while j < self.ncols
                invariant
                    self.wf(),
                    i < self.nrows,
                    j <= self.ncols,
                    forall|a: int, b: int|
                        0 <= a < i && 0 <= b < self.ncols ==> (#[trigger] self.at(a, b)).equals(
                            T::zero(),
                        ),
                    forall|b: int| 0 <= b < j ==> (#[trigger] self.at(i as int, b)).equals(T::zero()),
                decreases self.ncols - j,
            {
                if !self.get(i, j).equals(T::zero()) {
                    return false;
                }
                j += 1;
            }
            i += 1;
        }
        true
    }

    /// Whether every entry off the diagonal is zero.
    pub fn is_diagonal(&self) -> (r: bool)
        requires
            self.wf(),
        ensures
            r == diagonal_matrix(*self),
    {
        let mut i: usize = 0;
        while i < self.nrows
            invariant
                self.wf(),
                i <= self.nrows,
                forall|a: int, b: int|
                    0 <= a < i && 0 <= b < self.ncols && a != b ==> (#[trigger] self.at(a, b)).equals(
                        T::zero(),
                    ),
            decreases self.nrows - i,
        {
            let mut j: usize = 0;
            while j < self.ncols
                invariant
                    self.wf(),
                    i < self.nrows,
                    j <= self.ncols,
                    forall|a: int, b: int|
                        0 <= a < i && 0 <= b < self.ncols && a != b ==> (#[trigger] self.at(
                            a,
                            b,
                        )).equals(T::zero()),
                    forall|b: int|
                        0 <= b < j && b != i ==> (#[trigger] self.at(i as int, b)).equals(T::zero()),
                decreases self.ncols - j,
            {
                if i != j && !self.get(i, j).equals(T::zero()) {
                    return false;
                }
                j += 1;
            }
            i += 1;
        }
        true
    }
}

/// Every entry is zero.
pub open spec fn zero_matrix<T: Scalar>(m: DenseMatrix<T>) -> bool {
    forall|i: int, j: int|
        0 <= i < m.nrows && 0 <= j < m.ncols ==> (#[trigger] m.at(i, j)).equals(T::zero())
}

/// Every entry off the diagonal is zero.
pub open spec fn diagonal_matrix<T: Scalar>(m: DenseMatrix<T>) -> bool {
    forall|i: int, j: int|
        0 <= i < m.nrows && 0 <= j < m.ncols && i != j ==> (#[trigger] m.at(i, j)).equals(T::zero())
}

/// How many of the first `k` values are not zero.
pub open spec fn nonzero_count<T: Scalar>(v: Seq<T>, k: nat) -> nat
    decreases k,
{
    if k == 0 {
        0
    } else {
        nonzero_count(v, (k - 1) as nat) + if v[k - 1].equals(T::zero()) {
            0nat
        } else {
            1nat
        }
    }
}

/// The product of the matrix with a vector.
pub open spec fn matvec_spec<T: Scalar>(m: DenseMatrix<T>, v: Seq<T>) -> Seq<T> {
    Seq::new(m.nrows as nat, |i: int| dot_spec(m.row(i), v))
}

/// The product of the transposed matrix with a vector.
pub open spec fn matvec_t_spec<T: Scalar>(m: DenseMatrix<T>, v: Seq<T>) -> Seq<T> {
    Seq::new(m.ncols as nat, |j: int| dot_spec(m.column(j), v))
}

} // verus!
