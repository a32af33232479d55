use crate::matrix::{raw_column, raw_get, raw_row, DenseMatrix};
use crate::scalar::Scalar;
use vstd::prelude::*;

verus! {

/// A sparse matrix, stored by columns: column `c` holds the entries at the positions from
/// `colptr[c]` up to `colptr[c + 1]`.
pub struct CscMatrix<T> {
    pub m: usize,
    pub n: usize,
    pub colptr: Vec<usize>,
    pub rowval: Vec<usize>,
    pub nzval: Vec<T>,
}

/// The column pointers split `len` entries into consecutive columns.
pub open spec fn splits(colptr: Seq<usize>, len: nat) -> bool {
    &&& colptr.len() >= 1
    &&& colptr[0] == 0
    &&& colptr[colptr.len() - 1] <= len
    &&& forall|a: int, b: int| 0 <= a <= b < colptr.len() ==> #[trigger] colptr[a] <= #[trigger] colptr[b]
}

/// The entries at the positions from `lo` up to `hi`, as pairs of row index and value.
pub open spec fn pairs<T>(rowval: Seq<usize>, nzval: Seq<T>, lo: int, hi: int) -> Seq<(usize, T)> {
    Seq::new((hi - lo) as nat, |k: int| (rowval[lo + k], nzval[lo + k]))
}

impl<T: Scalar> CscMatrix<T> {
    /// The arrays describe `n` columns whose row indices are below `m`.
    pub open spec fn wf(self) -> bool {
        &&& self.colptr@.len() == self.n + 1
        &&& splits(self.colptr@, self.rowval@.len())
        &&& self.colptr@[self.n as int] == self.rowval@.len()
        &&& self.rowval@.len() == self.nzval@.len()
        &&& forall|k: int| 0 <= k < self.rowval@.len() ==> (#[trigger] self.rowval@[k]) < self.m
    }

    /// Column `c` as pairs of row index and value, in storage order.
    pub open spec fn col(self, c: int) -> Seq<(usize, T)> {
        pairs(self.rowval@, self.nzval@, self.colptr@[c] as int, self.colptr@[c + 1] as int)
    }

    /// All columns.
    pub open spec fn cols(self) -> Seq<Seq<(usize, T)>> {
        Seq::new(self.n as nat, |c: int| self.col(c))
    }

    /// The number of stored entries.
    pub fn nnz(&self) -> (r: usize)
        ensures
            r == self.nzval@.len(),
    {
        self.nzval.len()
    }

    /// A copy of the matrix.
    pub fn duplicate(&self) -> (r: CscMatrix<T>)
        ensures
            r.m == self.m,
            r.n == self.n,
            r.colptr@ == self.colptr@,
            r.rowval@ == self.rowval@,
            r.nzval@ == self.nzval@,
    {
        CscMatrix {
            m: self.m,
            n: self.n,
            colptr: crate::vector::copied(&self.colptr),
            rowval: crate::vector::copied(&self.rowval),
            nzval: crate::vector::copied(&self.nzval),
        }
    }
}

/// The nonzero values among the first `k` of `v`, each with its index, in ascending order.
pub open spec fn nonzeros<T: Scalar>(v: Seq<T>, k: nat) -> Seq<(usize, T)>
    decreases k,
{
    if k == 0 {
        Seq::empty()
    } else {
        let front = nonzeros(v, (k - 1) as nat);
        if v[k - 1].equals(T::zero()) {
            front
        } else {
            front.push(((k - 1) as usize, v[k - 1]))
        }
    }
}

/// The nonzero entries have ascending indices below `k`, carry the values of `v`, and none
/// is left out.
pub proof fn lemma_nonzeros<T: Scalar>(v: Seq<T>, k: nat)
    requires
        k <= v.len(),
        k <= usize::MAX,
    ensures
        nonzeros(v, k).len() <= k,
        forall|a: int, b: int|
            0 <= a < b < nonzeros(v, k).len() ==> (#[trigger] nonzeros(v, k)[a]).0 < (
            #[trigger] nonzeros(v, k)[b]).0,
        forall|a: int|
            0 <= a < nonzeros(v, k).len() ==> {
                let e = #[trigger] nonzeros(v, k)[a];
                e.0 < k && e.1 == v[e.0 as int] && !e.1.equals(T::zero())
            },
        forall|j: int|
            0 <= j < k && !(#[trigger] v[j]).equals(T::zero()) ==> nonzeros(v, k).contains(
                (j as usize, v[j]),
            ),
    decreases k,
{
    if k > 0 {
        let front = nonzeros(v, (k - 1) as nat);
        let all = nonzeros(v, k);
        lemma_nonzeros(v, (k - 1) as nat);
        assert forall|j: int| 0 <= j < k && !(#[trigger] v[j]).equals(T::zero()) implies all.contains(
            (j as usize, v[j]),
        ) by {
            if j == k - 1 {
                assert(all[all.len() - 1] == (j as usize, v[j]));
            } else {
                assert(front.contains((j as usize, v[j])));
                let a = choose|a: int| 0 <= a < front.len() && front[a] == (j as usize, v[j]);
                assert(all[a] == front[a]);
            }
        }
    }
}

/// The nonzero entries depend only on the values that they are taken from.
pub proof fn lemma_nonzeros_prefix<T: Scalar>(v: Seq<T>, w: Seq<T>, k: nat)
    requires
        k <= v.len(),
        k <= w.len(),
        forall|j: int| 0 <= j < k ==> v[j] == w[j],
    ensures
        nonzeros(v, k) == nonzeros(w, k),
    decreases k,
{
    if k > 0 {
        lemma_nonzeros_prefix(v, w, (k - 1) as nat);
    }
}

/// A sparse matrix under construction: finished columns, then the open last one.
pub struct Columns<T> {
    pub colptr: Vec<usize>,
    pub rowval: Vec<usize>,
    pub nzval: Vec<T>,
}

impl<T: Scalar> Columns<T> {
    pub open spec fn wf(self) -> bool {
        &&& splits(self.colptr@, self.rowval@.len())
        &&& self.rowval@.len() == self.nzval@.len()
    }

    /// The finished columns.
    pub open spec fn closed(self) -> Seq<Seq<(usize, T)>> {
        Seq::new(
            (self.colptr@.len() - 1) as nat,
            |c: int|
                pairs(self.rowval@, self.nzval@, self.colptr@[c] as int, self.colptr@[c + 1] as int),
        )
    }

    /// The column under construction.
    pub open spec fn open_col(self) -> Seq<(usize, T)> {
        pairs(
            self.rowval@,
            self.nzval@,
            self.colptr@[self.colptr@.len() - 1] as int,
            self.rowval@.len() as int,
        )
    }

    /// No column yet.
    pub fn new() -> (r: Columns<T>)
        ensures
            r.wf(),
            r.closed() == Seq::<Seq<(usize, T)>>::empty(),
            r.open_col() == Seq::<(usize, T)>::empty(),
    {
        let mut colptr: Vec<usize> = Vec::new();
        colptr.push(0);
        let r = Columns { colptr, rowval: Vec::new(), nzval: Vec::new() };
        assert(r.closed() =~= Seq::<Seq<(usize, T)>>::empty());
        assert(r.open_col() =~= Seq::<(usize, T)>::empty());
        r
    }

    /// Appends an entry to the open column.
    pub fn push(&mut self, row: usize, val: T)
        requires
            old(self).wf(),
        ensures
            final(self).wf(),
            final(self).closed() == old(self).closed(),
            final(self).open_col() == old(self).open_col().push((row, val)),
    {
        self.rowval.push(row);
        self.nzval.push(val);
        proof {
            assert(self.closed() =~= old(self).closed()) by {
                assert forall|c: int| 0 <= c < self.closed().len() implies self.closed()[c]
                    =~= old(self).closed()[c] by {
                    let last = self.colptr@.len() - 1;
                    assert(self.colptr@[c + 1] <= self.colptr@[last]);
                }
            }
            assert(self.open_col() =~= old(self).open_col().push((row, val)));
        }
    }

    /// Finishes the open column.
    pub fn close(&mut self)
        requires
            old(self).wf(),
        ensures
            final(self).wf(),
            final(self).closed() == old(self).closed().push(old(self).open_col()),
            final(self).open_col() == Seq::<(usize, T)>::empty(),
    {
        let len: usize = self.rowval.len();
        self.colptr.push(len);
        proof {
            let last = old(self).colptr@.len() - 1;
            assert forall|a: int, b: int| 0 <= a <= b < self.colptr@.len() implies #[trigger] self.colptr@[a]
                <= #[trigger] self.colptr@[b] by {
                if a <= last {
                    assert(old(self).colptr@[a] <= old(self).colptr@[last]);
                }
            }
            assert(self.closed() =~= old(self).closed().push(old(self).open_col())) by {
                assert forall|c: int| 0 <= c < self.closed().len() implies self.closed()[c]
                    =~= old(self).closed().push(old(self).open_col())[c] by {}
            }
            assert(self.open_col() =~= Seq::<(usize, T)>::empty());
        }
    }

    /// The finished matrix with `m` rows.
    pub fn finish(self, m: usize) -> (r: CscMatrix<T>)
        requires
            self.wf(),
            self.open_col().len() == 0,
            forall|c: int, k: int|
                0 <= c < self.closed().len() && 0 <= k < self.closed()[c].len() ==> (
                #[trigger] self.closed()[c][k]).0 < m,
        ensures
            r.wf(),
            r.m == m,
            r.n == self.closed().len(),
            r.cols() == self.closed(),
    {
        let n: usize = self.colptr.len() - 1;
        let r = CscMatrix { m, n, colptr: self.colptr, rowval: self.rowval, nzval: self.nzval };
        proof {
            assert(r.cols() =~= self.closed());
            assert forall|k: int| 0 <= k < r.rowval@.len() implies (#[trigger] r.rowval@[k]) < m by {
                lemma_column_of(r.colptr@, r.rowval@.len(), k);
                let c = choose|c: int|
                    0 <= c < r.colptr@.len() - 1 && r.colptr@[c] <= k < #[trigger] r.colptr@[c + 1];
                assert(self.closed()[c][k - r.colptr@[c]].0 == r.rowval@[k]);
            }
        }
        r
    }
}

/// Every position belongs to a column.
pub proof fn lemma_column_of(colptr: Seq<usize>, len: nat, k: int)
    requires
        splits(colptr, len),
        0 <= k < colptr[colptr.len() - 1],
    ensures
        exists|c: int| 0 <= c < colptr.len() - 1 && colptr[c] <= k < #[trigger] colptr[c + 1],
    decreases colptr.len(),
{
    let last = colptr.len() - 1;
    assert(last > 0);
    if colptr[last - 1] <= k {
        assert(colptr[last - 1] <= k < colptr[(last - 1) + 1]);
    } else {
        let front = colptr.subrange(0, last as int);
        assert(splits(front, len)) by {
            assert(front[front.len() - 1] == colptr[last - 1]);
            assert(colptr[last - 1] <= colptr[last]);
        }
        lemma_column_of(front, len, k);
        let c = choose|c: int| 0 <= c < front.len() - 1 && front[c] <= k < #[trigger] front[c + 1];
        assert(colptr[c] <= k < colptr[c + 1]);
    }
}

/// The rows of a dense matrix, each as its nonzero entries.
pub open spec fn sparse_rows<T: Scalar>(a: DenseMatrix<T>, rows: nat, cols: nat) -> Seq<Seq<(usize, T)>> {
    Seq::new(rows, |r: int| nonzeros(a.row(r), cols))
}

/// The sparse matrix `csr` holds the rows of the dense matrix `a` as its columns.
pub open spec fn is_row_form<T: Scalar>(csr: CscMatrix<T>, a: DenseMatrix<T>, rows: nat, cols: nat) -> bool {
    csr.wf() && csr.n == rows && csr.m == cols && csr.cols() == sparse_rows(a, rows, cols)
}

/// Row-sparse form of a dense matrix, stored by columns of its transpose: column `r` of the
/// result holds the nonzeros of row `r` with ascending column indices.
pub fn csr_of_dense<T: Scalar>(a: &DenseMatrix<T>, rows: usize, cols: usize) -> (r: CscMatrix<T>)
    requires
        a.wf(),
        rows <= a.nrows,
        cols <= a.ncols,
    ensures
        is_row_form(r, *a, rows as nat, cols as nat),
{
    let mut out: Columns<T> = Columns::new();
    let mut i: usize = 0;
    while i < rows
        invariant
            a.wf(),
            i <= rows <= a.nrows,
            cols <= a.ncols,
            out.wf(),
            out.open_col() == Seq::<(usize, T)>::empty(),
            out.closed() =~= sparse_rows(*a, rows as nat, cols as nat).subrange(0, i as int),
        decreases rows - i,
    {
        push_dense_row(a, i, cols, &mut out);
        out.close();
        i += 1;
    }
    proof {
        assert(out.closed() =~= sparse_rows(*a, rows as nat, cols as nat));
        assert forall|c: int, k: int|
            0 <= c < out.closed().len() && 0 <= k < out.closed()[c].len() implies (
        #[trigger] out.closed()[c][k]).0 < cols by {
            lemma_nonzeros(a.row(c), cols as nat);
        }
    }
    out.finish(cols)
}

/// Appends the nonzeros among the first `n` entries of row `r` to the open column.
pub fn push_dense_row<T: Scalar>(a: &DenseMatrix<T>, r: usize, n: usize, out: &mut Columns<T>)
    requires
        a.wf(),
        r < a.nrows,
        n <= a.ncols,
        old(out).wf(),
    ensures
        final(out).wf(),
        final(out).closed() == old(out).closed(),
        final(out).open_col() == old(out).open_col() + nonzeros(a.row(r as int), n as nat),
{
    push_raw_row(&a.data, a.nrows, a.ncols, r, n, out);
}

/// Appends the nonzeros among the first `n` entries of row `r` of a matrix stored by rows to the
/// open column.
pub fn push_raw_row<T: Scalar>(
    data: &[T],
    rows: usize,
    cols: usize,
    r: usize,
    n: usize,
    out: &mut Columns<T>,
)
    requires
        data@.len() == rows * cols,
        r < rows,
        n <= cols,
        old(out).wf(),
    ensures
        final(out).wf(),
        final(out).closed() == old(out).closed(),
        final(out).open_col() == old(out).open_col() + nonzeros(
            raw_row(data@, cols as nat, r as int),
            n as nat,
        ),
{
    let ghost base = out.open_col();
    let ghost row = raw_row(data@, cols as nat, r as int);
    let mut j: usize = 0;
    assert(base + nonzeros(row, 0) =~= base);
    while j < n
        invariant
            data@.len() == rows * cols,
            row == raw_row(data@, cols as nat, r as int),
            r < rows,
            j <= n <= cols,
            out.wf(),
            out.closed() == old(out).closed(),
            out.open_col() == base + nonzeros(row, j as nat),
        decreases n - j,
    {
        let v = raw_get(data, rows, cols, r, j);
        proof {
            assert(row[j as int] == v);
            let front = nonzeros(row, j as nat);
            assert((base + front).push((j, v)) =~= base + front.push((j, v)));
        }
        if !v.equals(T::zero()) {
            out.push(j, v);
        }
        j += 1;
    }
}

/// Appends the nonzeros of column `c` above row `k` of a matrix stored by rows to the open
/// column.
pub fn push_raw_column<T: Scalar>(
    data: &[T],
    rows: usize,
    cols: usize,
    c: usize,
    k: usize,
    out: &mut Columns<T>,
)
    requires
        data@.len() == rows * cols,
        c < cols,
        k <= rows,
        old(out).wf(),
    ensures
        final(out).wf(),
        final(out).closed() == old(out).closed(),
        final(out).open_col() == old(out).open_col() + nonzeros(
            raw_column(data@, rows as nat, cols as nat, c as int),
            k as nat,
        ),
{
    let ghost base = out.open_col();
    let ghost col = raw_column(data@, rows as nat, cols as nat, c as int);
    let mut i: usize = 0;
    assert(base + nonzeros(col, 0) =~= base);
    while i < k
        invariant
            data@.len() == rows * cols,
            col == raw_column(data@, rows as nat, cols as nat, c as int),
            c < cols,
            i <= k <= rows,
            out.wf(),
            out.closed() == old(out).closed(),
            out.open_col() == base + nonzeros(col, i as nat),
        decreases k - i,
    {
        let v = raw_get(data, rows, cols, i, c);
        proof {
            assert(col[i as int] == v);
            let front = nonzeros(col, i as nat);
            assert((base + front).push((i, v)) =~= base + front.push((i, v)));
        }
        if !v.equals(T::zero()) {
            out.push(i, v);
        }
        i += 1;
    }
}

} // verus!
