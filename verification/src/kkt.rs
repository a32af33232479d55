use crate::matrix::{raw_column, raw_get, raw_row, DenseMatrix};
use crate::problem::QpProblem;
use crate::scalar::Scalar;
use crate::sparse::{
    is_row_form, lemma_nonzeros, nonzeros, push_dense_row, push_raw_column, push_raw_row, sparse_rows,
    Columns, CscMatrix,
};
use vstd::prelude::*;

verus! {

/// No entry stands below the diagonal.
pub open spec fn upper_triangular<T>(cols: Seq<Seq<(usize, T)>>) -> bool {
    forall|c: int, k: int|
        0 <= c < cols.len() && 0 <= k < cols[c].len() ==> (#[trigger] cols[c][k]).0 <= c
}

/// The last entry of every column stands on the diagonal.
pub open spec fn diagonal_last<T>(cols: Seq<Seq<(usize, T)>>) -> bool {
    forall|c: int|
        0 <= c < cols.len() ==> (#[trigger] cols[c]).len() > 0 && cols[c][cols[c].len() - 1].0 == c
}

/// Row indices ascend strictly within every column.
pub open spec fn rows_ascend<T>(cols: Seq<Seq<(usize, T)>>) -> bool {
    forall|c: int, a: int, b: int|
        0 <= c < cols.len() && 0 <= a < b < cols[c].len() ==> (#[trigger] cols[c][a]).0 < (
        #[trigger] cols[c][b]).0
}

/// Column `c` of `P + rho I` down to the diagonal. Where `P` is known to be diagonal, nothing
/// stands above it.
pub open spec fn p_col<T: Scalar>(p: Seq<T>, n: nat, c: int, rho: T, p_diag: bool) -> Seq<(usize, T)> {
    let above = if p_diag {
        Seq::empty()
    } else {
        nonzeros(raw_column(p, n, n, c), c as nat)
    };
    above.push((c as usize, p[c * n + c].plus(rho)))
}

/// The columns of the unknowns.
pub open spec fn x_cols<T: Scalar>(p: Seq<T>, n: nat, rho: T, p_diag: bool) -> Seq<Seq<(usize, T)>> {
    Seq::new(n, |c: int| p_col(p, n, c, rho, p_diag))
}

/// Row `r` of a constraint matrix as its couplings to the unknowns: from the sparse row form
/// where it is given, else the nonzeros of the dense row.
pub open spec fn a_row<T: Scalar>(
    csr: Option<CscMatrix<T>>,
    dense: DenseMatrix<T>,
    r: int,
    n: nat,
) -> Seq<(usize, T)> {
    match csr {
        Some(c) => c.col(r),
        None => nonzeros(dense.row(r), n),
    }
}

/// The columns of the equality multipliers, with `-delta` on the diagonal.
pub open spec fn y_cols<T: Scalar>(
    csr: Option<CscMatrix<T>>,
    a_eq: DenseMatrix<T>,
    n: nat,
    me: nat,
    delta: T,
) -> Seq<Seq<(usize, T)>> {
    Seq::new(me, |r: int| a_row(csr, a_eq, r, n).push(((n + r) as usize, delta.neg())))
}

/// The sparse row form, where it is given, fits the dense matrix.
pub open spec fn source_fits<T: Scalar>(
    csr: Option<CscMatrix<T>>,
    dense: DenseMatrix<T>,
    rows: nat,
    n: nat,
) -> bool {
    &&& dense.sized(rows, n)
    &&& csr matches Some(c) ==> c.wf() && c.n == rows && c.m == n
}

/// The entries of a stored column lie within the rows of the matrix.
pub proof fn lemma_col_rows<T: Scalar>(c: CscMatrix<T>, r: int)
    requires
        c.wf(),
        0 <= r < c.n,
    ensures
        forall|k: int| 0 <= k < c.col(r).len() ==> (#[trigger] c.col(r)[k]).0 < c.m,
{
    assert forall|k: int| 0 <= k < c.col(r).len() implies (#[trigger] c.col(r)[k]).0 < c.m by {
        assert(c.colptr@[r + 1] <= c.colptr@[c.n as int]);
        let p = c.colptr@[r] + k;
        assert(c.rowval@[p] < c.m);
    }
}

/// The couplings of a row lie within the unknowns.
pub proof fn lemma_a_row<T: Scalar>(
    csr: Option<CscMatrix<T>>,
    dense: DenseMatrix<T>,
    rows: nat,
    n: nat,
    r: int,
)
    requires
        source_fits(csr, dense, rows, n),
        0 <= r < rows,
        n <= usize::MAX,
    ensures
        forall|k: int|
            0 <= k < a_row(csr, dense, r, n).len() ==> (#[trigger] a_row(csr, dense, r, n)[k]).0 < n,
{
    match csr {
        Some(c) => {
            lemma_col_rows(c, r);
        },
        None => {
            lemma_nonzeros(dense.row(r), n);
        },
    }
}

/// The column of `P + rho I` ends on the diagonal and its rows ascend.
pub proof fn lemma_p_col<T: Scalar>(p: Seq<T>, n: nat, c: int, rho: T, p_diag: bool)
    requires
        0 <= c < n <= usize::MAX,
    ensures
        forall|k: int|
            0 <= k < p_col(p, n, c, rho, p_diag).len() ==> (#[trigger] p_col(p, n, c, rho, p_diag)[k]).0 <= c,
        forall|a: int, b: int|
            0 <= a < b < p_col(p, n, c, rho, p_diag).len() ==> (#[trigger] p_col(p, n, c, rho, p_diag)[a]).0
                < (#[trigger] p_col(p, n, c, rho, p_diag)[b]).0,
        p_col(p, n, c, rho, p_diag).len() > 0,
        p_col(p, n, c, rho, p_diag).last().0 == c,
{
    if !p_diag {
        lemma_nonzeros(raw_column(p, n, n, c), c as nat);
    }
}

/// Appends the couplings of row `r` to the open column: from the sparse row form where it is
/// given, else by a scan of the dense row.
pub fn push_a_row<T: Scalar>(
    csr: Option<&CscMatrix<T>>,
    dense: &DenseMatrix<T>,
    r: usize,
    n: usize,
    out: &mut Columns<T>,
)
    requires
        r < dense.nrows,
        source_fits(opt_deref(csr), *dense, dense.nrows as nat, n as nat),
        old(out).wf(),
    ensures
        final(out).wf(),
        final(out).closed() == old(out).closed(),
        final(out).open_col() == old(out).open_col() + a_row(opt_deref(csr), *dense, r as int, n as nat),
{
    match csr {
        Some(c) => {
            push_stored_column(c, r, out);
        },
        None => {
            push_dense_row(dense, r, n, out);
        },
    }
}

/// The matrix behind an optional reference.
pub open spec fn opt_deref<T>(csr: Option<&CscMatrix<T>>) -> Option<CscMatrix<T>> {
    match csr {
        Some(c) => Some(*c),
        None => None,
    }
}

/// Appends the entries of a stored column to the open column.
pub fn push_stored_column<T: Scalar>(c: &CscMatrix<T>, r: usize, out: &mut Columns<T>)
    requires
        c.wf(),
        r < c.n,
        old(out).wf(),
    ensures
        final(out).wf(),
        final(out).closed() == old(out).closed(),
        final(out).open_col() == old(out).open_col() + c.col(r as int),
{
    let ghost base = out.open_col();
    let lo: usize = c.colptr[r];
    let hi: usize = c.colptr[r + 1];
    proof {
        assert(c.colptr@[r as int] <= c.colptr@[r + 1]);
        assert(c.colptr@[r + 1] <= c.colptr@[c.n as int]);
        assert(c.col(r as int).subrange(0, 0) =~= Seq::<(usize, T)>::empty());
        assert(base + c.col(r as int).subrange(0, 0) =~= base);
    }
    let mut p: usize = lo;
    while p < hi
        invariant
            c.wf(),
            r < c.n,
            lo == c.colptr@[r as int],
            hi == c.colptr@[r + 1],
            lo <= p <= hi <= c.rowval@.len(),
            out.wf(),
            out.closed() == old(out).closed(),
            out.open_col() == base + c.col(r as int).subrange(0, p - lo),
        decreases hi - p,
    {
        let ghost done = c.col(r as int).subrange(0, p - lo);
        out.push(c.rowval[p], c.nzval[p]);
        proof {
            let e = (c.rowval@[p as int], c.nzval@[p as int]);
            assert((base + done).push(e) =~= base + done.push(e));
            assert(done.push(e) =~= c.col(r as int).subrange(0, p - lo + 1));
        }
        p += 1;
    }
    assert(c.col(r as int).subrange(0, hi - lo) =~= c.col(r as int));
}

/// Appends the finished column `c` of `P + rho I`, down to the diagonal.
pub fn push_p_col<T: Scalar>(p: &[T], n: usize, c: usize, rho: T, p_diag: bool, out: &mut Columns<T>)
    requires
        p@.len() == n * n,
        c < n,
        old(out).wf(),
        old(out).open_col().len() == 0,
    ensures
        final(out).wf(),
        final(out).open_col() == Seq::<(usize, T)>::empty(),
        final(out).closed() == old(out).closed().push(p_col(p@, n as nat, c as int, rho, p_diag)),
{
    if !p_diag {
        push_raw_column(p, n, n, c, c, out);
    }
    out.push(c, raw_get(p, n, n, c, c).plus(rho));
    assert(out.open_col() =~= p_col(p@, n as nat, c as int, rho, p_diag));
    out.close();
}

/// Appends the finished column of constraint row `r`: its couplings, then `diag_val` in row
/// `col`.
pub fn push_dual_col<T: Scalar>(
    csr: Option<&CscMatrix<T>>,
    dense: &DenseMatrix<T>,
    r: usize,
    n: usize,
    col: usize,
    diag_val: T,
    out: &mut Columns<T>,
)
    requires
        r < dense.nrows,
        source_fits(opt_deref(csr), *dense, dense.nrows as nat, n as nat),
        old(out).wf(),
        old(out).open_col().len() == 0,
    ensures
        final(out).wf(),
        final(out).open_col() == Seq::<(usize, T)>::empty(),
        final(out).closed() == old(out).closed().push(
            a_row(opt_deref(csr), *dense, r as int, n as nat).push((col, diag_val)),
        ),
{
    push_a_row(csr, dense, r, n, out);
    out.push(col, diag_val);
    assert(out.open_col() =~= a_row(opt_deref(csr), *dense, r as int, n as nat).push((col, diag_val)));
    out.close();
}

/// Appends the finished columns of the unknowns.
pub fn push_x_cols<T: Scalar>(p: &[T], n: usize, rho: T, p_diag: bool, out: &mut Columns<T>)
    requires
        p@.len() == n * n,
        old(out).wf(),
        old(out).closed().len() == 0,
        old(out).open_col().len() == 0,
    ensures
        final(out).wf(),
        final(out).open_col() == Seq::<(usize, T)>::empty(),
        final(out).closed() == x_cols(p@, n as nat, rho, p_diag),
{
    let mut c: usize = 0;
    while c < n
        invariant
            p@.len() == n * n,
            c <= n,
            out.wf(),
            out.open_col().len() == 0,
            out.closed() =~= x_cols(p@, n as nat, rho, p_diag).subrange(0, c as int),
        decreases n - c,
    {
        push_p_col(p, n, c, rho, p_diag, out);
        c += 1;
    }
    assert(out.closed() =~= x_cols(p@, n as nat, rho, p_diag));
    assert(out.open_col() =~= Seq::<(usize, T)>::empty());
}

/// Appends the finished columns of the equality multipliers.
pub fn push_y_cols<T: Scalar>(
    csr: Option<&CscMatrix<T>>,
    a_eq: &DenseMatrix<T>,
    n: usize,
    me: usize,
    delta: T,
    out: &mut Columns<T>,
)
    requires
        source_fits(opt_deref(csr), *a_eq, me as nat, n as nat),
        n + me <= usize::MAX,
        old(out).wf(),
        old(out).open_col().len() == 0,
    ensures
        final(out).wf(),
        final(out).open_col() == Seq::<(usize, T)>::empty(),
        final(out).closed() == old(out).closed() + y_cols(
            opt_deref(csr),
            *a_eq,
            n as nat,
            me as nat,
            delta,
        ),
{
    let ghost base = out.closed();
    let ghost all = y_cols(opt_deref(csr), *a_eq, n as nat, me as nat, delta);
    let mut r: usize = 0;
    assert(base + all.subrange(0, 0) =~= base);
    while r < me
        invariant
            source_fits(opt_deref(csr), *a_eq, me as nat, n as nat),
            n + me <= usize::MAX,
            r <= me,
            all == y_cols(opt_deref(csr), *a_eq, n as nat, me as nat, delta),
            out.wf(),
            out.open_col().len() == 0,
            out.closed() =~= base + all.subrange(0, r as int),
        decreases me - r,
    {
        push_dual_col(csr, a_eq, r, n, n + r, delta.neg(), out);
        r += 1;
    }
    assert(out.closed() =~= base + all);
    assert(out.open_col() =~= Seq::<(usize, T)>::empty());
}

/// The columns of the augmented system of a quadratic program, down to the diagonal, in the
/// order of unknowns, equality multipliers and inequality multipliers:
///
/// ```text
/// [ P + rho I    A_eq'      A_in'                  ]
/// [              -delta I   0                      ]
/// [                         -(diag(dz) + delta I)  ]
/// ```
pub open spec fn augmented_cols<T: Scalar>(
    p: Seq<T>,
    n: nat,
    a_eq: Seq<T>,
    me: nat,
    a_in: Seq<T>,
    mi: nat,
    rho: T,
    delta: T,
    dz: Seq<T>,
) -> Seq<Seq<(usize, T)>> {
    x_cols(p, n, rho, false) + Seq::new(
        me,
        |r: int| nonzeros(raw_row(a_eq, n, r), n).push(((n + r) as usize, delta.neg())),
    ) + Seq::new(
        mi,
        |r: int|
            nonzeros(raw_row(a_in, n, r), n).push(((n + me + r) as usize, dz[r].plus(delta).neg())),
    )
}

/// The columns of the augmented system reach down to the diagonal, which ends each of them, and
/// their rows ascend.
pub proof fn augmented_is_upper_triangular<T: Scalar>(
    p: Seq<T>,
    n: nat,
    a_eq: Seq<T>,
    me: nat,
    a_in: Seq<T>,
    mi: nat,
    rho: T,
    delta: T,
    dz: Seq<T>,
)
    requires
        n + me + mi <= usize::MAX,
    ensures
        augmented_cols(p, n, a_eq, me, a_in, mi, rho, delta, dz).len() == n + me + mi,
        upper_triangular(augmented_cols(p, n, a_eq, me, a_in, mi, rho, delta, dz)),
        diagonal_last(augmented_cols(p, n, a_eq, me, a_in, mi, rho, delta, dz)),
        rows_ascend(augmented_cols(p, n, a_eq, me, a_in, mi, rho, delta, dz)),
{
    let cols = augmented_cols(p, n, a_eq, me, a_in, mi, rho, delta, dz);
    assert forall|c: int| 0 <= c < cols.len() implies {
        &&& (#[trigger] cols[c]).len() > 0
        &&& cols[c][cols[c].len() - 1].0 == c
        &&& forall|k: int| 0 <= k < cols[c].len() ==> (#[trigger] cols[c][k]).0 <= c
        &&& forall|a: int, b: int|
            0 <= a < b < cols[c].len() ==> (#[trigger] cols[c][a]).0 < (#[trigger] cols[c][b]).0
    } by {
        if c < n {
            lemma_p_col(p, n, c, rho, false);
        } else if c < n + me {
            lemma_nonzeros(raw_row(a_eq, n, c - n), n);
        } else {
            lemma_nonzeros(raw_row(a_in, n, c - n - me), n);
        }
    }
}

/// The symbolic pattern of the augmented system, its row indices column by column, does not
/// depend on the regularization or on the inequality scaling.
pub proof fn augmented_pattern_is_fixed<T: Scalar>(
    p: Seq<T>,
    n: nat,
    a_eq: Seq<T>,
    me: nat,
    a_in: Seq<T>,
    mi: nat,
    first: (T, T, Seq<T>),
    second: (T, T, Seq<T>),
)
    ensures
        ({
            let a = augmented_cols(p, n, a_eq, me, a_in, mi, first.0, first.1, first.2);
            let b = augmented_cols(p, n, a_eq, me, a_in, mi, second.0, second.1, second.2);
            a.len() == b.len() && forall|c: int|
                0 <= c < a.len() ==> (#[trigger] a[c]).len() == b[c].len() && forall|k: int|
                    0 <= k < a[c].len() ==> (#[trigger] a[c][k]).0 == b[c][k].0
        }),
{
}

/// The augmented system of a quadratic program from matrices stored by rows. See
/// [`augmented_cols`] for its layout.
pub fn assemble_augmented_kkt_f64<T: Scalar>(
    p_rows: usize,
    p_cols: usize,
    p_data: &[T],
    aeq_rows: usize,
    aeq_cols: usize,
    aeq_data: &[T],
    ain_rows: usize,
    ain_cols: usize,
    ain_data: &[T],
    rho: T,
    delta: T,
    dz: &[T],
) -> (r: CscMatrix<T>)
    requires
        p_rows == p_cols,
        aeq_cols == p_cols,
        ain_cols == p_cols,
        p_data@.len() == p_cols * p_cols,
        aeq_data@.len() == aeq_rows * p_cols,
        ain_data@.len() == ain_rows * p_cols,
        dz@.len() >= ain_rows,
        p_cols + aeq_rows + ain_rows < usize::MAX,
    ensures
        r.wf(),
        r.m == p_cols + aeq_rows + ain_rows,
        r.n == r.m,
        r.cols() == augmented_cols(
            p_data@,
            p_cols as nat,
            aeq_data@,
            aeq_rows as nat,
            ain_data@,
            ain_rows as nat,
            rho,
            delta,
            dz@,
        ),
{
    let n: usize = p_cols;
    let me: usize = aeq_rows;
    let mi: usize = ain_rows;
    let ghost all = augmented_cols(
        p_data@,
        n as nat,
        aeq_data@,
        me as nat,
        ain_data@,
        mi as nat,
        rho,
        delta,
        dz@,
    );
    let mut out: Columns<T> = Columns::new();
    push_x_cols(p_data, n, rho, false, &mut out);
    assert(out.closed() =~= all.subrange(0, n as int));
    let mut r: usize = 0;
    while r < me
        invariant
            r <= me,
            n + me + mi < usize::MAX,
            aeq_data@.len() == me * n,
            all == augmented_cols(p_data@, n as nat, aeq_data@, me as nat, ain_data@, mi as nat, rho, delta, dz@),
            out.wf(),
            out.open_col() == Seq::<(usize, T)>::empty(),
            out.closed() =~= all.subrange(0, n + r),
        decreases me - r,
    {
        push_raw_row(aeq_data, me, n, r, n, &mut out);
        out.push(n + r, delta.neg());
        assert(out.open_col() =~= all[n + r]);
        out.close();
        r += 1;
    }
    r = 0;
    while r < mi
        invariant
            r <= mi <= dz@.len(),
            n + me + mi < usize::MAX,
            ain_data@.len() == mi * n,
            all == augmented_cols(p_data@, n as nat, aeq_data@, me as nat, ain_data@, mi as nat, rho, delta, dz@),
            out.wf(),
            out.open_col() == Seq::<(usize, T)>::empty(),
            out.closed() =~= all.subrange(0, n + me + r),
        decreases mi - r,
    {
        push_raw_row(ain_data, mi, n, r, n, &mut out);
        out.push(n + me + r, dz[r].plus(delta).neg());
        assert(out.open_col() =~= all[n + me + r]);
        out.close();
        r += 1;
    }
    proof {
        assert(out.closed() =~= all);
        augmented_is_upper_triangular(p_data@, n as nat, aeq_data@, me as nat, ain_data@, mi as nat, rho, delta, dz@);
    }
    out.finish(n + me + mi)
}

/// The augmented system of a quadratic program. See [`augmented_cols`] for its layout.
pub fn assemble_augmented_kkt<T: Scalar>(prob: &QpProblem<T>, rho: T, delta: T, dz: &[T]) -> (r:
    CscMatrix<T>)
    requires
        prob.wf(),
        dz@.len() >= prob.mi(),
    ensures
        r.wf(),
        r.m == prob.n() + prob.me() + prob.mi(),
        r.n == r.m,
        r.cols() == augmented_cols(
            prob.p.data@,
            prob.n(),
            prob.a_eq.data@,
            prob.me(),
            prob.a_in.data@,
            prob.mi(),
            rho,
            delta,
            dz@,
        ),
{
    assemble_augmented_kkt_f64(
        prob.p.nrows,
        prob.p.ncols,
        &prob.p.data,
        prob.a_eq.nrows,
        prob.a_eq.ncols,
        &prob.a_eq.data,
        prob.a_in.nrows,
        prob.a_in.ncols,
        &prob.a_in.data,
        rho,
        delta,
        dz,
    )
}

/// The entries that are not zero.
pub open spec fn drop_zeros<T: Scalar>(entries: Seq<(usize, T)>, k: nat) -> Seq<(usize, T)>
    decreases k,
{
    if k == 0 {
        Seq::empty()
    } else {
        let front = drop_zeros(entries, (k - 1) as nat);
        if entries[k - 1].1.equals(T::zero()) {
            front
        } else {
            front.push(entries[k - 1])
        }
    }
}

/// What is kept are entries of the original.
pub proof fn lemma_drop_zeros<T: Scalar>(entries: Seq<(usize, T)>, k: nat, bound: nat)
    requires
        k <= entries.len(),
        forall|j: int| 0 <= j < entries.len() ==> (#[trigger] entries[j]).0 < bound,
    ensures
        forall|j: int|
            0 <= j < drop_zeros(entries, k).len() ==> (#[trigger] drop_zeros(entries, k)[j]).0 < bound,
    decreases k,
{
    if k > 0 {
        lemma_drop_zeros(entries, (k - 1) as nat, bound);
        let front = drop_zeros(entries, (k - 1) as nat);
        assert forall|j: int| 0 <= j < drop_zeros(entries, k).len() implies (#[trigger] drop_zeros(
            entries,
            k,
        )[j]).0 < bound by {
            assert(entries[k - 1].0 < bound);
            if j < front.len() {
                assert(front[j].0 < bound);
            }
        }
    }
}

/// The diagonal of the unknowns' block, with the folded bound rows added where there are any.
pub open spec fn folded_diag<T: Scalar>(p: Seq<T>, n: nat, c: int, rho: T, fold: Seq<T>) -> T {
    let d = p[c * n + c].plus(rho);
    if fold.len() == 0 {
        d
    } else {
        d.plus(fold[c])
    }
}

/// The columns of the augmented system from a sparse row form of the inequality matrix. The
/// diagonal of the unknowns' block stands first in its column; everywhere else it stands last.
pub open spec fn csr_cols<T: Scalar>(
    prob: QpProblem<T>,
    csr: CscMatrix<T>,
    rho: T,
    delta: T,
    dz: Seq<T>,
    fold: Seq<T>,
) -> Seq<Seq<(usize, T)>> {
    let n = prob.n();
    let me = prob.me();
    Seq::new(
        n,
        |c: int|
            seq![(c as usize, folded_diag(prob.p.data@, n, c, rho, fold))] + nonzeros(
                prob.p.column(c),
                c as nat,
            ),
    ) + y_cols(None, prob.a_eq, n, me, delta) + Seq::new(
        csr.n as nat,
        |r: int|
            drop_zeros(csr.col(r), csr.col(r).len()).push(
                ((n + me + r) as usize, dz[r].plus(delta).neg()),
            ),
    )
}

/// The system assembled from the sparse row form has no entry below the diagonal.
pub proof fn csr_is_upper_triangular<T: Scalar>(
    prob: QpProblem<T>,
    csr: CscMatrix<T>,
    rho: T,
    delta: T,
    dz: Seq<T>,
    fold: Seq<T>,
)
    requires
        prob.wf(),
        csr.wf(),
        csr.m == prob.n(),
        prob.n() + prob.me() + csr.n <= usize::MAX,
    ensures
        csr_cols(prob, csr, rho, delta, dz, fold).len() == prob.n() + prob.me() + csr.n,
        upper_triangular(csr_cols(prob, csr, rho, delta, dz, fold)),
{
    let cols = csr_cols(prob, csr, rho, delta, dz, fold);
    let n = prob.n();
    let me = prob.me();
    assert forall|c: int, k: int| 0 <= c < cols.len() && 0 <= k < cols[c].len() implies (
    #[trigger] cols[c][k]).0 <= c by {
        if c < n {
            lemma_nonzeros(prob.p.column(c), c as nat);
        } else if c < n + me {
            lemma_a_row(None, prob.a_eq, me, n, c - n);
        } else {
            let r = c - n - me;
            lemma_col_rows(csr, r);
            lemma_drop_zeros(csr.col(r), csr.col(r).len(), n);
        }
    }
}

/// The augmented system from the sparse row form of the inequality matrix.
pub fn assemble_augmented_kkt_from_csr<T: Scalar>(
    prob: &QpProblem<T>,
    a_in_csr: &CscMatrix<T>,
    rho: T,
    delta: T,
    dz: &[T],
) -> (r: CscMatrix<T>)
    requires
        prob.wf(),
        a_in_csr.wf(),
        a_in_csr.m == prob.n(),
        a_in_csr.n == prob.mi(),
        dz@.len() >= prob.mi(),
    ensures
        r.wf(),
        r.m == prob.n() + prob.me() + prob.mi(),
        r.n == r.m,
        r.cols() == csr_cols(*prob, *a_in_csr, rho, delta, dz@, Seq::empty()),
{
    let none: Vec<T> = Vec::new();
    assert(none@ =~= Seq::<T>::empty());
    assemble_augmented_kkt_from_csr_with_fold(prob, a_in_csr, rho, delta, dz, &none)
}

/// The augmented system from the sparse form of the general inequality rows. The rows that
/// were folded away enter through `x_diag_fold`, which is added to the diagonal of the unknowns'
/// block. With nothing folded, the sparse form holds every inequality row.
pub fn assemble_augmented_kkt_from_csr_with_fold<T: Scalar>(
    prob: &QpProblem<T>,
    a_in_csr: &CscMatrix<T>,
    rho: T,
    delta: T,
    dz: &[T],
    x_diag_fold: &[T],
) -> (r: CscMatrix<T>)
    requires
        prob.wf(),
        a_in_csr.wf(),
        a_in_csr.m == prob.n(),
        a_in_csr.n <= prob.mi(),
        dz@.len() >= a_in_csr.n,
        x_diag_fold@.len() == 0 || x_diag_fold@.len() == prob.n(),
        x_diag_fold@.len() == 0 ==> a_in_csr.n == prob.mi(),
    ensures
        r.wf(),
        r.m == prob.n() + prob.me() + a_in_csr.n,
        r.n == r.m,
        r.cols() == csr_cols(*prob, *a_in_csr, rho, delta, dz@, x_diag_fold@),
{
    let n: usize = prob.q.len();
    let me: usize = prob.b_eq.len();
    let mi: usize = a_in_csr.n;
    let ghost all = csr_cols(*prob, *a_in_csr, rho, delta, dz@, x_diag_fold@);
    let mut out: Columns<T> = Columns::new();
    let mut c: usize = 0;
    while c < n
        invariant
            prob.wf(),
            n == prob.n(),
            c <= n,
            x_diag_fold@.len() == 0 || x_diag_fold@.len() == n,
            all == csr_cols(*prob, *a_in_csr, rho, delta, dz@, x_diag_fold@),
            out.wf(),
            out.open_col() == Seq::<(usize, T)>::empty(),
            out.closed() =~= all.subrange(0, c as int),
        decreases n - c,
    {
        let mut d = prob.p.get(c, c).plus(rho);
        if x_diag_fold.len() > 0 {
            d = d.plus(x_diag_fold[c]);
        }
        out.push(c, d);
        push_raw_column(&prob.p.data, n, n, c, c, &mut out);
        assert(out.open_col() =~= all[c as int]);
        out.close();
        c += 1;
    }
    assert(out.closed() =~= all.subrange(0, n as int));
    push_y_cols(None, &prob.a_eq, n, me, delta, &mut out);
    assert(out.closed() =~= all.subrange(0, n + me));
    let mut r: usize = 0;
    while r < mi
        invariant
            prob.wf(),
            n == prob.n(),
            me == prob.me(),
            mi == a_in_csr.n,
            mi <= prob.mi(),
            r <= mi <= dz@.len(),
            a_in_csr.wf(),
            all == csr_cols(*prob, *a_in_csr, rho, delta, dz@, x_diag_fold@),
            out.wf(),
            out.open_col() == Seq::<(usize, T)>::empty(),
            out.closed() =~= all.subrange(0, n + me + r),
        decreases mi - r,
    {
        push_stored_nonzeros(a_in_csr, r, &mut out);
        out.push(n + me + r, dz[r].plus(delta).neg());
        assert(out.open_col() =~= all[n + me + r]);
        out.close();
        r += 1;
    }
    proof {
        assert(out.closed() =~= all);
        csr_is_upper_triangular(*prob, *a_in_csr, rho, delta, dz@, x_diag_fold@);
    }
    out.finish(n + me + mi)
}

/// Appends the entries of a stored column that are not zero to the open column.
pub fn push_stored_nonzeros<T: Scalar>(c: &CscMatrix<T>, r: usize, out: &mut Columns<T>)
    requires
        c.wf(),
        r < c.n,
        old(out).wf(),
    ensures
        final(out).wf(),
        final(out).closed() == old(out).closed(),
        final(out).open_col() == old(out).open_col() + drop_zeros(
            c.col(r as int),
            c.col(r as int).len(),
        ),
{
    let ghost base = out.open_col();
    let ghost stored = c.col(r as int);
    let lo: usize = c.colptr[r];
    let hi: usize = c.colptr[r + 1];
    proof {
        assert(c.colptr@[r as int] <= c.colptr@[r + 1]);
        assert(c.colptr@[r + 1] <= c.colptr@[c.n as int]);
        assert(base + drop_zeros(stored, 0) =~= base);
    }
    let mut p: usize = lo;
    while p < hi
        invariant
            c.wf(),
            r < c.n,
            stored == c.col(r as int),
            lo == c.colptr@[r as int],
            hi == c.colptr@[r + 1],
            lo <= p <= hi <= c.rowval@.len(),
            out.wf(),
            out.closed() == old(out).closed(),
            out.open_col() == base + drop_zeros(stored, (p - lo) as nat),
        decreases hi - p,
    {
        let ghost done = drop_zeros(stored, (p - lo) as nat);
        let ghost e = (c.rowval@[p as int], c.nzval@[p as int]);
        proof {
            assert(stored[p - lo] == e);
            assert((base + done).push(e) =~= base + done.push(e));
        }
        if !c.nzval[p].equals(T::zero()) {
            out.push(c.rowval[p], c.nzval[p]);
        }
        p += 1;
    }
}

/// A sparse row form of the dense inequality matrix gives the same couplings as a scan of the
/// dense rows.
pub proof fn sparse_and_dense_rows_agree<T: Scalar>(
    csr: CscMatrix<T>,
    a: DenseMatrix<T>,
    rows: nat,
    n: nat,
    r: int,
)
    requires
        is_row_form(csr, a, rows, n),
        0 <= r < rows,
        n <= a.ncols,
    ensures
        a_row(Some(csr), a, r, n) == a_row(None, a, r, n),
        drop_zeros(csr.col(r), csr.col(r).len()) == csr.col(r),
{
    assert(csr.cols()[r] == sparse_rows(a, rows, n)[r]);
    lemma_nonzeros(a.row(r), n);
    lemma_nothing_dropped(csr.col(r), csr.col(r).len());
}

/// Entries that are all nonzero are all kept.
pub proof fn lemma_nothing_dropped<T: Scalar>(entries: Seq<(usize, T)>, k: nat)
    requires
        k <= entries.len(),
        forall|j: int| 0 <= j < entries.len() ==> !(#[trigger] entries[j]).1.equals(T::zero()),
    ensures
        drop_zeros(entries, k) == entries.subrange(0, k as int),
        k == entries.len() ==> drop_zeros(entries, k) == entries,
    decreases k,
{
    if k > 0 {
        lemma_nothing_dropped(entries, (k - 1) as nat);
        assert(drop_zeros(entries, k) =~= entries.subrange(0, k as int));
    } else {
        assert(drop_zeros(entries, k) =~= entries.subrange(0, k as int));
    }
    assert(entries.subrange(0, entries.len() as int) =~= entries);
}

/// The column stores an entry in row `r`.
pub open spec fn stores_row<T>(col: Seq<(usize, T)>, r: int) -> bool {
    exists|k: int| 0 <= k < col.len() && (#[trigger] col[k]).0 == r
}

/// The diagonal of every column is stored.
pub open spec fn diagonal_stored<T>(cols: Seq<Seq<(usize, T)>>) -> bool {
    forall|c: int| 0 <= c < cols.len() ==> stores_row(#[trigger] cols[c], c)
}

/// No row is stored twice.
pub open spec fn rows_differ<T>(col: Seq<(usize, T)>) -> bool {
    forall|a: int, b: int| 0 <= a < b < col.len() ==> (#[trigger] col[a]).0 != (#[trigger] col[b]).0
}

/// No position is stored twice.
pub open spec fn stored_once<T>(cols: Seq<Seq<(usize, T)>>) -> bool {
    forall|c: int| 0 <= c < cols.len() ==> rows_differ(#[trigger] cols[c])
}

/// Rows that differ still do without the zeros.
proof fn lemma_kept_rows_differ<T: Scalar>(entries: Seq<(usize, T)>, k: nat)
    requires
        k <= entries.len(),
        rows_differ(entries),
    ensures
        rows_differ(drop_zeros(entries, k)),
        forall|j: int|
            0 <= j < drop_zeros(entries, k).len() ==> exists|i: int|
                0 <= i < k && #[trigger] entries[i] == (#[trigger] drop_zeros(entries, k)[j]),
    decreases k,
{
    if k > 0 {
        lemma_kept_rows_differ(entries, (k - 1) as nat);
        let front = drop_zeros(entries, (k - 1) as nat);
        let all = drop_zeros(entries, k);
        if all.len() > front.len() {
            assert forall|j: int| 0 <= j < all.len() implies exists|i: int|
                0 <= i < k && #[trigger] entries[i] == (#[trigger] all[j]) by {
                if j < front.len() {
                    let i = choose|i: int| 0 <= i < k - 1 && #[trigger] entries[i] == front[j];
                    assert(entries[i] == all[j]);
                } else {
                    assert(entries[k - 1] == all[j]);
                }
            }
            assert forall|a: int, b: int| 0 <= a < b < all.len() implies (#[trigger] all[a]).0 != (
            #[trigger] all[b]).0 by {
                assert(all[a] == front[a]);
                let i = choose|i: int| 0 <= i < k - 1 && #[trigger] entries[i] == front[a];
                if b == front.len() {
                    assert(entries[i].0 != entries[k - 1].0);
                } else {
                    assert(all[b] == front[b]);
                }
            }
        }
    }
}

/// The system assembled from the sparse row form stores every diagonal, and stores no position twice
/// where the sparse form does not.
pub proof fn csr_stores_every_diagonal_once<T: Scalar>(
    prob: QpProblem<T>,
    csr: CscMatrix<T>,
    rho: T,
    delta: T,
    dz: Seq<T>,
    fold: Seq<T>,
)
    requires
        prob.wf(),
        csr.wf(),
        csr.m == prob.n(),
        prob.n() + prob.me() + csr.n <= usize::MAX,
        stored_once(csr.cols()),
    ensures
        diagonal_stored(csr_cols(prob, csr, rho, delta, dz, fold)),
        stored_once(csr_cols(prob, csr, rho, delta, dz, fold)),
{
    let cols = csr_cols(prob, csr, rho, delta, dz, fold);
    let n = prob.n();
    let me = prob.me();
    assert forall|c: int| 0 <= c < cols.len() implies rows_differ(#[trigger] cols[c]) && stores_row(
        cols[c],
        c,
    ) by {
        if c < n {
            lemma_nonzeros(prob.p.column(c), c as nat);
            assert(cols[c][0].0 == c);
        } else if c < n + me {
            lemma_nonzeros(prob.a_eq.row(c - n), n);
            assert(cols[c][cols[c].len() - 1].0 == c);
        } else {
            let r = c - n - me;
            lemma_col_rows(csr, r);
            assert(csr.cols()[r] == csr.col(r));
            lemma_kept_rows_differ(csr.col(r), csr.col(r).len());
            lemma_drop_zeros(csr.col(r), csr.col(r).len(), n);
            assert(cols[c][cols[c].len() - 1].0 == c);
        }
    }
}

/// The system assembled from a row form of the inequality matrix `a` is the augmented system over `a`,
/// with the fold added to the diagonal of the unknowns' block, which stands first in its columns there.
pub proof fn row_form_gives_the_augmented_system<T: Scalar>(
    prob: QpProblem<T>,
    csr: CscMatrix<T>,
    a: DenseMatrix<T>,
    rows: nat,
    rho: T,
    delta: T,
    dz: Seq<T>,
    fold: Seq<T>,
)
    requires
        prob.wf(),
        a.sized(rows, prob.n()),
        csr.n == rows,
        is_row_form(csr, a, rows, prob.n()),
    ensures
        ({
            let n = prob.n();
            let me = prob.me();
            let cols = csr_cols(prob, csr, rho, delta, dz, fold);
            let plain = augmented_cols(prob.p.data@, n, prob.a_eq.data@, me, a.data@, rows, rho, delta, dz);
            &&& cols.len() == plain.len()
            &&& forall|c: int|
                0 <= c < n ==> #[trigger] cols[c] == seq![
                    (c as usize, folded_diag(prob.p.data@, n, c, rho, fold)),
                ] + plain[c].drop_last()
            &&& forall|c: int|
                0 <= c < n ==> (#[trigger] plain[c]).last() == (c as usize, prob.p.at(c, c).plus(rho))
            &&& forall|c: int| n <= c < cols.len() ==> #[trigger] cols[c] == plain[c]
        }),
{
    let n = prob.n();
    let me = prob.me();
    let cols = csr_cols(prob, csr, rho, delta, dz, fold);
    let plain = augmented_cols(prob.p.data@, n, prob.a_eq.data@, me, a.data@, rows, rho, delta, dz);
    assert forall|c: int| 0 <= c < n implies #[trigger] cols[c] == seq![
        (c as usize, folded_diag(prob.p.data@, n, c, rho, fold)),
    ] + plain[c].drop_last() by {
        assert(plain[c] == p_col(prob.p.data@, n, c, rho, false));
        assert(plain[c].drop_last() =~= nonzeros(prob.p.column(c), c as nat));
    }
    assert forall|c: int| n <= c < cols.len() implies #[trigger] cols[c] == plain[c] by {
        if c >= n + me {
            sparse_and_dense_rows_agree(csr, a, rows, n, c - n - me);
        }
    }
}

} // verus!
