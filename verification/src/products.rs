//! Products with the constraint matrices, in the form that suits how they are stored.
use crate::matrix::{matvec_spec, matvec_t_spec, DenseMatrix};
use crate::scalar::Scalar;
use crate::sparse::CscMatrix;
use crate::vector::{constant, filled, negated, negated_of};
use vstd::prelude::*;

verus! {

/// How a constraint matrix is multiplied.
#[derive(Clone, Copy, Debug, PartialEq, Eq, Structural)]
pub enum Form {
    /// The matrix is the negated identity.
    Negated,
    /// Through its sparse rows.
    Rows,
    /// Through its dense entries.
    Dense,
}

/// The first `k` stored entries of row `r` times `v`.
pub open spec fn row_product<T: Scalar>(csr: CscMatrix<T>, r: int, v: Seq<T>, k: nat) -> T
    decreases k,
{
    if k == 0 {
        T::zero()
    } else {
        let (j, a) = csr.col(r)[k - 1];
        row_product(csr, r, v, (k - 1) as nat).plus(a.times(v[j as int]))
    }
}

/// The sparse rows times a vector.
pub open spec fn rows_times<T: Scalar>(csr: CscMatrix<T>, v: Seq<T>) -> Seq<T> {
    Seq::new(csr.n as nat, |r: int| row_product(csr, r, v, csr.col(r).len()))
}

/// `out` after the first `k` stored entries of row `r`, times `t`, are added to it.
pub open spec fn row_added<T: Scalar>(csr: CscMatrix<T>, r: int, t: T, out: Seq<T>, k: nat) -> Seq<T>
    decreases k,
{
    if k == 0 {
        out
    } else {
        let front = row_added(csr, r, t, out, (k - 1) as nat);
        let (j, a) = csr.col(r)[k - 1];
        front.update(j as int, front[j as int].plus(a.times(t)))
    }
}

/// The transposed sparse rows times a vector, over the first `r` rows. A row whose factor is zero
/// is passed over.
pub open spec fn rows_t_times<T: Scalar>(csr: CscMatrix<T>, v: Seq<T>, r: nat) -> Seq<T>
    decreases r,
{
    if r == 0 {
        constant(T::zero(), csr.m as nat)
    } else {
        let front = rows_t_times(csr, v, (r - 1) as nat);
        if v[r - 1].equals(T::zero()) {
            front
        } else {
            row_added(csr, r - 1, v[r - 1], front, csr.col(r - 1).len())
        }
    }
}

/// The product of a constraint matrix with a vector.
pub open spec fn times_spec<T: Scalar>(
    form: Form,
    csr: Option<CscMatrix<T>>,
    a: DenseMatrix<T>,
    v: Seq<T>,
) -> Seq<T> {
    match (form, csr) {
        (Form::Negated, _) => negated(v),
        (Form::Rows, Some(c)) => rows_times(c, v),
        _ => matvec_spec(a, v),
    }
}

/// The product of a transposed constraint matrix with a vector.
pub open spec fn times_t_spec<T: Scalar>(
    form: Form,
    csr: Option<CscMatrix<T>>,
    a: DenseMatrix<T>,
    v: Seq<T>,
) -> Seq<T> {
    match (form, csr) {
        (Form::Negated, _) => negated(v),
        (Form::Rows, Some(c)) => rows_t_times(c, v, c.n as nat),
        _ => matvec_t_spec(a, v),
    }
}

/// The form fits the matrix: the negated identity is square, and the sparse rows are those of a
/// matrix of this size.
pub open spec fn form_fits<T: Scalar>(form: Form, csr: Option<CscMatrix<T>>, a: DenseMatrix<T>) -> bool {
    &&& a.wf()
    &&& form == Form::Negated ==> a.nrows == a.ncols
    &&& csr matches Some(c) ==> c.wf() && c.n == a.nrows && c.m == a.ncols
}

/// The sparse rows times a vector.
pub fn rows_product<T: Scalar>(csr: &CscMatrix<T>, v: &[T]) -> (r: Vec<T>)
    requires
        csr.wf(),
        v@.len() == csr.m,
    ensures
        r@ == rows_times(*csr, v@),
{
    let ghost all = rows_times(*csr, v@);
    let mut out: Vec<T> = Vec::with_capacity(csr.n);
    let mut r: usize = 0;
    while r < csr.n
        invariant
            csr.wf(),
            v@.len() == csr.m,
            all == rows_times(*csr, v@),
            r <= csr.n,
            out@ =~= all.subrange(0, r as int),
        decreases csr.n - r,
    {
        let lo: usize = csr.colptr[r];
        let hi: usize = csr.colptr[r + 1];
        proof {
            assert(csr.colptr@[r as int] <= csr.colptr@[r + 1]);
            assert(csr.colptr@[r + 1] <= csr.colptr@[csr.n as int]);
        }
        let mut acc = T::zero();
        let mut p: usize = lo;
        while p < hi
            invariant
                csr.wf(),
                v@.len() == csr.m,
                r < csr.n,
                lo == csr.colptr@[r as int],
                hi == csr.colptr@[r + 1],
                lo <= p <= hi <= csr.rowval@.len(),
                acc == row_product(*csr, r as int, v@, (p - lo) as nat),
            decreases hi - p,
        {
            let j: usize = csr.rowval[p];
            assert(csr.rowval@[p as int] < csr.m);
            assert(csr.col(r as int)[p - lo] == (csr.rowval@[p as int], csr.nzval@[p as int]));
            acc = acc.plus(csr.nzval[p].times(v[j]));
            p += 1;
        }
        out.push(acc);
        r += 1;
    }
    assert(out@ =~= all);
    out
}

/// The transposed sparse rows times a vector.
pub fn rows_t_product<T: Scalar>(csr: &CscMatrix<T>, v: &[T]) -> (out: Vec<T>)
    requires
        csr.wf(),
        v@.len() == csr.n,
    ensures
        out@ == rows_t_times(*csr, v@, csr.n as nat),
        out@.len() == csr.m,
{
    let mut out: Vec<T> = filled(T::zero(), csr.m);
    let mut r: usize = 0;
    while r < csr.n
        invariant
            csr.wf(),
            v@.len() == csr.n,
            r <= csr.n,
            out@.len() == csr.m,
            out@ == rows_t_times(*csr, v@, r as nat),
        decreases csr.n - r,
    {
        let t = v[r];
        if !t.equals(T::zero()) {
            let ghost start = out@;
            let lo: usize = csr.colptr[r];
            let hi: usize = csr.colptr[r + 1];
            proof {
                assert(csr.colptr@[r as int] <= csr.colptr@[r + 1]);
                assert(csr.colptr@[r + 1] <= csr.colptr@[csr.n as int]);
            }
            let mut p: usize = lo;
            while p < hi
                invariant
                    csr.wf(),
                    r < csr.n,
                    lo == csr.colptr@[r as int],
                    hi == csr.colptr@[r + 1],
                    lo <= p <= hi <= csr.rowval@.len(),
                    out@.len() == csr.m,
                    out@ == row_added(*csr, r as int, t, start, (p - lo) as nat),
                decreases hi - p,
            {
                let j: usize = csr.rowval[p];
                assert(csr.rowval@[p as int] < csr.m);
                assert(csr.col(r as int)[p - lo] == (csr.rowval@[p as int], csr.nzval@[p as int]));
                let s = out[j].plus(csr.nzval[p].times(t));
                out[j] = s;
                p += 1;
            }
        }
        r += 1;
    }
    out
}

/// The product of a constraint matrix with a vector.
pub fn times<T: Scalar>(form: Form, csr: Option<&CscMatrix<T>>, a: &DenseMatrix<T>, v: &[T]) -> (r: Vec<T>)
    requires
        form_fits(form, crate::kkt::opt_deref(csr), *a),
        v@.len() == a.ncols,
    ensures
        r@ == times_spec(form, crate::kkt::opt_deref(csr), *a, v@),
        r@.len() == a.nrows,
{
    match (form, csr) {
        (Form::Negated, _) => negated_of(v),
        (Form::Rows, Some(c)) => rows_product(c, v),
        _ => a.matvec(v),
    }
}

/// The product of a transposed constraint matrix with a vector.
pub fn times_t<T: Scalar>(form: Form, csr: Option<&CscMatrix<T>>, a: &DenseMatrix<T>, v: &[T]) -> (r: Vec<T>)
    requires
        form_fits(form, crate::kkt::opt_deref(csr), *a),
        v@.len() == a.nrows,
    ensures
        r@ == times_t_spec(form, crate::kkt::opt_deref(csr), *a, v@),
        r@.len() == a.ncols,
{
    match (form, csr) {
        (Form::Negated, _) => negated_of(v),
        (Form::Rows, Some(c)) => rows_t_product(c, v),
        _ => a.matvec_t(v),
    }
}

/// The product of the Hessian with a vector, through its diagonal where it has no other entries.
pub open spec fn hessian_times<T: Scalar>(p: DenseMatrix<T>, diagonal: bool, x: Seq<T>) -> Seq<T> {
    if diagonal {
        Seq::new(p.nrows as nat, |i: int| p.at(i, i).times(x[i]))
    } else {
        matvec_spec(p, x)
    }
}

/// The product of the Hessian with a vector.
pub fn hessian_product<T: Scalar>(p: &DenseMatrix<T>, diagonal: bool, x: &[T]) -> (r: Vec<T>)
    requires
        p.wf(),
        p.nrows == p.ncols,
        x@.len() == p.nrows,
    ensures
        r@ == hessian_times(*p, diagonal, x@),
{
    if !diagonal {
        return p.matvec(x);
    }
    let ghost all = hessian_times(*p, diagonal, x@);
    let mut r: Vec<T> = Vec::with_capacity(p.nrows);
    let mut i: usize = 0;
    while i < p.nrows
        invariant
            p.wf(),
            p.nrows == p.ncols,
            x@.len() == p.nrows,
            diagonal,
            all == hessian_times(*p, diagonal, x@),
            i <= p.nrows,
            r@ =~= all.subrange(0, i as int),
        decreases p.nrows - i,
    {
        r.push(p.get(i, i).times(x[i]));
        i += 1;
    }
    assert(r@ =~= all);
    r
}

} // verus!
