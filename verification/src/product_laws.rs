//! The products with the matrices of a problem, where the operations of the numbers are exact: whichever
//! form they take, they are the products of the matrices.
use crate::exact::{
    exact, lemma_sum_plus, lemma_sum_same, lemma_sum_single, lemma_sum_zero, products_are_exact, sum,
};
use crate::matrix::{diagonal_matrix, matvec_spec, matvec_t_spec, zero_matrix, DenseMatrix};
use crate::optimum_laws::{across, along, entries};
use crate::products::{
    form_fits, hessian_times, row_added, row_product, rows_t_times, rows_times, times_spec, times_t_spec, Form,
};
use crate::scalar::Scalar;
use crate::sparse::{is_row_form, nonzeros, CscMatrix};
use vstd::prelude::*;

verus! {

/// The entries of a matrix as real numbers.
pub open spec fn entries_of<T: Scalar>(v: spec_fn(T) -> real, a: DenseMatrix<T>) -> spec_fn(int, int) -> real {
    |i: int, j: int| v(a.at(i, j))
}

/// What the first `k` stored entries hold in place `j`.
pub open spec fn held<T: Scalar>(v: spec_fn(T) -> real, col: Seq<(usize, T)>, j: int, k: nat) -> real {
    sum(stored_at(v, col, j), k)
}

/// What each stored entry holds in place `j`.
pub open spec fn stored_at<T: Scalar>(v: spec_fn(T) -> real, col: Seq<(usize, T)>, j: int) -> spec_fn(int) -> real {
    |t: int|
        if col[t].0 == j {
            v(col[t].1)
        } else {
            0real
        }
}

/// The sparse rows hold the matrix.
pub open spec fn hold_rows<T: Scalar>(v: spec_fn(T) -> real, c: CscMatrix<T>, a: DenseMatrix<T>) -> bool {
    forall|r: int, j: int|
        0 <= r < a.nrows && 0 <= j < a.ncols ==> #[trigger] held(v, c.col(r), j, c.col(r).len()) == v(a.at(r, j))
}

/// The form stands for the matrix: the negated identity, or sparse rows that hold it.
pub open spec fn form_holds<T: Scalar>(
    v: spec_fn(T) -> real,
    form: Form,
    csr: Option<CscMatrix<T>>,
    a: DenseMatrix<T>,
) -> bool {
    match (form, csr) {
        (Form::Negated, _) => forall|i: int, j: int|
            0 <= i < a.nrows && 0 <= j < a.ncols ==> v(#[trigger] a.at(i, j)) == if i == j {
                -1real
            } else {
                0real
            },
        (Form::Rows, Some(c)) => hold_rows(v, c, a),
        _ => true,
    }
}

proof fn lemma_units(a: real, b: real, x: real)
    ensures
        0real * x == 0real,
        x * 0real == 0real,
        (-1real) * x == -x,
        (a + b) * x == a * x + b * x,
{
    assert(0real * x == 0real) by (nonlinear_arith);
    assert(x * 0real == 0real) by (nonlinear_arith);
    assert((-1real) * x == -x) by (nonlinear_arith);
    assert((a + b) * x == a * x + b * x) by (nonlinear_arith);
}

proof fn lemma_col_bound<T: Scalar>(c: CscMatrix<T>, r: int, t: int)
    requires
        c.wf(),
        0 <= r < c.n,
        0 <= t < c.col(r).len(),
    ensures
        c.col(r)[t].0 < c.m,
{
    assert(c.colptr@[r] <= c.colptr@[r + 1]);
    assert(c.colptr@[r + 1] <= c.colptr@[c.n as int]);
    assert(c.rowval@[c.colptr@[r] + t] < c.m);
}

/// The stored entries of a row times a vector.
proof fn lemma_row_product<T: Scalar>(v: spec_fn(T) -> real, c: CscMatrix<T>, r: int, x: Seq<T>, k: nat)
    requires
        exact(v),
        c.wf(),
        0 <= r < c.n,
        k <= c.col(r).len(),
    ensures
        v(row_product(c, r, x, k)) == sum(|j: int| held(v, c.col(r), j, k) * v(x[j]), c.m as nat),
    decreases k,
{
    let col = c.col(r);
    let n = c.m as nat;
    let now = |j: int| held(v, col, j, k) * v(x[j]);
    if k == 0 {
        assert forall|j: int| 0 <= j < n implies #[trigger] now(j) == 0real by {
            assert(held(v, col, j, 0) == 0real);
            lemma_units(0real, 0real, v(x[j]));
        }
        lemma_sum_zero(now, n);
    } else {
        let t = k - 1;
        lemma_row_product(v, c, r, x, t as nat);
        lemma_col_bound(c, r, t);
        let at = col[t].0 as int;
        let before = |j: int| held(v, col, j, t as nat) * v(x[j]);
        let added = |j: int|
            if j == at {
                v(col[t].1) * v(x[at])
            } else {
                0real
            };
        assert forall|j: int| 0 <= j < n implies #[trigger] now(j) == before(j) + added(j) by {
            let e = if j == at {
                v(col[t].1)
            } else {
                0real
            };
            assert(held(v, col, j, k) == held(v, col, j, t as nat) + e);
            lemma_units(held(v, col, j, t as nat), e, v(x[j]));
        }
        lemma_sum_same(now, |j: int| before(j) + added(j), n);
        lemma_sum_plus(before, added, n);
        lemma_sum_single(added, n, at);
    }
}

proof fn lemma_row_added<T: Scalar>(
    v: spec_fn(T) -> real,
    c: CscMatrix<T>,
    r: int,
    t: T,
    out: Seq<T>,
    k: nat,
    j: int,
)
    requires
        exact(v),
        c.wf(),
        0 <= r < c.n,
        out.len() == c.m,
        k <= c.col(r).len(),
        0 <= j < c.m,
    ensures
        row_added(c, r, t, out, k).len() == out.len(),
        v(row_added(c, r, t, out, k)[j]) == v(out[j]) + held(v, c.col(r), j, k) * v(t),
    decreases k,
{
    let col = c.col(r);
    if k == 0 {
        assert(held(v, col, j, 0) == 0real);
        lemma_units(0real, 0real, v(t));
    } else {
        let i = k - 1;
        lemma_row_added(v, c, r, t, out, i as nat, j);
        lemma_col_bound(c, r, i);
        let e = if col[i].0 == j {
            v(col[i].1)
        } else {
            0real
        };
        assert(held(v, col, j, k) == held(v, col, j, i as nat) + e);
        lemma_units(held(v, col, j, i as nat), e, v(t));
        lemma_units(0real, 0real, v(t));
    }
}

proof fn lemma_rows_t<T: Scalar>(v: spec_fn(T) -> real, c: CscMatrix<T>, y: Seq<T>, r: nat, j: int)
    requires
        exact(v),
        c.wf(),
        r <= c.n,
        0 <= j < c.m,
    ensures
        rows_t_times(c, y, r).len() == c.m,
        v(rows_t_times(c, y, r)[j]) == sum(|i: int| held(v, c.col(i), j, c.col(i).len()) * v(y[i]), r),
    decreases r,
{
    if r > 0 {
        lemma_rows_t(v, c, y, (r - 1) as nat, j);
        let front = rows_t_times(c, y, (r - 1) as nat);
        lemma_row_added(v, c, r - 1, y[r - 1], front, c.col(r - 1).len(), j);
        lemma_units(0real, 0real, held(v, c.col(r - 1), j, c.col(r - 1).len()));
    }
}

/// The product with a constraint matrix is the product of the matrix.
pub proof fn products_are_those_of_the_matrix<T: Scalar>(
    v: spec_fn(T) -> real,
    form: Form,
    csr: Option<CscMatrix<T>>,
    a: DenseMatrix<T>,
    x: Seq<T>,
    i: int,
)
    requires
        exact(v),
        form_fits(form, csr, a),
        form_holds(v, form, csr, a),
        x.len() == a.ncols,
        0 <= i < a.nrows,
    ensures
        times_spec(form, csr, a, x).len() == a.nrows,
        v(times_spec(form, csr, a, x)[i]) == along(entries_of(v, a), entries(v, x), i, a.ncols as nat),
{
    let n = a.ncols as nat;
    let goal = |j: int| entries_of(v, a)(i, j) * entries(v, x)(j);
    match (form, csr) {
        (Form::Negated, _) => {
            assert forall|j: int| 0 <= j < n && j != i implies #[trigger] goal(j) == 0real by {
                assert(v(a.at(i, j)) == 0real);
                lemma_units(0real, 0real, v(x[j]));
            }
            lemma_sum_single(goal, n, i);
            assert(v(a.at(i, i)) == -1real);
            lemma_units(0real, 0real, v(x[i]));
        },
        (Form::Rows, Some(c)) => {
            lemma_row_product(v, c, i, x, c.col(i).len());
            let f = |j: int| held(v, c.col(i), j, c.col(i).len()) * v(x[j]);
            assert forall|j: int| 0 <= j < n implies #[trigger] f(j) == goal(j) by {
                assert(held(v, c.col(i), j, c.col(i).len()) == v(a.at(i, j)));
            }
            lemma_sum_same(f, goal, n);
        },
        _ => {
            products_are_exact(v, a.row(i), x);
            let f = |j: int| v(a.row(i)[j]) * v(x[j]);
            assert forall|j: int| 0 <= j < n implies #[trigger] f(j) == goal(j) by {
                assert(a.row(i)[j] == a.at(i, j));
            }
            lemma_sum_same(f, goal, n);
        },
    }
}

/// The product with a transposed constraint matrix is the product of the transposed matrix.
pub proof fn transposed_products_are_those_of_the_matrix<T: Scalar>(
    v: spec_fn(T) -> real,
    form: Form,
    csr: Option<CscMatrix<T>>,
    a: DenseMatrix<T>,
    y: Seq<T>,
    j: int,
)
    requires
        exact(v),
        form_fits(form, csr, a),
        form_holds(v, form, csr, a),
        y.len() == a.nrows,
        0 <= j < a.ncols,
    ensures
        times_t_spec(form, csr, a, y).len() == a.ncols,
        v(times_t_spec(form, csr, a, y)[j]) == across(entries_of(v, a), entries(v, y), j, a.nrows as nat),
{
    let m = a.nrows as nat;
    let goal = |i: int| entries_of(v, a)(i, j) * entries(v, y)(i);
    match (form, csr) {
        (Form::Negated, _) => {
            assert forall|i: int| 0 <= i < m && i != j implies #[trigger] goal(i) == 0real by {
                assert(v(a.at(i, j)) == 0real);
                lemma_units(0real, 0real, v(y[i]));
            }
            lemma_sum_single(goal, m, j);
            assert(v(a.at(j, j)) == -1real);
            lemma_units(0real, 0real, v(y[j]));
        },
        (Form::Rows, Some(c)) => {
            lemma_rows_t(v, c, y, c.n as nat, j);
            let f = |i: int| held(v, c.col(i), j, c.col(i).len()) * v(y[i]);
            assert forall|i: int| 0 <= i < m implies #[trigger] f(i) == goal(i) by {
                assert(held(v, c.col(i), j, c.col(i).len()) == v(a.at(i, j)));
            }
            lemma_sum_same(f, goal, m);
        },
        _ => {
            products_are_exact(v, a.column(j), y);
            let f = |i: int| v(a.column(j)[i]) * v(y[i]);
            assert forall|i: int| 0 <= i < m implies #[trigger] f(i) == goal(i) by {
                assert(a.column(j)[i] == a.at(i, j));
            }
            lemma_sum_same(f, goal, m);
        },
    }
}

/// The product with the Hessian is the product of the matrix, also where only its diagonal is read.
pub proof fn hessian_products_are_those_of_the_matrix<T: Scalar>(
    v: spec_fn(T) -> real,
    p: DenseMatrix<T>,
    diagonal: bool,
    x: Seq<T>,
    i: int,
)
    requires
        exact(v),
        p.wf(),
        p.nrows == p.ncols,
        diagonal ==> diagonal_matrix(p),
        x.len() == p.ncols,
        0 <= i < p.nrows,
    ensures
        hessian_times(p, diagonal, x).len() == p.nrows,
        v(hessian_times(p, diagonal, x)[i]) == along(entries_of(v, p), entries(v, x), i, p.ncols as nat),
{
    let n = p.ncols as nat;
    if diagonal {
        let goal = |j: int| entries_of(v, p)(i, j) * entries(v, x)(j);
        assert forall|j: int| 0 <= j < n && j != i implies #[trigger] goal(j) == 0real by {
            assert(p.at(i, j).equals(T::zero()));
            lemma_units(0real, 0real, v(x[j]));
        }
        lemma_sum_single(goal, n, i);
    } else {
        products_are_those_of_the_matrix(v, Form::Dense, None, p, x, i);
    }
}

/// A zero Hessian gives nothing.
pub proof fn lemma_zero_hessian<T: Scalar>(v: spec_fn(T) -> real, p: DenseMatrix<T>, x: spec_fn(int) -> real, i: int)
    requires
        exact(v),
        zero_matrix(p),
        0 <= i < p.nrows,
    ensures
        along(entries_of(v, p), x, i, p.ncols as nat) == 0real,
{
    let goal = |j: int| entries_of(v, p)(i, j) * x(j);
    assert forall|j: int| 0 <= j < p.ncols implies #[trigger] goal(j) == 0real by {
        assert(p.at(i, j).equals(T::zero()));
        lemma_units(0real, 0real, x(j));
    }
    lemma_sum_zero(goal, p.ncols as nat);
}

proof fn lemma_nonzeros_held<T: Scalar>(v: spec_fn(T) -> real, a: Seq<T>, k: nat, j: int)
    requires
        exact(v),
        k <= usize::MAX,
    ensures
        held(v, nonzeros(a, k), j, nonzeros(a, k).len()) == if 0 <= j < k {
            v(a[j])
        } else {
            0real
        },
    decreases k,
{
    if k > 0 {
        lemma_nonzeros_held(v, a, (k - 1) as nat, j);
        let front = nonzeros(a, (k - 1) as nat);
        let all = nonzeros(a, k);
        if !a[k - 1].equals(T::zero()) {
            let (f, g) = (stored_at(v, front, j), stored_at(v, all, j));
            assert forall|t: int| 0 <= t < front.len() implies #[trigger] f(t) == g(t) by {
                assert(all[t] == front[t]);
            }
            lemma_sum_same(f, g, front.len());
            let last = front.len() as int;
            assert(all[last] == ((k - 1) as usize, a[k - 1]));
            assert(all.len() == front.len() + 1);
            assert(sum(g, all.len()) == sum(g, front.len()) + g(last));
        }
    }
}

/// The sparse rows that are taken from a matrix hold it.
pub proof fn found_rows_hold_the_matrix<T: Scalar>(v: spec_fn(T) -> real, c: CscMatrix<T>, a: DenseMatrix<T>)
    requires
        exact(v),
        a.wf(),
        is_row_form(c, a, a.nrows as nat, a.ncols as nat),
    ensures
        hold_rows(v, c, a),
{
    assert forall|r: int, j: int| 0 <= r < a.nrows && 0 <= j < a.ncols implies #[trigger] held(
        v,
        c.col(r),
        j,
        c.col(r).len(),
    ) == v(a.at(r, j)) by {
        assert(c.cols()[r] == c.col(r));
        lemma_nonzeros_held(v, a.row(r), a.ncols as nat, j);
        assert(a.row(r)[j] == a.at(r, j));
    }
}

} // verus!
