//! The condensed system of a low-rank Hessian, solved through the small capacitance matrix
//! `C = I + V' D^-1 V` with `V = [L, A_eq' / sqrt(delta)]`.
use crate::lowrank::LowRankDiag;
use crate::matrix::{raw_get, raw_row, DenseMatrix};
use crate::problem::QpProblem;
use crate::scalar::Scalar;
use crate::solve::{gives_solutions, yields};
use crate::vector::{dot_spec, dot_upto, slice_of};
use vstd::prelude::*;

verus! {

/// `start` and those of the first `k` terms whose mask is not zero, added from the left.
pub open spec fn masked_sum<T: Scalar>(start: T, mask: Seq<T>, terms: Seq<T>, k: nat) -> T
    decreases k,
{
    if k == 0 {
        start
    } else {
        let front = masked_sum(start, mask, terms, (k - 1) as nat);
        if mask[k - 1].equals(T::zero()) {
            front
        } else {
            front.plus(terms[k - 1])
        }
    }
}

/// The data of the small system for one iteration.
pub struct WoodburyCache<T> {
    /// The inverse of the regularized diagonal of the unknowns' block.
    pub dinv: Vec<T>,
    /// `1 / sqrt(delta)`.
    pub sqrt_delta_inv: T,
    /// The columns of `L`, one behind the other.
    pub lt: Vec<T>,
    /// The capacitance matrix.
    pub c: DenseMatrix<T>,
}

/// Row `a` of `L'`, scaled by the roots of the inverse diagonal.
pub open spec fn scaled_factor<T: Scalar>(lt: Seq<T>, dinv: Seq<T>, n: nat, a: int) -> Seq<T> {
    Seq::new(n, |j: int| lt[a * n + j].times(dinv[j].sqrt()))
}

/// The entry of `L' D^-1 L` in row `a` and column `b`, taken from the lower triangle.
pub open spec fn gram_entry<T: Scalar>(lt: Seq<T>, dinv: Seq<T>, n: nat, a: int, b: int) -> T {
    if a >= b {
        dot_spec(scaled_factor(lt, dinv, n, a), scaled_factor(lt, dinv, n, b))
    } else {
        dot_spec(scaled_factor(lt, dinv, n, b), scaled_factor(lt, dinv, n, a))
    }
}

/// The terms of `A_eq D^-1 A_eq' / delta` in row `a` and column `b`.
pub open spec fn eq_terms<T: Scalar>(a_eq: DenseMatrix<T>, dinv: Seq<T>, inv_delta: T, a: int, b: int) -> Seq<T> {
    Seq::new(
        a_eq.ncols as nat,
        |j: int| a_eq.at(a, j).times(dinv[j]).times(a_eq.at(b, j)).times(inv_delta),
    )
}

/// The entry of `A_eq D^-1 A_eq' / delta`, taken from the upper triangle.
pub open spec fn eq_entry<T: Scalar>(a_eq: DenseMatrix<T>, dinv: Seq<T>, delta: T, a: int, b: int) -> T {
    let inv_delta = T::one().over(delta);
    let (lo, hi) = if a <= b {
        (a, b)
    } else {
        (b, a)
    };
    masked_sum(T::zero(), a_eq.row(lo), eq_terms(a_eq, dinv, inv_delta, lo, hi), a_eq.ncols as nat)
}

/// The terms of `L' D^-1 A_eq' / sqrt(delta)` in row `a` and column `b`.
pub open spec fn cross_terms<T: Scalar>(
    lt: Seq<T>,
    a_eq: DenseMatrix<T>,
    dinv: Seq<T>,
    root: T,
    a: int,
    b: int,
) -> Seq<T> {
    let n = a_eq.ncols as nat;
    Seq::new(n, |j: int| lt[a * n + j].times(dinv[j]).times(root).times(a_eq.at(b, j)))
}

/// The entry of `L' D^-1 A_eq' / sqrt(delta)` in row `a` and column `b`.
pub open spec fn cross_entry<T: Scalar>(
    lt: Seq<T>,
    a_eq: DenseMatrix<T>,
    dinv: Seq<T>,
    delta: T,
    a: int,
    b: int,
) -> T {
    let root = T::one().over(delta).sqrt();
    masked_sum(T::zero(), a_eq.row(b), cross_terms(lt, a_eq, dinv, root, a, b), a_eq.ncols as nat)
}

/// The entry of the capacitance matrix of `k` factors in row `i` and column `j`.
pub open spec fn capacitance<T: Scalar>(
    k: nat,
    lt: Seq<T>,
    a_eq: DenseMatrix<T>,
    dinv: Seq<T>,
    delta: T,
) -> spec_fn(int, int) -> T {
    |i: int, j: int|
        {
            let unit = if i == j {
                T::one()
            } else {
                T::zero()
            };
            if i < k && j < k {
                unit.plus(gram_entry(lt, dinv, a_eq.ncols as nat, i, j))
            } else if i >= k && j >= k {
                unit.plus(eq_entry(a_eq, dinv, delta, i - k, j - k))
            } else if i < k {
                unit.plus(cross_entry(lt, a_eq, dinv, delta, i, j - k))
            } else {
                unit.plus(cross_entry(lt, a_eq, dinv, delta, j, i - k))
            }
        }
}

/// The capacitance matrix is symmetric.
pub proof fn capacitance_is_symmetric<T: Scalar>(
    k: nat,
    lt: Seq<T>,
    a_eq: DenseMatrix<T>,
    dinv: Seq<T>,
    delta: T,
    i: int,
    j: int,
)
    ensures
        capacitance(k, lt, a_eq, dinv, delta)(i, j) == capacitance(k, lt, a_eq, dinv, delta)(j, i),
{
}

fn gram_of<T: Scalar>(lt: &[T], k: usize, n: usize, dinv: &[T], a: usize, b: usize) -> (r: T)
    requires
        lt@.len() == k * n,
        dinv@.len() == n,
        b <= a < k,
    ensures
        r == gram_entry(lt@, dinv@, n as nat, a as int, b as int),
{
    let ghost fa = scaled_factor(lt@, dinv@, n as nat, a as int);
    let ghost fb = scaled_factor(lt@, dinv@, n as nat, b as int);
    let mut acc = T::zero();
    let mut j: usize = 0;
    while j < n
        invariant
            lt@.len() == k * n,
            dinv@.len() == n,
            b <= a < k,
            fa == scaled_factor(lt@, dinv@, n as nat, a as int),
            fb == scaled_factor(lt@, dinv@, n as nat, b as int),
            j <= n,
            acc == dot_upto(fa, fb, j as nat),
        decreases n - j,
    {
        let root = dinv[j].sqrt();
        let x = raw_get(lt, k, n, a, j).times(root);
        let y = raw_get(lt, k, n, b, j).times(root);
        acc = acc.plus(x.times(y));
        j += 1;
    }
    acc
}

fn eq_of<T: Scalar>(a_eq: &DenseMatrix<T>, dinv: &[T], delta: T, a: usize, b: usize) -> (r: T)
    requires
        a_eq.wf(),
        dinv@.len() == a_eq.ncols,
        a <= b < a_eq.nrows,
    ensures
        r == eq_entry(*a_eq, dinv@, delta, a as int, b as int),
{
    let inv_delta = T::one().over(delta);
    let ghost terms = eq_terms(*a_eq, dinv@, inv_delta, a as int, b as int);
    let mut acc = T::zero();
    let mut j: usize = 0;
    while j < a_eq.ncols
        invariant
            a_eq.wf(),
            dinv@.len() == a_eq.ncols,
            a <= b < a_eq.nrows,
            terms == eq_terms(*a_eq, dinv@, inv_delta, a as int, b as int),
            j <= a_eq.ncols,
            acc == masked_sum(T::zero(), a_eq.row(a as int), terms, j as nat),
        decreases a_eq.ncols - j,
    {
        let aj = a_eq.get(a, j);
        if !aj.equals(T::zero()) {
            acc = acc.plus(aj.times(dinv[j]).times(a_eq.get(b, j)).times(inv_delta));
        }
        j += 1;
    }
    acc
}

fn cross_of<T: Scalar>(lt: &[T], k: usize, a_eq: &DenseMatrix<T>, dinv: &[T], delta: T, a: usize, b: usize) -> (r:
    T)
    requires
        a_eq.wf(),
        lt@.len() == k * a_eq.ncols,
        dinv@.len() == a_eq.ncols,
        a < k,
        b < a_eq.nrows,
    ensures
        r == cross_entry(lt@, *a_eq, dinv@, delta, a as int, b as int),
{
    let root = T::one().over(delta).sqrt();
    let ghost terms = cross_terms(lt@, *a_eq, dinv@, root, a as int, b as int);
    let n: usize = a_eq.ncols;
    let mut acc = T::zero();
    let mut j: usize = 0;
    while j < n
        invariant
            a_eq.wf(),
            n == a_eq.ncols,
            lt@.len() == k * n,
            dinv@.len() == n,
            a < k,
            b < a_eq.nrows,
            terms == cross_terms(lt@, *a_eq, dinv@, root, a as int, b as int),
            j <= n,
            acc == masked_sum(T::zero(), a_eq.row(b as int), terms, j as nat),
        decreases n - j,
    {
        let aj = a_eq.get(b, j);
        if !aj.equals(T::zero()) {
            acc = acc.plus(raw_get(lt, k, n, a, j).times(dinv[j]).times(root).times(aj));
        }
        j += 1;
    }
    acc
}

/// The capacitance matrix of `k` factors and the equality rows. See [`capacitance`].
pub fn build_woodbury_capacitance<T: Scalar>(
    k: usize,
    lt: &[T],
    dinv: &[T],
    a_eq: &DenseMatrix<T>,
    delta: T,
) -> (c: DenseMatrix<T>)
    requires
        a_eq.wf(),
        lt@.len() == k * a_eq.ncols,
        dinv@.len() == a_eq.ncols,
        k + a_eq.nrows <= usize::MAX,
        (k + a_eq.nrows) * (k + a_eq.nrows) <= usize::MAX,
    ensures
        c.sized((k + a_eq.nrows) as nat, (k + a_eq.nrows) as nat),
        c.entries_are(capacitance(k as nat, lt@, *a_eq, dinv@, delta)),
{
    let me: usize = a_eq.nrows;
    let n: usize = a_eq.ncols;
    let rk: usize = k + me;
    let ghost f = capacitance(k as nat, lt@, *a_eq, dinv@, delta);
    let mut c: DenseMatrix<T> = DenseMatrix::zeros(rk, rk);
    let mut i: usize = 0;
    while i < rk
        invariant
            a_eq.wf(),
            me == a_eq.nrows,
            n == a_eq.ncols,
            rk == k + me,
            lt@.len() == k * n,
            dinv@.len() == n,
            f == capacitance(k as nat, lt@, *a_eq, dinv@, delta),
            i <= rk,
            c.sized(rk as nat, rk as nat),
            forall|a: int, b: int|
                0 <= a < rk && 0 <= b < rk && a < i && b < i ==> #[trigger] c.at(a, b) == f(a, b),
        decreases rk - i,
    {
        let mut j: usize = 0;
        while j <= i
            invariant
                a_eq.wf(),
                me == a_eq.nrows,
                n == a_eq.ncols,
                rk == k + me,
                lt@.len() == k * n,
                dinv@.len() == n,
                f == capacitance(k as nat, lt@, *a_eq, dinv@, delta),
                i < rk,
                j <= i + 1,
                c.sized(rk as nat, rk as nat),
                forall|a: int, b: int|
                    0 <= a < rk && 0 <= b < rk && ((a < i && b < i) || (a == i && b < j) || (b == i && a
                        < j)) ==> #[trigger] c.at(a, b) == f(a, b),
            decreases i + 1 - j,
        {
            let v = if i < k {
                gram_of(lt, k, n, dinv, i, j)
            } else if j >= k {
                eq_of(a_eq, dinv, delta, j - k, i - k)
            } else {
                cross_of(lt, k, a_eq, dinv, delta, j, i - k)
            };
            let unit = if i == j {
                T::one()
            } else {
                T::zero()
            };
            let e = unit.plus(v);
            proof {
                capacitance_is_symmetric(k as nat, lt@, *a_eq, dinv@, delta, i as int, j as int);
                assert(e == f(i as int, j as int));
            }
            c.set(i, j, e);
            c.set(j, i, e);
            j += 1;
        }
        i += 1;
    }
    c
}

/// The diagonal of the unknowns' block: `d + rho`, and `z / s` times the square of the entry of
/// each bound row among the first `k` in that column.
pub open spec fn woodbury_diag<T: Scalar>(
    d: Seq<T>,
    rho: T,
    zs: Seq<T>,
    col_ineq: Seq<(usize, T)>,
    j: int,
    k: nat,
) -> T
    decreases k,
{
    if k == 0 {
        d[j].plus(rho)
    } else {
        let front = woodbury_diag(d, rho, zs, col_ineq, j, (k - 1) as nat);
        let (c, v) = col_ineq[k - 1];
        if c == j && !v.equals(T::zero()) {
            front.plus(zs[k - 1].times(v).times(v))
        } else {
            front
        }
    }
}

/// The data of the small system: `zs[r]` is the ratio of multiplier and slack of inequality row
/// `r`, and `col_ineq[r]` the column and the value of its single entry.
pub fn fill_woodbury_cache<T: Scalar>(
    prob: &QpProblem<T>,
    rho: T,
    delta: T,
    zs: &[T],
    lr: &LowRankDiag<T>,
    col_ineq: &[(usize, T)],
) -> (ws: WoodburyCache<T>)
    requires
        prob.wf(),
        lr.fits(prob.n()),
        zs@.len() == prob.mi(),
        col_ineq@.len() == prob.mi(),
        forall|r: int| 0 <= r < prob.mi() ==> (#[trigger] col_ineq@[r]).0 < prob.n(),
        lr.rank + prob.me() <= usize::MAX,
        (lr.rank + prob.me()) * (lr.rank + prob.me()) <= usize::MAX,
    ensures
        ws.dinv@ == Seq::new(
            prob.n(),
            |j: int| T::one().over(woodbury_diag(lr.d@, rho, zs@, col_ineq@, j, prob.mi())),
        ),
        ws.sqrt_delta_inv == T::one().over(delta).sqrt(),
        ws.lt@.len() == lr.rank * prob.n(),
        forall|t: int, i: int|
            0 <= t < lr.rank && 0 <= i < prob.n() ==> #[trigger] ws.lt@[t * prob.n() + i] == lr.l.at(i, t),
        ws.c.sized(lr.rank as nat + prob.me(), lr.rank as nat + prob.me()),
        ws.c.entries_are(capacitance(lr.rank as nat, ws.lt@, prob.a_eq, ws.dinv@, delta)),
{
    let n: usize = prob.q.len();
    let mi: usize = prob.b_in.len();
    let k: usize = lr.rank;
    let one = T::one();
    let mut diag: Vec<T> = Vec::with_capacity(n);
    let mut j: usize = 0;
    while j < n
        invariant
            n == prob.n(),
            lr.d@.len() == n,
            j <= n,
            diag@.len() == j,
            forall|c: int| 0 <= c < j ==> #[trigger] diag@[c] == lr.d@[c].plus(rho),
        decreases n - j,
    {
        diag.push(lr.d[j].plus(rho));
        j += 1;
    }
    let mut r: usize = 0;
    while r < mi
        invariant
            n == prob.n(),
            mi == prob.mi(),
            zs@.len() == mi,
            col_ineq@.len() == mi,
            forall|r: int| 0 <= r < mi ==> (#[trigger] col_ineq@[r]).0 < n,
            r <= mi,
            diag@.len() == n,
            forall|c: int|
                0 <= c < n ==> #[trigger] diag@[c] == woodbury_diag(
                    lr.d@,
                    rho,
                    zs@,
                    col_ineq@,
                    c,
                    r as nat,
                ),
        decreases mi - r,
    {
        let (c, v) = col_ineq[r];
        assert(col_ineq@[r as int].0 < n);
        if !v.equals(T::zero()) {
            let sum = diag[c].plus(zs[r].times(v).times(v));
            diag[c] = sum;
        }
        r += 1;
    }
    let mut dinv: Vec<T> = Vec::with_capacity(n);
    j = 0;
    while j < n
        invariant
            n == prob.n(),
            mi == prob.mi(),
            one == T::one(),
            j <= n,
            diag@.len() == n,
            forall|c: int|
                0 <= c < n ==> #[trigger] diag@[c] == woodbury_diag(
                    lr.d@,
                    rho,
                    zs@,
                    col_ineq@,
                    c,
                    mi as nat,
                ),
            dinv@.len() == j,
            forall|c: int|
                0 <= c < j ==> #[trigger] dinv@[c] == one.over(
                    woodbury_diag(lr.d@, rho, zs@, col_ineq@, c, mi as nat),
                ),
        decreases n - j,
    {
        dinv.push(one.over(diag[j]));
        j += 1;
    }
    assert(dinv@ =~= Seq::new(
        prob.n(),
        |j: int| T::one().over(woodbury_diag(lr.d@, rho, zs@, col_ineq@, j, prob.mi())),
    ));
    let lt = factor_columns(&lr.l);
    let c = build_woodbury_capacitance(k, &lt, &dinv, &prob.a_eq, delta);
    WoodburyCache { dinv, sqrt_delta_inv: one.over(delta).sqrt(), lt, c }
}

/// The columns of a matrix, one behind the other.
pub fn factor_columns<T: Scalar>(l: &DenseMatrix<T>) -> (lt: Vec<T>)
    requires
        l.wf(),
    ensures
        lt@.len() == l.ncols * l.nrows,
        forall|t: int, i: int|
            0 <= t < l.ncols && 0 <= i < l.nrows ==> #[trigger] lt@[t * l.nrows + i] == l.at(i, t),
{
    let n: usize = l.nrows;
    let k: usize = l.ncols;
    let total: usize = l.data.len();
    proof {
        assert(k * n == n * k) by (nonlinear_arith);
    }
    let mut out: DenseMatrix<T> = DenseMatrix::zeros(k, n);
    let mut t: usize = 0;
    while t < k
        invariant
            l.wf(),
            n == l.nrows,
            k == l.ncols,
            t <= k,
            out.sized(k as nat, n as nat),
            forall|a: int, b: int| 0 <= a < t && 0 <= b < n ==> #[trigger] out.at(a, b) == l.at(b, a),
        decreases k - t,
    {
        let mut i: usize = 0;
        while i < n
            invariant
                l.wf(),
                n == l.nrows,
                k == l.ncols,
                t < k,
                i <= n,
                out.sized(k as nat, n as nat),
                forall|a: int, b: int|
                    0 <= a < k && 0 <= b < n && (a < t || (a == t && b < i)) ==> #[trigger] out.at(a, b)
                        == l.at(b, a),
            decreases n - i,
        {
            out.set(t, i, l.get(i, t));
            i += 1;
        }
        t += 1;
    }
    proof {
        assert forall|t: int, i: int|
            0 <= t < l.ncols && 0 <= i < l.nrows implies #[trigger] out.data@[t * l.nrows + i] == l.at(i, t) by {
            assert(out.at(t, i) == l.at(i, t));
        }
    }
    out.data
}

/// The terms of `A_eq' y / delta` in coordinate `j`.
pub open spec fn lifted_terms<T: Scalar>(a_eq: DenseMatrix<T>, inv_delta: T, y: Seq<T>, j: int) -> Seq<T> {
    Seq::new(a_eq.nrows as nat, |r: int| a_eq.at(r, j).times(inv_delta).times(y[r]))
}

/// `D^-1 (rhs_x + A_eq' rhs_y / delta)`.
pub open spec fn lifted<T: Scalar>(
    a_eq: DenseMatrix<T>,
    dinv: Seq<T>,
    delta: T,
    rhs_x: Seq<T>,
    rhs_y: Seq<T>,
) -> Seq<T> {
    let inv_delta = T::one().over(delta);
    Seq::new(
        a_eq.ncols as nat,
        |j: int|
            dinv[j].times(
                masked_sum(
                    rhs_x[j],
                    a_eq.column(j),
                    lifted_terms(a_eq, inv_delta, rhs_y, j),
                    a_eq.nrows as nat,
                ),
            ),
    )
}

/// The terms of row `b` of `A_eq` times `u`.
pub open spec fn row_terms<T: Scalar>(a_eq: DenseMatrix<T>, u: Seq<T>, b: int) -> Seq<T> {
    Seq::new(a_eq.ncols as nat, |j: int| a_eq.at(b, j).times(u[j]))
}

/// Row `b` of `A_eq` times `u`, over the entries that are not zero.
pub open spec fn masked_row<T: Scalar>(a_eq: DenseMatrix<T>, u: Seq<T>, b: int) -> T {
    masked_sum(T::zero(), a_eq.row(b), row_terms(a_eq, u, b), a_eq.ncols as nat)
}

/// `V' u`, the right-hand side of the capacitance system.
pub open spec fn small_rhs<T: Scalar>(k: nat, lt: Seq<T>, a_eq: DenseMatrix<T>, root: T, u: Seq<T>) -> Seq<T> {
    Seq::new(
        k + a_eq.nrows as nat,
        |i: int|
            if i < k {
                dot_spec(raw_row(lt, a_eq.ncols as nat, i), u)
            } else {
                masked_row(a_eq, u, i - k).times(root)
            },
    )
}

/// `V w` in coordinate `j`, over the first `t` factors.
pub open spec fn factor_part<T: Scalar>(lt: Seq<T>, n: nat, w: Seq<T>, j: int, t: nat) -> T
    decreases t,
{
    if t == 0 {
        T::zero()
    } else {
        factor_part(lt, n, w, j, (t - 1) as nat).plus(lt[(t - 1) * n + j].times(w[t - 1]))
    }
}

/// The terms of the equality part of `V w` in coordinate `j`.
pub open spec fn eq_part_terms<T: Scalar>(k: nat, a_eq: DenseMatrix<T>, root: T, w: Seq<T>, j: int) -> Seq<T> {
    Seq::new(a_eq.nrows as nat, |b: int| a_eq.at(b, j).times(w[k + b]).times(root))
}

/// `u - D^-1 V w`.
pub open spec fn corrected_x<T: Scalar>(
    k: nat,
    lt: Seq<T>,
    a_eq: DenseMatrix<T>,
    dinv: Seq<T>,
    root: T,
    u: Seq<T>,
    w: Seq<T>,
) -> Seq<T> {
    Seq::new(
        a_eq.ncols as nat,
        |j: int|
            u[j].minus(
                dinv[j].times(
                    masked_sum(
                        factor_part(lt, a_eq.ncols as nat, w, j, k),
                        a_eq.column(j),
                        eq_part_terms(k, a_eq, root, w, j),
                        a_eq.nrows as nat,
                    ),
                ),
            ),
    )
}

/// `(A_eq dx - rhs_y) / delta`.
pub open spec fn recovered_y<T: Scalar>(a_eq: DenseMatrix<T>, delta: T, dx: Seq<T>, rhs_y: Seq<T>) -> Seq<T> {
    Seq::new(
        a_eq.nrows as nat,
        |r: int| masked_row(a_eq, dx, r).minus(rhs_y[r]).times(T::one().over(delta)),
    )
}

/// The cache fits the problem and a decomposition of rank `k`.
pub open spec fn cache_fits<T: Scalar>(wb: WoodburyCache<T>, prob: QpProblem<T>, k: nat) -> bool {
    wb.dinv@.len() == prob.n() && wb.lt@.len() == k * prob.n()
}

fn lift<T: Scalar>(a_eq: &DenseMatrix<T>, dinv: &[T], delta: T, rhs_x: &[T], rhs_y: &[T]) -> (u: Vec<T>)
    requires
        a_eq.wf(),
        dinv@.len() == a_eq.ncols,
        rhs_x@.len() == a_eq.ncols,
        rhs_y@.len() == a_eq.nrows,
    ensures
        u@ == lifted(*a_eq, dinv@, delta, rhs_x@, rhs_y@),
{
    let n: usize = a_eq.ncols;
    let me: usize = a_eq.nrows;
    let inv_delta = T::one().over(delta);
    let ghost all = lifted(*a_eq, dinv@, delta, rhs_x@, rhs_y@);
    let mut u: Vec<T> = Vec::with_capacity(n);
    let mut j: usize = 0;
    while j < n
        invariant
            a_eq.wf(),
            n == a_eq.ncols,
            me == a_eq.nrows,
            dinv@.len() == n,
            rhs_x@.len() == n,
            rhs_y@.len() == me,
            inv_delta == T::one().over(delta),
            all == lifted(*a_eq, dinv@, delta, rhs_x@, rhs_y@),
            j <= n,
            u@ =~= all.subrange(0, j as int),
        decreases n - j,
    {
        let ghost terms = lifted_terms(*a_eq, inv_delta, rhs_y@, j as int);
        let mut acc = rhs_x[j];
        let mut r: usize = 0;
        while r < me
            invariant
                a_eq.wf(),
                n == a_eq.ncols,
                me == a_eq.nrows,
                rhs_x@.len() == n,
                rhs_y@.len() == me,
                j < n,
                terms == lifted_terms(*a_eq, inv_delta, rhs_y@, j as int),
                r <= me,
                acc == masked_sum(rhs_x@[j as int], a_eq.column(j as int), terms, r as nat),
            decreases me - r,
        {
            let a = a_eq.get(r, j);
            if !a.equals(T::zero()) {
                acc = acc.plus(a.times(inv_delta).times(rhs_y[r]));
            }
            r += 1;
        }
        u.push(dinv[j].times(acc));
        j += 1;
    }
    assert(u@ =~= all);
    u
}

fn masked_row_of<T: Scalar>(a_eq: &DenseMatrix<T>, u: &[T], b: usize) -> (r: T)
    requires
        a_eq.wf(),
        u@.len() == a_eq.ncols,
        b < a_eq.nrows,
    ensures
        r == masked_row(*a_eq, u@, b as int),
{
    let ghost terms = row_terms(*a_eq, u@, b as int);
    let mut acc = T::zero();
    let mut j: usize = 0;
    while j < a_eq.ncols
        invariant
            a_eq.wf(),
            u@.len() == a_eq.ncols,
            b < a_eq.nrows,
            terms == row_terms(*a_eq, u@, b as int),
            j <= a_eq.ncols,
            acc == masked_sum(T::zero(), a_eq.row(b as int), terms, j as nat),
        decreases a_eq.ncols - j,
    {
        let a = a_eq.get(b, j);
        if !a.equals(T::zero()) {
            acc = acc.plus(a.times(u[j]));
        }
        j += 1;
    }
    acc
}

fn project<T: Scalar>(k: usize, lt: &[T], a_eq: &DenseMatrix<T>, root: T, u: &[T]) -> (v: Vec<T>)
    requires
        a_eq.wf(),
        lt@.len() == k * a_eq.ncols,
        u@.len() == a_eq.ncols,
        k + a_eq.nrows <= usize::MAX,
    ensures
        v@ == small_rhs(k as nat, lt@, *a_eq, root, u@),
{
    let n: usize = a_eq.ncols;
    let me: usize = a_eq.nrows;
    let ghost all = small_rhs(k as nat, lt@, *a_eq, root, u@);
    let mut v: Vec<T> = Vec::with_capacity(k + me);
    let mut a: usize = 0;
    while a < k
        invariant
            a_eq.wf(),
            n == a_eq.ncols,
            lt@.len() == k * n,
            u@.len() == n,
            all == small_rhs(k as nat, lt@, *a_eq, root, u@),
            a <= k,
            v@ =~= all.subrange(0, a as int),
        decreases k - a,
    {
        let ghost row = raw_row(lt@, n as nat, a as int);
        let mut acc = T::zero();
        let mut j: usize = 0;
        while j < n
            invariant
                n == u@.len(),
                lt@.len() == k * n,
                a < k,
                row == raw_row(lt@, n as nat, a as int),
                j <= n,
                acc == dot_upto(row, u@, j as nat),
            decreases n - j,
        {
            acc = acc.plus(raw_get(lt, k, n, a, j).times(u[j]));
            j += 1;
        }
        v.push(acc);
        a += 1;
    }
    let mut b: usize = 0;
    while b < me
        invariant
            a_eq.wf(),
            n == a_eq.ncols,
            me == a_eq.nrows,
            u@.len() == n,
            all == small_rhs(k as nat, lt@, *a_eq, root, u@),
            b <= me,
            v@ =~= all.subrange(0, k + b),
        decreases me - b,
    {
        v.push(masked_row_of(a_eq, u, b).times(root));
        b += 1;
    }
    assert(v@ =~= all);
    v
}

fn correct<T: Scalar>(k: usize, lt: &[T], a_eq: &DenseMatrix<T>, dinv: &[T], root: T, u: &[T], w: &[T]) -> (dx: Vec<
    T,
>)
    requires
        a_eq.wf(),
        lt@.len() == k * a_eq.ncols,
        dinv@.len() == a_eq.ncols,
        u@.len() == a_eq.ncols,
        w@.len() == k + a_eq.nrows,
        k + a_eq.nrows <= usize::MAX,
    ensures
        dx@ == corrected_x(k as nat, lt@, *a_eq, dinv@, root, u@, w@),
{
    let n: usize = a_eq.ncols;
    let me: usize = a_eq.nrows;
    let ghost all = corrected_x(k as nat, lt@, *a_eq, dinv@, root, u@, w@);
    let mut dx: Vec<T> = Vec::with_capacity(n);
    let mut j: usize = 0;
    while j < n
        invariant
            a_eq.wf(),
            n == a_eq.ncols,
            me == a_eq.nrows,
            lt@.len() == k * n,
            dinv@.len() == n,
            u@.len() == n,
            w@.len() == k + me,
            k + me <= usize::MAX,
            all == corrected_x(k as nat, lt@, *a_eq, dinv@, root, u@, w@),
            j <= n,
            dx@ =~= all.subrange(0, j as int),
        decreases n - j,
    {
        let mut lw = T::zero();
        let mut a: usize = 0;
        while a < k
            invariant
                lt@.len() == k * n,
                w@.len() == k + me,
                j < n,
                a <= k,
                lw == factor_part(lt@, n as nat, w@, j as int, a as nat),
            decreases k - a,
        {
            lw = lw.plus(raw_get(lt, k, n, a, j).times(w[a]));
            a += 1;
        }
        let ghost start = lw;
        let ghost terms = eq_part_terms(k as nat, *a_eq, root, w@, j as int);
        let mut b: usize = 0;
        while b < me
            invariant
                a_eq.wf(),
                n == a_eq.ncols,
                me == a_eq.nrows,
                w@.len() == k + me,
                k + me <= usize::MAX,
                j < n,
                terms == eq_part_terms(k as nat, *a_eq, root, w@, j as int),
                b <= me,
                lw == masked_sum(start, a_eq.column(j as int), terms, b as nat),
            decreases me - b,
        {
            let a = a_eq.get(b, j);
            if !a.equals(T::zero()) {
                lw = lw.plus(a.times(w[k + b]).times(root));
            }
            b += 1;
        }
        dx.push(u[j].minus(dinv[j].times(lw)));
        j += 1;
    }
    assert(dx@ =~= all);
    dx
}

/// The steps of unknowns and equality multipliers, from the solution `w` of the capacitance system.
pub open spec fn completed<T: Scalar>(
    prob: QpProblem<T>,
    rank: nat,
    wb: WoodburyCache<T>,
    delta: T,
    u: Seq<T>,
    w: Seq<T>,
    rhs_y: Seq<T>,
) -> Seq<T> {
    let dx = corrected_x(rank, wb.lt@, prob.a_eq, wb.dinv@, wb.sqrt_delta_inv, u, w);
    dx + recovered_y(prob.a_eq, delta, dx, rhs_y)
}

/// The solutions of the low-rank system through the capacitance matrix, whose solutions are
/// `solves`.
pub open spec fn woodbury_solved<T: Scalar>(
    prob: QpProblem<T>,
    rank: nat,
    wb: WoodburyCache<T>,
    delta: T,
    solves: spec_fn(Seq<T>, Seq<T>) -> bool,
) -> spec_fn(Seq<T>, Seq<T>) -> bool {
    let n = prob.n() as int;
    |rhs: Seq<T>, out: Seq<T>|
        {
            let rhs_y = rhs.subrange(n, n + prob.me());
            let u = lifted(prob.a_eq, wb.dinv@, delta, rhs.subrange(0, n), rhs_y);
            let v = small_rhs(rank, wb.lt@, prob.a_eq, wb.sqrt_delta_inv, u);
            exists|w: Seq<T>| #[trigger]
                yields(solves, v, w) && out == completed(prob, rank, wb, delta, u, w, rhs_y)
        }
}

/// Solves the condensed system for `(dx, dy)` through the capacitance system, which `cap_solve`
/// solves.
pub(crate) fn solve_woodbury<T: Scalar, S: Fn(&[T]) -> Vec<T>>(
    prob: &QpProblem<T>,
    rank: usize,
    wb: &WoodburyCache<T>,
    delta: T,
    rhs: &[T],
    cap_solve: &S,
    Ghost(solves): Ghost<spec_fn(Seq<T>, Seq<T>) -> bool>,
) -> (r: Vec<T>)
    requires
        prob.wf(),
        cache_fits(*wb, *prob, rank as nat),
        rhs@.len() == prob.n() + prob.me(),
        rank + prob.me() <= usize::MAX,
        gives_solutions(*cap_solve, solves, rank as nat + prob.me()),
    ensures
        yields(woodbury_solved(*prob, rank as nat, *wb, delta, solves), rhs@, r@),
        r@.len() == rhs@.len(),
{
    let n: usize = prob.q.len();
    let rhs_x = slice_of(rhs, 0, n);
    let rhs_y = slice_of(rhs, n, n + prob.b_eq.len());
    let me: usize = prob.b_eq.len();
    let u = lift(&prob.a_eq, &wb.dinv, delta, &rhs_x, &rhs_y);
    let v = project(rank, &wb.lt, &prob.a_eq, wb.sqrt_delta_inv, &u);
    let arg: &[T] = v.as_slice();
    let w = cap_solve(arg);
    let dx = correct(rank, &wb.lt, &prob.a_eq, &wb.dinv, wb.sqrt_delta_inv, &u, &w);
    let inv_delta = T::one().over(delta);
    let ghost all = recovered_y(prob.a_eq, delta, dx@, rhs_y@);
    let mut dy: Vec<T> = Vec::with_capacity(me);
    let mut r: usize = 0;
    while r < me
        invariant
            prob.wf(),
            me == prob.me(),
            dx@.len() == prob.n(),
            rhs_y@.len() == me,
            inv_delta == T::one().over(delta),
            all == recovered_y(prob.a_eq, delta, dx@, rhs_y@),
            r <= me,
            dy@ =~= all.subrange(0, r as int),
        decreases me - r,
    {
        dy.push(masked_row_of(&prob.a_eq, &dx, r).minus(rhs_y[r]).times(inv_delta));
        r += 1;
    }
    assert(dy@ =~= all);
    assert(yields(solves, arg@, w@));
    let ghost whole = dx@ + dy@;
    let mut out = dx;
    out.append(&mut dy);
    assert(out@ =~= whole);
    out
}

} // verus!
