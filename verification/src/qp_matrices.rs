//! The dense matrices of the orthant engine: the positive definite block of the unknowns, the
//! reduced system, the complement of the equality rows, and how they are regularized when a
//! factorization fails.
use crate::matrix::DenseMatrix;
use crate::problem::QpProblem;
use crate::scalar::Scalar;
use crate::vector::{dot_spec, dot_upto};
use crate::woodbury::masked_sum;
use vstd::prelude::*;

verus! {

/// The bound rows and the general rows are rows of the problem.
pub open spec fn rows_fit<T: Scalar>(prob: QpProblem<T>, units: Seq<(usize, usize, T)>, general: Seq<usize>) -> bool {
    &&& forall|i: int| 0 <= i < units.len() ==> (#[trigger] units[i]).0 < prob.mi() && units[i].1 < prob.n()
    &&& forall|i: int| 0 <= i < general.len() ==> (#[trigger] general[i]) < prob.mi()
}

/// `start` and `zs v^2` for each of the first `k` bound rows in column `c`.
pub open spec fn units_added<T: Scalar>(
    units: Seq<(usize, usize, T)>,
    zs: Seq<T>,
    start: T,
    c: int,
    k: nat,
) -> T
    decreases k,
{
    if k == 0 {
        start
    } else {
        let front = units_added(units, zs, start, c, (k - 1) as nat);
        let (r, col, v) = units[k - 1];
        if col == c {
            front.plus(zs[r as int].times(v).times(v))
        } else {
            front
        }
    }
}

/// Column `i` of the general rows, scaled by the roots of `zs`.
pub open spec fn rooted_column<T: Scalar>(a_in: DenseMatrix<T>, general: Seq<usize>, zs: Seq<T>, i: int) -> Seq<T> {
    Seq::new(general.len(), |b: int| zs[general[b] as int].sqrt().times(a_in.at(general[b] as int, i)))
}

/// `start` and the products `zs a_i a_j` of the first `k` general rows.
pub open spec fn outer_added<T: Scalar>(
    a_in: DenseMatrix<T>,
    general: Seq<usize>,
    zs: Seq<T>,
    start: T,
    i: int,
    j: int,
    k: nat,
) -> T
    decreases k,
{
    if k == 0 {
        start
    } else {
        let front = outer_added(a_in, general, zs, start, i, j, (k - 1) as nat);
        let r = general[k - 1] as int;
        if a_in.at(r, i).equals(T::zero()) {
            front
        } else {
            front.plus(zs[r].times(a_in.at(r, i)).times(a_in.at(r, j)))
        }
    }
}

/// `start` and the entry of `A' diag(zs) A` over the general rows. From 48 unknowns on it is the product
/// of two scaled columns.
pub open spec fn gram_added<T: Scalar>(
    a_in: DenseMatrix<T>,
    general: Seq<usize>,
    zs: Seq<T>,
    start: T,
    i: int,
    j: int,
) -> T {
    if a_in.ncols >= 48 && general.len() > 0 {
        start.plus(dot_spec(rooted_column(a_in, general, zs, i), rooted_column(a_in, general, zs, j)))
    } else {
        outer_added(a_in, general, zs, start, i, j, general.len())
    }
}

/// The entry of `P + rho I`.
pub open spec fn shifted<T: Scalar>(p: DenseMatrix<T>, rho: T, i: int, j: int) -> T {
    if i == j {
        p.at(i, j).plus(rho)
    } else {
        p.at(i, j)
    }
}

/// The entry of `P + rho I` with the bound rows and the general rows added.
pub open spec fn weighted<T: Scalar>(
    prob: QpProblem<T>,
    units: Seq<(usize, usize, T)>,
    general: Seq<usize>,
    zs: Seq<T>,
    rho: T,
    lift: T,
    i: int,
    j: int,
) -> T {
    let base = shifted(prob.p, rho, i, j);
    let lifted = if i == j {
        units_added(units, zs, base.plus(lift), i, units.len())
    } else {
        base
    };
    gram_added(prob.a_in, general, zs, lifted, i, j)
}

/// The same entry without a lift of the diagonal.
pub open spec fn weighted_plain<T: Scalar>(
    prob: QpProblem<T>,
    units: Seq<(usize, usize, T)>,
    general: Seq<usize>,
    zs: Seq<T>,
    rho: T,
    i: int,
    j: int,
) -> T {
    let base = shifted(prob.p, rho, i, j);
    let with_units = if i == j {
        units_added(units, zs, base, i, units.len())
    } else {
        base
    };
    gram_added(prob.a_in, general, zs, with_units, i, j)
}

/// The largest absolute value of the first `k` diagonal entries.
pub open spec fn peak<T: Scalar>(diag: Seq<T>, k: nat) -> T
    decreases k,
{
    if k == 0 {
        T::zero()
    } else {
        let front = peak(diag, (k - 1) as nat);
        let d = diag[k - 1].abs();
        if front.below(d) {
            d
        } else {
            front
        }
    }
}

/// The lift of the diagonal that keeps the block positive definite: the square of the gap, reduced
/// where the Hessian is weak, and at least a tiny fraction of the largest diagonal entry.
pub open spec fn lift_for<T: Scalar>(mu: T, weak: bool, top: T) -> T {
    let mu_sq = mu.times(mu);
    if weak {
        mu_sq.times(T::decimal(1, 2)).max(top.times(T::decimal(1, 12)))
    } else {
        mu_sq.max(top.times(T::decimal(1, 10)))
    }
}

/// The lift of the diagonal.
pub fn diagonal_lift<T: Scalar>(mu: T, weak: bool, diag: &[T]) -> (r: T)
    ensures
        r == lift_for(mu, weak, peak(diag@, diag@.len())),
{
    let mut top = T::zero();
    let mut i: usize = 0;
    while i < diag.len()
        invariant
            i <= diag@.len(),
            top == peak(diag@, i as nat),
        decreases diag@.len() - i,
    {
        let d = diag[i].abs();
        if top.below(d) {
            top = d;
        }
        i += 1;
    }
    let mu_sq = mu.times(mu);
    if weak {
        mu_sq.times(T::decimal(1, 2)).max(top.times(T::decimal(1, 12)))
    } else {
        mu_sq.max(top.times(T::decimal(1, 10)))
    }
}

fn add_units<T: Scalar>(units: &[(usize, usize, T)], zs: &[T], start: T, c: usize) -> (r: T)
    requires
        forall|i: int| 0 <= i < units@.len() ==> (#[trigger] units@[i]).0 < zs@.len(),
    ensures
        r == units_added(units@, zs@, start, c as int, units@.len()),
{
    let mut acc = start;
    let mut k: usize = 0;
    while k < units.len()
        invariant
            forall|i: int| 0 <= i < units@.len() ==> (#[trigger] units@[i]).0 < zs@.len(),
            k <= units@.len(),
            acc == units_added(units@, zs@, start, c as int, k as nat),
        decreases units@.len() - k,
    {
        let (r, col, v) = units[k];
        assert(units@[k as int].0 < zs@.len());
        if col == c {
            acc = acc.plus(zs[r].times(v).times(v));
        }
        k += 1;
    }
    acc
}

fn add_gram<T: Scalar>(a_in: &DenseMatrix<T>, general: &[usize], zs: &[T], start: T, i: usize, j: usize) -> (r:
    T)
    requires
        a_in.wf(),
        i < a_in.ncols,
        j < a_in.ncols,
        zs@.len() == a_in.nrows,
        forall|k: int| 0 <= k < general@.len() ==> (#[trigger] general@[k]) < a_in.nrows,
    ensures
        r == gram_added(*a_in, general@, zs@, start, i as int, j as int),
{
    if a_in.ncols >= 48 && general.len() > 0 {
        let ghost ci = rooted_column(*a_in, general@, zs@, i as int);
        let ghost cj = rooted_column(*a_in, general@, zs@, j as int);
        let mut acc = T::zero();
        let mut b: usize = 0;
        while b < general.len()
            invariant
                a_in.wf(),
                i < a_in.ncols,
                j < a_in.ncols,
                zs@.len() == a_in.nrows,
                forall|k: int| 0 <= k < general@.len() ==> (#[trigger] general@[k]) < a_in.nrows,
                ci == rooted_column(*a_in, general@, zs@, i as int),
                cj == rooted_column(*a_in, general@, zs@, j as int),
                b <= general@.len(),
                acc == dot_upto(ci, cj, b as nat),
            decreases general@.len() - b,
        {
            let r: usize = general[b];
            let w = zs[r].sqrt();
            acc = acc.plus(w.times(a_in.get(r, i)).times(w.times(a_in.get(r, j))));
            b += 1;
        }
        return start.plus(acc);
    }
    let mut acc = start;
    let mut k: usize = 0;
    while k < general.len()
        invariant
            a_in.wf(),
            i < a_in.ncols,
            j < a_in.ncols,
            zs@.len() == a_in.nrows,
            forall|k: int| 0 <= k < general@.len() ==> (#[trigger] general@[k]) < a_in.nrows,
            k <= general@.len(),
            acc == outer_added(*a_in, general@, zs@, start, i as int, j as int, k as nat),
        decreases general@.len() - k,
    {
        let r: usize = general[k];
        let a = a_in.get(r, i);
        if !a.equals(T::zero()) {
            acc = acc.plus(zs[r].times(a).times(a_in.get(r, j)));
        }
        k += 1;
    }
    acc
}

/// The diagonal of `P + rho I`.
pub open spec fn shifted_diagonal<T: Scalar>(prob: QpProblem<T>, rho: T) -> Seq<T> {
    Seq::new(prob.n(), |i: int| prob.p.at(i, i).plus(rho))
}

/// The block `P + rho I + A' diag(zs) A` of the unknowns, with its diagonal lifted by a square of
/// the gap that is measured on `P + rho I`.
pub fn build_definite<T: Scalar>(
    prob: &QpProblem<T>,
    units: &[(usize, usize, T)],
    general: &[usize],
    zs: &[T],
    rho: T,
    mu: T,
    weak: bool,
) -> (h: DenseMatrix<T>)
    requires
        prob.wf(),
        rows_fit(*prob, units@, general@),
        zs@.len() == prob.mi(),
    ensures
        h.sized(prob.n(), prob.n()),
        forall|i: int, j: int|
            0 <= i < prob.n() && 0 <= j < prob.n() ==> #[trigger] h.at(i, j) == weighted(
                *prob,
                units@,
                general@,
                zs@,
                rho,
                lift_for(mu, weak, peak(shifted_diagonal(*prob, rho), prob.n())),
                i,
                j,
            ),
{
    let n: usize = prob.q.len();
    let area: usize = prob.p.data.len();
    let mut diag: Vec<T> = Vec::with_capacity(n);
    let mut i: usize = 0;
    while i < n
        invariant
            prob.wf(),
            n == prob.n(),
            i <= n,
            diag@ =~= shifted_diagonal(*prob, rho).subrange(0, i as int),
        decreases n - i,
    {
        diag.push(prob.p.get(i, i).plus(rho));
        i += 1;
    }
    assert(diag@ =~= shifted_diagonal(*prob, rho));
    let lift = diagonal_lift(mu, weak, &diag);
    let mut h: DenseMatrix<T> = DenseMatrix::zeros(n, n);
    i = 0;
    while i < n
        invariant
            prob.wf(),
            n == prob.n(),
            rows_fit(*prob, units@, general@),
            zs@.len() == prob.mi(),
            i <= n,
            h.sized(n as nat, n as nat),
            forall|a: int, b: int|
                0 <= a < i && 0 <= b < n ==> #[trigger] h.at(a, b) == weighted(
                    *prob,
                    units@,
                    general@,
                    zs@,
                    rho,
                    lift,
                    a,
                    b,
                ),
        decreases n - i,
    {
        let mut j: usize = 0;
        while j < n
            invariant
                prob.wf(),
                n == prob.n(),
                rows_fit(*prob, units@, general@),
                zs@.len() == prob.mi(),
                i < n,
                j <= n,
                h.sized(n as nat, n as nat),
                forall|a: int, b: int|
                    0 <= a < n && 0 <= b < n && (a < i || (a == i && b < j)) ==> #[trigger] h.at(a, b)
                        == weighted(*prob, units@, general@, zs@, rho, lift, a, b),
            decreases n - j,
        {
            let p = prob.p.get(i, j);
            let base = if i == j {
                add_units(units, zs, p.plus(rho).plus(lift), i)
            } else {
                p
            };
            h.set(i, j, add_gram(&prob.a_in, general, zs, base, i, j));
            j += 1;
        }
        i += 1;
    }
    h
}

/// The diagonal of `P + rho I + A' diag(zs) A`.
pub open spec fn weighted_diagonal<T: Scalar>(
    prob: QpProblem<T>,
    units: Seq<(usize, usize, T)>,
    general: Seq<usize>,
    zs: Seq<T>,
    rho: T,
) -> Seq<T> {
    Seq::new(prob.n(), |i: int| weighted_plain(prob, units, general, zs, rho, i, i))
}

/// The block `P + rho I + A' diag(zs) A` of the unknowns, with its diagonal then lifted by a square
/// of the gap that is measured on the block itself. Returns the block and the lift.
pub fn build_lifted<T: Scalar>(
    prob: &QpProblem<T>,
    units: &[(usize, usize, T)],
    general: &[usize],
    zs: &[T],
    rho: T,
    mu: T,
    weak: bool,
) -> (r: (DenseMatrix<T>, T))
    requires
        prob.wf(),
        rows_fit(*prob, units@, general@),
        zs@.len() == prob.mi(),
    ensures
        r.1 == lift_for(
            mu,
            weak,
            peak(weighted_diagonal(*prob, units@, general@, zs@, rho), prob.n()),
        ),
        r.0.sized(prob.n(), prob.n()),
        forall|i: int, j: int|
            0 <= i < prob.n() && 0 <= j < prob.n() ==> #[trigger] r.0.at(i, j) == ({
                let v = weighted_plain(*prob, units@, general@, zs@, rho, i, j);
                if i == j {
                    v.plus(r.1)
                } else {
                    v
                }
            }),
{
    let n: usize = prob.q.len();
    let mut h = build_weighted(prob, units, general, zs, rho);
    let mut diag: Vec<T> = Vec::with_capacity(n);
    let mut i: usize = 0;
    while i < n
        invariant
            n == prob.n(),
            h.sized(n as nat, n as nat),
            forall|a: int, b: int|
                0 <= a < n && 0 <= b < n ==> #[trigger] h.at(a, b) == weighted_plain(
                    *prob,
                    units@,
                    general@,
                    zs@,
                    rho,
                    a,
                    b,
                ),
            i <= n,
            diag@ =~= weighted_diagonal(*prob, units@, general@, zs@, rho).subrange(0, i as int),
        decreases n - i,
    {
        diag.push(h.get(i, i));
        i += 1;
    }
    assert(diag@ =~= weighted_diagonal(*prob, units@, general@, zs@, rho));
    let lift = diagonal_lift(mu, weak, &diag);
    shift_diagonal(&mut h, n, lift);
    (h, lift)
}

/// The block `P + rho I + A' diag(zs) A`.
pub fn build_weighted<T: Scalar>(
    prob: &QpProblem<T>,
    units: &[(usize, usize, T)],
    general: &[usize],
    zs: &[T],
    rho: T,
) -> (h: DenseMatrix<T>)
    requires
        prob.wf(),
        rows_fit(*prob, units@, general@),
        zs@.len() == prob.mi(),
    ensures
        h.sized(prob.n(), prob.n()),
        forall|i: int, j: int|
            0 <= i < prob.n() && 0 <= j < prob.n() ==> #[trigger] h.at(i, j) == weighted_plain(
                *prob,
                units@,
                general@,
                zs@,
                rho,
                i,
                j,
            ),
{
    let n: usize = prob.q.len();
    let area: usize = prob.p.data.len();
    let mut h: DenseMatrix<T> = DenseMatrix::zeros(n, n);
    let mut i: usize = 0;
    while i < n
        invariant
            prob.wf(),
            n == prob.n(),
            rows_fit(*prob, units@, general@),
            zs@.len() == prob.mi(),
            i <= n,
            h.sized(n as nat, n as nat),
            forall|a: int, b: int|
                0 <= a < i && 0 <= b < n ==> #[trigger] h.at(a, b) == weighted_plain(
                    *prob,
                    units@,
                    general@,
                    zs@,
                    rho,
                    a,
                    b,
                ),
        decreases n - i,
    {
        let mut j: usize = 0;
        while j < n
            invariant
                prob.wf(),
                n == prob.n(),
                rows_fit(*prob, units@, general@),
                zs@.len() == prob.mi(),
                i < n,
                j <= n,
                h.sized(n as nat, n as nat),
                forall|a: int, b: int|
                    0 <= a < n && 0 <= b < n && (a < i || (a == i && b < j)) ==> #[trigger] h.at(a, b)
                        == weighted_plain(*prob, units@, general@, zs@, rho, a, b),
            decreases n - j,
        {
            let p = prob.p.get(i, j);
            let base = if i == j {
                add_units(units, zs, p.plus(rho), i)
            } else {
                p
            };
            h.set(i, j, add_gram(&prob.a_in, general, zs, base, i, j));
            j += 1;
        }
        i += 1;
    }
    h
}

/// Adds `t` to the first `k` diagonal entries.
pub fn shift_diagonal<T: Scalar>(h: &mut DenseMatrix<T>, k: usize, t: T)
    requires
        old(h).wf(),
        old(h).nrows == old(h).ncols,
        k <= old(h).nrows,
    ensures
        final(h).sized(old(h).nrows as nat, old(h).ncols as nat),
        forall|i: int, j: int|
            0 <= i < old(h).nrows && 0 <= j < old(h).ncols ==> #[trigger] final(h).at(i, j) == (if i == j
                && i < k {
                old(h).at(i, j).plus(t)
            } else {
                old(h).at(i, j)
            }),
{
    let ghost start = *h;
    let mut i: usize = 0;
    while i < k
        invariant
            h.sized(start.nrows as nat, start.ncols as nat),
            start.nrows == start.ncols,
            start.wf(),
            i <= k <= start.nrows,
            forall|a: int, b: int|
                0 <= a < start.nrows && 0 <= b < start.ncols ==> #[trigger] h.at(a, b) == (if a == b && a
                    < i {
                    start.at(a, b).plus(t)
                } else {
                    start.at(a, b)
                }),
        decreases k - i,
    {
        let v = h.get(i, i).plus(t);
        h.set(i, i, v);
        i += 1;
    }
}

/// The next regularization of a block whose factorization failed: a hundredfold, up to the cap;
/// none where the cap is reached.
pub open spec fn definite_bump<T: Scalar>(reg: T, cap: T) -> Option<T> {
    if reg.below(cap) {
        Some(cap.minus(reg).min(reg.times(T::decimal(99, 0))))
    } else {
        None
    }
}

/// What is added to the diagonal of a block whose factorization failed, and the regularization
/// after it; none where the cap is reached.
pub fn bump_definite<T: Scalar>(reg: T, rho0: T) -> (r: Option<(T, T)>)
    ensures
        r is Some == definite_bump(reg, rho0.max(T::decimal(1, 8))) is Some,
        r matches Some(b) ==> b.0 == definite_bump(reg, rho0.max(T::decimal(1, 8)))->0 && b.1 == reg.plus(
            b.0,
        ),
{
    let cap = rho0.max(T::decimal(1, 8));
    if reg.below(cap) {
        let bump = cap.minus(reg).min(reg.times(T::decimal(99, 0)));
        Some((bump, reg.plus(bump)))
    } else {
        None
    }
}

/// The entry of the reduced system of unknowns and equality multipliers.
pub open spec fn reduced_entry<T: Scalar>(
    prob: QpProblem<T>,
    units: Seq<(usize, usize, T)>,
    general: Seq<usize>,
    zs: Seq<T>,
    rho: T,
    delta: T,
    mu: T,
) -> spec_fn(int, int) -> T {
    |i: int, j: int|
        {
            let n = prob.n();
            let mu_sq = mu.times(mu);
            if i < n && j < n {
                let v = weighted_plain(prob, units, general, zs, rho, i, j);
                if i == j && T::zero().below(mu_sq) {
                    v.plus(mu_sq)
                } else {
                    v
                }
            } else if i < n {
                prob.a_eq.at(j - n, i)
            } else if j < n {
                prob.a_eq.at(i - n, j)
            } else if i == j {
                delta.neg()
            } else {
                T::zero()
            }
        }
}

/// The reduced system of unknowns and equality multipliers.
pub fn build_reduced<T: Scalar>(
    prob: &QpProblem<T>,
    units: &[(usize, usize, T)],
    general: &[usize],
    zs: &[T],
    rho: T,
    delta: T,
    mu: T,
) -> (m: DenseMatrix<T>)
    requires
        prob.wf(),
        rows_fit(*prob, units@, general@),
        zs@.len() == prob.mi(),
        (prob.n() + prob.me()) * (prob.n() + prob.me()) <= usize::MAX,
    ensures
        m.sized(prob.n() + prob.me(), prob.n() + prob.me()),
        m.entries_are(reduced_entry(*prob, units@, general@, zs@, rho, delta, mu)),
{
    let n: usize = prob.q.len();
    let me: usize = prob.b_eq.len();
    let dim: usize = n + me;
    let mu_sq = mu.times(mu);
    let ghost f = reduced_entry(*prob, units@, general@, zs@, rho, delta, mu);
    let mut m: DenseMatrix<T> = DenseMatrix::zeros(dim, dim);
    let mut i: usize = 0;
    while i < dim
        invariant
            prob.wf(),
            n == prob.n(),
            me == prob.me(),
            dim == n + me,
            rows_fit(*prob, units@, general@),
            zs@.len() == prob.mi(),
            mu_sq == mu.times(mu),
            f == reduced_entry(*prob, units@, general@, zs@, rho, delta, mu),
            i <= dim,
            m.sized(dim as nat, dim as nat),
            forall|a: int, b: int| 0 <= a < i && 0 <= b < dim ==> #[trigger] m.at(a, b) == f(a, b),
        decreases dim - i,
    {
        let mut j: usize = 0;
        while j < dim
            invariant
                prob.wf(),
                n == prob.n(),
                me == prob.me(),
                dim == n + me,
                rows_fit(*prob, units@, general@),
                zs@.len() == prob.mi(),
                mu_sq == mu.times(mu),
                f == reduced_entry(*prob, units@, general@, zs@, rho, delta, mu),
                i < dim,
                j <= dim,
                m.sized(dim as nat, dim as nat),
                forall|a: int, b: int|
                    0 <= a < dim && 0 <= b < dim && (a < i || (a == i && b < j)) ==> #[trigger] m.at(a, b)
                        == f(a, b),
            decreases dim - j,
        {
            let v = if i < n && j < n {
                let p = prob.p.get(i, j);
                let base = if i == j {
                    add_units(units, zs, p.plus(rho), i)
                } else {
                    p
                };
                let w = add_gram(&prob.a_in, general, zs, base, i, j);
                if i == j && T::zero().below(mu_sq) {
                    w.plus(mu_sq)
                } else {
                    w
                }
            } else if i < n {
                prob.a_eq.get(j - n, i)
            } else if j < n {
                prob.a_eq.get(i - n, j)
            } else if i == j {
                delta.neg()
            } else {
                T::zero()
            };
            m.set(i, j, v);
            j += 1;
        }
        i += 1;
    }
    m
}

/// What is done when a factorization of the reduced system fails.
pub enum Escalation<T> {
    /// Add to the diagonal of the unknowns, subtract from that of the equality multipliers, and try
    /// again with these totals.
    Retry { primal: T, dual: T, reg_primal: T, reg_dual: T },
    /// Factor with pivoting.
    Pivot,
    /// Give up.
    Fail,
}

/// The escalation: the dual regularization grows a hundredfold, the primal one with it up to its
/// cap; once the dual one would exceed 1, a system of at least 64 rows is factored with pivoting and
/// a smaller one given up.
pub open spec fn escalation<T: Scalar>(reg_primal: T, reg_dual: T, rho0: T, dim: nat) -> Escalation<T> {
    let next = reg_dual.times(T::decimal(100, 0));
    let bump = next.minus(reg_dual);
    let left = rho0.max(T::decimal(1, 8)).minus(reg_primal);
    let primal = if left.at_most(T::zero()) {
        T::zero()
    } else {
        bump.min(left)
    };
    if T::one().below(next) {
        if dim >= 64 {
            Escalation::Pivot
        } else {
            Escalation::Fail
        }
    } else {
        Escalation::Retry {
            primal,
            dual: bump,
            reg_primal: reg_primal.plus(primal),
            reg_dual: next,
        }
    }
}

/// What is done when a factorization of the reduced system fails.
pub fn escalate<T: Scalar>(reg_primal: T, reg_dual: T, rho0: T, dim: usize) -> (r: Escalation<T>)
    ensures
        r == escalation(reg_primal, reg_dual, rho0, dim as nat),
{
    let next = reg_dual.times(T::decimal(100, 0));
    if T::one().below(next) {
        if dim >= 64 {
            return Escalation::Pivot;
        }
        return Escalation::Fail;
    }
    let bump = next.minus(reg_dual);
    let left = rho0.max(T::decimal(1, 8)).minus(reg_primal);
    let primal = if left.at_most(T::zero()) {
        T::zero()
    } else {
        bump.min(left)
    };
    Escalation::Retry { primal, dual: bump, reg_primal: reg_primal.plus(primal), reg_dual: next }
}

/// Row `i` of the equality matrix times `x`, over the entries that are not zero.
pub open spec fn eq_row_times<T: Scalar>(a_eq: DenseMatrix<T>, x: Seq<T>, i: int) -> T {
    crate::woodbury::masked_row(a_eq, x, i)
}

/// Row `i` of the equality matrix times `x`, over the entries that are not zero.
pub fn eq_row_product<T: Scalar>(a_eq: &DenseMatrix<T>, x: &[T], i: usize) -> (r: T)
    requires
        a_eq.wf(),
        x@.len() == a_eq.ncols,
        i < a_eq.nrows,
    ensures
        r == eq_row_times(*a_eq, x@, i as int),
{
    let ghost terms = crate::woodbury::row_terms(*a_eq, x@, i as int);
    let mut acc = T::zero();
    let mut j: usize = 0;
    while j < a_eq.ncols
        invariant
            a_eq.wf(),
            x@.len() == a_eq.ncols,
            i < a_eq.nrows,
            terms == crate::woodbury::row_terms(*a_eq, x@, i as int),
            j <= a_eq.ncols,
            acc == masked_sum(T::zero(), a_eq.row(i as int), terms, j as nat),
        decreases a_eq.ncols - j,
    {
        let a = a_eq.get(i, j);
        if !a.equals(T::zero()) {
            acc = acc.plus(a.times(x[j]));
        }
        j += 1;
    }
    acc
}

/// The entry of `delta I + A_eq X`, where `xt[j]` is column `j` of `X`.
pub open spec fn complement_entry<T: Scalar>(a_eq: DenseMatrix<T>, xt: Seq<Vec<T>>, delta: T) -> spec_fn(
    int,
    int,
) -> T {
    |i: int, j: int|
        (if i == j {
            delta
        } else {
            T::zero()
        }).plus(eq_row_times(a_eq, xt[j]@, i))
}

/// The complement `delta I + A_eq H^-1 A_eq'` of the equality rows, where `xt[j]` is the solution of
/// the unknowns' block for equality row `j`.
pub fn build_complement<T: Scalar>(a_eq: &DenseMatrix<T>, xt: &[Vec<T>], delta: T) -> (m: DenseMatrix<T>)
    requires
        a_eq.wf(),
        xt@.len() == a_eq.nrows,
        forall|j: int| 0 <= j < xt@.len() ==> (#[trigger] xt@[j])@.len() == a_eq.ncols,
        a_eq.nrows * a_eq.nrows <= usize::MAX,
    ensures
        m.sized(a_eq.nrows as nat, a_eq.nrows as nat),
        m.entries_are(complement_entry(*a_eq, xt@, delta)),
{
    let me: usize = a_eq.nrows;
    let ghost f = complement_entry(*a_eq, xt@, delta);
    let mut m: DenseMatrix<T> = DenseMatrix::zeros(me, me);
    let mut i: usize = 0;
    while i < me
        invariant
            a_eq.wf(),
            me == a_eq.nrows,
            xt@.len() == me,
            forall|j: int| 0 <= j < xt@.len() ==> (#[trigger] xt@[j])@.len() == a_eq.ncols,
            f == complement_entry(*a_eq, xt@, delta),
            i <= me,
            m.sized(me as nat, me as nat),
            forall|a: int, b: int| 0 <= a < i && 0 <= b < me ==> #[trigger] m.at(a, b) == f(a, b),
        decreases me - i,
    {
        let mut j: usize = 0;
        while j < me
            invariant
                a_eq.wf(),
                me == a_eq.nrows,
                xt@.len() == me,
                forall|j: int| 0 <= j < xt@.len() ==> (#[trigger] xt@[j])@.len() == a_eq.ncols,
                f == complement_entry(*a_eq, xt@, delta),
                i < me,
                j <= me,
                m.sized(me as nat, me as nat),
                forall|a: int, b: int|
                    0 <= a < me && 0 <= b < me && (a < i || (a == i && b < j)) ==> #[trigger] m.at(a, b)
                        == f(a, b),
            decreases me - j,
        {
            let base = if i == j {
                delta
            } else {
                T::zero()
            };
            m.set(i, j, base.plus(eq_row_product(a_eq, &xt[j], i)));
            j += 1;
        }
        i += 1;
    }
    m
}

/// The next boost of a complement whose factorization failed: a small fraction of the dual
/// regularization at first, then tenfold.
pub fn boost_complement<T: Scalar>(boost: T, delta: T) -> (r: T)
    ensures
        r == (if boost.equals(T::zero()) {
            delta.times(T::decimal(1, 4))
        } else {
            boost.times(T::decimal(10, 0))
        }),
{
    if boost.equals(T::zero()) {
        delta.times(T::decimal(1, 4))
    } else {
        boost.times(T::decimal(10, 0))
    }
}

} // verus!
