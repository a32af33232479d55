//! The direction of an iteration of the orthant engine: the factorization under growing
//! regularization, and the step over the solve against the factored system.
use crate::factor::{
    always_factors_at, factor_surely, factors_at, pivots, plain, secured, tolerance_of_pivots, tried, try_in_order,
    Method,
};
use crate::matrix::DenseMatrix;
use crate::pc_step::{gives, pc_step, steps, Direction, DirectionView};
use crate::qp_matrices::{bump_definite, definite_bump, escalate, escalation, shift_diagonal, Escalation};
use crate::scalar::Scalar;
use crate::solve::solves_at;
use vstd::prelude::*;

verus! {

/// The most attempts at a factorization.
pub const ATTEMPTS: usize = 64;

/// `out` is `h` with `t` added to the first `n` diagonal entries and `u` subtracted from the others.
pub open spec fn diagonal_moved<T: Scalar>(
    h: DenseMatrix<T>,
    n: nat,
    t: T,
    u: T,
    out: DenseMatrix<T>,
) -> bool {
    &&& out.sized(h.nrows as nat, h.ncols as nat)
    &&& forall|i: int, j: int|
        0 <= i < h.nrows && 0 <= j < h.ncols ==> #[trigger] out.at(i, j) == (if i != j {
            h.at(i, j)
        } else if i < n {
            h.at(i, j).plus(t)
        } else {
            h.at(i, j).minus(u)
        })
}

/// How a positive definite block of `n` unknowns is factored.
pub open spec fn definite_order<T: Scalar>(n: nat) -> Seq<Method<T>> {
    if n >= 48 {
        seq![Method::PlatformCholesky, Method::Cholesky, Method::Unpivoted]
    } else {
        seq![plain()]
    }
}

fn definite_methods<T: Scalar>(n: usize) -> (r: Vec<Method<T>>)
    ensures
        r@ == definite_order::<T>(n as nat),
{
    let mut r: Vec<Method<T>> = Vec::new();
    if n >= 48 {
        r.push(Method::PlatformCholesky);
        r.push(Method::Cholesky);
        r.push(Method::Unpivoted);
    } else {
        r.push(Method::Plain { tolerance: tolerance_of_pivots() });
    }
    assert(r@ =~= definite_order::<T>(n as nat));
    r
}

/// How the reduced system of dimension `dim` with `n` unknowns is factored.
pub open spec fn reduced_order<T: Scalar>(dim: nat, n: nat) -> Seq<Method<T>> {
    if dim < 80 {
        seq![plain()]
    } else if dim == n {
        seq![Method::Cholesky]
    } else {
        seq![Method::Unpivoted]
    }
}

fn reduced_methods<T: Scalar>(dim: usize, n: usize) -> (r: Vec<Method<T>>)
    ensures
        r@ == reduced_order::<T>(dim as nat, n as nat),
{
    let mut r: Vec<Method<T>> = Vec::new();
    if dim < 80 {
        r.push(Method::Plain { tolerance: tolerance_of_pivots() });
    } else if dim == n {
        r.push(Method::Cholesky);
    } else {
        r.push(Method::Unpivoted);
    }
    assert(r@ =~= reduced_order::<T>(dim as nat, n as nat));
    r
}

/// `r` is what at most `left` attempts make of a positive definite block with the regularization
/// `reg`: a factor with the block that it factors and the regularization in it, or nothing. A large
/// block is factored with pivoting where the other methods fail. An attempt that fails on a small one
/// raises the regularization, up to its cap.
pub open spec fn factors_definite<
    T: Scalar,
    F,
    K: Fn(&DenseMatrix<T>, Method<T>) -> Option<F>,
    P: Fn(&DenseMatrix<T>) -> F,
>(factor: K, pivot: P, h: DenseMatrix<T>, reg: T, rho0: T, left: nat, r: Option<(F, DenseMatrix<T>, T)>) -> bool
    decreases left,
{
    if h.nrows >= 48 {
        exists|f: F| #[trigger]
            secured(factor, pivot, definite_order(h.nrows as nat), h, f) && r == Some((f, h, reg))
    } else if left == 0 {
        r is None
    } else {
        exists|o: Option<F>| #[trigger]
            tried(factor, definite_order(h.nrows as nat), h, o) && match o {
                Some(f) => r == Some((f, h, reg)),
                None => match definite_bump(reg, rho0.max(T::decimal(1, 8))) {
                    Some(b) => exists|next: DenseMatrix<T>| #[trigger]
                        diagonal_moved(h, h.nrows as nat, b, T::zero(), next) && factors_definite(
                            factor,
                            pivot,
                            next,
                            reg.plus(b),
                            rho0,
                            (left - 1) as nat,
                            r,
                        ),
                    None => r is None,
                },
            }
    }
}

/// Factors a positive definite block. A large one is factored with pivoting where the other methods
/// fail; for a small one the regularization is raised until the factorization succeeds or the cap is
/// reached.
pub fn factor_definite<
    T: Scalar,
    F: Fn(&[T]) -> Vec<T>,
    K: Fn(&DenseMatrix<T>, Method<T>) -> Option<F>,
    P: Fn(&DenseMatrix<T>) -> F,
>(h: DenseMatrix<T>, reg: T, rho0: T, factor: &K, pivot: &P) -> (r: Option<(F, DenseMatrix<T>, T)>)
    requires
        h.wf(),
        h.nrows == h.ncols,
        factors_at(*factor, h.nrows as nat),
        always_factors_at(*pivot, h.nrows as nat),
    ensures
        factors_definite(*factor, *pivot, h, reg, rho0, ATTEMPTS as nat, r),
        r matches Some(x) ==> x.1.sized(h.nrows as nat, h.nrows as nat) && solves_at(x.0, h.nrows as nat),
        h.nrows >= 48 ==> r is Some,
{
    let ghost first = h;
    let n: usize = h.nrows;
    let order = definite_methods(n);
    if n >= 48 {
        let f = factor_surely(factor, pivot, &order, &h);
        return Some((f, h, reg));
    }
    let mut cur = h;
    let mut now: T = reg;
    let mut left: usize = ATTEMPTS;
    while left > 0
        invariant
            n < 48,
            order@ == definite_order::<T>(n as nat),
            first.nrows == n,
            first == h,
            cur.sized(n as nat, n as nat),
            left <= ATTEMPTS,
            factors_at(*factor, n as nat),
            forall|fin: Option<(F, DenseMatrix<T>, T)>|
                factors_definite(*factor, *pivot, cur, now, rho0, left as nat, fin)
                    ==> #[trigger] factors_definite(*factor, *pivot, first, reg, rho0, ATTEMPTS as nat, fin),
        decreases left,
    {
        let ghost before = cur;
        let ghost before_reg = now;
        let ghost fuel = left as nat;
        let o = try_in_order(factor, &order, &cur);
        assert(tried(*factor, definite_order(n as nat), cur, o));
        match o {
            Some(f) => {
                let ghost fin = Some((f, cur, now));
                assert(factors_definite(*factor, *pivot, before, before_reg, rho0, fuel, fin));
                return Some((f, cur, now));
            },
            None => {},
        }
        match bump_definite(now, rho0) {
            Some((b, next_reg)) => {
                shift_diagonal(&mut cur, n, b);
                proof {
                    assert(diagonal_moved(before, before.nrows as nat, b, T::zero(), cur));
                    assert forall|fin: Option<(F, DenseMatrix<T>, T)>|
                        factors_definite(*factor, *pivot, cur, next_reg, rho0, (left - 1) as nat, fin) implies
                    #[trigger] factors_definite(*factor, *pivot, first, reg, rho0, ATTEMPTS as nat, fin) by {
                        assert(factors_definite(*factor, *pivot, before, before_reg, rho0, fuel, fin));
                    }
                }
                now = next_reg;
                left -= 1;
            },
            None => {
                let ghost fin: Option<(F, DenseMatrix<T>, T)> = None;
                assert(factors_definite(*factor, *pivot, before, before_reg, rho0, fuel, fin));
                return None;
            },
        }
    }
    let ghost fin: Option<(F, DenseMatrix<T>, T)> = None;
    assert(factors_definite(*factor, *pivot, cur, now, rho0, 0, fin));
    None
}

/// The factor of the reduced system, with the system that it factors and the regularization in it.
pub struct ReducedFactor<F, T> {
    pub factor: F,
    pub m: DenseMatrix<T>,
    pub reg_primal: T,
    pub reg_dual: T,
}

/// `r` holds the pivoted factor of the reduced system.
pub open spec fn pivots_reduced<T: Scalar, F, P: Fn(&DenseMatrix<T>) -> F>(
    pivot: P,
    m: DenseMatrix<T>,
    reg_primal: T,
    reg_dual: T,
    r: Option<ReducedFactor<F, T>>,
) -> bool {
    exists|f: F| #[trigger] pivots(pivot, m, f) && r == Some(ReducedFactor { factor: f, m, reg_primal, reg_dual })
}

/// `r` is what at most `left` attempts make of the reduced system. An attempt that fails raises the
/// regularization of both blocks; once it is too large, a large system is factored with pivoting and
/// a small one given up.
pub open spec fn factors_reduced<
    T: Scalar,
    F,
    K: Fn(&DenseMatrix<T>, Method<T>) -> Option<F>,
    P: Fn(&DenseMatrix<T>) -> F,
>(
    factor: K,
    pivot: P,
    m: DenseMatrix<T>,
    n: nat,
    reg_primal: T,
    reg_dual: T,
    rho0: T,
    left: nat,
    r: Option<ReducedFactor<F, T>>,
) -> bool
    decreases left,
{
    if left == 0 {
        r is None
    } else {
        exists|o: Option<F>|
            {
                &&& #[trigger] tried(factor, reduced_order(m.nrows as nat, n), m, o)
                &&& match o {
                    Some(f) => r == Some(ReducedFactor { factor: f, m, reg_primal, reg_dual }),
                    None => match escalation(reg_primal, reg_dual, rho0, m.nrows as nat) {
                        Escalation::Retry { primal, dual, reg_primal: rp, reg_dual: rd } => exists|
                            next: DenseMatrix<T>,
                        | #[trigger]
                            diagonal_moved(m, n, primal, dual, next) && factors_reduced(
                                factor,
                                pivot,
                                next,
                                n,
                                rp,
                                rd,
                                rho0,
                                (left - 1) as nat,
                                r,
                            ),
                        Escalation::Pivot => pivots_reduced(pivot, m, reg_primal, reg_dual, r),
                        Escalation::Fail => r is None,
                    },
                }
            }
    }
}

/// Adds `t` to the first `n` diagonal entries and subtracts `u` from the others.
pub fn move_diagonal<T: Scalar>(h: &mut DenseMatrix<T>, n: usize, t: T, u: T)
    requires
        old(h).wf(),
        old(h).nrows == old(h).ncols,
        n <= old(h).nrows,
    ensures
        diagonal_moved(*old(h), n as nat, t, u, *final(h)),
{
    let ghost start = *h;
    shift_diagonal(h, n, t);
    let dim: usize = h.nrows;
    let mut i: usize = n;
    while i < dim
        invariant
            start.wf(),
            start.nrows == start.ncols == dim,
            h.sized(dim as nat, dim as nat),
            n <= i <= dim,
            forall|a: int, b: int|
                0 <= a < dim && 0 <= b < dim ==> #[trigger] h.at(a, b) == (if a != b {
                    start.at(a, b)
                } else if a < n {
                    start.at(a, b).plus(t)
                } else if a < i {
                    start.at(a, b).minus(u)
                } else {
                    start.at(a, b)
                }),
        decreases dim - i,
    {
        let v = h.get(i, i).minus(u);
        h.set(i, i, v);
        i += 1;
    }
}

/// Factors the reduced system of `n` unknowns and the equality multipliers, raising the
/// regularization while it fails.
pub fn factor_reduced<
    T: Scalar,
    F: Fn(&[T]) -> Vec<T>,
    K: Fn(&DenseMatrix<T>, Method<T>) -> Option<F>,
    P: Fn(&DenseMatrix<T>) -> F,
>(
    m: DenseMatrix<T>,
    n: usize,
    rho: T,
    delta: T,
    rho0: T,
    factor: &K,
    pivot: &P,
) -> (r: Option<ReducedFactor<F, T>>)
    requires
        m.wf(),
        m.nrows == m.ncols,
        n <= m.nrows,
        factors_at(*factor, m.nrows as nat),
        always_factors_at(*pivot, m.nrows as nat),
    ensures
        factors_reduced(*factor, *pivot, m, n as nat, rho, delta, rho0, ATTEMPTS as nat, r),
        r matches Some(x) ==> x.m.sized(m.nrows as nat, m.nrows as nat) && solves_at(x.factor, m.nrows as nat),
{
    let ghost first = m;
    let dim: usize = m.nrows;
    let order = reduced_methods(dim, n);
    let mut cur = m;
    let mut rp: T = rho;
    let mut rd: T = delta;
    let mut left: usize = ATTEMPTS;
    while left > 0
        invariant
            first == m,
            first.nrows == dim,
            first.ncols == dim,
            n <= dim,
            cur.sized(dim as nat, dim as nat),
            left <= ATTEMPTS,
            order@ == reduced_order::<T>(dim as nat, n as nat),
            factors_at(*factor, dim as nat),
            always_factors_at(*pivot, dim as nat),
            forall|fin: Option<ReducedFactor<F, T>>|
                factors_reduced(*factor, *pivot, cur, n as nat, rp, rd, rho0, left as nat, fin)
                    ==> #[trigger] factors_reduced(
                    *factor,
                    *pivot,
                    first,
                    n as nat,
                    rho,
                    delta,
                    rho0,
                    ATTEMPTS as nat,
                    fin,
                ),
        decreases left,
    {
        let ghost before = cur;
        let ghost fuel = left as nat;
        let ghost (bp, bd) = (rp, rd);
        let o = try_in_order(factor, &order, &cur);
        assert(tried(*factor, reduced_order(dim as nat, n as nat), cur, o));
        match o {
            Some(f) => {
                let out = ReducedFactor { factor: f, m: cur, reg_primal: rp, reg_dual: rd };
                let ghost fin = Some(out);
                assert(factors_reduced(*factor, *pivot, before, n as nat, bp, bd, rho0, fuel, fin));
                assert(factors_reduced(
                    *factor,
                    *pivot,
                    first,
                    n as nat,
                    rho,
                    delta,
                    rho0,
                    ATTEMPTS as nat,
                    fin,
                ));
                return Some(out);
            },
            None => {},
        }
        match escalate(rp, rd, rho0, dim) {
            Escalation::Retry { primal, dual, reg_primal, reg_dual } => {
                move_diagonal(&mut cur, n, primal, dual);
                proof {
                    assert(diagonal_moved(before, n as nat, primal, dual, cur));
                    assert forall|fin: Option<ReducedFactor<F, T>>|
                        factors_reduced(*factor, *pivot,
                            cur,
                            n as nat,
                            reg_primal,
                            reg_dual,
                            rho0,
                            (left - 1) as nat,
                            fin,
                        ) implies #[trigger] factors_reduced(*factor, *pivot,
                        first,
                        n as nat,
                        rho,
                        delta,
                        rho0,
                        ATTEMPTS as nat,
                        fin,
                    ) by {
                        assert(factors_reduced(*factor, *pivot, before, n as nat, bp, bd, rho0, fuel, fin));
                    }
                }
                rp = reg_primal;
                rd = reg_dual;
                left -= 1;
            },
            Escalation::Pivot => {
                let f = pivot(&cur);
                assert(pivots(*pivot, cur, f));
                assert(pivots_reduced(*pivot, cur, rp, rd, Some(ReducedFactor { factor: f, m: cur, reg_primal: rp, reg_dual: rd })));
                let out = ReducedFactor { factor: f, m: cur, reg_primal: rp, reg_dual: rd };
                let ghost fin = Some(out);
                assert(factors_reduced(*factor, *pivot, before, n as nat, bp, bd, rho0, fuel, fin));
                assert(factors_reduced(
                    *factor,
                    *pivot,
                    first,
                    n as nat,
                    rho,
                    delta,
                    rho0,
                    ATTEMPTS as nat,
                    fin,
                ));
                return Some(out);
            },
            Escalation::Fail => {
                let ghost fin: Option<ReducedFactor<F, T>> = None;
                assert(factors_reduced(*factor, *pivot, before, n as nat, bp, bd, rho0, fuel, fin));
                assert(factors_reduced(
                    *factor,
                    *pivot,
                    first,
                    n as nat,
                    rho,
                    delta,
                    rho0,
                    ATTEMPTS as nat,
                    fin,
                ));
                return None;
            },
        }
    }
    let ghost fin: Option<ReducedFactor<F, T>> = None;
    assert(factors_reduced(*factor, *pivot, cur, n as nat, rp, rd, rho0, 0, fin));
    assert(factors_reduced(*factor, *pivot, first, n as nat, rho, delta, rho0, ATTEMPTS as nat, fin));
    None
}

/// How close a step of the orthant engine comes to the boundary.
pub open spec fn orthant_ftb<T: Scalar>() -> T {
    T::decimal(9999, 4)
}

/// `r` is the direction of the iteration: the plain one without slacks, and the predictor-corrector
/// step else.
pub open spec fn qp_direction<T: Scalar>(
    s: Seq<T>,
    z: Seq<T>,
    mu: T,
    correctors: usize,
    short_before: usize,
    solves: spec_fn(Seq<T>, bool, DirectionView<T>) -> bool,
    r: DirectionView<T>,
    short: int,
) -> bool {
    if s.len() == 0 {
        &&& short == short_before
        &&& exists|d: DirectionView<T>| #[trigger]
            gives(solves, Seq::empty(), false, d) && r == (DirectionView {
                x: d.x,
                y: d.y,
                s: Seq::empty(),
                z: Seq::empty(),
            })
    } else {
        steps(s, z, orthant_ftb(), mu, solves, correctors, short_before, r, short)
    }
}

/// The direction of an iteration over the solve against the factored system, with the residuals or
/// without; `solves` says which directions the solve may give.
pub(crate) fn qp_newton<T: Scalar, F: Fn(&[T], bool) -> Direction<T>>(
    s: &[T],
    z: &[T],
    mu: T,
    correctors: usize,
    short_steps: usize,
    solve: F,
    Ghost(solves): Ghost<spec_fn(Seq<T>, bool, DirectionView<T>) -> bool>,
    Ghost(n): Ghost<nat>,
    Ghost(me): Ghost<nat>,
) -> (r: (Direction<T>, usize))
    requires
        s@.len() == z@.len(),
        short_steps < usize::MAX,
        forall|a: &[T], c: bool| a@.len() == s@.len() ==> #[trigger] solve.requires((a, c)),
        forall|a: &[T], c: bool, d: Direction<T>| #[trigger]
            solve.ensures((a, c), d) ==> d@.sized(n, me, s@.len()) && gives(solves, a@, c, d@),
    ensures
        qp_direction(s@, z@, mu, correctors, short_steps, solves, r.0@, r.1 as int),
        r.0@.sized(n, me, s@.len()),
        r.1 <= short_steps + 1,
{
    assert(orthant_ftb::<T>() == T::decimal(9999, 4));
    if s.len() == 0 {
        let none: Vec<T> = Vec::new();
        let a: &[T] = none.as_slice();
        let d = solve(a, false);
        assert(a@ =~= Seq::<T>::empty());
        assert(gives(solves, a@, false, d@));
        let out = Direction { x: d.x, y: d.y, s: Vec::new(), z: Vec::new() };
        assert(out.s@ =~= Seq::<T>::empty());
        assert(out.z@ =~= Seq::<T>::empty());
        (out, short_steps)
    } else {
        let mut short: usize = short_steps;
        let d = pc_step(
            s,
            z,
            T::decimal(9999, 4),
            mu,
            solve,
            Ghost(solves),
            Ghost(n),
            Ghost(me),
            correctors,
            &mut short,
        );
        (d, short)
    }
}

} // verus!
