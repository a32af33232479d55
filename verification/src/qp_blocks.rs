//! The directions of the orthant engine for the systems of unknowns and equality multipliers.
use crate::factor::{
    always_factors_at, factor_surely, factors_at, pivot_tolerance, pivots, plain, secured, tolerance_of_pivots, tried,
    try_in_order, Method,
};
use crate::kkt::opt_deref;
use crate::lowrank::LowRankDiag;
use crate::matrix::DenseMatrix;
use crate::pc_step::{gives, Direction, DirectionView};
use crate::problem::QpProblem;
use crate::qp_directions::{
    bounds_eliminated, eliminate, eliminate_bounds, eliminated, quotients, Combine, Point,
};
use crate::qp_matrices::{
    boost_complement, build_complement, build_lifted, build_reduced, complement_entry, lift_for, peak,
    reduced_entry, rows_fit, shift_diagonal, units_added, weighted_diagonal, weighted_plain,
};
use crate::qp_newton::{
    diagonal_moved, factor_definite, factor_reduced, factors_definite, factors_reduced, qp_newton,
    ReducedFactor, ATTEMPTS,
};
use crate::qp_systems::{
    factors_pattern, lemma_solved_by, result_fits, same_pattern, with_values, Moment, Ordered, Setting,
};
use crate::range_space::{
    cols_fit, complement_values, fill_complement, maps_fit, range_hinv, range_inverse, range_solved,
    solve_range, RangeMaps,
};
use crate::refine::{
    block_residual, block_residual_of, complement_solved, low_rank_residual, low_rank_residual_of,
    reduced_residual, reduced_residual_of, refine, refine_eagerly, refines, refines_eagerly, solve_complement,
    ROUNDS,
};
use crate::scalar::Scalar;
use crate::solve::{gives_solutions, solved_by, solves_at, value_at, yields};
use crate::sparse::CscMatrix;
use crate::vector::{inf_norm, inf_norm_spec};
use crate::woodbury::{
    cache_fits, capacitance, fill_woodbury_cache, solve_woodbury, woodbury_diag, woodbury_solved,
    WoodburyCache,
};
use vstd::prelude::*;

verus! {

/// The residual that refinement leaves: the tolerance relative to the right-hand side.
pub open spec fn refined_level<T: Scalar>(eps: T, rhs: Seq<T>) -> T {
    eps.times(T::one().plus(inf_norm_spec(rhs)))
}

/// The residuals of the reduced system for the right-hand side `rhs`.
pub open spec fn reduced_residuals<T: Scalar, F>(
    x: ReducedFactor<F, T>,
    n: nat,
    mu: T,
    rhs: Seq<T>,
) -> spec_fn(Seq<T>) -> Seq<T> {
    |d: Seq<T>| reduced_residual(x.m, n, rhs, x.reg_primal.plus(mu.times(mu)), x.reg_dual, d)
}

/// The solutions of the reduced system: refined against the system without its regularization,
/// but for a corrector.
pub open spec fn reduced_solved<T: Scalar, F: Fn(&[T]) -> Vec<T>>(
    x: ReducedFactor<F, T>,
    n: nat,
    mu: T,
    eps: T,
    corrector: bool,
) -> spec_fn(Seq<T>, Seq<T>) -> bool {
    |rhs: Seq<T>, v: Seq<T>|
        exists|d: Seq<T>| #[trigger]
            yields(solved_by(x.factor), rhs, d) && (if corrector {
                v == d
            } else {
                refines(
                    reduced_residuals(x, n, mu, rhs),
                    solved_by(x.factor),
                    refined_level(eps, rhs),
                    d,
                    ROUNDS as nat,
                    v,
                )
            })
}

/// The reduced system at the point `p`.
pub open spec fn reduced_system<T: Scalar, F: Fn(&[T]) -> Vec<T>>(
    c: Setting<T>,
    p: Point<T>,
    x: ReducedFactor<F, T>,
    mu: T,
) -> spec_fn(Seq<T>, bool, DirectionView<T>) -> bool {
    |rhs: Seq<T>, corrector: bool, out: DirectionView<T>|
        eliminated(
            *c.prob,
            c.ain,
            opt_deref(c.in_csr),
            p,
            rhs,
            true,
            Combine::Separate,
            corrector,
            reduced_solved(x, c.prob.n(), mu, c.eps, corrector),
            out,
        )
}

/// `m` is the matrix of the reduced system.
pub open spec fn is_reduced_matrix<T: Scalar>(c: Setting<T>, t: Moment<T>, m: DenseMatrix<T>) -> bool {
    let dim = c.prob.n() + c.prob.me();
    &&& m.sized(dim, dim)
    &&& m.entries_are(
        reduced_entry(
            *c.prob,
            c.units@,
            c.general@,
            quotients(t.it.z@, t.it.s@),
            t.rho,
            t.delta,
            t.m.mu,
        ),
    )
}

/// `r` is what the reduced system gives, with the factorizations `factor` and `pivot`.
pub open spec fn reduced_step<
    T: Scalar,
    F: Fn(&[T]) -> Vec<T>,
    K: Fn(&DenseMatrix<T>, Method<T>) -> Option<F>,
    P: Fn(&DenseMatrix<T>) -> F,
>(c: Setting<T>, t: Moment<T>, factor: K, pivot: P, r: Option<(Direction<T>, usize)>) -> bool {
    exists|m: DenseMatrix<T>, o: Option<ReducedFactor<F, T>>|
        {
            &&& is_reduced_matrix(c, t, m)
            &&& #[trigger] factors_reduced(
                factor,
                pivot,
                m,
                c.prob.n(),
                t.rho,
                t.delta,
                c.rho0,
                ATTEMPTS as nat,
                o,
            )
            &&& match o {
                Some(x) => exists|p: Point<T>| #[trigger]
                    t.is_at(p) && t.directed(reduced_system(c, p, x, t.m.mu), r),
                None => r is None,
            }
        }
}

fn solve_reduced<T: Scalar, F: Fn(&[T]) -> Vec<T>>(
    x: &ReducedFactor<F, T>,
    n: usize,
    mu: T,
    eps: T,
    corrector: bool,
    b: &[T],
) -> (v: Vec<T>)
    requires
        n <= b@.len(),
        x.m.sized(b@.len(), b@.len()),
        solves_at(x.factor, b@.len()),
    ensures
        v@.len() == b@.len(),
        yields(reduced_solved(*x, n as nat, mu, eps, corrector), b@, v@),
{
    let inner = Ghost(solved_by(x.factor));
    proof {
        lemma_solved_by(x.factor, b@.len());
    }
    let d = (x.factor)(b);
    assert(yields(inner@, b@, d@));
    if corrector {
        d
    } else {
        let level = eps.times(T::one().plus(inf_norm(b)));
        let reg = x.reg_primal.plus(mu.times(mu));
        let residual = Ghost(reduced_residuals(*x, n as nat, mu, b@));
        let resid = |e: &[T]| -> (r: Vec<T>)
            requires
                e@.len() == b@.len(),
            ensures
                r@.len() == b@.len(),
                r@ == value_at(residual@, e@),
        { reduced_residual_of(&x.m, n, b, reg, x.reg_dual, e) };
        refine(d, level, &resid, &x.factor, residual, inner)
    }
}

/// The direction of the reduced system. None where no factorization succeeds.
pub fn reduced_newton<
    T: Scalar,
    F: Fn(&[T]) -> Vec<T>,
    K: Fn(&DenseMatrix<T>, Method<T>) -> Option<F>,
    P: Fn(&DenseMatrix<T>) -> F,
>(c: &Setting<T>, t: &Moment<T>, factor: &K, pivot: &P) -> (r: Option<(Direction<T>, usize)>)
    requires
        c.wf(),
        t.fits(*c.prob),
        (c.prob.n() + c.prob.me()) * (c.prob.n() + c.prob.me()) <= usize::MAX,
        factors_at(*factor, c.prob.n() + c.prob.me()),
        always_factors_at(*pivot, c.prob.n() + c.prob.me()),
    ensures
        reduced_step(*c, *t, *factor, *pivot, r),
        result_fits(*c.prob, t.short, r),
{
    let prob = c.prob;
    let nx: usize = prob.q.len();
    let ghost (n, me, mi) = (prob.n(), prob.me(), prob.mi());
    let p = t.point();
    let m = build_reduced(prob, c.units, c.general, &p.zs, t.rho, t.delta, t.m.mu);
    let o = factor_reduced(m, nx, t.rho, t.delta, c.rho0, factor, pivot);
    match o {
        None => None,
        Some(x) => {
            let mu = t.m.mu;
            let (ain, csr, eps) = (c.ain, c.in_csr, c.eps);
            let system = Ghost(reduced_system(*c, p, x, mu));
            let with = Ghost(reduced_solved(x, n, mu, eps, false));
            let without = Ghost(reduced_solved(x, n, mu, eps, true));
            let solve = |a: &[T], corrector: bool| -> (d: Direction<T>)
                requires
                    a@.len() == mi,
                ensures
                    gives(system@, a@, corrector, d@),
                    d@.sized(n, me, mi),
            {
                let rel = if corrector {
                    without
                } else {
                    with
                };
                let block = |b: &[T]| -> (v: Vec<T>)
                    requires
                        b@.len() == n + me,
                    ensures
                        v@.len() == n + me,
                        yields(rel@, b@, v@),
                { solve_reduced(&x, nx, mu, eps, corrector, b) };
                eliminate(prob, ain, csr, &p, a, true, Combine::Separate, corrector, &block, rel)
            };
            let d = qp_newton(
                &p.s,
                &p.z,
                t.m.mu,
                t.correctors,
                t.short,
                solve,
                system,
                Ghost(n),
                Ghost(me),
            );
            Some(d)
        },
    }
}

/// How often the diagonal of the complement is raised.
pub const BOOSTS: usize = 6;

/// How far the diagonal of the complement is raised after the raise `boost`.
pub open spec fn next_boost<T: Scalar>(boost: T, delta: T) -> T {
    if boost.equals(T::zero()) {
        delta.times(T::decimal(1, 4))
    } else {
        boost.times(T::decimal(10, 0))
    }
}

/// How the complement of dimension `dim` is factored.
pub open spec fn complement_order<T: Scalar>(dim: nat) -> Seq<Method<T>> {
    if dim >= 64 {
        seq![Method::Cholesky]
    } else {
        seq![plain()]
    }
}

fn complement_methods<T: Scalar>(dim: usize) -> (r: Vec<Method<T>>)
    ensures
        r@ == complement_order::<T>(dim as nat),
{
    let mut r: Vec<Method<T>> = Vec::new();
    if dim >= 64 {
        r.push(Method::Cholesky);
    } else {
        r.push(Method::Plain { tolerance: tolerance_of_pivots() });
    }
    assert(r@ =~= complement_order::<T>(dim as nat));
    r
}

/// `r` is the factor of the complement `m` after at most `left` raises of its diagonal. The last
/// raise is followed by another attempt in a small system, and by the pivoted factorization where
/// every attempt failed.
pub open spec fn factors_complement<
    T: Scalar,
    G,
    K: Fn(&DenseMatrix<T>, Method<T>) -> Option<G>,
    P: Fn(&DenseMatrix<T>) -> G,
>(factor: K, pivot: P, m: DenseMatrix<T>, delta: T, boost: T, left: nat, r: G) -> bool
    decreases left,
{
    if left == 0 && m.nrows >= 64 {
        pivots(pivot, m, r)
    } else {
        exists|o: Option<G>|
            {
                &&& #[trigger] tried(factor, complement_order(m.nrows as nat), m, o)
                &&& match o {
                    Some(g) => r == g,
                    None => if left == 0 {
                        pivots(pivot, m, r)
                    } else {
                        exists|next: DenseMatrix<T>| #[trigger]
                            diagonal_moved(
                                m,
                                m.nrows as nat,
                                next_boost(boost, delta),
                                T::zero(),
                                next,
                            ) && factors_complement(
                                factor,
                                pivot,
                                next,
                                delta,
                                next_boost(boost, delta),
                                (left - 1) as nat,
                                r,
                            )
                    },
                }
            }
    }
}

/// Factors the complement of the equality rows. It is definite but may be nearly singular: its
/// diagonal is raised a few times before it is factored with pivoting.
pub fn factor_complement<
    T: Scalar,
    G: Fn(&[T]) -> Vec<T>,
    K: Fn(&DenseMatrix<T>, Method<T>) -> Option<G>,
    P: Fn(&DenseMatrix<T>) -> G,
>(m: DenseMatrix<T>, delta: T, factor: &K, pivot: &P) -> (r: G)
    requires
        m.wf(),
        m.nrows == m.ncols,
        factors_at(*factor, m.nrows as nat),
        always_factors_at(*pivot, m.nrows as nat),
    ensures
        factors_complement(*factor, *pivot, m, delta, T::zero(), BOOSTS as nat, r),
        solves_at(r, m.nrows as nat),
{
    let ghost first = m;
    let dim: usize = m.nrows;
    let order = complement_methods(dim);
    let mut cur = m;
    let mut boost = T::zero();
    let mut left: usize = BOOSTS;
    while left > 0 || dim < 64
        invariant
            first == m,
            first.nrows == dim,
            cur.sized(dim as nat, dim as nat),
            left <= BOOSTS,
            order@ == complement_order::<T>(dim as nat),
            factors_at(*factor, dim as nat),
            always_factors_at(*pivot, dim as nat),
            forall|r: G|
                factors_complement(*factor, *pivot, cur, delta, boost, left as nat, r)
                    ==> #[trigger] factors_complement(
                    *factor,
                    *pivot,
                    first,
                    delta,
                    T::zero(),
                    BOOSTS as nat,
                    r,
                ),
        decreases left,
    {
        let ghost before = cur;
        let o = try_in_order(factor, &order, &cur);
        assert(tried(*factor, complement_order(dim as nat), cur, o));
        if let Some(g) = o {
            assert(factors_complement(*factor, *pivot, before, delta, boost, left as nat, g));
            return g;
        }
        if left == 0 {
            let qr: &DenseMatrix<T> = &cur;
            let g = pivot(qr);
            assert(pivots(*pivot, cur, g));
            assert(factors_complement(*factor, *pivot, before, delta, boost, left as nat, g));
            return g;
        }
        let b = boost_complement(boost, delta);
        shift_diagonal(&mut cur, dim, b);
        proof {
            assert(b == next_boost(boost, delta));
            assert(diagonal_moved(before, before.nrows as nat, b, T::zero(), cur));
            assert forall|r: G|
                factors_complement(*factor, *pivot, cur, delta, b, (left - 1) as nat, r) implies
            #[trigger] factors_complement(*factor, *pivot, first, delta, T::zero(), BOOSTS as nat, r) by {
                assert(factors_complement(*factor, *pivot, before, delta, boost, left as nat, r));
            }
        }
        boost = b;
        left -= 1;
    }
    let qr: &DenseMatrix<T> = &cur;
    let g = pivot(qr);
    assert(pivots(*pivot, cur, g));
    assert(factors_complement(*factor, *pivot, cur, delta, boost, 0, g));
    g
}

/// Row `i` of the matrix.
fn row_of<T: Scalar>(a: &DenseMatrix<T>, i: usize) -> (r: Vec<T>)
    requires
        a.wf(),
        i < a.nrows,
    ensures
        r@ == a.row(i as int),
{
    let mut r: Vec<T> = Vec::with_capacity(a.ncols);
    let mut j: usize = 0;
    while j < a.ncols
        invariant
            a.wf(),
            i < a.nrows,
            j <= a.ncols,
            r@ =~= a.row(i as int).subrange(0, j as int),
        decreases a.ncols - j,
    {
        r.push(a.get(i, j));
        j += 1;
    }
    assert(r@ =~= a.row(i as int));
    r
}

/// `cols` are the solutions for the equality rows.
pub open spec fn solved_rows<T: Scalar>(
    a_eq: DenseMatrix<T>,
    solves: spec_fn(Seq<T>, Seq<T>) -> bool,
    cols: Seq<Vec<T>>,
) -> bool {
    &&& cols.len() == a_eq.nrows
    &&& forall|r: int| 0 <= r < cols.len() ==> (#[trigger] cols[r])@.len() == a_eq.ncols
    &&& forall|r: int| 0 <= r < cols.len() ==> yields(solves, a_eq.row(r), (#[trigger] cols[r])@)
}

fn solve_rows<T: Scalar, F: Fn(&[T]) -> Vec<T>>(a_eq: &DenseMatrix<T>, f: &F) -> (cols: Vec<Vec<T>>)
    requires
        a_eq.wf(),
        solves_at(*f, a_eq.ncols as nat),
    ensures
        solved_rows(*a_eq, solved_by(*f), cols@),
{
    let ghost inner = solved_by(*f);
    proof {
        lemma_solved_by(*f, a_eq.ncols as nat);
    }
    let mut cols: Vec<Vec<T>> = Vec::with_capacity(a_eq.nrows);
    let mut r: usize = 0;
    while r < a_eq.nrows
        invariant
            a_eq.wf(),
            inner == solved_by(*f),
            gives_solutions(*f, inner, a_eq.ncols as nat),
            r <= a_eq.nrows,
            cols@.len() == r,
            forall|i: int| 0 <= i < cols@.len() ==> (#[trigger] cols@[i])@.len() == a_eq.ncols,
            forall|i: int| 0 <= i < cols@.len() ==> yields(inner, a_eq.row(i), (#[trigger] cols@[i])@),
        decreases a_eq.nrows - r,
    {
        let row = row_of(a_eq, r);
        let x = f(row.as_slice());
        cols.push(x);
        r += 1;
    }
    cols
}

/// The solutions of a system of dimension one.
pub open spec fn divided_by_one<T: Scalar>(s: T) -> spec_fn(Seq<T>, Seq<T>) -> bool {
    |a: Seq<T>, v: Seq<T>| v == seq![a[0].over(s)]
}

/// The solutions of the complement: a division where there is one equality row, else by its factor.
pub open spec fn complement_inverse<T: Scalar, G: Fn(&[T]) -> Vec<T>>(
    pivot: T,
    g: Option<G>,
) -> spec_fn(Seq<T>, Seq<T>) -> bool {
    match g {
        Some(g) => solved_by(g),
        None => divided_by_one(pivot),
    }
}

/// A factored block with its complement.
pub struct Blocks<F, G, T> {
    /// The factor of the block of the unknowns.
    pub f: F,
    /// That block, with its regularization.
    pub h: DenseMatrix<T>,
    /// The regularization in it.
    pub reg: T,
    /// The solutions for the equality rows.
    pub cols: Vec<Vec<T>>,
    /// The factor of the complement, but for one equality row.
    pub g: Option<G>,
    /// The complement of one equality row.
    pub pivot: T,
}

impl<F: Fn(&[T]) -> Vec<T>, G: Fn(&[T]) -> Vec<T>, T: Scalar> Blocks<F, G, T> {
    /// The parts have the problem's dimensions.
    pub open spec fn fits(self, prob: QpProblem<T>) -> bool {
        &&& self.h.sized(prob.n(), prob.n())
        &&& solves_at(self.f, prob.n())
        &&& self.cols@.len() == prob.me()
        &&& forall|r: int| 0 <= r < prob.me() ==> (#[trigger] self.cols@[r])@.len() == prob.n()
        &&& match self.g {
            Some(g) => solves_at(g, prob.me()),
            None => prob.me() == 1,
        }
    }

    /// The solutions through the complement, before refinement.
    pub open spec fn solved(self, prob: QpProblem<T>) -> spec_fn(Seq<T>, Seq<T>) -> bool {
        complement_solved(
            prob.a_eq,
            self.cols@,
            solved_by(self.f),
            complement_inverse(self.pivot, self.g),
        )
    }

    /// The residuals for the right-hand side `rhs`.
    pub open spec fn residuals(self, prob: QpProblem<T>, rhs: Seq<T>) -> spec_fn(Seq<T>) -> Seq<T> {
        |d: Seq<T>| block_residual(prob, self.h, self.reg, rhs, d)
    }

    /// The refined solutions.
    pub open spec fn refined(self, prob: QpProblem<T>, eps: T) -> spec_fn(Seq<T>, Seq<T>) -> bool {
        |rhs: Seq<T>, v: Seq<T>|
            exists|d: Seq<T>| #[trigger]
                yields(self.solved(prob), rhs, d) && refines(
                    self.residuals(prob, rhs),
                    self.solved(prob),
                    refined_level(eps, rhs),
                    d,
                    ROUNDS as nat,
                    v,
                )
    }

    fn solve_once(&self, prob: &QpProblem<T>, rhs: &[T]) -> (v: Vec<T>)
        requires
            prob.wf(),
            self.fits(*prob),
            rhs@.len() == prob.n() + prob.me(),
        ensures
            v@.len() == rhs@.len(),
            yields(self.solved(*prob), rhs@, v@),
    {
        let ghost me = prob.me();
        let below = Ghost(complement_inverse(self.pivot, self.g));
        proof {
            lemma_solved_by(self.f, prob.n());
            if self.g is Some {
                lemma_solved_by(self.g->0, prob.me());
            }
        }
        let s_solve = |b: &[T]| -> (v: Vec<T>)
            requires
                b@.len() == me,
            ensures
                v@.len() == me,
                yields(below@, b@, v@),
        {
            match &self.g {
                Some(g) => g(b),
                None => {
                    let v = vec![b[0].over(self.pivot)];
                    assert(v@ =~= seq![b@[0].over(self.pivot)]);
                    v
                },
            }
        };
        solve_complement(
            &prob.a_eq,
            &self.cols,
            rhs,
            &self.f,
            &s_solve,
            Ghost(solved_by(self.f)),
            below,
        )
    }

    fn solve_refined(&self, prob: &QpProblem<T>, eps: T, rhs: &[T]) -> (v: Vec<T>)
        requires
            prob.wf(),
            self.fits(*prob),
            rhs@.len() == prob.n() + prob.me(),
        ensures
            v@.len() == rhs@.len(),
            yields(self.refined(*prob, eps), rhs@, v@),
    {
        let d = self.solve_once(prob, rhs);
        let level = eps.times(T::one().plus(inf_norm(rhs)));
        let residual = Ghost(self.residuals(*prob, rhs@));
        let once = Ghost(self.solved(*prob));
        let resid = |e: &[T]| -> (r: Vec<T>)
            requires
                e@.len() == rhs@.len(),
            ensures
                r@.len() == rhs@.len(),
                r@ == value_at(residual@, e@),
        { block_residual_of(prob, &self.h, self.reg, rhs, e) };
        let solve = |e: &[T]| -> (v: Vec<T>)
            requires
                e@.len() == rhs@.len(),
            ensures
                v@.len() == rhs@.len(),
                yields(once@, e@, v@),
        { self.solve_once(prob, e) };
        assert(yields(once@, rhs@, d@));
        refine(d, level, &resid, &solve, residual, once)
    }
}

/// The system through the complement at the point `p`.
pub open spec fn complement_system<T: Scalar>(
    c: Setting<T>,
    p: Point<T>,
    solves: spec_fn(Seq<T>, Seq<T>) -> bool,
) -> spec_fn(Seq<T>, bool, DirectionView<T>) -> bool {
    |rhs: Seq<T>, corrector: bool, out: DirectionView<T>|
        eliminated(
            *c.prob,
            c.ain,
            opt_deref(c.in_csr),
            p,
            rhs,
            false,
            Combine::Separate,
            corrector,
            solves,
            out,
        )
}

/// The lift of the block of the unknowns.
pub open spec fn block_lift<T: Scalar>(c: Setting<T>, t: Moment<T>) -> T {
    let zs = quotients(t.it.z@, t.it.s@);
    lift_for(
        t.m.mu,
        c.weak,
        peak(weighted_diagonal(*c.prob, c.units@, c.general@, zs, t.rho), c.prob.n()),
    )
}

/// `h` is the block of the unknowns.
pub open spec fn is_block<T: Scalar>(c: Setting<T>, t: Moment<T>, h: DenseMatrix<T>) -> bool {
    let zs = quotients(t.it.z@, t.it.s@);
    &&& h.sized(c.prob.n(), c.prob.n())
    &&& forall|i: int, j: int|
        0 <= i < c.prob.n() && 0 <= j < c.prob.n() ==> #[trigger] h.at(i, j) == ({
            let v = weighted_plain(*c.prob, c.units@, c.general@, zs, t.rho, i, j);
            if i == j {
                v.plus(block_lift(c, t))
            } else {
                v
            }
        })
}

/// `sm` is the complement of the equality rows.
pub open spec fn is_complement<T: Scalar>(c: Setting<T>, t: Moment<T>, cols: Seq<Vec<T>>, sm: DenseMatrix<T>) -> bool {
    &&& sm.sized(c.prob.me(), c.prob.me())
    &&& sm.entries_are(complement_entry(c.prob.a_eq, cols, t.delta))
}

/// `b` holds the factor of the block of the unknowns that came back as `o`, and the complement of it
/// with its factor.
pub open spec fn is_complemented<
    T: Scalar,
    F: Fn(&[T]) -> Vec<T>,
    G: Fn(&[T]) -> Vec<T>,
    K: Fn(&DenseMatrix<T>, Method<T>) -> Option<G>,
    P: Fn(&DenseMatrix<T>) -> G,
>(c: Setting<T>, t: Moment<T>, o: (F, DenseMatrix<T>, T), factor: K, pivot: P, b: Blocks<F, G, T>) -> bool {
    &&& b.f == o.0
    &&& b.h == o.1
    &&& b.reg == block_lift(c, t).plus(o.2)
    &&& solved_rows(c.prob.a_eq, solved_by(b.f), b.cols@)
    &&& match b.g {
        None => c.prob.me() == 1 && b.pivot == (complement_entry(c.prob.a_eq, b.cols@, t.delta))(0, 0),
        Some(g) => c.prob.me() != 1 && exists|sm: DenseMatrix<T>|
            {
                &&& #[trigger] is_complement(c, t, b.cols@, sm)
                &&& factors_complement(factor, pivot, sm, t.delta, T::zero(), BOOSTS as nat, g)
            },
    }
}

/// `r` is what the system through the complement gives, with the factorizations `factor` and `pivot`
/// of the unknowns' block and of the complement.
pub open spec fn complement_step<
    T: Scalar,
    F: Fn(&[T]) -> Vec<T>,
    K: Fn(&DenseMatrix<T>, Method<T>) -> Option<F>,
    P: Fn(&DenseMatrix<T>) -> F,
>(c: Setting<T>, t: Moment<T>, factor: K, pivot: P, r: Option<(Direction<T>, usize)>) -> bool {
    exists|h: DenseMatrix<T>, o: Option<(F, DenseMatrix<T>, T)>|
        {
            &&& is_block(c, t, h)
            &&& #[trigger] factors_definite(factor, pivot, h, t.rho, c.rho0, ATTEMPTS as nat, o)
            &&& match o {
                Some(x) => exists|b: Blocks<F, F, T>, p: Point<T>|
                    {
                        &&& #[trigger] is_complemented(c, t, x, factor, pivot, b)
                        &&& #[trigger] t.is_at(p)
                        &&& t.directed(complement_system(c, p, b.refined(*c.prob, c.eps)), r)
                    },
                None => r is None,
            }
        }
}

/// The direction through the complement of the equality rows. None where no factorization of the
/// unknowns' block succeeds.
pub fn complement_newton<
    T: Scalar,
    F: Fn(&[T]) -> Vec<T>,
    K: Fn(&DenseMatrix<T>, Method<T>) -> Option<F>,
    P: Fn(&DenseMatrix<T>) -> F,
>(c: &Setting<T>, t: &Moment<T>, factor: &K, pivot: &P) -> (r: Option<(Direction<T>, usize)>)
    requires
        c.wf(),
        t.fits(*c.prob),
        c.prob.me() * c.prob.me() <= usize::MAX,
        factors_at(*factor, c.prob.n()),
        factors_at(*factor, c.prob.me()),
        always_factors_at(*pivot, c.prob.n()),
        always_factors_at(*pivot, c.prob.me()),
    ensures
        complement_step(*c, *t, *factor, *pivot, r),
        result_fits(*c.prob, t.short, r),
        c.prob.n() >= 48 ==> r is Some,
{
    let prob = c.prob;
    let ghost (n, me, mi) = (prob.n(), prob.me(), prob.mi());
    let p = t.point();
    let (h, lift) = build_lifted(prob, c.units, c.general, &p.zs, t.rho, t.m.mu, c.weak);
    assert(is_block(*c, *t, h));
    let o = factor_definite(h, t.rho, c.rho0, factor, pivot);
    match o {
        None => None,
        Some((f, hh, h_reg)) => {
            let ghost x = (f, hh, h_reg);
            let cols = solve_rows(&prob.a_eq, &f);
            let sm = build_complement(&prob.a_eq, &cols, t.delta);
            assert(is_complement(*c, *t, cols@, sm));
            let g: Option<F>;
            let first: T;
            if prob.b_eq.len() == 1 {
                first = sm.get(0, 0);
                assert(first == sm.at(0, 0));
                g = None;
            } else {
                first = T::zero();
                g = Some(factor_complement(sm, t.delta, factor, pivot));
            }
            let b = Blocks { f, h: hh, reg: lift.plus(h_reg), cols, g, pivot: first };
            assert(is_complemented(*c, *t, x, *factor, *pivot, b));
            let (ain, csr, eps) = (c.ain, c.in_csr, c.eps);
            let rel = Ghost(b.refined(*prob, eps));
            let system = Ghost(complement_system(*c, p, rel@));
            let ghost dim = n + me;
            let through = |a: &[T]| -> (v: Vec<T>)
                requires
                    a@.len() == dim,
                ensures
                    v@.len() == dim,
                    yields(rel@, a@, v@),
            { b.solve_refined(prob, eps, a) };
            let solve = |a: &[T], corrector: bool| -> (d: Direction<T>)
                requires
                    a@.len() == mi,
                ensures
                    gives(system@, a@, corrector, d@),
                    d@.sized(n, me, mi),
            { eliminate(prob, ain, csr, &p, a, false, Combine::Separate, corrector, &through, rel) };
            let d = qp_newton(
                &p.s,
                &p.z,
                t.m.mu,
                t.correctors,
                t.short,
                solve,
                system,
                Ghost(n),
                Ghost(me),
            );
            Some(d)
        },
    }
}

/// The system with the sparse complement at the point `p`.
pub open spec fn range_system<T: Scalar>(
    c: Setting<T>,
    p: Point<T>,
    cols: Seq<Vec<(usize, T)>>,
    hinv: Seq<T>,
    perm: Seq<usize>,
    solves: spec_fn(Seq<T>, Seq<T>) -> bool,
) -> spec_fn(Seq<T>, bool, DirectionView<T>) -> bool {
    |rhs: Seq<T>, corrector: bool, out: DirectionView<T>|
        eliminated(
            *c.prob,
            c.ain,
            opt_deref(c.in_csr),
            p,
            rhs,
            false,
            Combine::Joint,
            corrector,
            range_solved(c.prob.a_eq, cols, hinv, perm, p.r_b@, corrector, solves),
            out,
        )
}

/// `r` is what the system with the sparse complement gives, with the factorization `factor`.
pub open spec fn range_step<T: Scalar, F: Fn(&[T]) -> Vec<T>, K: Fn(&CscMatrix<T>, T) -> Option<F>>(
    c: Setting<T>,
    t: Moment<T>,
    cols: Seq<Vec<(usize, T)>>,
    maps: RangeMaps<T>,
    sys: Ordered<T>,
    factor: K,
    r: Option<(Direction<T>, usize)>,
) -> bool {
    let hinv = range_hinv(*c.prob, c.units@, quotients(t.it.z@, t.it.s@), t.rho);
    exists|k: &CscMatrix<T>, o: Option<F>|
        {
            &&& same_pattern(*sys.pattern, *k)
            &&& k.nzval@ == complement_values(maps, sys.pattern.nzval@.len(), hinv, t.delta, hinv.len())
            &&& #[trigger] factor.ensures((k, pivot_tolerance()), o)
            &&& match o {
                Some(f) => exists|p: Point<T>| #[trigger]
                    t.is_at(p) && t.directed(
                        range_system(c, p, cols, hinv, sys.perm@, solved_by(f)),
                        r,
                    ),
                None => r is None,
            }
        }
}

/// The direction of a problem whose unknowns have a diagonal block, through the sparse complement
/// of the equality rows. None where its factorization fails.
pub fn range_newton<T: Scalar, F: Fn(&[T]) -> Vec<T>, K: Fn(&CscMatrix<T>, T) -> Option<F>>(
    c: &Setting<T>,
    t: &Moment<T>,
    cols: &[Vec<(usize, T)>],
    maps: &RangeMaps<T>,
    sys: &Ordered<T>,
    factor: &K,
) -> (r: Option<(Direction<T>, usize)>)
    requires
        c.wf(),
        t.fits(*c.prob),
        cols@.len() == c.prob.n(),
        cols_fit(cols@, c.prob.me()),
        maps_fit(*maps, sys.pattern.nzval@.len(), c.prob.n()),
        sys.fits(c.prob.me()),
        factors_pattern(*factor, *sys.pattern),
    ensures
        range_step(*c, *t, cols@, *maps, *sys, *factor, r),
        result_fits(*c.prob, t.short, r),
{
    let prob = c.prob;
    let ghost (n, me, mi) = (prob.n(), prob.me(), prob.mi());
    let p = t.point();
    assert(rows_fit(*prob, c.units@, Seq::empty()));
    let hinv = range_inverse(prob, c.units, &p.zs, t.rho);
    let nz = fill_complement(maps, sys.pattern.nzval.len(), &hinv, t.delta);
    let k = with_values(sys.pattern, nz);
    let kr: &CscMatrix<T> = &k;
    let o = factor(kr, tolerance_of_pivots());
    assert(factor.ensures((kr, pivot_tolerance()), o));
    match o {
        None => None,
        Some(f) => {
            let perm = sys.perm;
            let (ain, csr) = (c.ain, c.in_csr);
            let inner = Ghost(solved_by(f));
            let system = Ghost(range_system(*c, p, cols@, hinv@, perm@, inner@));
            let with = Ghost(range_solved(prob.a_eq, cols@, hinv@, perm@, p.r_b@, false, inner@));
            let without = Ghost(range_solved(prob.a_eq, cols@, hinv@, perm@, p.r_b@, true, inner@));
            proof {
                lemma_solved_by(f, me);
            }
            let solve = |a: &[T], corrector: bool| -> (d: Direction<T>)
                requires
                    a@.len() == mi,
                ensures
                    gives(system@, a@, corrector, d@),
                    d@.sized(n, me, mi),
            {
                let rel = if corrector {
                    without
                } else {
                    with
                };
                let block = |b: &[T]| -> (v: Vec<T>)
                    requires
                        b@.len() == n + me,
                    ensures
                        v@.len() == n + me,
                        yields(rel@, b@, v@),
                { solve_range(&prob.a_eq, cols, &hinv, perm, &p.r_b, corrector, b, &f, inner) };
                eliminate(prob, ain, csr, &p, a, false, Combine::Joint, corrector, &block, rel)
            };
            let d = qp_newton(
                &p.s,
                &p.z,
                t.m.mu,
                t.correctors,
                t.short,
                solve,
                system,
                Ghost(n),
                Ghost(me),
            );
            Some(d)
        },
    }
}

/// What the bound rows add to the diagonal of the unknowns.
pub open spec fn bound_weights<T: Scalar>(units: Seq<(usize, usize, T)>, zs: Seq<T>, n: nat) -> Seq<T> {
    Seq::new(n, |j: int| units_added(units, zs, T::zero(), j, units.len()))
}

fn bound_weights_of<T: Scalar>(units: &[(usize, usize, T)], zs: &[T], n: usize) -> (r: Vec<T>)
    requires
        forall|i: int| 0 <= i < units@.len() ==> (#[trigger] units@[i]).0 < zs@.len(),
    ensures
        r@ == bound_weights(units@, zs@, n as nat),
{
    let mut r: Vec<T> = Vec::with_capacity(n);
    let mut j: usize = 0;
    while j < n
        invariant
            forall|i: int| 0 <= i < units@.len() ==> (#[trigger] units@[i]).0 < zs@.len(),
            j <= n,
            r@ =~= bound_weights(units@, zs@, n as nat).subrange(0, j as int),
        decreases n - j,
    {
        let mut acc = T::zero();
        let mut k: usize = 0;
        while k < units.len()
            invariant
                forall|i: int| 0 <= i < units@.len() ==> (#[trigger] units@[i]).0 < zs@.len(),
                k <= units@.len(),
                acc == units_added(units@, zs@, T::zero(), j as int, k as nat),
            decreases units@.len() - k,
        {
            let (row, col, v) = units[k];
            if col == j {
                acc = acc.plus(zs[row].times(v).times(v));
            }
            k += 1;
        }
        r.push(acc);
        j += 1;
    }
    assert(r@ =~= bound_weights(units@, zs@, n as nat));
    r
}

/// The solutions of the low-rank system: refined, where the right-hand side does not vanish.
pub open spec fn low_rank_solved<T: Scalar>(
    prob: QpProblem<T>,
    lr: LowRankDiag<T>,
    wb: WoodburyCache<T>,
    delta: T,
    fold: Seq<T>,
    eps: T,
    solves: spec_fn(Seq<T>, Seq<T>) -> bool,
) -> spec_fn(Seq<T>, Seq<T>) -> bool {
    let once = woodbury_solved(prob, lr.rank as nat, wb, delta, solves);
    |rhs: Seq<T>, v: Seq<T>|
        exists|d: Seq<T>| #[trigger]
            yields(once, rhs, d) && (if T::zero().below(inf_norm_spec(rhs)) {
                refines_eagerly(
                    low_rank_residuals(prob, lr, fold, rhs),
                    once,
                    refined_level(eps, rhs),
                    d,
                    T::infinity(),
                    ROUNDS as nat,
                    v,
                )
            } else {
                v == d
            })
}

/// The residuals of the low-rank system for the right-hand side `rhs`.
pub open spec fn low_rank_residuals<T: Scalar>(
    prob: QpProblem<T>,
    lr: LowRankDiag<T>,
    fold: Seq<T>,
    rhs: Seq<T>,
) -> spec_fn(Seq<T>) -> Seq<T> {
    |d: Seq<T>| low_rank_residual(prob, lr, fold, rhs, d)
}

fn solve_low_rank<T: Scalar, F: Fn(&[T]) -> Vec<T>>(
    prob: &QpProblem<T>,
    lr: &LowRankDiag<T>,
    wb: &WoodburyCache<T>,
    delta: T,
    fold: &[T],
    eps: T,
    f: &F,
    rhs: &[T],
) -> (v: Vec<T>)
    requires
        prob.wf(),
        lr.fits(prob.n()),
        cache_fits(*wb, *prob, lr.rank as nat),
        fold@.len() == prob.n(),
        rhs@.len() == prob.n() + prob.me(),
        lr.rank + prob.me() <= usize::MAX,
        solves_at(*f, lr.rank as nat + prob.me()),
    ensures
        v@.len() == rhs@.len(),
        yields(low_rank_solved(*prob, *lr, *wb, delta, fold@, eps, solved_by(*f)), rhs@, v@),
{
    let inner = Ghost(solved_by(*f));
    proof {
        lemma_solved_by(*f, lr.rank as nat + prob.me());
    }
    let once = Ghost(woodbury_solved(*prob, lr.rank as nat, *wb, delta, inner@));
    let d = solve_woodbury(prob, lr.rank, wb, delta, rhs, f, inner);
    assert(yields(once@, rhs@, d@));
    let norm = inf_norm(rhs);
    if !T::zero().below(norm) {
        return d;
    }
    let level = eps.times(T::one().plus(norm));
    let residual = Ghost(low_rank_residuals(*prob, *lr, fold@, rhs@));
    let resid = |e: &[T]| -> (r: Vec<T>)
        requires
            e@.len() == rhs@.len(),
        ensures
            r@.len() == rhs@.len(),
            r@ == value_at(residual@, e@),
    { low_rank_residual_of(prob, lr, fold, rhs, e) };
    let solve = |e: &[T]| -> (v: Vec<T>)
        requires
            e@.len() == rhs@.len(),
        ensures
            v@.len() == rhs@.len(),
            yields(once@, e@, v@),
    { solve_woodbury(prob, lr.rank, wb, delta, e, f, inner) };
    refine_eagerly(d, level, &resid, &solve, residual, once)
}

/// The low-rank system at the point `p`.
pub open spec fn low_rank_system<T: Scalar>(
    c: Setting<T>,
    p: Point<T>,
    col_ineq: Seq<(usize, T)>,
    solves: spec_fn(Seq<T>, Seq<T>) -> bool,
) -> spec_fn(Seq<T>, bool, DirectionView<T>) -> bool {
    |rhs: Seq<T>, corrector: bool, out: DirectionView<T>|
        bounds_eliminated(*c.prob, col_ineq, p, rhs, corrector, solves, out)
}

/// `wb` holds the capacitance of this iteration.
pub open spec fn is_capacitance<T: Scalar>(
    c: Setting<T>,
    t: Moment<T>,
    lr: LowRankDiag<T>,
    col_ineq: Seq<(usize, T)>,
    wb: WoodburyCache<T>,
) -> bool {
    let prob = *c.prob;
    let zs = quotients(t.it.z@, t.it.s@);
    let rho = t.rho.plus(t.m.mu.times(t.m.mu));
    let dim = lr.rank as nat + prob.me();
    &&& wb.dinv@ == Seq::new(
        prob.n(),
        |j: int| T::one().over(woodbury_diag(lr.d@, rho, zs, col_ineq, j, prob.mi())),
    )
    &&& wb.sqrt_delta_inv == T::one().over(t.delta).sqrt()
    &&& wb.lt@.len() == lr.rank * prob.n()
    &&& forall|k: int, i: int|
        0 <= k < lr.rank && 0 <= i < prob.n() ==> #[trigger] wb.lt@[k * prob.n() + i] == lr.l.at(i, k)
    &&& wb.c.sized(dim, dim)
    &&& wb.c.entries_are(capacitance(lr.rank as nat, wb.lt@, prob.a_eq, wb.dinv@, t.delta))
}

/// `r` is what the low-rank system gives: its capacitance is factored by Cholesky's method, and with
/// pivoting where that fails.
pub open spec fn low_rank_step<
    T: Scalar,
    F: Fn(&[T]) -> Vec<T>,
    K: Fn(&DenseMatrix<T>, Method<T>) -> Option<F>,
    P: Fn(&DenseMatrix<T>) -> F,
>(
    c: Setting<T>,
    t: Moment<T>,
    lr: LowRankDiag<T>,
    col_ineq: Seq<(usize, T)>,
    factor: K,
    pivot: P,
    r: (Direction<T>, usize),
) -> bool {
    let fold = bound_weights(c.units@, quotients(t.it.z@, t.it.s@), c.prob.n());
    exists|wb: WoodburyCache<T>, f: F, p: Point<T>|
        {
            &&& #[trigger] is_capacitance(c, t, lr, col_ineq, wb)
            &&& #[trigger] secured(factor, pivot, seq![Method::Cholesky], wb.c, f)
            &&& #[trigger] t.is_at(p)
            &&& t.directed(
                low_rank_system(
                    c,
                    p,
                    col_ineq,
                    low_rank_solved(*c.prob, lr, wb, t.delta, fold, c.eps, solved_by(f)),
                ),
                Some(r),
            )
        }
}

/// The direction of a problem with a low-rank Hessian whose rows are bounds, given by `col_ineq`.
pub fn low_rank_newton<
    T: Scalar,
    F: Fn(&[T]) -> Vec<T>,
    K: Fn(&DenseMatrix<T>, Method<T>) -> Option<F>,
    P: Fn(&DenseMatrix<T>) -> F,
>(
    c: &Setting<T>,
    t: &Moment<T>,
    lr: &LowRankDiag<T>,
    col_ineq: &[(usize, T)],
    factor: &K,
    pivot: &P,
) -> (r: (Direction<T>, usize))
    requires
        c.wf(),
        t.fits(*c.prob),
        lr.fits(c.prob.n()),
        col_ineq@.len() == c.prob.mi(),
        forall|i: int| 0 <= i < c.prob.mi() ==> (#[trigger] col_ineq@[i]).0 < c.prob.n(),
        lr.rank + c.prob.me() <= usize::MAX,
        (lr.rank + c.prob.me()) * (lr.rank + c.prob.me()) <= usize::MAX,
        factors_at(*factor, lr.rank as nat + c.prob.me()),
        always_factors_at(*pivot, lr.rank as nat + c.prob.me()),
    ensures
        low_rank_step(*c, *t, *lr, col_ineq@, *factor, *pivot, r),
        result_fits(*c.prob, t.short, Some(r)),
{
    let prob = c.prob;
    let ghost (n, me, mi) = (prob.n(), prob.me(), prob.mi());
    let p = t.point();
    let mu = t.m.mu;
    let (delta, eps) = (t.delta, c.eps);
    let wb = fill_woodbury_cache(prob, t.rho.plus(mu.times(mu)), delta, &p.zs, lr, col_ineq);
    assert(is_capacitance(*c, *t, *lr, col_ineq@, wb));
    let order: Vec<Method<T>> = vec![Method::Cholesky];
    assert(order@ =~= seq![Method::Cholesky]);
    let f = factor_surely(factor, pivot, &order, &wb.c);
    let fold = bound_weights_of(c.units, &p.zs, prob.q.len());
    let rel = Ghost(low_rank_solved(*prob, *lr, wb, delta, fold@, eps, solved_by(f)));
    let system = Ghost(low_rank_system(*c, p, col_ineq@, rel@));
    let ghost dim = n + me;
    let through = |a: &[T]| -> (v: Vec<T>)
        requires
            a@.len() == dim,
        ensures
            v@.len() == dim,
            yields(rel@, a@, v@),
    { solve_low_rank(prob, lr, &wb, delta, &fold, eps, &f, a) };
    let solve = |a: &[T], corrector: bool| -> (d: Direction<T>)
        requires
            a@.len() == mi,
        ensures
            gives(system@, a@, corrector, d@),
            d@.sized(n, me, mi),
    { eliminate_bounds(prob, col_ineq, &p, a, corrector, &through, rel) };
    qp_newton(&p.s, &p.z, mu, t.correctors, t.short, solve, system, Ghost(n), Ghost(me))
}

} // verus!
