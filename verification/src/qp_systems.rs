//! The directions of the orthant engine for each of its linear systems: what is handed to the
//! factorization, and what is made of its solutions.
use crate::conic_step::Iterate;
use crate::factor::{
    always_factors_at, factor_surely, factors_at, pivot_tolerance, secured, tolerance_of_pivots, Method,
};
use crate::fac::{gather, gathered, permutation};
use crate::kkt::opt_deref;
use crate::matrix::DenseMatrix;
use crate::pc_step::{gives, Direction, DirectionView};
use crate::problem::QpProblem;
use crate::products::{form_fits, Form};
use crate::qp_directions::{
    augmented, augmented_direction, definite, definite_direction, quotients, quotients_of, rank_one,
    rank_one_direction, sparse_condensed, sparse_direction, Point,
};
use crate::qp_loop::Measures;
use crate::qp_matrices::{build_definite, lift_for, peak, rows_fit, shifted_diagonal, weighted};
use crate::qp_newton::{factor_definite, factors_definite, qp_direction, qp_newton, ATTEMPTS};
use crate::qp_sparse::{
    assemble_augmented_dense, barrier_lift, barrier_lift_of, condensed_refilled, dense_entry, fold_units,
    refill_condensed, unit_folds, AugmentedCache,
};
use crate::scalar::Scalar;
use crate::solve::{gives_solutions, solve_through, solved_by, solved_through, solves_at, yields};
use crate::sparse::CscMatrix;
use crate::vector::copied;
use vstd::prelude::*;

verus! {

/// What the systems of one run have in common.
pub struct Setting<'a, T> {
    pub prob: &'a QpProblem<T>,
    /// The bound rows: row, column and coefficient.
    pub units: &'a [(usize, usize, T)],
    /// The other inequality rows.
    pub general: &'a [usize],
    /// The Hessian hardly weighs on the unknowns.
    pub weak: bool,
    /// The baseline of the primal regularization.
    pub rho0: T,
    /// The tolerance of the run.
    pub eps: T,
    /// How products with the inequality rows are computed.
    pub ain: Form,
    pub in_csr: Option<&'a CscMatrix<T>>,
}

impl<'a, T: Scalar> Setting<'a, T> {
    /// The parts fit the problem.
    pub open spec fn wf(self) -> bool {
        &&& self.prob.wf()
        &&& rows_fit(*self.prob, self.units@, self.general@)
        &&& form_fits(self.ain, opt_deref(self.in_csr), self.prob.a_in)
    }
}

/// What an iteration hands to its system.
pub struct Moment<'a, T> {
    pub it: &'a Iterate<T>,
    pub m: &'a Measures<T>,
    pub rho: T,
    pub delta: T,
    /// The most centrality correctors.
    pub correctors: usize,
    /// The number of consecutive short steps before this iteration.
    pub short: usize,
}

impl<'a, T: Scalar> Moment<'a, T> {
    /// The iterate and its measures have the problem's dimensions.
    pub open spec fn fits(self, prob: QpProblem<T>) -> bool {
        &&& self.it.s@.len() == prob.mi()
        &&& self.it.z@.len() == prob.mi()
        &&& self.m.r_d@.len() == prob.n()
        &&& self.m.r_b@.len() == prob.me()
        &&& self.m.r_h@.len() == prob.mi()
        &&& self.short < usize::MAX
    }

    /// `p` is the point of this moment.
    pub open spec fn is_at(self, p: Point<T>) -> bool {
        &&& p.s@ == self.it.s@
        &&& p.z@ == self.it.z@
        &&& p.zs@ == quotients(self.it.z@, self.it.s@)
        &&& p.r_d@ == self.m.r_d@
        &&& p.r_b@ == self.m.r_b@
        &&& p.r_h@ == self.m.r_h@
    }

    /// `r` is the direction of this moment from the system `solves`.
    pub open spec fn directed(
        self,
        solves: spec_fn(Seq<T>, bool, DirectionView<T>) -> bool,
        r: Option<(Direction<T>, usize)>,
    ) -> bool {
        r matches Some(d) && qp_direction(
            self.it.s@,
            self.it.z@,
            self.m.mu,
            self.correctors,
            self.short,
            solves,
            d.0@,
            d.1 as int,
        )
    }

    pub(crate) fn point(&self) -> (p: Point<T>)
        requires
            self.it.s@.len() == self.it.z@.len(),
        ensures
            self.is_at(p),
    {
        Point {
            s: copied(&self.it.s),
            z: copied(&self.it.z),
            zs: quotients_of(&self.it.z, &self.it.s),
            r_d: copied(&self.m.r_d),
            r_b: copied(&self.m.r_b),
            r_h: copied(&self.m.r_h),
        }
    }
}

/// The result fits the problem, and at most one more step is counted as short.
pub open spec fn result_fits<T: Scalar>(
    prob: QpProblem<T>,
    short: usize,
    r: Option<(Direction<T>, usize)>,
) -> bool {
    r matches Some(d) ==> d.0@.sized(prob.n(), prob.me(), prob.mi()) && d.1 <= short + 1
}

pub(crate) proof fn lemma_solved_by<T, F: Fn(&[T]) -> Vec<T>>(f: F, dim: nat)
    requires
        solves_at(f, dim),
    ensures
        gives_solutions(f, solved_by(f), dim),
{
    assert forall|a: &[T], v: Vec<T>| a@.len() == dim && #[trigger] f.ensures((a,), v) implies yields(
        solved_by(f),
        a@,
        v@,
    ) by {}
}

/// The definite system at the point `p`, whose matrix is solved by `solves`.
pub open spec fn definite_system<T: Scalar>(
    prob: QpProblem<T>,
    p: Point<T>,
    solves: spec_fn(Seq<T>, Seq<T>) -> bool,
) -> spec_fn(Seq<T>, bool, DirectionView<T>) -> bool {
    |rhs: Seq<T>, corrector: bool, out: DirectionView<T>|
        definite(prob, p, rhs, corrector, solves, out)
}

/// `h` is the matrix of the definite system.
pub open spec fn is_definite_matrix<T: Scalar>(c: Setting<T>, t: Moment<T>, h: DenseMatrix<T>) -> bool {
    let lift = lift_for(t.m.mu, c.weak, peak(shifted_diagonal(*c.prob, t.rho), c.prob.n()));
    &&& h.sized(c.prob.n(), c.prob.n())
    &&& forall|i: int, j: int|
        0 <= i < c.prob.n() && 0 <= j < c.prob.n() ==> #[trigger] h.at(i, j) == weighted(
            *c.prob,
            c.units@,
            c.general@,
            quotients(t.it.z@, t.it.s@),
            t.rho,
            lift,
            i,
            j,
        )
}

/// `r` is what the definite system gives, with the factorizations `factor` and `pivot`.
pub open spec fn definite_step<
    T: Scalar,
    F: Fn(&[T]) -> Vec<T>,
    K: Fn(&DenseMatrix<T>, Method<T>) -> Option<F>,
    P: Fn(&DenseMatrix<T>) -> F,
>(
    c: Setting<T>,
    t: Moment<T>,
    factor: K,
    pivot: P,
    r: Option<(Direction<T>, usize)>,
) -> bool {
    exists|h: DenseMatrix<T>, o: Option<(F, DenseMatrix<T>, T)>|
        {
            &&& is_definite_matrix(c, t, h)
            &&& #[trigger] factors_definite(factor, pivot, h, t.rho, c.rho0, ATTEMPTS as nat, o)
            &&& match o {
                Some((f, _, _)) => exists|p: Point<T>| #[trigger]
                    t.is_at(p) && t.directed(definite_system(*c.prob, p, solved_by(f)), r),
                None => r is None,
            }
        }
}

/// The direction of the definite system, for a problem without equality rows: the weighted Hessian
/// is factored, a small one under growing regularization. None where no factorization succeeds.
pub fn definite_newton<
    T: Scalar,
    F: Fn(&[T]) -> Vec<T>,
    K: Fn(&DenseMatrix<T>, Method<T>) -> Option<F>,
    P: Fn(&DenseMatrix<T>) -> F,
>(
    c: &Setting<T>,
    t: &Moment<T>,
    factor: &K,
    pivot: &P,
) -> (r: Option<(Direction<T>, usize)>)
    requires
        c.wf(),
        t.fits(*c.prob),
        factors_at(*factor, c.prob.n()),
        always_factors_at(*pivot, c.prob.n()),
    ensures
        definite_step(*c, *t, *factor, *pivot, r),
        result_fits(*c.prob, t.short, r),
        c.prob.n() >= 48 ==> r is Some,
{
    let prob = c.prob;
    let ghost (n, me, mi) = (prob.n(), prob.me(), prob.mi());
    let p = t.point();
    let h = build_definite(prob, c.units, c.general, &p.zs, t.rho, t.m.mu, c.weak);
    let ghost h0 = h;
    let o = factor_definite(h, t.rho, c.rho0, factor, pivot);
    match o {
        None => None,
        Some((f, _, _)) => {
            let inner = Ghost(solved_by(f));
            let system = Ghost(definite_system(*prob, p, inner@));
            proof {
                lemma_solved_by(f, n);
            }
            let solve = |a: &[T], corrector: bool| -> (d: Direction<T>)
                requires
                    a@.len() == mi,
                ensures
                    gives(system@, a@, corrector, d@),
                    d@.sized(n, me, mi),
            { definite_direction(prob, &p, a, corrector, &f, inner) };
            let d = qp_newton(
                &p.s,
                &p.z,
                t.m.mu,
                t.correctors,
                t.short,
                solve,
                system,
                Ghost(n),
                Ghost(me),
            );
            Some(d)
        },
    }
}

/// The closed form with one general row at the point `p`.
pub open spec fn rank_one_system<T: Scalar>(
    c: Setting<T>,
    p: Point<T>,
    rho: T,
    mu: T,
) -> spec_fn(Seq<T>, bool, DirectionView<T>) -> bool {
    |rhs: Seq<T>, corrector: bool, out: DirectionView<T>|
        rank_one(*c.prob, p, c.units@, c.general@[0] as int, rho, mu, rhs, corrector, out)
}

/// The direction of a problem with one general row and no equality rows, in closed form.
pub fn rank_one_newton<T: Scalar>(c: &Setting<T>, t: &Moment<T>) -> (r: (Direction<T>, usize))
    requires
        c.wf(),
        t.fits(*c.prob),
        c.general@.len() == 1,
        c.prob.me() == 0,
    ensures
        exists|p: Point<T>| #[trigger]
            t.is_at(p) && t.directed(rank_one_system(*c, p, t.rho, t.m.mu), Some(r)),
        result_fits(*c.prob, t.short, Some(r)),
{
    let prob = c.prob;
    let ghost (n, me, mi) = (prob.n(), prob.me(), prob.mi());
    let p = t.point();
    let gr: usize = c.general[0];
    let (rho, mu) = (t.rho, t.m.mu);
    let units = c.units;
    let system = Ghost(rank_one_system(*c, p, rho, mu));
    assert(rows_fit(*prob, units@, Seq::empty()));
    let solve = |a: &[T], corrector: bool| -> (d: Direction<T>)
        requires
            a@.len() == mi,
        ensures
            gives(system@, a@, corrector, d@),
            d@.sized(n, me, mi),
    { rank_one_direction(prob, &p, units, gr, rho, mu, a, corrector) };
    qp_newton(&p.s, &p.z, mu, t.correctors, t.short, solve, system, Ghost(n), Ghost(me))
}

/// The augmented system at the point `p`, with the inequality rows `rows` in it, the bound rows
/// `units` folded out of it, and its matrix solved by `solves`.
pub open spec fn augmented_system<T: Scalar>(
    prob: QpProblem<T>,
    p: Point<T>,
    units: Seq<(usize, usize, T)>,
    rows: Seq<usize>,
    delta: T,
    solves: spec_fn(Seq<T>, Seq<T>) -> bool,
) -> spec_fn(Seq<T>, bool, DirectionView<T>) -> bool {
    |rhs: Seq<T>, corrector: bool, out: DirectionView<T>|
        augmented(prob, p, units, rows, delta, rhs, corrector, solves, out)
}

/// All inequality rows, in order.
pub open spec fn every_row(mi: nat) -> Seq<usize> {
    Seq::new(mi, |r: int| r as usize)
}

fn every_row_of(mi: usize) -> (r: Vec<usize>)
    ensures
        r@ == every_row(mi as nat),
{
    let mut r: Vec<usize> = Vec::with_capacity(mi);
    let mut i: usize = 0;
    while i < mi
        invariant
            i <= mi,
            r@ =~= every_row(mi as nat).subrange(0, i as int),
        decreases mi - i,
    {
        r.push(i);
        i += 1;
    }
    assert(r@ =~= every_row(mi as nat));
    r
}

/// `m` is the dense matrix of the augmented system.
pub open spec fn is_augmented_matrix<T: Scalar>(c: Setting<T>, t: Moment<T>, m: DenseMatrix<T>) -> bool {
    let dim = c.prob.n() + c.prob.me() + c.prob.mi();
    &&& m.sized(dim, dim)
    &&& m.entries_are(
        dense_entry(
            *c.prob,
            t.rho,
            barrier_lift(t.m.mu, c.weak),
            t.delta,
            quotients(t.it.s@, t.it.z@),
        ),
    )
}

/// `r` is what the dense augmented system gives: it is factored without pivoting, and with pivoting
/// where that fails.
pub open spec fn augmented_step<
    T: Scalar,
    F: Fn(&[T]) -> Vec<T>,
    K: Fn(&DenseMatrix<T>, Method<T>) -> Option<F>,
    P: Fn(&DenseMatrix<T>) -> F,
>(
    c: Setting<T>,
    t: Moment<T>,
    factor: K,
    pivot: P,
    r: (Direction<T>, usize),
) -> bool {
    exists|m: DenseMatrix<T>, f: F, p: Point<T>|
        {
            &&& is_augmented_matrix(c, t, m)
            &&& #[trigger] secured(factor, pivot, seq![Method::Unpivoted], m, f)
            &&& #[trigger] t.is_at(p)
            &&& t.directed(
                augmented_system(
                    *c.prob,
                    p,
                    Seq::empty(),
                    every_row(c.prob.mi()),
                    t.delta,
                    solved_by(f),
                ),
                Some(r),
            )
        }
}

/// The direction of the dense augmented system, with every inequality row in it.
pub fn augmented_newton<
    T: Scalar,
    F: Fn(&[T]) -> Vec<T>,
    K: Fn(&DenseMatrix<T>, Method<T>) -> Option<F>,
    P: Fn(&DenseMatrix<T>) -> F,
>(
    c: &Setting<T>,
    t: &Moment<T>,
    factor: &K,
    pivot: &P,
) -> (r: (Direction<T>, usize))
    requires
        c.wf(),
        t.fits(*c.prob),
        (c.prob.n() + c.prob.me() + c.prob.mi()) * (c.prob.n() + c.prob.me() + c.prob.mi()) <= usize::MAX,
        factors_at(*factor, c.prob.n() + c.prob.me() + c.prob.mi()),
        always_factors_at(*pivot, c.prob.n() + c.prob.me() + c.prob.mi()),
    ensures
        augmented_step(*c, *t, *factor, *pivot, r),
        result_fits(*c.prob, t.short, Some(r)),
{
    let prob = c.prob;
    let ghost (n, me, mi) = (prob.n(), prob.me(), prob.mi());
    let p = t.point();
    let dz = quotients_of(&t.it.s, &t.it.z);
    let lift = barrier_lift_of(t.m.mu, c.weak);
    let m = assemble_augmented_dense(prob, t.rho, lift, t.delta, &dz);
    let order: Vec<Method<T>> = vec![Method::Unpivoted];
    assert(order@ =~= seq![Method::Unpivoted]);
    let f = factor_surely(factor, pivot, &order, &m);
    let rows = every_row_of(prob.b_in.len());
    let units: Vec<(usize, usize, T)> = Vec::new();
    let delta = t.delta;
    let inner = Ghost(solved_by(f));
    let system = Ghost(augmented_system(*prob, p, units@, rows@, delta, inner@));
    proof {
        lemma_solved_by(f, n + me + mi);
        assert(units@ =~= Seq::empty());
    }
    let solve = |a: &[T], corrector: bool| -> (d: Direction<T>)
        requires
            a@.len() == mi,
        ensures
            gives(system@, a@, corrector, d@),
            d@.sized(n, me, mi),
    { augmented_direction(prob, &p, &units, &rows, delta, a, corrector, &f, inner) };
    qp_newton(&p.s, &p.z, t.m.mu, t.correctors, t.short, solve, system, Ghost(n), Ghost(me))
}

/// `k` has the pattern of `s`.
pub open spec fn same_pattern<T>(s: CscMatrix<T>, k: CscMatrix<T>) -> bool {
    &&& k.m == s.m
    &&& k.n == s.n
    &&& k.colptr@ == s.colptr@
    &&& k.rowval@ == s.rowval@
    &&& k.nzval@.len() == s.nzval@.len()
}

/// The matrix with the pattern of `s` and the values `nz`.
pub(crate) fn with_values<T: Scalar>(s: &CscMatrix<T>, nz: Vec<T>) -> (k: CscMatrix<T>)
    requires
        nz@.len() == s.nzval@.len(),
    ensures
        same_pattern(*s, k),
        k.nzval@ == nz@,
{
    CscMatrix { m: s.m, n: s.n, colptr: copied(&s.colptr), rowval: copied(&s.rowval), nzval: nz }
}

/// `factor` takes matrices with the pattern of `s` and the tolerance of the pivots, and what it gives
/// solves systems of their dimension.
pub open spec fn factors_pattern<T: Scalar, F: Fn(&[T]) -> Vec<T>, K: Fn(&CscMatrix<T>, T) -> Option<F>>(
    factor: K,
    s: CscMatrix<T>,
) -> bool {
    &&& forall|k: &CscMatrix<T>| same_pattern(s, *k) ==> #[trigger] factor.requires((k, pivot_tolerance()))
    &&& forall|k: &CscMatrix<T>, f: F|
        same_pattern(s, *k) && #[trigger] factor.ensures((k, pivot_tolerance()), Some(f)) ==> solves_at(f, s.n as nat)
}

/// A sparse system in the order of a permutation.
pub struct Ordered<'a, T> {
    pub pattern: &'a CscMatrix<T>,
    pub perm: &'a [usize],
}

impl<'a, T: Scalar> Ordered<'a, T> {
    /// The permutation orders a system of dimension `dim`.
    pub open spec fn fits(self, dim: nat) -> bool {
        &&& self.pattern.n == dim
        &&& self.perm@.len() == dim
        &&& permutation(self.perm@)
    }
}

/// The inequality rows of the sparse augmented system: the general rows where bounds are folded,
/// else all.
pub open spec fn held_rows<T: Scalar>(c: Setting<T>, folding: bool) -> Seq<usize> {
    if folding {
        c.general@
    } else {
        every_row(c.prob.mi())
    }
}

/// The bound rows that are folded out of the sparse augmented system.
pub open spec fn folded_units<T: Scalar>(c: Setting<T>, folding: bool) -> Seq<(usize, usize, T)> {
    if folding {
        c.units@
    } else {
        Seq::empty()
    }
}

/// `nz` are the values of the sparse augmented system.
pub open spec fn augmented_values<T: Scalar>(
    c: Setting<T>,
    t: Moment<T>,
    cache: AugmentedCache<T>,
    folding: bool,
    nz: Seq<T>,
) -> bool {
    let dz = quotients(t.it.s@, t.it.z@);
    cache.refilled(
        t.rho.plus(barrier_lift(t.m.mu, c.weak)),
        if folding {
            unit_folds(c.units@, dz, t.delta, c.prob.n())
        } else {
            Seq::empty()
        },
        gathered(held_rows(c, folding), dz),
        nz,
    )
}

/// `r` is what the sparse augmented system gives, with the factorization `factor`.
pub open spec fn sparse_augmented_step<T: Scalar, F: Fn(&[T]) -> Vec<T>, K: Fn(&CscMatrix<T>, T) -> Option<F>>(
    c: Setting<T>,
    t: Moment<T>,
    cache: AugmentedCache<T>,
    sys: Ordered<T>,
    folding: bool,
    factor: K,
    r: Option<(Direction<T>, usize)>,
) -> bool {
    exists|k: &CscMatrix<T>, o: Option<F>|
        {
            &&& same_pattern(*sys.pattern, *k)
            &&& augmented_values(c, t, cache, folding, k.nzval@)
            &&& #[trigger] factor.ensures((k, pivot_tolerance()), o)
            &&& match o {
                Some(f) => exists|p: Point<T>| #[trigger]
                    t.is_at(p) && t.directed(
                        augmented_system(
                            *c.prob,
                            p,
                            folded_units(c, folding),
                            held_rows(c, folding),
                            t.delta,
                            solved_through(solved_by(f), sys.perm@),
                        ),
                        r,
                    ),
                None => r is None,
            }
        }
}

/// The direction of the sparse augmented system, whose fixed pattern gets the values of this
/// iteration. With `folding`, the bound rows are folded into the diagonal of the unknowns. None where
/// the factorization fails.
pub fn sparse_augmented_newton<T: Scalar, F: Fn(&[T]) -> Vec<T>, K: Fn(&CscMatrix<T>, T) -> Option<F>>(
    c: &Setting<T>,
    t: &Moment<T>,
    cache: &AugmentedCache<T>,
    sys: &Ordered<T>,
    folding: bool,
    factor: &K,
) -> (r: Option<(Direction<T>, usize)>)
    requires
        c.wf(),
        t.fits(*c.prob),
        c.general@.len() <= c.prob.mi(),
        cache.wf(),
        cache.x_dpos@.len() == c.prob.n(),
        cache.z_dpos@.len() == held_rows(*c, folding).len(),
        cache.fixed@.len() == sys.pattern.nzval@.len(),
        sys.fits(c.prob.n() + c.prob.me() + held_rows(*c, folding).len()),
        factors_pattern(*factor, *sys.pattern),
    ensures
        sparse_augmented_step(*c, *t, *cache, *sys, folding, *factor, r),
        result_fits(*c.prob, t.short, r),
{
    let prob = c.prob;
    let ghost (n, me, mi) = (prob.n(), prob.me(), prob.mi());
    let p = t.point();
    let dz = quotients_of(&t.it.s, &t.it.z);
    let lift = t.rho.plus(barrier_lift_of(t.m.mu, c.weak));
    let rows: Vec<usize>;
    let units: Vec<(usize, usize, T)>;
    let fold: Vec<T>;
    if folding {
        rows = copied(c.general);
        units = copied(c.units);
        fold = fold_units(c.units, &dz, t.delta, prob.q.len());
    } else {
        rows = every_row_of(prob.b_in.len());
        units = Vec::new();
        fold = Vec::new();
        assert(fold@ =~= Seq::empty());
        assert(units@ =~= Seq::empty());
    }
    let held = gather(&rows, &dz);
    let nz = cache.refill(lift, &fold, &held);
    let k = with_values(sys.pattern, nz);
    let kr: &CscMatrix<T> = &k;
    let o = factor(kr, tolerance_of_pivots());
    assert(factor.ensures((kr, pivot_tolerance()), o));
    match o {
        None => None,
        Some(f) => {
            let delta = t.delta;
            let perm = sys.perm;
            let inner = Ghost(solved_through(solved_by(f), perm@));
            let system = Ghost(augmented_system(*prob, p, units@, rows@, delta, inner@));
            let ghost dim = perm@.len();
            let through = |a: &[T]| -> (v: Vec<T>)
                requires
                    a@.len() == dim,
                ensures
                    v@.len() == dim,
                    yields(inner@, a@, v@),
            { solve_through(&f, perm, a) };
            let solve = |a: &[T], corrector: bool| -> (d: Direction<T>)
                requires
                    a@.len() == mi,
                ensures
                    gives(system@, a@, corrector, d@),
                    d@.sized(n, me, mi),
            { augmented_direction(prob, &p, &units, &rows, delta, a, corrector, &through, inner) };
            let d = qp_newton(
                &p.s,
                &p.z,
                t.m.mu,
                t.correctors,
                t.short,
                solve,
                system,
                Ghost(n),
                Ghost(me),
            );
            Some(d)
        },
    }
}

/// The inverse weights of the bound rows: `s / (z + delta s)`.
pub open spec fn inverse_weights<T: Scalar>(s: Seq<T>, z: Seq<T>, delta: T) -> Seq<T> {
    Seq::new(s.len(), |r: int| s[r].over(z[r].plus(delta.times(s[r]))))
}

fn inverse_weights_of<T: Scalar>(s: &[T], z: &[T], delta: T) -> (r: Vec<T>)
    requires
        s@.len() == z@.len(),
    ensures
        r@ == inverse_weights(s@, z@, delta),
{
    let mut r: Vec<T> = Vec::with_capacity(s.len());
    let mut i: usize = 0;
    while i < s.len()
        invariant
            s@.len() == z@.len(),
            i <= s@.len(),
            r@ =~= inverse_weights(s@, z@, delta).subrange(0, i as int),
        decreases s@.len() - i,
    {
        r.push(s[i].over(z[i].plus(delta.times(s[i]))));
        i += 1;
    }
    assert(r@ =~= inverse_weights(s@, z@, delta));
    r
}

/// The sparse condensed system at the point `p`, whose matrix is solved by `solves`.
pub open spec fn condensed_system<T: Scalar>(
    c: Setting<T>,
    p: Point<T>,
    delta: T,
    solves: spec_fn(Seq<T>, Seq<T>) -> bool,
) -> spec_fn(Seq<T>, bool, DirectionView<T>) -> bool {
    |rhs: Seq<T>, corrector: bool, out: DirectionView<T>|
        sparse_condensed(*c.prob, p, c.units@, delta, rhs, corrector, solves, out)
}

/// `r` is what the sparse condensed system gives, with the factorization `factor`.
pub open spec fn condensed_step<T: Scalar, F: Fn(&[T]) -> Vec<T>, K: Fn(&CscMatrix<T>, T) -> Option<F>>(
    c: Setting<T>,
    t: Moment<T>,
    dpos: Seq<usize>,
    sys: Ordered<T>,
    factor: K,
    r: Option<(Direction<T>, usize)>,
) -> bool {
    exists|k: &CscMatrix<T>, o: Option<F>|
        {
            &&& same_pattern(*sys.pattern, *k)
            &&& condensed_refilled(
                *c.prob,
                dpos,
                c.units@,
                inverse_weights(t.it.s@, t.it.z@, t.delta),
                t.rho,
                t.m.mu,
                t.delta,
                sys.pattern.nzval@,
                k.nzval@,
            )
            &&& #[trigger] factor.ensures((k, pivot_tolerance()), o)
            &&& match o {
                Some(f) => exists|p: Point<T>| #[trigger]
                    t.is_at(p) && t.directed(
                        condensed_system(c, p, t.delta, solved_through(solved_by(f), sys.perm@)),
                        r,
                    ),
                None => r is None,
            }
        }
}

/// The direction of the sparse condensed system of a problem whose rows are bounds. `dpos` are the
/// positions of the diagonal in the permuted pattern. None where the factorization fails.
pub fn condensed_newton<T: Scalar, F: Fn(&[T]) -> Vec<T>, K: Fn(&CscMatrix<T>, T) -> Option<F>>(
    c: &Setting<T>,
    t: &Moment<T>,
    dpos: &[usize],
    sys: &Ordered<T>,
    factor: &K,
) -> (r: Option<(Direction<T>, usize)>)
    requires
        c.wf(),
        t.fits(*c.prob),
        dpos@.len() == c.prob.n() + c.prob.me(),
        forall|i: int| 0 <= i < dpos@.len() ==> (#[trigger] dpos@[i]) < sys.pattern.nzval@.len(),
        forall|i: int, j: int| 0 <= i < j < dpos@.len() ==> #[trigger] dpos@[i] != #[trigger] dpos@[j],
        sys.fits(c.prob.n() + c.prob.me()),
        factors_pattern(*factor, *sys.pattern),
    ensures
        condensed_step(*c, *t, dpos@, *sys, *factor, r),
        result_fits(*c.prob, t.short, r),
{
    let prob = c.prob;
    let ghost (n, me, mi) = (prob.n(), prob.me(), prob.mi());
    let p = t.point();
    let hinv = inverse_weights_of(&t.it.s, &t.it.z, t.delta);
    let mut nz = copied(&sys.pattern.nzval);
    assert(rows_fit(*prob, c.units@, Seq::empty()));
    refill_condensed(prob, dpos, c.units, &hinv, t.rho, t.m.mu, t.delta, &mut nz);
    let k = with_values(sys.pattern, nz);
    let kr: &CscMatrix<T> = &k;
    let o = factor(kr, tolerance_of_pivots());
    assert(factor.ensures((kr, pivot_tolerance()), o));
    match o {
        None => None,
        Some(f) => {
            let delta = t.delta;
            let perm = sys.perm;
            let units = c.units;
            let inner = Ghost(solved_through(solved_by(f), perm@));
            let system = Ghost(condensed_system(*c, p, delta, inner@));
            let ghost dim = perm@.len();
            let through = |a: &[T]| -> (v: Vec<T>)
                requires
                    a@.len() == dim,
                ensures
                    v@.len() == dim,
                    yields(inner@, a@, v@),
            { solve_through(&f, perm, a) };
            let solve = |a: &[T], corrector: bool| -> (d: Direction<T>)
                requires
                    a@.len() == mi,
                ensures
                    gives(system@, a@, corrector, d@),
                    d@.sized(n, me, mi),
            { sparse_direction(prob, &p, units, delta, a, corrector, &through, inner) };
            let d = qp_newton(
                &p.s,
                &p.z,
                t.m.mu,
                t.correctors,
                t.short,
                solve,
                system,
                Ghost(n),
                Ghost(me),
            );
            Some(d)
        },
    }
}

} // verus!
