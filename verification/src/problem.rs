use crate::matrix::{DenseMatrix, matvec_spec};
use crate::scalar::Scalar;
use crate::step_laws::{keeps_orthant, orthant_steps_keep_the_orthant};
use crate::sparse::CscMatrix;
use crate::vector::{constant, copied, dot, dot_spec, filled, inf_norm, inf_norm_spec};
use vstd::prelude::*;

verus! {

/// How a solve ended.
#[derive(Clone, Copy, Debug, PartialEq, Eq, Structural)]
pub enum Status {
    Solved,
    SolvedInaccurate,
    MaxIterations,
    PrimalInfeasible,
    DualInfeasible,
    NumericalError,
}

/// A previous near-solution, offered as the starting point of a solve.
pub struct WarmStart<T> {
    pub x: Vec<T>,
    pub s: Vec<T>,
    pub z: Vec<T>,
}

/// A convex quadratic program: minimize `x'Px/2 + q'x` subject to `A_eq x = b_eq` and
/// `A_in x + s = b_in` with `s` in a cone.
pub struct QpProblem<T> {
    /// Symmetric positive semidefinite Hessian, `n` by `n`.
    pub p: DenseMatrix<T>,
    /// Linear objective term, length `n`.
    pub q: Vec<T>,
    /// Equality matrix, `m_eq` by `n`.
    pub a_eq: DenseMatrix<T>,
    /// Equality right-hand side, length `m_eq`.
    pub b_eq: Vec<T>,
    /// Inequality matrix, `m_in` by `n`.
    pub a_in: DenseMatrix<T>,
    /// Inequality right-hand side, length `m_in`.
    pub b_in: Vec<T>,
    /// The rows of the equality matrix in sparse form, where they are known.
    pub a_eq_csr: Option<CscMatrix<T>>,
    /// The rows of the inequality matrix in sparse form, where they are known.
    pub a_in_csr: Option<CscMatrix<T>>,
}

/// A sparse row form has one column per matrix row, over `n` unknowns.
pub open spec fn row_form_fits<T: Scalar>(csr: Option<CscMatrix<T>>, rows: nat, n: nat) -> bool {
    csr matches Some(c) ==> c.wf() && c.n == rows && c.m == n
}

impl<T: Scalar> QpProblem<T> {
    /// The number of unknowns.
    pub open spec fn n(self) -> nat {
        self.q@.len()
    }

    /// The number of equality rows.
    pub open spec fn me(self) -> nat {
        self.b_eq@.len()
    }

    /// The number of inequality rows.
    pub open spec fn mi(self) -> nat {
        self.b_in@.len()
    }

    /// The matrices have the sizes that the vectors give, and the augmented system can be
    /// indexed.
    pub open spec fn wf(self) -> bool {
        &&& self.p.sized(self.n(), self.n())
        &&& self.a_eq.sized(self.me(), self.n())
        &&& self.a_in.sized(self.mi(), self.n())
        &&& row_form_fits(self.a_eq_csr, self.me(), self.n())
        &&& row_form_fits(self.a_in_csr, self.mi(), self.n())
        &&& self.n() + self.me() + self.mi() < usize::MAX
    }

    /// A problem without equality rows.
    pub fn inequality_only(p: DenseMatrix<T>, q: Vec<T>, a_in: DenseMatrix<T>, b_in: Vec<T>) -> (r:
        QpProblem<T>)
        ensures
            r.p == p,
            r.q == q,
            r.a_in == a_in,
            r.b_in == b_in,
            r.a_eq.sized(0, q@.len()),
            r.b_eq@.len() == 0,
            r.a_eq_csr is None,
            r.a_in_csr is None,
    {
        let n: usize = q.len();
        let a_eq = DenseMatrix::zeros(0, n);
        QpProblem { p, q, a_eq, b_eq: Vec::new(), a_in, b_in, a_eq_csr: None, a_in_csr: None }
    }
}

/// A primal-dual solution.
pub struct QpSolution<T> {
    /// Terminal status.
    pub status: Status,
    /// Primal solution.
    pub x: Vec<T>,
    /// Equality multipliers.
    pub y: Vec<T>,
    /// Inequality slacks.
    pub s: Vec<T>,
    /// Inequality multipliers.
    pub z: Vec<T>,
    /// Objective value.
    pub obj_val: T,
    /// Iterations performed.
    pub iters: usize,
    /// Homogenization variable, 1 where the solve is not homogeneous.
    pub tau: T,
    /// Complementarity scalar of the homogenization, 0 where the solve is not homogeneous.
    pub kappa: T,
}

/// The contents of a solution.
pub ghost struct SolutionView<T> {
    pub status: Status,
    pub x: Seq<T>,
    pub y: Seq<T>,
    pub s: Seq<T>,
    pub z: Seq<T>,
    pub obj_val: T,
    pub iters: usize,
    pub tau: T,
    pub kappa: T,
}

impl<T> View for QpSolution<T> {
    type V = SolutionView<T>;

    open spec fn view(&self) -> SolutionView<T> {
        SolutionView {
            status: self.status,
            x: self.x@,
            y: self.y@,
            s: self.s@,
            z: self.z@,
            obj_val: self.obj_val,
            iters: self.iters,
            tau: self.tau,
            kappa: self.kappa,
        }
    }
}

impl<T: Scalar> QpSolution<T> {
    /// What a solve that is not homogeneous decides of the solution; [`QpSolution::plain`] says the rest.
    pub open spec fn parts(self) -> (Status, Seq<T>, Seq<T>, Seq<T>, Seq<T>, T, usize) {
        (self.status, self.x@, self.y@, self.s@, self.z@, self.obj_val, self.iters)
    }

    /// The vectors have these lengths.
    pub open spec fn sized(self, n: nat, me: nat, mi: nat) -> bool {
        self.x@.len() == n && self.y@.len() == me && self.s@.len() == mi && self.z@.len() == mi
    }

    /// The homogenization scalars are those of a solve that is not homogeneous.
    pub open spec fn plain(self) -> bool {
        self.tau == T::one() && self.kappa == T::zero()
    }

    /// A solution that is not homogeneous, from its parts.
    pub fn new(
        status: Status,
        x: Vec<T>,
        y: Vec<T>,
        s: Vec<T>,
        z: Vec<T>,
        obj_val: T,
        iters: usize,
    ) -> (r: QpSolution<T>)
        ensures
            r.parts() == (status, x@, y@, s@, z@, obj_val, iters),
            r.plain(),
    {
        QpSolution { status, x, y, s, z, obj_val, iters, tau: T::one(), kappa: T::zero() }
    }

    /// The same solution with rebuilt multipliers and slacks.
    pub fn with_duals(&self, y: Vec<T>, s: Vec<T>, z: Vec<T>) -> (r: QpSolution<T>)
        ensures
            r.parts() == (self.status, self.x@, y@, s@, z@, self.obj_val, self.iters),
            r.plain(),
    {
        QpSolution::new(self.status, copied(&self.x), y, s, z, self.obj_val, self.iters)
    }

    /// An unchanged pass-through of this solution.
    pub fn cloned(&self) -> (r: QpSolution<T>)
        ensures
            r@ == self@,
    {
        QpSolution {
            status: self.status,
            x: copied(&self.x),
            y: copied(&self.y),
            s: copied(&self.s),
            z: copied(&self.z),
            obj_val: self.obj_val,
            iters: self.iters,
            tau: self.tau,
            kappa: self.kappa,
        }
    }
}

/// Factors that map the residuals of a solve into the units in which termination is judged.
pub struct TermScale<T> {
    /// One factor per entry of the stationarity residual.
    pub dual: Vec<T>,
    /// One factor per entry of the equality residual.
    pub prim_eq: Vec<T>,
    /// One factor per entry of the inequality residual.
    pub prim_in: Vec<T>,
    /// The factor of the complementarity measure.
    pub comp: T,
}

impl<T: Scalar> TermScale<T> {
    /// The factors fit a problem with these dimensions.
    pub open spec fn fits(self, n: nat, m_eq: nat, m_in: nat) -> bool {
        self.dual@.len() == n && self.prim_eq@.len() == m_eq && self.prim_in@.len() == m_in
    }

    /// Termination is judged in the units of the given problem.
    pub fn identity(n: usize, m_eq: usize, m_in: usize) -> (r: TermScale<T>)
        ensures
            r.dual@ == constant(T::one(), n as nat),
            r.prim_eq@ == constant(T::one(), m_eq as nat),
            r.prim_in@ == constant(T::one(), m_in as nat),
            r.comp == T::one(),
            r.fits(n as nat, m_eq as nat, m_in as nat),
    {
        TermScale {
            dual: filled(T::one(), n),
            prim_eq: filled(T::one(), m_eq),
            prim_in: filled(T::one(), m_in),
            comp: T::one(),
        }
    }
}

/// The largest scaled absolute value among the first `k` entries of a residual; a value that
/// does not compare as larger is passed over.
pub open spec fn term_norm_upto<T: Scalar>(r: Seq<T>, scale: Seq<T>, k: nat) -> T
    decreases k,
{
    if k == 0 {
        T::zero()
    } else {
        let front = term_norm_upto(r, scale, (k - 1) as nat);
        let v = r[k - 1].times(scale[k - 1]).abs();
        if front.below(v) {
            v
        } else {
            front
        }
    }
}

/// The largest scaled absolute value of a residual.
pub fn term_norm<T: Scalar>(r: &[T], scale: &[T]) -> (m: T)
    requires
        r@.len() <= scale@.len(),
    ensures
        m == term_norm_upto(r@, scale@, r@.len()),
{
    let mut m = T::zero();
    let mut i: usize = 0;
    while i < r.len()
        invariant
            i <= r@.len() <= scale@.len(),
            m == term_norm_upto(r@, scale@, i as nat),
        decreases r@.len() - i,
    {
        let v = r[i].times(scale[i]).abs();
        if m.below(v) {
            m = v;
        }
        i += 1;
    }
    m
}

/// The grade of an error against the tolerance.
pub open spec fn grade<T: Scalar>(err: T, eps: T) -> Status {
    if err.at_most(eps) {
        Status::Solved
    } else if err.at_most(eps.sqrt()) {
        Status::SolvedInaccurate
    } else {
        Status::MaxIterations
    }
}

/// Grades the error of the best iterate: within the tolerance it is solved, any other error
/// within the root of the tolerance makes an inaccurate solution, and a larger one leaves the
/// iteration limit as the reason.
pub fn grade_status<T: Scalar>(err: T, eps: T) -> (r: Status)
    ensures
        r == grade(err, eps),
{
    if err.at_most(eps) {
        Status::Solved
    } else if err.at_most(eps.sqrt()) {
        Status::SolvedInaccurate
    } else {
        Status::MaxIterations
    }
}

/// The verdict on a pair of iterates whose norms are compared with `big`.
pub open spec fn divergence<T: Scalar>(x: Seq<T>, z: Seq<T>, big: T) -> Option<Status> {
    let nx = inf_norm_spec(x);
    let nz = inf_norm_spec(z);
    if big.below(nx) || big.below(nz) {
        if nx.below(nz) {
            Some(Status::PrimalInfeasible)
        } else {
            Some(Status::DualInfeasible)
        }
    } else {
        None
    }
}

/// Divergence heuristic: where an iterate exceeds `big`, primal infeasibility is suspected if
/// the multipliers dominate, dual infeasibility otherwise.
pub fn check_diverge<T: Scalar>(x: &[T], z: &[T], big: T) -> (r: Option<Status>)
    ensures
        r == divergence(x@, z@, big),
{
    let nx = inf_norm(x);
    let nz = inf_norm(z);
    if big.below(nx) || big.below(nz) {
        if nx.below(nz) {
            Some(Status::PrimalInfeasible)
        } else {
            Some(Status::DualInfeasible)
        }
    } else {
        None
    }
}

/// Every entry is at most `tol`.
pub open spec fn all_at_most<T: Scalar>(v: Seq<T>, tol: T) -> bool {
    forall|i: int| 0 <= i < v.len() ==> (#[trigger] v[i]).at_most(tol)
}

/// The direction of `x`: its entries over its largest one, without those that are a millionth at most.
pub open spec fn ray_of<T: Scalar>(x: Seq<T>) -> Seq<T> {
    let norm = inf_norm_spec(x);
    Seq::new(
        x.len(),
        |i: int|
            if x[i].over(norm).abs().at_most(T::decimal(1, 6)) {
                T::zero()
            } else {
                x[i].over(norm)
            },
    )
}

/// The unknowns are large, and the objective descends without end along their direction `d`: `P d`
/// vanishes, `A_eq d` is a millionth at most, and `q'd` is negative.
pub open spec fn descending_ray<T: Scalar>(prob: QpProblem<T>, x: Seq<T>) -> bool {
    let d = ray_of(x);
    &&& !inf_norm_spec(x).at_most(T::decimal(1000000, 0))
    &&& inf_norm_spec(matvec_spec(prob.p, d)).at_most(T::zero())
    &&& inf_norm_spec(matvec_spec(prob.a_eq, d)).at_most(T::decimal(1, 6))
    &&& dot_spec(prob.q@, d).below(T::decimal(1, 6).neg())
}

/// The direction of `x` certifies that the problem is unbounded below: the objective descends along
/// it without end, and no inequality row increases.
pub open spec fn unbounded_ray<T: Scalar>(prob: QpProblem<T>, x: Seq<T>) -> bool {
    descending_ray(prob, x) && all_at_most(matvec_spec(prob.a_in, ray_of(x)), T::zero())
}

/// Whether every entry is at most `tol`.
pub fn is_all_at_most<T: Scalar>(v: &[T], tol: T) -> (r: bool)
    ensures
        r == all_at_most(v@, tol),
{
    let mut i: usize = 0;
    while i < v.len()
        invariant
            i <= v@.len(),
            forall|k: int| 0 <= k < i ==> (#[trigger] v@[k]).at_most(tol),
        decreases v@.len() - i,
    {
        if !v[i].at_most(tol) {
            return false;
        }
        i += 1;
    }
    true
}

/// The direction of `x`, without entries that are a millionth of the largest at most.
pub fn direction_of_ray<T: Scalar>(x: &[T]) -> (d: Vec<T>)
    ensures
        d@ == ray_of(x@),
{
    let norm = inf_norm(x);
    let mut d: Vec<T> = Vec::with_capacity(x.len());
    let mut i: usize = 0;
    while i < x.len()
        invariant
            i <= x@.len(),
            norm == inf_norm_spec(x@),
            d@ =~= ray_of(x@).subrange(0, i as int),
        decreases x@.len() - i,
    {
        let t = x[i].over(norm);
        if t.abs().at_most(T::decimal(1, 6)) {
            d.push(T::zero());
        } else {
            d.push(t);
        }
        i += 1;
    }
    assert(d@ =~= ray_of(x@));
    d
}

/// Whether the objective descends without end along the direction of `x`.
pub fn descends<T: Scalar>(prob: &QpProblem<T>, x: &[T], d: &[T]) -> (r: bool)
    requires
        prob.wf(),
        x@.len() == prob.n(),
        d@ == ray_of(x@),
    ensures
        r == descending_ray(*prob, x@),
{
    !inf_norm(x).at_most(T::decimal(1000000, 0)) && inf_norm(&prob.p.matvec(d)).at_most(T::zero()) && inf_norm(
        &prob.a_eq.matvec(d),
    ).at_most(T::decimal(1, 6)) && dot(&prob.q, d).below(T::decimal(1, 6).neg())
}

/// Recession-direction test for unboundedness at the iterate `x`.
pub fn is_unbounded<T: Scalar>(prob: &QpProblem<T>, x: &[T]) -> (r: bool)
    requires
        prob.wf(),
        x@.len() == prob.n(),
    ensures
        r == unbounded_ray(*prob, x@),
{
    if inf_norm(x).at_most(T::decimal(1000000, 0)) {
        return false;
    }
    let d = direction_of_ray(x);
    descends(prob, x, &d) && is_all_at_most(&prob.a_in.matvec(&d), T::zero())
}

/// The product of row `r` of the inequality matrix with `x`.
pub fn ain_row_dot<T: Scalar>(prob: &QpProblem<T>, r: usize, x: &[T]) -> (d: T)
    requires
        prob.wf(),
        r < prob.mi(),
        x@.len() == prob.n(),
    ensures
        d == dot_spec(prob.a_in.row(r as int), x@),
{
    prob.a_in.row_dot(r, x)
}

/// The ratio of the boundary test among the first `k` entries, infinite where none decreases.
pub open spec fn ratio_upto<T: Scalar>(v: Seq<T>, dv: Seq<T>, k: nat) -> T
    decreases k,
{
    if k == 0 {
        T::infinity()
    } else {
        let front = ratio_upto(v, dv, (k - 1) as nat);
        let ratio = v[k - 1].neg().over(dv[k - 1]);
        if dv[k - 1].below(T::zero()) && ratio.below(front) {
            ratio
        } else {
            front
        }
    }
}

/// The largest step that keeps `v + t dv` nonnegative, backed off by a fixed margin.
pub open spec fn orthant_step<T: Scalar>(v: Seq<T>, dv: Seq<T>) -> T {
    ratio_upto(v, dv, v.len()).minus(T::decimal(1, 13)).max(T::zero())
}

/// The smallest ratio of the boundary test.
pub fn boundary_ratio<T: Scalar>(v: &[T], dv: &[T]) -> (r: T)
    requires
        v@.len() <= dv@.len(),
    ensures
        r == ratio_upto(v@, dv@, v@.len()),
{
    let mut a = T::infinity();
    let mut i: usize = 0;
    while i < v.len()
        invariant
            i <= v@.len() <= dv@.len(),
            a == ratio_upto(v@, dv@, i as nat),
        decreases v@.len() - i,
    {
        if dv[i].below(T::zero()) {
            let ratio = v[i].neg().over(dv[i]);
            if ratio.below(a) {
                a = ratio;
            }
        }
        i += 1;
    }
    a
}

/// The largest step that keeps `v + t dv` nonnegative, backed off by a fixed margin so that
/// rounding does not carry it past the boundary.
pub fn max_step<T: Scalar>(v: &[T], dv: &[T]) -> (r: T)
    requires
        v@.len() <= dv@.len(),
    ensures
        r == orthant_step(v@, dv@),
        keeps_orthant(v@, dv@, r),
{
    proof {
        orthant_steps_keep_the_orthant(v@, dv@);
    }
    boundary_ratio(v, dv).minus(T::decimal(1, 13)).max(T::zero())
}

} // verus!
