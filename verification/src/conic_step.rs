//! One iteration of the conic engine: residuals, the verdict on the iterate, right-hand sides,
//! step lengths, centrality correctors and the update.
use crate::cone::{offsets_of, Cone};
use crate::conic_kkt::conic_problem;
use crate::conic_route::{update_regularization, next_level, Regularization};
use crate::fac::Solved;
use crate::kkt::opt_deref;
use crate::matrix::matvec_spec;
use crate::pc_step::{sums, sums_of};
use crate::problem::{
    check_diverge, descending_ray, descends, direction_of_ray, divergence, grade, grade_status, ray_of,
    QpProblem, Status,
};
use crate::products::{
    form_fits, hessian_product, hessian_times, times, times_spec, times_t, times_t_spec, Form,
};
use crate::scalar::Scalar;
use crate::sparse::CscMatrix;
use crate::vector::{
    all_finite, copied, divided, divided_by, dot, dot_spec, inf_norm, inf_norm_spec, is_all_finite, negated,
    negated_of,
};
use crate::warm::{in_cones, lies_in_cones};
use vstd::prelude::*;

verus! {

/// The iterate: unknowns, equality multipliers, slacks and inequality multipliers.
pub struct Iterate<T> {
    pub x: Vec<T>,
    pub y: Vec<T>,
    pub s: Vec<T>,
    pub z: Vec<T>,
}

/// The contents of an iterate.
pub ghost struct IterateView<T> {
    pub x: Seq<T>,
    pub y: Seq<T>,
    pub s: Seq<T>,
    pub z: Seq<T>,
}

impl<T> View for Iterate<T> {
    type V = IterateView<T>;

    open spec fn view(&self) -> IterateView<T> {
        IterateView { x: self.x@, y: self.y@, s: self.s@, z: self.z@ }
    }
}

impl<T: Scalar> Iterate<T> {
    /// The iterate has the problem's dimensions.
    pub open spec fn fits(self, prob: QpProblem<T>) -> bool {
        &&& self.x@.len() == prob.n()
        &&& self.y@.len() == prob.me()
        &&& self.s@.len() == prob.mi()
        &&& self.z@.len() == prob.mi()
    }

    /// A copy of the iterate.
    pub fn duplicate(&self) -> (r: Iterate<T>)
        ensures
            r@ == self@,
    {
        Iterate { x: copied(&self.x), y: copied(&self.y), s: copied(&self.s), z: copied(&self.z) }
    }
}

/// Every entry of the iterate is finite.
pub open spec fn finite_iterate<T: Scalar>(v: IterateView<T>) -> bool {
    all_finite(v.x) && all_finite(v.y) && all_finite(v.s) && all_finite(v.z)
}

/// How the problem's matrices are multiplied.
pub struct Access {
    pub p_diagonal: bool,
    pub eq: Form,
    pub ain: Form,
}

/// The access fits the problem.
pub open spec fn access_fits<T: Scalar>(
    prob: QpProblem<T>,
    acc: Access,
    eq_csr: Option<CscMatrix<T>>,
    in_csr: Option<CscMatrix<T>>,
) -> bool {
    prob.wf() && form_fits(acc.eq, eq_csr, prob.a_eq) && form_fits(acc.ain, in_csr, prob.a_in) && acc.eq
        != Form::Negated
}

/// The products of the matrices with an iterate.
pub struct Terms<T> {
    pub px: Vec<T>,
    pub aty: Vec<T>,
    pub atz: Vec<T>,
    pub aeqx: Vec<T>,
    pub ainx: Vec<T>,
}

/// The terms are the products of the matrices with the iterate.
pub open spec fn terms_of<T: Scalar>(
    prob: QpProblem<T>,
    acc: Access,
    eq_csr: Option<CscMatrix<T>>,
    in_csr: Option<CscMatrix<T>>,
    it: IterateView<T>,
    t: Terms<T>,
) -> bool {
    &&& t.px@ == hessian_times(prob.p, acc.p_diagonal, it.x)
    &&& t.aty@ == times_t_spec(acc.eq, eq_csr, prob.a_eq, it.y)
    &&& t.atz@ == times_t_spec(acc.ain, in_csr, prob.a_in, it.z)
    &&& t.aeqx@ == times_spec(acc.eq, eq_csr, prob.a_eq, it.x)
    &&& t.ainx@ == times_spec(acc.ain, in_csr, prob.a_in, it.x)
    &&& t.px@.len() == prob.n()
    &&& t.aty@.len() == prob.n()
    &&& t.atz@.len() == prob.n()
    &&& t.aeqx@.len() == prob.me()
    &&& t.ainx@.len() == prob.mi()
}

/// The products of the matrices with an iterate.
pub fn compute_terms<T: Scalar>(
    prob: &QpProblem<T>,
    acc: &Access,
    eq_csr: Option<&CscMatrix<T>>,
    in_csr: Option<&CscMatrix<T>>,
    it: &Iterate<T>,
) -> (t: Terms<T>)
    requires
        access_fits(*prob, *acc, opt_deref(eq_csr), opt_deref(in_csr)),
        it.fits(*prob),
    ensures
        terms_of(*prob, *acc, opt_deref(eq_csr), opt_deref(in_csr), it@, t),
{
    let px = hessian_product(&prob.p, acc.p_diagonal, &it.x);
    let aty = times_t(acc.eq, eq_csr, &prob.a_eq, &it.y);
    let atz = times_t(acc.ain, in_csr, &prob.a_in, &it.z);
    let aeqx = times(acc.eq, eq_csr, &prob.a_eq, &it.x);
    let ainx = times(acc.ain, in_csr, &prob.a_in, &it.x);
    Terms { px, aty, atz, aeqx, ainx }
}

/// `P x + q + A_eq' y + A_in' z`.
pub open spec fn dual_residual<T: Scalar>(prob: QpProblem<T>, t: Terms<T>) -> Seq<T> {
    Seq::new(
        prob.n(),
        |i: int| t.px@[i].plus(prob.q@[i]).plus(t.aty@[i]).plus(t.atz@[i]),
    )
}

/// `A_eq x - b_eq`.
pub open spec fn equality_residual<T: Scalar>(prob: QpProblem<T>, t: Terms<T>) -> Seq<T> {
    Seq::new(prob.me(), |i: int| t.aeqx@[i].minus(prob.b_eq@[i]))
}

/// `A_in x + s - b_in`.
pub open spec fn inequality_residual<T: Scalar>(prob: QpProblem<T>, t: Terms<T>, s: Seq<T>) -> Seq<T> {
    Seq::new(prob.mi(), |i: int| t.ainx@[i].plus(s[i]).minus(prob.b_in@[i]))
}

/// The least complementarity product among the first `k`, for `k` at least 1.
pub open spec fn least_product<T: Scalar>(s: Seq<T>, z: Seq<T>, k: nat) -> T
    decreases k,
{
    if k <= 1 {
        s[0].times(z[0])
    } else {
        let front = least_product(s, z, (k - 1) as nat);
        let v = s[k - 1].times(z[k - 1]);
        if v.below(front) {
            v
        } else {
            front
        }
    }
}

/// The residuals of an iterate and what is measured of them.
pub struct Residuals<T> {
    pub r_d: Vec<T>,
    pub r_b: Vec<T>,
    pub r_h: Vec<T>,
    /// The mean complementarity.
    pub mu: T,
    /// The least complementarity product, zero without slacks.
    pub min_sz: T,
    /// The largest residual relative to the size of its terms.
    pub rel: T,
    /// The norm of the equality residual.
    pub nb: T,
}

/// The largest residual relative to the size of its terms.
pub open spec fn relative_error<T: Scalar>(prob: QpProblem<T>, t: Terms<T>, s: Seq<T>) -> T {
    let one = T::one();
    let sd = inf_norm_spec(t.px@).max(inf_norm_spec(prob.q@)).max(inf_norm_spec(t.aty@)).max(
        inf_norm_spec(t.atz@),
    );
    let sb = inf_norm_spec(t.aeqx@).max(inf_norm_spec(prob.b_eq@));
    let sh = inf_norm_spec(t.ainx@).max(inf_norm_spec(s)).max(inf_norm_spec(prob.b_in@));
    inf_norm_spec(dual_residual(prob, t)).over(one.plus(sd)).max(
        inf_norm_spec(equality_residual(prob, t)).over(one.plus(sb)),
    ).max(inf_norm_spec(inequality_residual(prob, t, s)).over(one.plus(sh)))
}

/// The residuals are those of the iterate.
pub open spec fn residuals_of<T: Scalar>(
    prob: QpProblem<T>,
    t: Terms<T>,
    degree: T,
    it: IterateView<T>,
    r: Residuals<T>,
) -> bool {
    &&& r.r_d@ == dual_residual(prob, t)
    &&& r.r_b@ == equality_residual(prob, t)
    &&& r.r_h@ == inequality_residual(prob, t, it.s)
    &&& r.mu == dot_spec(it.s, it.z).over(degree)
    &&& r.min_sz == (if prob.mi() > 0 {
        least_product(it.s, it.z, prob.mi())
    } else {
        T::zero()
    })
    &&& r.rel == relative_error(prob, t, it.s)
    &&& r.nb == inf_norm_spec(equality_residual(prob, t))
}

/// The residuals of an iterate. `degree` is the barrier degree of the cones.
pub fn compute_residuals<T: Scalar>(prob: &QpProblem<T>, t: &Terms<T>, degree: T, it: &Iterate<T>) -> (r:
    Residuals<T>)
    requires
        prob.wf(),
        it.fits(*prob),
        t.px@.len() == prob.n(),
        t.aty@.len() == prob.n(),
        t.atz@.len() == prob.n(),
        t.aeqx@.len() == prob.me(),
        t.ainx@.len() == prob.mi(),
    ensures
        residuals_of(*prob, *t, degree, it@, r),
{
    let n: usize = prob.q.len();
    let me: usize = prob.b_eq.len();
    let mi: usize = prob.b_in.len();
    let one = T::one();
    let mut r_d: Vec<T> = Vec::with_capacity(n);
    let mut i: usize = 0;
    while i < n
        invariant
            n == prob.n(),
            t.px@.len() == n,
            t.aty@.len() == n,
            t.atz@.len() == n,
            i <= n,
            r_d@ =~= dual_residual(*prob, *t).subrange(0, i as int),
        decreases n - i,
    {
        r_d.push(t.px[i].plus(prob.q[i]).plus(t.aty[i]).plus(t.atz[i]));
        i += 1;
    }
    assert(r_d@ =~= dual_residual(*prob, *t));
    let mut r_b: Vec<T> = Vec::with_capacity(me);
    i = 0;
    while i < me
        invariant
            me == prob.me(),
            t.aeqx@.len() == me,
            i <= me,
            r_b@ =~= equality_residual(*prob, *t).subrange(0, i as int),
        decreases me - i,
    {
        r_b.push(t.aeqx[i].minus(prob.b_eq[i]));
        i += 1;
    }
    assert(r_b@ =~= equality_residual(*prob, *t));
    let mut r_h: Vec<T> = Vec::with_capacity(mi);
    i = 0;
    while i < mi
        invariant
            mi == prob.mi(),
            t.ainx@.len() == mi,
            it.s@.len() == mi,
            i <= mi,
            r_h@ =~= inequality_residual(*prob, *t, it.s@).subrange(0, i as int),
        decreases mi - i,
    {
        r_h.push(t.ainx[i].plus(it.s[i]).minus(prob.b_in[i]));
        i += 1;
    }
    assert(r_h@ =~= inequality_residual(*prob, *t, it.s@));
    let mu = dot(&it.s, &it.z).over(degree);
    let mut min_sz = T::zero();
    if mi > 0 {
        min_sz = it.s[0].times(it.z[0]);
        i = 1;
        while i < mi
            invariant
                mi == it.s@.len() == it.z@.len(),
                1 <= i <= mi,
                min_sz == least_product(it.s@, it.z@, i as nat),
            decreases mi - i,
        {
            let v = it.s[i].times(it.z[i]);
            if v.below(min_sz) {
                min_sz = v;
            }
            i += 1;
        }
    }
    let sd = inf_norm(&t.px).max(inf_norm(&prob.q)).max(inf_norm(&t.aty)).max(inf_norm(&t.atz));
    let sb = inf_norm(&t.aeqx).max(inf_norm(&prob.b_eq));
    let sh = inf_norm(&t.ainx).max(inf_norm(&it.s)).max(inf_norm(&prob.b_in));
    let nb = inf_norm(&r_b);
    let rel = inf_norm(&r_d).over(one.plus(sd)).max(nb.over(one.plus(sb))).max(
        inf_norm(&r_h).over(one.plus(sh)),
    );
    Residuals { r_d, r_b, r_h, mu, min_sz, rel, nb }
}

/// The state of the iteration beside the iterate: the best iterate so far with its error, the
/// number of consecutive iterations outside the cones, the regularization, the measures of the
/// last iteration and the number of consecutive short steps.
pub struct ConicState<T> {
    pub best: Iterate<T>,
    pub best_err: T,
    pub outside: usize,
    pub reg: Regularization<T>,
    pub prev_rel: T,
    pub prev_nb: T,
    pub prev_mu: T,
    pub short_steps: usize,
}

/// What is to be done with an iterate.
#[derive(Clone, Copy, Debug, PartialEq, Eq, Structural)]
pub enum Verdict {
    /// Another step.
    Continue,
    /// The iterate is the result, with this status.
    Accept(Status),
    /// The best iterate is the result, with this status.
    Restore(Status),
}

/// Complementarity is reached: the mean within the tolerance, and the least product either not
/// far below the mean or itself within the tolerance.
pub open spec fn complementary<T: Scalar>(mu: T, min_sz: T, eps: T) -> bool {
    let ratio = if T::zero().below(mu) {
        min_sz.over(mu)
    } else {
        T::one()
    };
    mu.at_most(eps) && (T::decimal(1, 3).at_most(ratio) || min_sz.at_most(eps))
}

/// The scale by which a diverging iterate is normalized.
pub open spec fn ray_scale<T: Scalar>(prob: QpProblem<T>, it: IterateView<T>) -> T {
    inf_norm_spec(it.x).max(
        if prob.me() > 0 {
            inf_norm_spec(it.y)
        } else {
            T::zero()
        },
    ).max(
        if prob.mi() > 0 {
            inf_norm_spec(it.z)
        } else {
            T::zero()
        },
    ).max(T::one())
}

/// The normalized multipliers pass the test for primal infeasibility: a negative product with the
/// right-hand sides, and a vanishing product with the constraint matrices. With inequality multipliers
/// in the cones, which are their own duals, no point can satisfy all constraints.
pub open spec fn primal_certificate<T: Scalar>(
    prob: QpProblem<T>,
    acc: Access,
    eq_csr: Option<CscMatrix<T>>,
    in_csr: Option<CscMatrix<T>>,
    it: IterateView<T>,
) -> bool {
    let ns = ray_scale(prob, it);
    let yh = divided(it.y, ns);
    let zh = divided(it.z, ns);
    &&& dot_spec(prob.b_eq@, yh).plus(dot_spec(prob.b_in@, zh)).below(T::decimal(1, 10).neg())
    &&& inf_norm_spec(
        sums(
            times_t_spec(acc.eq, eq_csr, prob.a_eq, yh),
            times_t_spec(acc.ain, in_csr, prob.a_in, zh),
        ),
    ).below(T::decimal(1, 6))
}

/// The normalized unknowns pass the test for dual infeasibility: they descend, and neither the
/// constraints nor the curvature change along them.
pub open spec fn dual_certificate<T: Scalar>(
    prob: QpProblem<T>,
    acc: Access,
    eq_csr: Option<CscMatrix<T>>,
    in_csr: Option<CscMatrix<T>>,
    it: IterateView<T>,
) -> bool {
    let xh = divided(it.x, ray_scale(prob, it));
    &&& dot_spec(prob.q@, xh).below(T::decimal(1, 10).neg())
    &&& inf_norm_spec(times_spec(acc.eq, eq_csr, prob.a_eq, xh)).max(
        inf_norm_spec(times_spec(acc.ain, in_csr, prob.a_in, xh)),
    ).below(T::decimal(1, 6))
    &&& inf_norm_spec(hessian_times(prob.p, acc.p_diagonal, xh)).below(T::decimal(1, 6))
}

/// The error of an iterate: the larger of its relative residual and its mean complementarity.
pub open spec fn error_of<T: Scalar>(r: Residuals<T>) -> T {
    r.rel.max(r.mu)
}

/// The least error after an iterate.
pub open spec fn best_error<T: Scalar>(best: T, r: Residuals<T>) -> T {
    if error_of(r).below(best) {
        error_of(r)
    } else {
        best
    }
}

/// Which vectors lie in the cones: the relation from a vector to the answer.
pub type Members<T> = spec_fn(Seq<T>, bool) -> bool;

/// The relation that the margins of the blocks decide.
pub open spec fn members_of<T: Scalar, M: Fn(Cone, &[T]) -> T>(margin: M, cones: Seq<Cone>) -> Members<T> {
    |v: Seq<T>, inside: bool| in_cones(margin, cones, v, inside)
}

/// `inside` is what `members` has for `v`.
pub open spec fn answered<T>(members: Members<T>, v: Seq<T>, inside: bool) -> bool {
    members(v, inside)
}

/// What the slacks do along the direction of `x`: `-A_in d`.
pub open spec fn slack_ray<T: Scalar>(prob: QpProblem<T>, x: Seq<T>) -> Seq<T> {
    negated(matvec_spec(prob.a_in, ray_of(x)))
}

/// The iterate has diverged far enough to be tested for infeasibility.
pub open spec fn diverged<T: Scalar>(prob: QpProblem<T>, it: IterateView<T>) -> bool {
    divergence(it.x, it.z, T::decimal(1000000000000, 0)) is Some && T::zero().below(ray_scale(prob, it))
}

/// The iterate is finite, not yet within the tolerances, and not the third in a row outside the cones.
pub open spec fn undecided<T: Scalar>(eps: T, it: IterateView<T>, r: Residuals<T>, outside: int) -> bool {
    &&& finite_iterate(it)
    &&& !(r.rel.at_most(eps) && complementary(r.mu, r.min_sz, eps))
    &&& !(r.mu.below(T::zero()) && outside + 1 >= 3)
}

/// The answers on an iterate that is still `open`: `ray_in` tells whether the slacks stay in the cones
/// along a ray of descent, and `z_in` whether the multipliers of a certificate of primal infeasibility
/// lie in them.
pub open spec fn membership<T: Scalar>(
    prob: QpProblem<T>,
    acc: Access,
    eq_csr: Option<CscMatrix<T>>,
    in_csr: Option<CscMatrix<T>>,
    members: Members<T>,
    it: IterateView<T>,
    open: bool,
    ray_in: bool,
    z_in: bool,
) -> bool {
    &&& ray_in ==> answered(members, slack_ray(prob, it.x), true)
    &&& open && descending_ray(prob, it.x) && !ray_in ==> answered(members, slack_ray(prob, it.x), false)
    &&& z_in ==> answered(members, it.z, true)
    &&& open && !(descending_ray(prob, it.x) && ray_in) && diverged(prob, it) && primal_certificate(
        prob,
        acc,
        eq_csr,
        in_csr,
        it,
    ) && !z_in ==> answered(members, it.z, false)
}

/// The verdict on an iterate: an iterate that is not finite is given up for the best one; one
/// within the tolerances is the result; three in a row outside the cones end the solve; a ray of
/// descent along which the slacks stay in the cones, or a certificate of infeasibility, names the
/// reason; otherwise the solve goes on. `ray_in` and `z_in` are the answers of [`membership`].
pub open spec fn verdict_of<T: Scalar>(
    prob: QpProblem<T>,
    acc: Access,
    eq_csr: Option<CscMatrix<T>>,
    in_csr: Option<CscMatrix<T>>,
    eps: T,
    it: IterateView<T>,
    r: Residuals<T>,
    best_err: T,
    outside: int,
    ray_in: bool,
    z_in: bool,
) -> Verdict {
    if !finite_iterate(it) {
        Verdict::Restore(grade(best_err, eps))
    } else if r.rel.at_most(eps) && complementary(r.mu, r.min_sz, eps) {
        Verdict::Accept(Status::Solved)
    } else if r.mu.below(T::zero()) && outside + 1 >= 3 {
        Verdict::Restore(grade(best_error(best_err, r), eps))
    } else if descending_ray(prob, it.x) && ray_in {
        Verdict::Accept(Status::DualInfeasible)
    } else if diverged(prob, it) && primal_certificate(prob, acc, eq_csr, in_csr, it) && z_in {
        Verdict::Restore(Status::PrimalInfeasible)
    } else if diverged(prob, it) && dual_certificate(prob, acc, eq_csr, in_csr, it) {
        Verdict::Restore(Status::DualInfeasible)
    } else {
        Verdict::Continue
    }
}

/// Whether the normalized multipliers pass the test for primal infeasibility.
fn certifies_primal<T: Scalar>(
    prob: &QpProblem<T>,
    acc: &Access,
    eq_csr: Option<&CscMatrix<T>>,
    in_csr: Option<&CscMatrix<T>>,
    it: &Iterate<T>,
    ns: T,
) -> (ok: bool)
    requires
        access_fits(*prob, *acc, opt_deref(eq_csr), opt_deref(in_csr)),
        it.fits(*prob),
        ns == ray_scale(*prob, it@),
    ensures
        ok == primal_certificate(*prob, *acc, opt_deref(eq_csr), opt_deref(in_csr), it@),
{
    let yh = divided_by(&it.y, ns);
    let zh = divided_by(&it.z, ns);
    let bty = dot(&prob.b_eq, &yh).plus(dot(&prob.b_in, &zh));
    let aty = times_t(acc.eq, eq_csr, &prob.a_eq, &yh);
    let atz = times_t(acc.ain, in_csr, &prob.a_in, &zh);
    let both = sums_of(&aty, &atz);
    bty.below(T::decimal(1, 10).neg()) && inf_norm(&both).below(T::decimal(1, 6))
}

/// Whether the normalized unknowns pass the test for dual infeasibility.
fn certifies_dual<T: Scalar>(
    prob: &QpProblem<T>,
    acc: &Access,
    eq_csr: Option<&CscMatrix<T>>,
    in_csr: Option<&CscMatrix<T>>,
    it: &Iterate<T>,
    ns: T,
) -> (ok: bool)
    requires
        access_fits(*prob, *acc, opt_deref(eq_csr), opt_deref(in_csr)),
        it.fits(*prob),
        ns == ray_scale(*prob, it@),
    ensures
        ok == dual_certificate(*prob, *acc, opt_deref(eq_csr), opt_deref(in_csr), it@),
{
    let xh = divided_by(&it.x, ns);
    let qtx = dot(&prob.q, &xh);
    let aeq = times(acc.eq, eq_csr, &prob.a_eq, &xh);
    let ain = times(acc.ain, in_csr, &prob.a_in, &xh);
    let axm = inf_norm(&aeq).max(inf_norm(&ain));
    let ph = hessian_product(&prob.p, acc.p_diagonal, &xh);
    qtx.below(T::decimal(1, 10).neg()) && axm.below(T::decimal(1, 6)) && inf_norm(&ph).below(
        T::decimal(1, 6),
    )
}

/// `v` is a verdict on the iterate, for some answers to the questions of [`membership`].
pub open spec fn judged<T: Scalar>(
    prob: QpProblem<T>,
    acc: Access,
    eq_csr: Option<CscMatrix<T>>,
    in_csr: Option<CscMatrix<T>>,
    members: Members<T>,
    eps: T,
    it: IterateView<T>,
    r: Residuals<T>,
    best_err: T,
    outside: int,
    v: Verdict,
) -> bool {
    exists|ray_in: bool, z_in: bool|
        v == verdict_of(prob, acc, eq_csr, in_csr, eps, it, r, best_err, outside, ray_in, z_in)
            && #[trigger] membership(
            prob,
            acc,
            eq_csr,
            in_csr,
            members,
            it,
            undecided(eps, it, r, outside),
            ray_in,
            z_in,
        )
}

/// Whether the objective descends without end along the direction of `x` while the slacks stay in the
/// cones.
fn certifies_ray<T: Scalar, M: Fn(Cone, &[T]) -> T>(
    prob: &QpProblem<T>,
    cones: &[Cone],
    offsets: &[usize],
    margin: &M,
    x: &[T],
) -> (ok: bool)
    requires
        conic_problem(*prob, cones@),
        x@.len() == prob.n(),
        offsets_of(cones@, offsets@),
        forall|c: Cone, b: &[T]| #[trigger] margin.requires((c, b)),
    ensures
        ok ==> descending_ray(*prob, x@) && answered(members_of(*margin, cones@), slack_ray(*prob, x@), true),
        !ok && descending_ray(*prob, x@) ==> answered(
            members_of(*margin, cones@),
            slack_ray(*prob, x@),
            false,
        ),
{
    if inf_norm(x).at_most(T::decimal(1000000, 0)) {
        return false;
    }
    let d = direction_of_ray(x);
    if !descends(prob, x, &d) {
        return false;
    }
    let ds = negated_of(&prob.a_in.matvec(&d));
    lies_in_cones(margin, cones, offsets, &ds)
}

/// Judges an iterate and updates the record of the best one.
pub fn judge<T: Scalar, M: Fn(Cone, &[T]) -> T>(
    prob: &QpProblem<T>,
    acc: &Access,
    eq_csr: Option<&CscMatrix<T>>,
    in_csr: Option<&CscMatrix<T>>,
    cones: &[Cone],
    offsets: &[usize],
    margin: &M,
    eps: T,
    it: &Iterate<T>,
    r: &Residuals<T>,
    st: &mut ConicState<T>,
) -> (v: Verdict)
    requires
        access_fits(*prob, *acc, opt_deref(eq_csr), opt_deref(in_csr)),
        it.fits(*prob),
        old(st).outside < 3,
        conic_problem(*prob, cones@),
        offsets_of(cones@, offsets@),
        forall|c: Cone, b: &[T]| #[trigger] margin.requires((c, b)),
    ensures
        judged(
            *prob,
            *acc,
            opt_deref(eq_csr),
            opt_deref(in_csr),
            members_of(*margin, cones@),
            eps,
            it@,
            *r,
            old(st).best_err,
            old(st).outside as int,
            v,
        ),
        finite_iterate(it@) ==> final(st).best_err == best_error(old(st).best_err, *r),
        !finite_iterate(it@) ==> final(st).best_err == old(st).best_err,
        final(st).best@ == (if finite_iterate(it@) && error_of(*r).below(old(st).best_err) {
            it@
        } else {
            old(st).best@
        }),
        v == Verdict::Continue ==> final(st).outside == (if r.mu.below(T::zero()) {
            old(st).outside + 1
        } else {
            0
        }) && final(st).outside < 3,
        final(st).reg == old(st).reg,
        final(st).prev_rel == old(st).prev_rel,
        final(st).prev_nb == old(st).prev_nb,
        final(st).prev_mu == old(st).prev_mu,
        final(st).short_steps == old(st).short_steps,
{
    let finite = is_all_finite(&it.x) && is_all_finite(&it.y) && is_all_finite(&it.s) && is_all_finite(
        &it.z,
    );
    let ghost members = members_of(*margin, cones@);
    let ghost (eqg, ing) = (opt_deref(eq_csr), opt_deref(in_csr));
    let ghost open = undecided(eps, it@, *r, st.outside as int);
    if !finite {
        assert(membership(*prob, *acc, eqg, ing, members, it@, open, false, false));
        return Verdict::Restore(grade_status(st.best_err, eps));
    }
    let err = r.rel.max(r.mu);
    if err.below(st.best_err) {
        st.best_err = err;
        st.best = it.duplicate();
    }
    let ratio = if T::zero().below(r.mu) {
        r.min_sz.over(r.mu)
    } else {
        T::one()
    };
    let comp_ok = r.mu.at_most(eps) && (T::decimal(1, 3).at_most(ratio) || r.min_sz.at_most(eps));
    if r.rel.at_most(eps) && comp_ok {
        assert(membership(*prob, *acc, eqg, ing, members, it@, open, false, false));
        return Verdict::Accept(Status::Solved);
    }
    if r.mu.below(T::zero()) {
        st.outside = st.outside + 1;
        if st.outside >= 3 {
            assert(membership(*prob, *acc, eqg, ing, members, it@, open, false, false));
            return Verdict::Restore(grade_status(st.best_err, eps));
        }
    } else {
        st.outside = 0;
    }
    if certifies_ray(prob, cones, offsets, margin, &it.x) {
        assert(membership(*prob, *acc, eqg, ing, members, it@, open, true, false));
        return Verdict::Accept(Status::DualInfeasible);
    }
    if check_diverge(&it.x, &it.z, T::decimal(1000000000000, 0)).is_some() {
        let ny = if prob.b_eq.len() > 0 {
            inf_norm(&it.y)
        } else {
            T::zero()
        };
        let nz = if prob.b_in.len() > 0 {
            inf_norm(&it.z)
        } else {
            T::zero()
        };
        let ns = inf_norm(&it.x).max(ny).max(nz).max(T::one());
        if T::zero().below(ns) {
            if certifies_primal(prob, acc, eq_csr, in_csr, it, ns) && lies_in_cones(margin, cones, offsets, &it.z) {
                assert(membership(*prob, *acc, eqg, ing, members, it@, open, false, true));
                return Verdict::Restore(Status::PrimalInfeasible);
            }
            assert(membership(*prob, *acc, eqg, ing, members, it@, open, false, false));
            if certifies_dual(prob, acc, eq_csr, in_csr, it, ns) {
                return Verdict::Restore(Status::DualInfeasible);
            }
        }
    }
    assert(membership(*prob, *acc, eqg, ing, members, it@, open, false, false));
    Verdict::Continue
}

/// A blown-up iterate alone is never reported as infeasible: the status comes only with the test
/// that belongs to it, and a problem is solved only within the tolerances.
pub proof fn verdicts_are_tested<T: Scalar>(
    prob: QpProblem<T>,
    acc: Access,
    eq_csr: Option<CscMatrix<T>>,
    in_csr: Option<CscMatrix<T>>,
    members: Members<T>,
    eps: T,
    it: IterateView<T>,
    r: Residuals<T>,
    best_err: T,
    outside: int,
    v: Verdict,
)
    requires
        judged(prob, acc, eq_csr, in_csr, members, eps, it, r, best_err, outside, v),
    ensures
        ({
            &&& v == Verdict::Restore(Status::PrimalInfeasible) ==> primal_certificate(
                prob,
                acc,
                eq_csr,
                in_csr,
                it,
            ) && answered(members, it.z, true)
            &&& v == Verdict::Restore(Status::DualInfeasible) ==> dual_certificate(
                prob,
                acc,
                eq_csr,
                in_csr,
                it,
            )
            &&& v == Verdict::Accept(Status::DualInfeasible) ==> descending_ray(prob, it.x) && answered(
                members,
                slack_ray(prob, it.x),
                true,
            )
            &&& v == Verdict::Accept(Status::Solved) ==> finite_iterate(it) && r.rel.at_most(eps)
                && complementary(r.mu, r.min_sz, eps)
        }),
{
}

/// Moves the regularization along its ladder, from the second iteration on, and records the
/// measures of this one.
pub fn regularize<T: Scalar>(first: bool, r: &Residuals<T>, st: &mut ConicState<T>)
    requires
        old(st).reg.wf(),
    ensures
        final(st).reg.wf(),
        final(st).reg.rho0 == old(st).reg.rho0,
        final(st).reg.delta0 == old(st).reg.delta0,
        final(st).reg.level == (if first {
            old(st).reg.level as int
        } else {
            next_level(
                old(st).reg.level as int,
                r.mu,
                old(st).prev_mu,
                r.rel,
                old(st).prev_rel,
                r.nb,
                old(st).prev_nb,
            )
        }),
        final(st).prev_rel == r.rel,
        final(st).prev_nb == r.nb,
        final(st).prev_mu == r.mu,
        final(st).best == old(st).best,
        final(st).best_err == old(st).best_err,
        final(st).outside == old(st).outside,
        final(st).short_steps == old(st).short_steps,
{
    if !first {
        update_regularization(
            &mut st.reg,
            r.mu,
            st.prev_mu,
            r.rel,
            st.prev_rel,
            r.nb,
            st.prev_nb,
        );
    }
    st.prev_rel = r.rel;
    st.prev_nb = r.nb;
    st.prev_mu = r.mu;
}

} // verus!
