//! The iteration of the conic engine, from the starting point to the result, over the step that
//! each iteration takes.
use crate::cone::{offsets_of, Cone};
use crate::conic_dir::{
    build_folded_rhs, build_rhs, folded_dz, folded_system_rhs, kept_rows, recover_folded, stepped, system_rhs,
    take_step, ConicStep,
};
use crate::conic_kkt::conic_problem;
use crate::conic_newton::direction_fits;
use crate::conic_route::{ladder, next_level, Regularization};
use crate::conic_step::{
    access_fits, answered, best_error, complementary, compute_residuals, compute_terms, dual_certificate,
    error_of, finite_iterate, judge, judged, members_of, primal_certificate, regularize, residuals_of,
    slack_ray, terms_of, Access, ConicState, Iterate, IterateView, Members, Residuals, Terms, Verdict,
};
use crate::fac::{Fac, Solved};
use crate::kkt::opt_deref;
use crate::problem::{descending_ray, QpProblem, Status};
use crate::scalar::Scalar;
use crate::solve::solves_at;
use crate::sparse::CscMatrix;
use vstd::prelude::*;

verus! {

/// The length of the right-hand side of the system: without the folded rows where there are any.
pub open spec fn system_len<T: Scalar>(prob: QpProblem<T>, fold: Seq<(usize, usize, T)>) -> nat {
    if fold.len() == 0 {
        prob.n() + prob.me() + prob.mi()
    } else {
        prob.n() + prob.me() + kept_rows(fold, prob.mi()).len()
    }
}

/// `out` solves for the complementarity right-hand side `rhs_z`, with bound rows folded into the
/// unknowns where `fold` names any.
pub open spec fn system_solved<T: Scalar, S: Fn(&[T]) -> Vec<T>, G: Fn(&[T]) -> Vec<T>>(
    prob: QpProblem<T>,
    fac: Fac<T>,
    perm: Seq<usize>,
    fold: Seq<(usize, usize, T)>,
    r: Residuals<T>,
    rhs_z: Seq<T>,
    corrector: bool,
    inner: S,
    schur: G,
    out: Solved<T>,
) -> bool {
    if fold.len() == 0 {
        fac.solves(prob, perm, system_rhs(r.r_d@, r.r_b@, rhs_z, corrector), inner, schur, out)
    } else {
        exists|v: Solved<T>|
            {
                &&& #[trigger] fac.solves(
                    prob,
                    perm,
                    folded_system_rhs(prob.a_in, fold, r.r_d@, r.r_b@, rhs_z, corrector),
                    inner,
                    schur,
                    v,
                )
                &&& out.dx@ == v.dx@
                &&& out.dy@ == v.dy@
                &&& out.dz@ == folded_dz(prob.a_in, fold, v.dx@, rhs_z, v.dz@)
            }
    }
}

/// Solves for a complementarity right-hand side. `fold` lists the bound rows that were folded into
/// the unknowns, which only the sparse augmented system does.
pub fn solve_system<T: Scalar, S: Fn(&[T]) -> Vec<T>, G: Fn(&[T]) -> Vec<T>>(
    prob: &QpProblem<T>,
    fac: &Fac<T>,
    perm: &[usize],
    fold: &[(usize, usize, T)],
    r: &Residuals<T>,
    rhs_z: &[T],
    corrector: bool,
    inner: &S,
    schur: &G,
) -> (out: Solved<T>)
    requires
        prob.wf(),
        r.r_d@.len() == prob.n(),
        r.r_b@.len() == prob.me(),
        rhs_z@.len() == prob.mi(),
        fac.fits(*prob, perm@, system_len(*prob, fold@)),
        fold@.len() > 0 ==> *fac is Sparse,
        forall|i: int|
            0 <= i < fold@.len() ==> (#[trigger] fold@[i]).0 < prob.mi() && fold@[i].1 < prob.n(),
        solves_at(*inner, fac.inner_dim(*prob, system_len(*prob, fold@))),
        *fac is Kronecker && prob.me() > 0 ==> solves_at(*schur, prob.me()),
    ensures
        system_solved(*prob, *fac, perm@, fold@, *r, rhs_z@, corrector, *inner, *schur, out),
        out.dx@.len() == prob.n(),
        out.dy@.len() == prob.me(),
        out.dz@.len() == prob.mi(),
{
    if fold.len() == 0 {
        let rhs = build_rhs(&r.r_d, &r.r_b, rhs_z, corrector);
        assert(rhs@.len() == prob.n() + prob.me() + prob.mi());
        fac.solve_into(prob, perm, &rhs, inner, schur)
    } else {
        let rhs = build_folded_rhs(&prob.a_in, fold, &r.r_d, &r.r_b, rhs_z, corrector);
        proof {
            let rx = if corrector {
                crate::vector::constant(T::zero(), prob.n())
            } else {
                crate::vector::negated(r.r_d@)
            };
            lemma_folded_len(prob.a_in, fold@, rx, rhs_z@, fold@.len());
        }
        let v = fac.solve_into(prob, perm, &rhs, inner, schur);
        assert(fac.solves(*prob, perm@, rhs@, *inner, *schur, v));
        let dz = recover_folded(&prob.a_in, fold, &v.dx, rhs_z, &v.dz);
        Solved { dx: v.dx, dy: v.dy, dz }
    }
}

proof fn lemma_folded_len<T: Scalar>(
    a_in: crate::matrix::DenseMatrix<T>,
    fold: Seq<(usize, usize, T)>,
    rx: Seq<T>,
    rz: Seq<T>,
    k: nat,
)
    requires
        k <= fold.len(),
        forall|i: int| 0 <= i < fold.len() ==> (#[trigger] fold[i]).1 < rx.len(),
    ensures
        crate::fac::folded_rx(a_in, fold, rx, rz, k).len() == rx.len(),
    decreases k,
{
    if k > 0 {
        lemma_folded_len(a_in, fold, rx, rz, (k - 1) as nat);
        assert(fold[k - 1].1 < rx.len());
    }
}

/// What a solve rests on: the problem, how its matrices are multiplied, which vectors lie in its cones,
/// the barrier degree of the cones and the tolerance.
#[verifier::reject_recursive_types(T)]
pub ghost struct Setting<T> {
    pub prob: QpProblem<T>,
    pub acc: Access,
    pub eq_csr: Option<CscMatrix<T>>,
    pub in_csr: Option<CscMatrix<T>>,
    pub members: Members<T>,
    pub degree: T,
    pub eps: T,
}

/// The state that the iterations carry along.
pub ghost struct StateView<T> {
    pub best: IterateView<T>,
    pub best_err: T,
    pub outside: int,
    pub reg: Regularization<T>,
    pub prev_rel: T,
    pub prev_nb: T,
    pub prev_mu: T,
    pub short_steps: usize,
}

impl<T> View for ConicState<T> {
    type V = StateView<T>;

    open spec fn view(&self) -> StateView<T> {
        StateView {
            best: self.best@,
            best_err: self.best_err,
            outside: self.outside as int,
            reg: self.reg,
            prev_rel: self.prev_rel,
            prev_nb: self.prev_nb,
            prev_mu: self.prev_mu,
            short_steps: self.short_steps,
        }
    }
}

/// How a run ends: the last iterate, the best one with its error, the verdict and the number of
/// the last iteration.
pub ghost struct Ending<T> {
    pub it: IterateView<T>,
    pub best: IterateView<T>,
    pub best_err: T,
    pub verdict: Verdict,
    pub iters: int,
}

/// The residuals are those of the iterate.
pub open spec fn measured<T: Scalar>(c: Setting<T>, it: IterateView<T>, r: Residuals<T>) -> bool {
    exists|t: Terms<T>| #[trigger]
        terms_of(c.prob, c.acc, c.eq_csr, c.in_csr, it, t) && residuals_of(c.prob, t, c.degree, it, r)
}

/// The best iterate after `it` with the residuals `r`, and its error.
pub open spec fn best_after<T: Scalar>(it: IterateView<T>, r: Residuals<T>, st: StateView<T>) -> (
    IterateView<T>,
    T,
) {
    if finite_iterate(it) {
        (
            if error_of(r).below(st.best_err) {
                it
            } else {
                st.best
            },
            best_error(st.best_err, r),
        )
    } else {
        (st.best, st.best_err)
    }
}

/// The state before the step of an iteration that goes on.
pub open spec fn before_step<T: Scalar>(
    first: bool,
    it: IterateView<T>,
    r: Residuals<T>,
    st: StateView<T>,
) -> StateView<T> {
    let (best, best_err) = best_after(it, r, st);
    let level = if first {
        st.reg.level as int
    } else {
        next_level(st.reg.level as int, r.mu, st.prev_mu, r.rel, st.prev_rel, r.nb, st.prev_nb)
    };
    StateView {
        best,
        best_err,
        outside: if r.mu.below(T::zero()) {
            st.outside + 1
        } else {
            0
        },
        reg: Regularization {
            rho0: st.reg.rho0,
            delta0: st.reg.delta0,
            level: level as usize,
            rho: ladder::<T>(level).max(st.reg.rho0),
            delta: ladder::<T>(level).max(st.reg.delta0),
        },
        prev_rel: r.rel,
        prev_nb: r.nb,
        prev_mu: r.mu,
        short_steps: st.short_steps,
    }
}

/// Which steps belong to an iterate with its residuals, the regularization and the count of short
/// steps.
pub type Steps<T> = spec_fn(Iterate<T>, Residuals<T>, Regularization<T>, usize, Option<(ConicStep<T>, usize)>) -> bool;

/// `o` is what `steps` has for the iterate `p` with the residuals `r`, the regularization `g` and the
/// count `k` of short steps.
pub open spec fn taken<T>(
    steps: Steps<T>,
    p: Iterate<T>,
    r: Residuals<T>,
    g: Regularization<T>,
    k: usize,
    o: Option<(ConicStep<T>, usize)>,
) -> bool {
    steps(p, r, g, k, o)
}

/// `v` is a verdict on the iterate with these residuals.
pub open spec fn reached<T: Scalar>(
    c: Setting<T>,
    it: IterateView<T>,
    r: Residuals<T>,
    st: StateView<T>,
    v: Verdict,
) -> bool {
    judged(c.prob, c.acc, c.eq_csr, c.in_csr, c.members, c.eps, it, r, st.best_err, st.outside, v)
}

/// A run from iteration `k` with `left` iterations to go ends in `end`. Each iteration measures the
/// iterate and judges it; if the run goes on, the regularization follows the residuals and `steps`
/// gives the step. A step that cannot be found ends the run as a numerical failure.
pub open spec fn runs<T: Scalar>(
    c: Setting<T>,
    steps: Steps<T>,
    k: int,
    left: nat,
    it: IterateView<T>,
    st: StateView<T>,
    end: Ending<T>,
) -> bool
    decreases left, 1nat,
{
    if left == 0 {
        end == (Ending {
            it,
            best: st.best,
            best_err: st.best_err,
            verdict: Verdict::Restore(Status::MaxIterations),
            iters: if k > 0 {
                k - 1
            } else {
                0
            },
        })
    } else {
        exists|r: Residuals<T>, v: Verdict|
            {
                let (best, best_err) = best_after(it, r, st);
                &&& measured(c, it, r)
                &&& #[trigger] reached(c, it, r, st, v)
                &&& if v != Verdict::Continue {
                    end == (Ending { it, best, best_err, verdict: v, iters: k })
                } else {
                    goes_on(c, steps, k, left, it, st, r, end)
                }
            }
    }
}

/// The part of [`runs`] behind the verdict that the run goes on.
pub open spec fn goes_on<T: Scalar>(
    c: Setting<T>,
    steps: Steps<T>,
    k: int,
    left: nat,
    it: IterateView<T>,
    st: StateView<T>,
    r: Residuals<T>,
    end: Ending<T>,
) -> bool
    decreases left, 0nat,
    when left > 0
{
    let next = before_step(k == 0, it, r, st);
    exists|p: Iterate<T>, o: Option<(ConicStep<T>, usize)>|
        {
            &&& p@ == it
            &&& #[trigger] taken(steps, p, r, next.reg, next.short_steps, o)
            &&& match o {
                None => end == (Ending {
                    it,
                    best: next.best,
                    best_err: next.best_err,
                    verdict: Verdict::Accept(Status::NumericalError),
                    iters: k,
                }),
                Some((step, short)) => runs(
                    c,
                    steps,
                    k + 1,
                    (left - 1) as nat,
                    stepped(it, step.d@, step.ap, step.ad),
                    (StateView { short_steps: short, ..next }),
                    end,
                ),
            }
        }
}


/// The state that a run starts with.
pub open spec fn starts<T: Scalar>(it: IterateView<T>, reg: Regularization<T>, st: StateView<T>) -> bool {
    &&& st.best == it
    &&& st.best_err == T::infinity()
    &&& st.outside == 0
    &&& st.reg == reg
    &&& st.prev_rel == T::zero()
    &&& st.prev_nb == T::zero()
    &&& st.prev_mu == T::zero()
    &&& st.short_steps == 0
}

/// `newton` takes every iterate of the problem with its residuals, and gives what `steps` has for it, of
/// the problem's dimensions.
pub open spec fn steps_fit<
    T: Scalar,
    N: Fn(&Iterate<T>, &Residuals<T>, &Regularization<T>, usize) -> Option<(ConicStep<T>, usize)>,
>(
    prob: QpProblem<T>,
    newton: N,
    steps: Steps<T>,
) -> bool {
    &&& forall|p: &Iterate<T>, q: &Residuals<T>, g: &Regularization<T>, k: usize|
        p.fits(prob) && q.r_d@.len() == prob.n() && q.r_b@.len() == prob.me() && q.r_h@.len() == prob.mi()
            && g.wf() && k < usize::MAX ==> #[trigger] newton.requires((p, q, g, k))
    &&& forall|
        p: &Iterate<T>,
        q: &Residuals<T>,
        g: &Regularization<T>,
        k: usize,
        o: Option<(ConicStep<T>, usize)>,
    | #[trigger]
        newton.ensures((p, q, g, k), o) ==> {
            &&& o matches Some(s) ==> direction_fits(prob, s.0.d@) && s.1 <= k + 1
            &&& taken(steps, *p, *q, *g, k, o)
        }
}

/// A run from the starting point with at most `max_iters` iterations ends in `end`.
pub open spec fn whole_run<T: Scalar>(
    c: Setting<T>,
    steps: Steps<T>,
    max_iters: nat,
    start: IterateView<T>,
    reg: Regularization<T>,
    end: Ending<T>,
) -> bool {
    exists|st: StateView<T>| #[trigger]
        starts(start, reg, st) && runs(c, steps, 0, max_iters, start, st, end)
}

/// Runs the conic engine from a starting point: measures and judges each iterate, adapts the
/// regularization and takes the step that `newton` gives for the iterate, its residuals, the
/// regularization and the count of short steps. Returns the last iterate, the state, the verdict
/// and the number of the last iteration.
pub(crate) fn run_conic<
    T: Scalar,
    M: Fn(Cone, &[T]) -> T,
    N: Fn(&Iterate<T>, &Residuals<T>, &Regularization<T>, usize) -> Option<(ConicStep<T>, usize)>,
>(
    prob: &QpProblem<T>,
    acc: &Access,
    eq_csr: Option<&CscMatrix<T>>,
    in_csr: Option<&CscMatrix<T>>,
    cones: &[Cone],
    offsets: &[usize],
    margin: &M,
    degree: T,
    eps: T,
    max_iters: usize,
    start: Iterate<T>,
    reg: Regularization<T>,
    newton: N,
    Ghost(steps): Ghost<Steps<T>>,
) -> (out: (Iterate<T>, ConicState<T>, Verdict, usize))
    requires
        access_fits(*prob, *acc, opt_deref(eq_csr), opt_deref(in_csr)),
        conic_problem(*prob, cones@),
        offsets_of(cones@, offsets@),
        forall|c: Cone, b: &[T]| #[trigger] margin.requires((c, b)),
        start.fits(*prob),
        reg.wf(),
        steps_fit(*prob, newton, steps),
    ensures
        out.0.fits(*prob),
        out.1.best.fits(*prob),
        out.3 <= max_iters,
        whole_run(
            (Setting {
                prob: *prob,
                acc: *acc,
                eq_csr: opt_deref(eq_csr),
                in_csr: opt_deref(in_csr),
                members: members_of(*margin, cones@),
                degree,
                eps,
            }),
            steps,
            max_iters as nat,
            start@,
            reg,
            (Ending {
                it: out.0@,
                best: out.1.best@,
                best_err: out.1.best_err,
                verdict: out.2,
                iters: out.3 as int,
            }),
        ),
{
    let ghost c = Setting {
        prob: *prob,
        acc: *acc,
        eq_csr: opt_deref(eq_csr),
        in_csr: opt_deref(in_csr),
        members: members_of(*margin, cones@),
        degree,
        eps,
    };
    let best = start.duplicate();
    let ghost first = start@;
    let mut it = start;
    let mut st = ConicState {
        best,
        best_err: T::infinity(),
        outside: 0,
        reg,
        prev_rel: T::zero(),
        prev_nb: T::zero(),
        prev_mu: T::zero(),
        short_steps: 0,
    };
    let ghost init = st@;
    assert(starts(first, reg, init));
    let mut k: usize = 0;
    // Whatever the remaining iterations make of the present iterate, the whole run makes of the
    // first one.
    while k < max_iters
        invariant
            access_fits(*prob, *acc, opt_deref(eq_csr), opt_deref(in_csr)),
            conic_problem(*prob, cones@),
            offsets_of(cones@, offsets@),
            forall|c: Cone, b: &[T]| #[trigger] margin.requires((c, b)),
            c == (Setting {
                prob: *prob,
                acc: *acc,
                eq_csr: opt_deref(eq_csr),
                in_csr: opt_deref(in_csr),
                members: members_of(*margin, cones@),
                degree,
                eps,
            }),
            steps_fit(*prob, newton, steps),
            first == start@,
            starts(first, reg, init),
            k <= max_iters,
            it.fits(*prob),
            st.best.fits(*prob),
            st.reg.wf(),
            st.outside < 3,
            st.short_steps <= k,
            forall|end: Ending<T>|
                runs(c, steps, k as int, (max_iters - k) as nat, it@, st@, end) ==> #[trigger] runs(
                    c,
                    steps,
                    0,
                    max_iters as nat,
                    first,
                    init,
                    end,
                ),
        decreases max_iters - k,
    {
        let ghost was = st@;
        let ghost left = (max_iters - k) as nat;
        let t = compute_terms(prob, acc, eq_csr, in_csr, &it);
        let r = compute_residuals(prob, &t, degree, &it);
        assert(measured(c, it@, r));
        let v = judge(prob, acc, eq_csr, in_csr, cones, offsets, margin, eps, &it, &r, &mut st);
        assert(reached(c, it@, r, was, v));
        assert((st.best@, st.best_err) == best_after(it@, r, was));
        if !matches!(v, Verdict::Continue) {
            let ghost end = Ending { it: it@, best: st.best@, best_err: st.best_err, verdict: v, iters: k as int };
            assert(runs(c, steps, k as int, left, it@, was, end));
            assert(runs(c, steps, 0, max_iters as nat, first, init, end));
            return (it, st, v, k);
        }
        regularize(k == 0, &r, &mut st);
        let ghost next = before_step(k == 0, it@, r, was);
        assert(st@ == next);
        let pr: &Iterate<T> = &it;
        let rr: &Residuals<T> = &r;
        let gr: &Regularization<T> = &st.reg;
        let o = newton(pr, rr, gr, st.short_steps);
        assert(newton.ensures((pr, rr, gr, st.short_steps), o));
        assert(taken(steps, it, r, next.reg, next.short_steps, o));
        match o {
            None => {
                let v2 = Verdict::Accept(Status::NumericalError);
                let ghost end = Ending {
                    it: it@,
                    best: st.best@,
                    best_err: st.best_err,
                    verdict: v2,
                    iters: k as int,
                };
                assert(goes_on(c, steps, k as int, left, it@, was, r, end));
                assert(runs(c, steps, k as int, left, it@, was, end));
                assert(runs(c, steps, 0, max_iters as nat, first, init, end));
                return (it, st, v2, k);
            },
            Some((step, short)) => {
                let moved_it = take_step(&it, &step);
                let ghost old_it = it@;
                proof {
                    let st2 = StateView { short_steps: short, ..next };
                    assert forall|end: Ending<T>|
                        runs(c, steps, k + 1, (left - 1) as nat, moved_it@, st2, end) implies #[trigger] runs(
                        c,
                        steps,
                        0,
                        max_iters as nat,
                        first,
                        init,
                        end,
                    ) by {
                        assert(goes_on(c, steps, k as int, left, old_it, was, r, end));
                        assert(runs(c, steps, k as int, left, old_it, was, end));
                    }
                }
                it = moved_it;
                st.short_steps = short;
                k += 1;
            },
        }
    }
    let v = Verdict::Restore(Status::MaxIterations);
    let iters: usize = if k > 0 {
        k - 1
    } else {
        0
    };
    let ghost end = Ending { it: it@, best: st.best@, best_err: st.best_err, verdict: v, iters: iters as int };
    assert(runs(c, steps, k as int, 0, it@, st@, end));
    assert(runs(c, steps, 0, max_iters as nat, first, init, end));
    (it, st, v, iters)
}

/// The best iterate is either the starting point, never measured better than infinitely bad, or an
/// iterate with this error.
pub open spec fn best_is_measured<T: Scalar>(
    c: Setting<T>,
    first: IterateView<T>,
    best: IterateView<T>,
    best_err: T,
) -> bool {
    ||| best == first && best_err == T::infinity()
    ||| exists|r: Residuals<T>| #[trigger]
        measured(c, best, r) && finite_iterate(best) && best_err == error_of(r)
}

/// The iterate is finite and within the tolerances.
pub open spec fn within_tolerances<T: Scalar>(c: Setting<T>, it: IterateView<T>) -> bool {
    exists|r: Residuals<T>| #[trigger]
        measured(c, it, r) && finite_iterate(it) && r.rel.at_most(c.eps) && complementary(
            r.mu,
            r.min_sz,
            c.eps,
        )
}

/// A run accepts an iterate as solved only within the tolerances on its residuals, restores the best
/// iterate as solved only where its error is within the tolerance, names infeasibility only with a
/// certificate, and keeps the best iterate with the error that was measured for it.
pub proof fn runs_are_honest<T: Scalar>(
    c: Setting<T>,
    steps: Steps<T>,
    k: int,
    left: nat,
    first: IterateView<T>,
    it: IterateView<T>,
    st: StateView<T>,
    end: Ending<T>,
)
    requires
        runs(c, steps, k, left, it, st, end),
        best_is_measured(c, first, st.best, st.best_err),
    ensures
        end.verdict == Verdict::Accept(Status::Solved) ==> within_tolerances(c, end.it),
        end.verdict == Verdict::Restore(Status::Solved) ==> end.best_err.at_most(c.eps),
        end.verdict == Verdict::Restore(Status::PrimalInfeasible) ==> primal_certificate(
            c.prob,
            c.acc,
            c.eq_csr,
            c.in_csr,
            end.it,
        ) && answered(c.members, end.it.z, true),
        end.verdict == Verdict::Restore(Status::DualInfeasible) ==> dual_certificate(
            c.prob,
            c.acc,
            c.eq_csr,
            c.in_csr,
            end.it,
        ),
        end.verdict == Verdict::Accept(Status::DualInfeasible) ==> descending_ray(c.prob, end.it.x)
            && answered(c.members, slack_ray(c.prob, end.it.x), true),
        end.verdict != Verdict::Accept(Status::PrimalInfeasible),
        end.verdict != Verdict::Continue,
        best_is_measured(c, first, end.best, end.best_err),
    decreases left,
{
    if left > 0 {
        let (r, v) = choose|r: Residuals<T>, v: Verdict|
            {
                let (best, best_err) = best_after(it, r, st);
                &&& measured(c, it, r)
                &&& #[trigger] reached(c, it, r, st, v)
                &&& if v != Verdict::Continue {
                    end == (Ending { it, best, best_err, verdict: v, iters: k })
                } else {
                    goes_on(c, steps, k, left, it, st, r, end)
                }
            };
        let (best, best_err) = best_after(it, r, st);
        assert(best_is_measured(c, first, best, best_err));
        if v == Verdict::Continue {
            let next = before_step(k == 0, it, r, st);
            let (p, o) = choose|p: Iterate<T>, o: Option<(ConicStep<T>, usize)>|
                {
                    &&& p@ == it
                    &&& #[trigger] taken(steps, p, r, next.reg, next.short_steps, o)
                    &&& match o {
                        None => end == (Ending {
                            it,
                            best: next.best,
                            best_err: next.best_err,
                            verdict: Verdict::Accept(Status::NumericalError),
                            iters: k,
                        }),
                        Some((step, short)) => runs(
                            c,
                            steps,
                            k + 1,
                            (left - 1) as nat,
                            stepped(it, step.d@, step.ap, step.ad),
                            (StateView { short_steps: short, ..next }),
                            end,
                        ),
                    }
                };
            match o {
                None => {},
                Some((step, short)) => {
                    runs_are_honest(
                        c,
                        steps,
                        k + 1,
                        (left - 1) as nat,
                        first,
                        stepped(it, step.d@, step.ap, step.ad),
                        (StateView { short_steps: short, ..next }),
                        end,
                    );
                },
            }
        } else {
            assert(measured(c, it, r));
        }
    }
}

} // verus!
