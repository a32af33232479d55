//! The iteration of the orthant engine, from the starting point to the result, over the step that
//! each iteration takes.
use crate::conic_step::{finite_iterate, Iterate, IterateView, Terms, Verdict};
use crate::kkt::opt_deref;
use crate::lowrank::LowRankDiag;
use crate::pc_step::{Direction, DirectionView};
use crate::problem::{unbounded_ray, QpProblem, Status, TermScale};
use crate::products::{
    form_fits, hessian_product, hessian_times, times, times_spec, times_t, times_t_spec, Form,
};
use crate::qp_loop::{
    any_progress, apply_increments, backtrack, bounds_product, bounds_t_product, bounds_t_times, bounds_times,
    data_floors, floors_of, halved, halvings_from, initial_state, kappa_of, least_ratio, low_rank_product,
    low_rank_times, measure, measures_of, near_optimum, near_progress, next_delta, next_rho, qp_correctors,
    qp_delta_floor, qp_dual_test, qp_error, qp_judge, qp_primal_test, qp_regularize, qp_verdict, recorded,
    residual, since_after, stalled, track_kappa, within_tolerance, Floors, Measures, QpState,
};
use crate::scalar::Scalar;
use crate::sparse::CscMatrix;
use crate::vector::{constant, filled, moved};
use vstd::prelude::*;

verus! {

/// How the matrices of the problem are multiplied.
pub struct QpAccess {
    /// The Hessian is zero and nothing else asks for its product.
    pub p_zero: bool,
    pub p_diagonal: bool,
    pub eq: Form,
    pub ain: Form,
}

/// What a solve rests on: the problem with its scaling, how its matrices are multiplied, the
/// low-rank form of its Hessian where one is used, the tolerance and the iteration limit.
pub ghost struct QpSetting<T> {
    pub prob: QpProblem<T>,
    pub term: TermScale<T>,
    pub acc: QpAccess,
    pub eq_csr: Option<CscMatrix<T>>,
    pub in_csr: Option<CscMatrix<T>>,
    pub low: Option<LowRankDiag<T>>,
    pub col_ineq: Seq<(usize, T)>,
    pub hsd: bool,
    pub eps: T,
    pub max_iters: usize,
}

/// The access fits the problem; with a low-rank form every inequality row is a bound on an unknown.
pub open spec fn qp_access_fits<T: Scalar>(c: QpSetting<T>) -> bool {
    &&& c.prob.wf()
    &&& c.term.fits(c.prob.n(), c.prob.me(), c.prob.mi())
    &&& form_fits(c.acc.eq, c.eq_csr, c.prob.a_eq)
    &&& form_fits(c.acc.ain, c.in_csr, c.prob.a_in)
    &&& c.acc.eq != Form::Negated
    &&& c.low matches Some(lr) ==> {
        &&& lr.fits(c.prob.n())
        &&& c.col_ineq.len() == c.prob.mi()
        &&& forall|r: int| 0 <= r < c.col_ineq.len() ==> (#[trigger] c.col_ineq[r]).0 < c.prob.n()
    }
}

/// The terms are the products of the matrices with the iterate.
pub open spec fn qp_terms_of<T: Scalar>(c: QpSetting<T>, it: IterateView<T>, t: Terms<T>) -> bool {
    let n = c.prob.n();
    &&& t.aty@ == times_t_spec(c.acc.eq, c.eq_csr, c.prob.a_eq, it.y)
    &&& t.aeqx@ == times_spec(c.acc.eq, c.eq_csr, c.prob.a_eq, it.x)
    &&& match c.low {
        Some(lr) => {
            &&& t.px@ == low_rank_times(lr, it.x)
            &&& t.atz@ == bounds_t_times(c.col_ineq, it.z, n, c.prob.mi())
            &&& t.ainx@ == bounds_times(c.col_ineq, it.x)
        },
        None => {
            &&& t.px@ == (if c.acc.p_zero {
                constant(T::zero(), n)
            } else {
                hessian_times(c.prob.p, c.acc.p_diagonal, it.x)
            })
            &&& t.atz@ == times_t_spec(c.acc.ain, c.in_csr, c.prob.a_in, it.z)
            &&& t.ainx@ == times_spec(c.acc.ain, c.in_csr, c.prob.a_in, it.x)
        },
    }
    &&& t.px@.len() == n
    &&& t.aty@.len() == n
    &&& t.atz@.len() == n
    &&& t.aeqx@.len() == c.prob.me()
    &&& t.ainx@.len() == c.prob.mi()
}

/// The products of the matrices with an iterate.
fn qp_terms<T: Scalar>(
    prob: &QpProblem<T>,
    acc: &QpAccess,
    eq_csr: Option<&CscMatrix<T>>,
    in_csr: Option<&CscMatrix<T>>,
    low: &Option<LowRankDiag<T>>,
    col_ineq: &[(usize, T)],
    it: &Iterate<T>,
    Ghost(c): Ghost<QpSetting<T>>,
) -> (t: Terms<T>)
    requires
        qp_access_fits(c),
        c.prob == *prob,
        c.acc == *acc,
        c.eq_csr == opt_deref(eq_csr),
        c.in_csr == opt_deref(in_csr),
        c.low == *low,
        c.col_ineq == col_ineq@,
        it.fits(*prob),
    ensures
        qp_terms_of(c, it@, t),
{
    let n: usize = prob.q.len();
    let aty = times_t(acc.eq, eq_csr, &prob.a_eq, &it.y);
    let aeqx = times(acc.eq, eq_csr, &prob.a_eq, &it.x);
    match low {
        Some(lr) => {
            let px = low_rank_product(lr, &it.x);
            let atz = bounds_t_product(col_ineq, &it.z, n);
            let ainx = bounds_product(col_ineq, &it.x);
            Terms { px, aty, atz, aeqx, ainx }
        },
        None => {
            let px = if acc.p_zero {
                filled(T::zero(), n)
            } else {
                hessian_product(&prob.p, acc.p_diagonal, &it.x)
            };
            let atz = times_t(acc.ain, in_csr, &prob.a_in, &it.z);
            let ainx = times(acc.ain, in_csr, &prob.a_in, &it.x);
            Terms { px, aty, atz, aeqx, ainx }
        },
    }
}

/// The measures are those of the iterate.
pub open spec fn qp_measured<T: Scalar>(c: QpSetting<T>, it: IterateView<T>, m: Measures<T>) -> bool {
    exists|t: Terms<T>, f: Floors<T>|
        {
            &&& #[trigger] qp_terms_of(c, it, t)
            &&& floors_of(c.prob, c.term, f)
            &&& #[trigger] measures_of(c.prob, c.term, f, t, it, m)
        }
}

/// The state that the iterations carry along.
pub ghost struct QpStateView<T> {
    pub best: IterateView<T>,
    pub best_err: T,
    pub since: int,
    pub lagging: int,
    pub mu_stall: int,
    pub prev_mu: T,
    pub prev_nd: T,
    pub prev_nh: T,
    pub window: T,
    pub prev_window: T,
    pub rho0: T,
    pub rho: T,
    pub delta: T,
    pub short_steps: usize,
}

impl<T> View for QpState<T> {
    type V = QpStateView<T>;

    open spec fn view(&self) -> QpStateView<T> {
        QpStateView {
            best: self.best@,
            best_err: self.best_err,
            since: self.since as int,
            lagging: self.lagging as int,
            mu_stall: self.mu_stall as int,
            prev_mu: self.prev_mu,
            prev_nd: self.prev_nd,
            prev_nh: self.prev_nh,
            window: self.window,
            prev_window: self.prev_window,
            rho0: self.rho0,
            rho: self.rho,
            delta: self.delta,
            short_steps: self.short_steps,
        }
    }
}

/// How a run ends: the last iterate, the best one with its error, the verdict, the number of the
/// last iteration and the complementarity scalar of the homogenization.
pub ghost struct QpEnding<T> {
    pub it: IterateView<T>,
    pub best: IterateView<T>,
    pub best_err: T,
    pub verdict: Verdict,
    pub iters: int,
    pub kappa: T,
}

/// The verdict on the iterate of iteration `k`.
pub open spec fn verdict_at<T: Scalar>(
    c: QpSetting<T>,
    k: int,
    it: IterateView<T>,
    m: Measures<T>,
    st: QpStateView<T>,
) -> Verdict {
    qp_verdict(
        c.prob,
        (c.acc.eq, c.eq_csr),
        (c.acc.ain, c.in_csr),
        c.term.comp,
        c.eps,
        k,
        c.max_iters as int,
        it,
        m,
        since_after::<T>(st.since, qp_error(m, c.term.comp).below(st.best_err)),
        stalled(st.mu_stall, k, m.mu, st.prev_mu),
        st.window,
        st.prev_window,
    )
}

/// The iterate improves on the best one so far.
pub open spec fn improves<T: Scalar>(c: QpSetting<T>, it: IterateView<T>, m: Measures<T>, st: QpStateView<T>) -> bool {
    finite_iterate(it) && qp_error(m, c.term.comp).below(st.best_err)
}

/// The best iterate after `it`, and its error.
pub open spec fn qp_best_after<T: Scalar>(
    c: QpSetting<T>,
    it: IterateView<T>,
    m: Measures<T>,
    st: QpStateView<T>,
) -> (IterateView<T>, T) {
    if improves(c, it, m, st) {
        (it, qp_error(m, c.term.comp))
    } else {
        (st.best, st.best_err)
    }
}

/// The state before the step of an iteration that goes on.
pub open spec fn qp_before_step<T: Scalar>(
    c: QpSetting<T>,
    k: int,
    it: IterateView<T>,
    m: Measures<T>,
    st: QpStateView<T>,
) -> QpStateView<T> {
    let (best, best_err) = qp_best_after(c, it, m, st);
    let cur = residual(m);
    let (a, w1, p1) = near_progress(
        k,
        near_optimum(m, c.term.comp, c.eps),
        cur,
        c.eps,
        st.window,
        st.prev_window,
    );
    let (b, w2, p2) = any_progress(k, cur, w1, p1);
    QpStateView {
        best,
        best_err,
        since: if improves(c, it, m, st) {
            0
        } else if finite_iterate(it) {
            st.since + 1
        } else {
            st.since
        },
        lagging: if least_ratio(m.mu, m.min_sz).below(T::decimal(1, 3)) {
            st.lagging + 1
        } else {
            0
        },
        mu_stall: stalled(st.mu_stall, k, m.mu, st.prev_mu),
        prev_mu: m.mu,
        prev_nd: m.nd,
        prev_nh: m.nh.max(m.nb),
        window: if k >= 50 {
            recorded(w2, cur)
        } else {
            w2
        },
        prev_window: p2,
        rho0: st.rho0,
        rho: if k == 0 {
            st.rho
        } else {
            next_rho(st.rho, st.rho0, m, st.prev_mu, st.prev_nd)
        },
        delta: if k == 0 {
            st.delta
        } else {
            next_delta(st.delta, m, st.prev_mu, st.prev_nh)
        },
        short_steps: st.short_steps,
    }
}

/// The number of centrality correctors of an iteration.
pub open spec fn correctors_for(lagging: int) -> usize {
    if lagging >= 5 {
        0
    } else {
        2
    }
}

/// The iterate after a step, halved until it keeps the iterate finite and strictly inside.
pub open spec fn after_step<T: Scalar>(it: IterateView<T>, d: DirectionView<T>) -> IterateView<T> {
    let t = halved::<T>(halvings_from(it, d, 0));
    IterateView { x: moved(it.x, t, d.x), y: moved(it.y, t, d.y), s: moved(it.s, t, d.s), z: moved(it.z, t, d.z) }
}

/// The barrier degree that the homogenization counts with.
pub open spec fn hsd_degree<T: Scalar>(mi: nat) -> T {
    T::from_usize(
        if mi > 0 {
            (mi + 1) as usize
        } else {
            1
        },
    )
}

/// The complementarity scalar after a step.
pub open spec fn kappa_after<T: Scalar>(c: QpSetting<T>, it: IterateView<T>, mu: T, kappa: T) -> T {
    if c.hsd {
        kappa_of(it.s, it.z, mu, hsd_degree::<T>(c.prob.mi()))
    } else {
        kappa
    }
}

/// Which directions belong to an iterate with its measures, the regularization, the number of correctors
/// and the count of short steps.
pub type Directs<T> = spec_fn(Iterate<T>, Measures<T>, T, T, usize, usize, Option<(Direction<T>, usize)>) -> bool;

/// `o` is what `directs` has for the iterate `p` with the measures `m`, the regularization `rho` and
/// `delta`, at most `g` correctors and the count `k` of short steps.
pub open spec fn directed<T>(
    directs: Directs<T>,
    p: Iterate<T>,
    m: Measures<T>,
    rho: T,
    delta: T,
    g: usize,
    k: usize,
    o: Option<(Direction<T>, usize)>,
) -> bool {
    directs(p, m, rho, delta, g, k, o)
}

/// A run from iteration `k` with `left` iterations to go ends in `end`. Each iteration measures the
/// iterate and judges it; if the run goes on, the regularization follows the measures and `directs`
/// gives the direction, along which the iterate moves. A direction that cannot be found ends the run
/// as a numerical failure.
pub open spec fn qp_runs<T: Scalar>(
    c: QpSetting<T>,
    directs: Directs<T>,
    k: int,
    left: nat,
    it: IterateView<T>,
    st: QpStateView<T>,
    kappa: T,
    end: QpEnding<T>,
) -> bool
    decreases left, 1nat,
{
    if left == 0 {
        end == (QpEnding {
            it,
            best: st.best,
            best_err: st.best_err,
            verdict: Verdict::Restore(Status::MaxIterations),
            iters: if k > 0 {
                k - 1
            } else {
                0
            },
            kappa,
        })
    } else {
        exists|m: Measures<T>|
            {
                let v = verdict_at(c, k, it, m, st);
                let (best, best_err) = qp_best_after(c, it, m, st);
                &&& #[trigger] qp_measured(c, it, m)
                &&& if v != Verdict::Continue {
                    end == (QpEnding { it, best, best_err, verdict: v, iters: k, kappa })
                } else {
                    qp_goes_on(c, directs, k, left, it, st, kappa, m, end)
                }
            }
    }
}

/// The part of [`qp_runs`] behind the verdict that the run goes on.
pub open spec fn qp_goes_on<T: Scalar>(
    c: QpSetting<T>,
    directs: Directs<T>,
    k: int,
    left: nat,
    it: IterateView<T>,
    st: QpStateView<T>,
    kappa: T,
    m: Measures<T>,
    end: QpEnding<T>,
) -> bool
    decreases left, 0nat,
    when left > 0
{
    let next = qp_before_step(c, k, it, m, st);
    exists|p: Iterate<T>, o: Option<(Direction<T>, usize)>|
        {
            &&& p@ == it
            &&& #[trigger] directed(
                directs,
                p,
                m,
                next.rho,
                next.delta,
                correctors_for(next.lagging),
                next.short_steps,
                o,
            )
            &&& match o {
                None => end == (QpEnding {
                    it,
                    best: next.best,
                    best_err: next.best_err,
                    verdict: Verdict::Accept(Status::NumericalError),
                    iters: k,
                    kappa,
                }),
                Some((d, short)) => {
                    let new = after_step(it, d@);
                    qp_runs(
                        c,
                        directs,
                        k + 1,
                        (left - 1) as nat,
                        new,
                        (QpStateView { short_steps: short, ..next }),
                        kappa_after(c, new, m.mu, kappa),
                        end,
                    )
                },
            }
        }
}

/// The state that a run starts with.
pub open spec fn qp_starts<T: Scalar>(it: IterateView<T>, rho0: T, st: QpStateView<T>) -> bool {
    &&& st.best == it
    &&& st.best_err == T::infinity()
    &&& st.since == 0
    &&& st.lagging == 0
    &&& st.mu_stall == 0
    &&& st.prev_mu == T::zero()
    &&& st.prev_nd == T::one()
    &&& st.prev_nh == T::one()
    &&& st.window == T::infinity()
    &&& st.prev_window == T::infinity()
    &&& st.rho0 == rho0
    &&& st.rho == rho0
    &&& st.delta == qp_delta_floor::<T>()
    &&& st.short_steps == 0
}

/// A run from the starting point ends in `end`.
pub open spec fn whole_qp_run<T: Scalar>(
    c: QpSetting<T>,
    directs: Directs<T>,
    start: IterateView<T>,
    rho0: T,
    end: QpEnding<T>,
) -> bool {
    exists|st: QpStateView<T>| #[trigger]
        qp_starts(start, rho0, st) && qp_runs(
            c,
            directs,
            0,
            c.max_iters as nat,
            start,
            st,
            T::zero(),
            end,
        )
}

/// `newton` takes every iterate of the problem with its measures, and gives what `directs` has for it,
/// of the problem's dimensions.
pub open spec fn directions_fit<
    T: Scalar,
    N: Fn(&Iterate<T>, &Measures<T>, T, T, usize, usize) -> Option<(Direction<T>, usize)>,
>(
    prob: QpProblem<T>,
    newton: N,
    directs: Directs<T>,
) -> bool {
    &&& forall|p: &Iterate<T>, q: &Measures<T>, rho: T, delta: T, g: usize, k: usize|
        p.fits(prob) && q.r_d@.len() == prob.n() && q.r_b@.len() == prob.me() && q.r_h@.len() == prob.mi() && k
            < usize::MAX ==> #[trigger] newton.requires((p, q, rho, delta, g, k))
    &&& forall|
        p: &Iterate<T>,
        q: &Measures<T>,
        rho: T,
        delta: T,
        g: usize,
        k: usize,
        o: Option<(Direction<T>, usize)>,
    | #[trigger]
        newton.ensures((p, q, rho, delta, g, k), o) ==> {
            &&& o matches Some(d) ==> d.0@.sized(prob.n(), prob.me(), prob.mi()) && d.1 <= k + 1
            &&& directed(directs, *p, *q, rho, delta, g, k, o)
        }
}

/// Runs the orthant engine from a starting point: measures and judges each iterate, adapts the
/// regularization and moves along the direction that `newton` gives for the iterate, its measures,
/// the regularization, the number of correctors and the count of short steps. Returns the last
/// iterate, the state, the verdict, the number of the last iteration and the complementarity scalar.
pub(crate) fn run_qp<
    T: Scalar,
    N: Fn(&Iterate<T>, &Measures<T>, T, T, usize, usize) -> Option<(Direction<T>, usize)>,
>(
    prob: &QpProblem<T>,
    term: &TermScale<T>,
    acc: &QpAccess,
    eq_csr: Option<&CscMatrix<T>>,
    in_csr: Option<&CscMatrix<T>>,
    low: &Option<LowRankDiag<T>>,
    col_ineq: &[(usize, T)],
    hsd: bool,
    eps: T,
    max_iters: usize,
    start: Iterate<T>,
    rho0: T,
    newton: N,
    Ghost(directs): Ghost<Directs<T>>,
) -> (out: (Iterate<T>, QpState<T>, Verdict, usize, T))
    requires
        qp_access_fits(
            (QpSetting {
                prob: *prob,
                term: *term,
                acc: *acc,
                eq_csr: opt_deref(eq_csr),
                in_csr: opt_deref(in_csr),
                low: *low,
                col_ineq: col_ineq@,
                hsd,
                eps,
                max_iters,
            }),
        ),
        start.fits(*prob),
        directions_fit(*prob, newton, directs),
    ensures
        out.0.fits(*prob),
        out.1.best.fits(*prob),
        out.3 <= max_iters,
        whole_qp_run(
            (QpSetting {
                prob: *prob,
                term: *term,
                acc: *acc,
                eq_csr: opt_deref(eq_csr),
                in_csr: opt_deref(in_csr),
                low: *low,
                col_ineq: col_ineq@,
                hsd,
                eps,
                max_iters,
            }),
            directs,
            start@,
            rho0,
            (QpEnding {
                it: out.0@,
                best: out.1.best@,
                best_err: out.1.best_err,
                verdict: out.2,
                iters: out.3 as int,
                kappa: out.4,
            }),
        ),
{
    let ghost c = QpSetting {
        prob: *prob,
        term: *term,
        acc: *acc,
        eq_csr: opt_deref(eq_csr),
        in_csr: opt_deref(in_csr),
        low: *low,
        col_ineq: col_ineq@,
        hsd,
        eps,
        max_iters,
    };
    let mi: usize = prob.b_in.len();
    let f = data_floors(prob, term);
    let degree: T = T::from_usize(
        if mi > 0 {
            mi + 1
        } else {
            1
        },
    );
    let ghost first = start@;
    let mut st = initial_state(&start, rho0);
    let ghost init = st@;
    assert(qp_starts(first, rho0, init));
    let mut it = start;
    let mut kappa: T = T::zero();
    let mut k: usize = 0;
    // Whatever the remaining iterations make of the present iterate, the whole run makes of the
    // first one.
    while k < max_iters
        invariant
            c == (QpSetting {
                prob: *prob,
                term: *term,
                acc: *acc,
                eq_csr: opt_deref(eq_csr),
                in_csr: opt_deref(in_csr),
                low: *low,
                col_ineq: col_ineq@,
                hsd,
                eps,
                max_iters,
            }),
            qp_access_fits(c),
            directions_fit(*prob, newton, directs),
            mi == prob.mi(),
            floors_of(*prob, *term, f),
            degree == hsd_degree::<T>(mi as nat),
            first == start@,
            qp_starts(first, rho0, init),
            k <= max_iters,
            it.fits(*prob),
            st.best.fits(*prob),
            st.since <= k,
            st.lagging <= k,
            st.mu_stall <= k,
            st.short_steps <= k,
            forall|end: QpEnding<T>|
                qp_runs(c, directs, k as int, (max_iters - k) as nat, it@, st@, kappa, end)
                    ==> #[trigger] qp_runs(
                    c,
                    directs,
                    0,
                    max_iters as nat,
                    first,
                    init,
                    T::zero(),
                    end,
                ),
        decreases max_iters - k,
    {
        let ghost was = st@;
        let ghost left = (max_iters - k) as nat;
        let t = qp_terms(prob, acc, eq_csr, in_csr, low, col_ineq, &it, Ghost(c));
        let m = measure(prob, term, &f, &t, &it);
        assert(qp_terms_of(c, it@, t) && measures_of(c.prob, c.term, f, t, it@, m));
        assert(qp_measured(c, it@, m));
        let v = qp_judge(
            prob,
            acc.eq,
            eq_csr,
            acc.ain,
            in_csr,
            term.comp,
            eps,
            k,
            max_iters,
            &it,
            &m,
            &mut st,
        );
        assert(v == verdict_at(c, k as int, it@, m, was));
        assert((st.best@, st.best_err) == qp_best_after(c, it@, m, was));
        if !matches!(v, Verdict::Continue) {
            let ghost end = QpEnding {
                it: it@,
                best: st.best@,
                best_err: st.best_err,
                verdict: v,
                iters: k as int,
                kappa,
            };
            assert(qp_runs(c, directs, k as int, left, it@, was, kappa, end));
            assert(qp_runs(c, directs, 0, max_iters as nat, first, init, T::zero(), end));
            return (it, st, v, k, kappa);
        }
        qp_regularize(k == 0, &m, &mut st);
        let ghost next = qp_before_step(c, k as int, it@, m, was);
        assert(st@ == next);
        let g: usize = qp_correctors(st.lagging);
        let pr: &Iterate<T> = &it;
        let mr: &Measures<T> = &m;
        let o = newton(pr, mr, st.rho, st.delta, g, st.short_steps);
        assert(newton.ensures((pr, mr, st.rho, st.delta, g, st.short_steps), o));
        assert(directed(directs, it, m, next.rho, next.delta, correctors_for(next.lagging), next.short_steps, o));
        match o {
            None => {
                let v2 = Verdict::Accept(Status::NumericalError);
                let ghost end = QpEnding {
                    it: it@,
                    best: st.best@,
                    best_err: st.best_err,
                    verdict: v2,
                    iters: k as int,
                    kappa,
                };
                assert(qp_goes_on(c, directs, k as int, left, it@, was, kappa, m, end));
                assert(qp_runs(c, directs, k as int, left, it@, was, kappa, end));
                assert(qp_runs(c, directs, 0, max_iters as nat, first, init, T::zero(), end));
                return (it, st, v2, k, kappa);
            },
            Some((d, short)) => {
                let scale = backtrack(&it, &d);
                let new = apply_increments(&it, &d, scale);
                let ghost old_it = it@;
                let ghost old_kappa = kappa;
                assert(new@ == after_step(old_it, d@));
                let kappa2: T = if hsd {
                    track_kappa(&new.s, &new.z, m.mu, degree)
                } else {
                    kappa
                };
                assert(kappa2 == kappa_after(c, new@, m.mu, old_kappa));
                proof {
                    let st2 = QpStateView { short_steps: short, ..next };
                    assert forall|end: QpEnding<T>|
                        qp_runs(c, directs, k + 1, (left - 1) as nat, new@, st2, kappa2, end) implies
                    #[trigger] qp_runs(c, directs, 0, max_iters as nat, first, init, T::zero(), end) by {
                        assert(qp_goes_on(c, directs, k as int, left, old_it, was, old_kappa, m, end));
                        assert(qp_runs(c, directs, k as int, left, old_it, was, old_kappa, end));
                    }
                }
                it = new;
                kappa = kappa2;
                st.short_steps = short;
                k += 1;
            },
        }
    }
    let v = Verdict::Restore(Status::MaxIterations);
    let iters: usize = if k > 0 {
        k - 1
    } else {
        0
    };
    let ghost end = QpEnding {
        it: it@,
        best: st.best@,
        best_err: st.best_err,
        verdict: v,
        iters: iters as int,
        kappa,
    };
    assert(qp_runs(c, directs, k as int, 0, it@, st@, kappa, end));
    assert(qp_runs(c, directs, 0, max_iters as nat, first, init, T::zero(), end));
    (it, st, v, iters, kappa)
}

/// The best iterate is either the starting point, never measured better than infinitely bad, or an
/// iterate with this error.
pub open spec fn qp_best_is_measured<T: Scalar>(
    c: QpSetting<T>,
    first: IterateView<T>,
    best: IterateView<T>,
    best_err: T,
) -> bool {
    ||| best == first && best_err == T::infinity()
    ||| exists|m: Measures<T>| #[trigger]
        qp_measured(c, best, m) && finite_iterate(best) && best_err == qp_error(m, c.term.comp)
}

/// The iterate is finite, and every measure of it is within the tolerance.
pub open spec fn qp_within_tolerance<T: Scalar>(c: QpSetting<T>, it: IterateView<T>) -> bool {
    exists|m: Measures<T>| #[trigger]
        qp_measured(c, it, m) && finite_iterate(it) && within_tolerance(m, c.term.comp, c.eps)
}

/// A run accepts an iterate as solved only with every measure within the tolerance, names
/// infeasibility only with the test that belongs to it, and keeps the best iterate with the error that
/// was measured for it.
pub proof fn qp_runs_are_honest<T: Scalar>(
    c: QpSetting<T>,
    directs: Directs<T>,
    k: int,
    left: nat,
    first: IterateView<T>,
    it: IterateView<T>,
    st: QpStateView<T>,
    kappa: T,
    end: QpEnding<T>,
)
    requires
        qp_runs(c, directs, k, left, it, st, kappa, end),
        qp_best_is_measured(c, first, st.best, st.best_err),
    ensures
        end.verdict == Verdict::Accept(Status::Solved) ==> qp_within_tolerance(c, end.it),
        end.verdict == Verdict::Accept(Status::PrimalInfeasible) ==> qp_primal_test(
            c.prob,
            (c.acc.eq, c.eq_csr),
            (c.acc.ain, c.in_csr),
            end.it,
        ),
        end.verdict == Verdict::Accept(Status::DualInfeasible) ==> unbounded_ray(c.prob, end.it.x)
            || qp_dual_test(c.prob, (c.acc.eq, c.eq_csr), (c.acc.ain, c.in_csr), end.it),
        end.verdict != Verdict::Continue,
        qp_best_is_measured(c, first, end.best, end.best_err),
    decreases left,
{
    if left > 0 {
        let m = choose|m: Measures<T>|
            {
                let v = verdict_at(c, k, it, m, st);
                let (best, best_err) = qp_best_after(c, it, m, st);
                &&& #[trigger] qp_measured(c, it, m)
                &&& if v != Verdict::Continue {
                    end == (QpEnding { it, best, best_err, verdict: v, iters: k, kappa })
                } else {
                    qp_goes_on(c, directs, k, left, it, st, kappa, m, end)
                }
            };
        let v = verdict_at(c, k, it, m, st);
        let (best, best_err) = qp_best_after(c, it, m, st);
        assert(qp_best_is_measured(c, first, best, best_err));
        if v == Verdict::Continue {
            let next = qp_before_step(c, k, it, m, st);
            let (p, o) = choose|p: Iterate<T>, o: Option<(Direction<T>, usize)>|
                {
                    &&& p@ == it
                    &&& #[trigger] directed(
                        directs,
                        p,
                        m,
                        next.rho,
                        next.delta,
                        correctors_for(next.lagging),
                        next.short_steps,
                        o,
                    )
                    &&& match o {
                        None => end == (QpEnding {
                            it,
                            best: next.best,
                            best_err: next.best_err,
                            verdict: Verdict::Accept(Status::NumericalError),
                            iters: k,
                            kappa,
                        }),
                        Some((d, short)) => {
                            let new = after_step(it, d@);
                            qp_runs(
                                c,
                                directs,
                                k + 1,
                                (left - 1) as nat,
                                new,
                                (QpStateView { short_steps: short, ..next }),
                                kappa_after(c, new, m.mu, kappa),
                                end,
                            )
                        },
                    }
                };
            match o {
                None => {},
                Some((d, short)) => {
                    let new = after_step(it, d@);
                    qp_runs_are_honest(
                        c,
                        directs,
                        k + 1,
                        (left - 1) as nat,
                        first,
                        new,
                        (QpStateView { short_steps: short, ..next }),
                        kappa_after(c, new, m.mu, kappa),
                        end,
                    );
                },
            }
        } else {
            assert(qp_measured(c, it, m));
        }
    }
}

} // verus!
