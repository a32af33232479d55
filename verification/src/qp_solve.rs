//! The orthant engine as a whole: routing, starting point, run and result.
use crate::factor::Method;
use crate::cone::{Cone, ConeScaling};
use crate::conic_plan::{conic_systems_fit, conic_tools_fit, permutes_conic, ConicTools};
use crate::conic_route::{is_sparse_matrix, sparse_matrix};
use crate::conic_solve::{
    conic_solved, orthant, parts_fit, refused_warm_start_is_cold, rows_of, solve_orthant_qp_warm, sparse_rows_of,
    start_refused,
};
use crate::conic_step::{Iterate, IterateView};
use crate::curved::{algebra_fits, Algebra};
use crate::dualize::{dual_problem, is_dual_of, recover_primal, recovers, slack_at};
use crate::kkt::opt_deref;
use crate::lowrank::{objective, LowRankDiag};
use crate::lp_simplex::{
    bound_rows, classify_rows, consistent, empty_rows_hold, general_rows, lemma_bound_rows, lemma_general_rows,
    simplex_route, simplex_solution_is_tested, try_sparse_lp_dual_simplex, BoxLp, Vertex,
};
use crate::lr_cache::{find_low_rank, low_rank_for, search_cap, search_tolerance, suitable, Searches, SearchesView};
use crate::matrix::{diagonal_matrix, zero_matrix, DenseMatrix};
use crate::ordering::{sorting_fits, Sorting};
use crate::pc_step::Direction;
use crate::problem::{QpProblem, QpSolution, Status, TermScale, WarmStart};
use crate::products::{times, times_spec, Form};
use crate::qp_directions::{quotients, quotients_of};
use crate::qp_laws::{answers_run, infeasible_run_tells_the_truth, solved_run_answers_the_problem};
use crate::refute_laws::{descends_freely, refutes};
use crate::qp_loop::{qp_conclude, qp_delta_floor, qp_settled, rescaled, Measures};
use crate::qp_plan::{
    bounds_of, factors_fit, lemma_bound_of_row, plan_directs, plan_newton, plan_qp, planned, systems_fit,
    Factors, Plan,
};
use crate::qp_run::{
    directed, directions_fit, qp_best_is_measured, qp_runs, qp_runs_are_honest, qp_starts,
    qp_within_tolerance, run_qp, whole_qp_run, Directs, QpAccess, QpEnding, QpSetting, QpStateView,
};
use crate::qp_setup::{
    box_solution, closed_form, is_weak_hessian, low_rank_candidate, nonempty_box, offers, offers_conic,
    offers_simplex, qp_cold_slack, qp_rho_baseline, qp_rho_floor, qp_starting_point, solve_separable,
    takes_dual, weak_hessian, Settings,
};
use crate::qp_sparse::bounds_by_row;
use crate::qp_systems::{Moment, Setting};
use crate::scalar::Scalar;
use crate::separable_laws::answers_box;
use crate::simplex_laws::{answers_simplex, tested_multipliers_answer_the_problem};
use crate::sparse::CscMatrix;
use crate::vector::{constant, filled};
use crate::warm::{blended, orthant_interior, qp_warm_seed, seed_usable, Seed};
use vstd::prelude::*;

verus! {

/// The sparse rows of the inequality matrix are found where they are not given: a large sparse
/// linear or separable program without equality rows.
pub open spec fn finds_rows<T: Scalar>(prob: QpProblem<T>) -> bool {
    &&& zero_matrix(prob.p) || diagonal_matrix(prob.p)
    &&& prob.mi() > 0
    &&& sparse_matrix(prob.a_in)
    &&& prob.n() >= 64
    &&& prob.me() == 0
}

/// The sparse rows of the inequality matrix that the engine works with.
pub open spec fn working_rows<T: Scalar>(prob: QpProblem<T>, c: Option<CscMatrix<T>>) -> bool {
    if prob.a_in_csr is Some || finds_rows(prob) {
        c matches Some(rows) && rows_of(prob.a_in_csr, prob.a_in, prob.mi(), prob.n(), rows)
    } else {
        c is None
    }
}

/// Through the sparse rows where there are any, through the dense matrix else.
pub open spec fn form_for<T>(csr: Option<CscMatrix<T>>) -> Form {
    if csr is Some {
        Form::Rows
    } else {
        Form::Dense
    }
}

/// How the matrices of the problem are multiplied.
pub open spec fn qp_access_for<T: Scalar>(
    prob: QpProblem<T>,
    settings: Settings<T>,
    in_csr: Option<CscMatrix<T>>,
) -> QpAccess {
    QpAccess {
        p_zero: zero_matrix(prob.p) && !settings.hsd,
        p_diagonal: diagonal_matrix(prob.p),
        eq: form_for(prob.a_eq_csr),
        ain: form_for(in_csr),
    }
}

/// The starting point of the warm start: none where it cannot be used or where a blended entry is
/// not inside.
pub open spec fn qp_seed<T: Scalar>(prob: QpProblem<T>, init: Option<&WarmStart<T>>, r: Option<Seed<T>>) -> bool {
    &&& r is Some <==> (init matches Some(ws) && seed_usable(prob, *ws) && orthant_interior(
        slack_at(prob, ws.x@),
        ws.z@,
    ))
    &&& r matches Some(seed) ==> {
        let ws = *(init->0);
        &&& seed.x@ == ws.x@
        &&& seed.s@ == blended(slack_at(prob, ws.x@))
        &&& seed.z@ == blended(ws.z@)
    }
}

/// The starting point: the warm start where it can be used, the cold start else, without equality
/// multipliers.
pub open spec fn qp_first_iterate<T: Scalar>(
    prob: QpProblem<T>,
    ain: Form,
    in_csr: Option<CscMatrix<T>>,
    warm: Option<Seed<T>>,
) -> IterateView<T> {
    let y = constant(T::zero(), prob.me());
    match warm {
        Some(w) => IterateView { x: w.x@, y, s: w.s@, z: w.z@ },
        None => {
            let x = constant(T::zero(), prob.n());
            IterateView {
                x,
                y,
                s: qp_cold_slack(prob, times_spec(ain, in_csr, prob.a_in, x)),
                z: constant(T::one(), prob.mi()),
            }
        },
    }
}

/// `sol` is the result of a run that ends in `end`.
pub open spec fn qp_concludes<T: Scalar>(
    prob: QpProblem<T>,
    hsd: bool,
    eps: T,
    end: QpEnding<T>,
    sol: QpSolution<T>,
) -> bool {
    let (last, status) = qp_settled(end.verdict, end.it, end.best, end.best_err, eps);
    let obj = objective(prob, last.x);
    let one = T::one();
    let divide = hsd && T::decimal(1, 12).below(one);
    let t = one.over(one);
    &&& sol.status == status
    &&& sol.iters == end.iters
    &&& sol.tau == one
    &&& sol.kappa == end.kappa
    &&& divide ==> sol.x@ == rescaled(last.x, t) && sol.y@ == rescaled(last.y, t) && sol.s@ == rescaled(
        last.s,
        t,
    ) && sol.z@ == rescaled(last.z, t) && sol.obj_val == obj.times(t)
    &&& !divide ==> sol.x@ == last.x && sol.y@ == last.y && sol.s@ == last.s && sol.z@ == last.z
        && sol.obj_val == obj
}

/// The course of a solve: what the other methods gave, the low-rank form of the Hessian, the warm
/// start, the sparse rows, the prepared system and the ending of the run.
pub ghost struct QpCourse<T> {
    pub quick: Option<QpSolution<T>>,
    pub conic: Option<QpSolution<T>>,
    pub low: Option<LowRankDiag<T>>,
    pub warm: Option<Seed<T>>,
    pub in_csr: Option<CscMatrix<T>>,
    pub plan: Plan<T>,
    pub end: QpEnding<T>,
}

/// What the conic engine may give: for a problem and a warm start, a solution.
pub type Conics<T> = spec_fn(QpProblem<T>, Option<WarmStart<T>>, QpSolution<T>) -> bool;

/// The warm start that is referred to.
pub open spec fn given<T>(init: Option<&WarmStart<T>>) -> Option<WarmStart<T>> {
    match init {
        Some(w) => Some(*w),
        None => None,
    }
}

/// `sol` is what the conic engine may give for the problem.
pub open spec fn granted<T>(
    conics: Conics<T>,
    prob: QpProblem<T>,
    init: Option<WarmStart<T>>,
    sol: QpSolution<T>,
) -> bool {
    conics(prob, init, sol)
}

/// What the conic engine gave for the problem: nothing where the problem is not offered to it or
/// where it ran out of iterations.
pub open spec fn conic_route<T: Scalar>(
    prob: QpProblem<T>,
    init: Option<&WarmStart<T>>,
    conics: Conics<T>,
    r: Option<QpSolution<T>>,
) -> bool {
    if offers_conic(prob) {
        exists|sol: QpSolution<T>| #[trigger]
            granted(conics, prob, given(init), sol) && r == (if sol.status == Status::MaxIterations {
                None
            } else {
                Some(sol)
            })
    } else {
        r is None
    }
}

/// The conic engine takes the problem, and gives what it may.
pub open spec fn conic_fits<T: Scalar, C: Fn(&QpProblem<T>, Option<&WarmStart<T>>) -> QpSolution<T>>(
    prob: QpProblem<T>,
    init: Option<&WarmStart<T>>,
    conic: C,
    conics: Conics<T>,
) -> bool {
    &&& forall|p: &QpProblem<T>| *p == prob ==> #[trigger] conic.requires((p, init))
    &&& forall|p: &QpProblem<T>, sol: QpSolution<T>|
        *p == prob && #[trigger] conic.ensures((p, init), sol) ==> sol.sized(prob.n(), prob.me(), prob.mi())
            && granted(conics, prob, given(init), sol)
}

/// The setting of the run.
pub open spec fn qp_setting<T: Scalar>(
    prob: QpProblem<T>,
    settings: Settings<T>,
    term: TermScale<T>,
    v: QpCourse<T>,
) -> QpSetting<T> {
    QpSetting {
        prob,
        term,
        acc: qp_access_for(prob, settings, v.in_csr),
        eq_csr: prob.a_eq_csr,
        in_csr: v.in_csr,
        low: v.low,
        col_ineq: bounds_of(prob),
        hsd: settings.hsd && zero_matrix(prob.p),
        eps: settings.eps_abs,
        max_iters: settings.max_iters,
    }
}

/// The system of the run is prepared at the starting point.
pub open spec fn qp_prepared<
    T: Scalar,
    O: Fn(&CscMatrix<T>) -> Vec<usize>,
    R: Fn(&CscMatrix<T>) -> Vec<usize>,
    U: Fn(&CscMatrix<T>, &[usize]) -> CscMatrix<T>,
>(
    prob: QpProblem<T>,
    settings: Settings<T>,
    sort: Sorting<O, R, U>,
    v: QpCourse<T>,
) -> bool {
    let first = qp_first_iterate(prob, form_for(v.in_csr), v.in_csr, v.warm);
    planned(
        prob,
        settings,
        v.low is Some,
        v.in_csr,
        qp_rho_floor(prob),
        qp_delta_floor(),
        quotients(first.s, first.z),
        sort,
        v.plan,
    )
}

/// `c` is what the systems of the run have in common.
pub open spec fn is_setting<T: Scalar>(
    prob: QpProblem<T>,
    settings: Settings<T>,
    term: TermScale<T>,
    in_csr: Option<CscMatrix<T>>,
    c: Setting<T>,
) -> bool {
    &&& *c.prob == prob
    &&& c.units@ == bound_rows(prob, prob.mi())
    &&& c.general@ == general_rows(prob, prob.mi())
    &&& c.weak == weak_hessian(prob, term)
    &&& c.rho0 == qp_rho_floor(prob)
    &&& c.eps == settings.eps_abs
    &&& c.ain == form_for(in_csr)
    &&& opt_deref(c.in_csr) == in_csr
}

/// `t` is the moment with these parts.
pub open spec fn is_moment<T: Scalar>(
    p: Iterate<T>,
    m: Measures<T>,
    rho: T,
    delta: T,
    g: usize,
    k: usize,
    t: Moment<T>,
) -> bool {
    *t.it == p && *t.m == m && t.rho == rho && t.delta == delta && t.correctors == g && t.short == k
}

/// The directions that the prepared system gives.
pub open spec fn plan_relation<
    T: Scalar,
    F: Fn(&[T]) -> Vec<T>,
    G: Fn(&[T]) -> Vec<T>,
    K: Fn(&DenseMatrix<T>, Method<T>) -> Option<F>,
    P: Fn(&DenseMatrix<T>) -> F,
    S: Fn(&CscMatrix<T>, T) -> Option<G>,
>(
    prob: QpProblem<T>,
    settings: Settings<T>,
    term: TermScale<T>,
    v: QpCourse<T>,
    tools: Factors<K, P, S>,
) -> Directs<T> {
    |p: Iterate<T>, m: Measures<T>, rho: T, delta: T, g: usize, k: usize, o: Option<(Direction<T>, usize)>|
        exists|c: Setting<T>, t: Moment<T>|
            is_setting(prob, settings, term, v.in_csr, c) && is_moment(p, m, rho, delta, g, k, t)
                && #[trigger] plan_directs(c, t, v.low, v.plan, tools, o)
}

/// The iterate passed a test of the run: every measure of it is within the tolerance, or the error that
/// was measured for it as the best iterate is. The starting point counts as measured only where infinity
/// is within the tolerance.
pub open spec fn qp_tested<T: Scalar>(c: QpSetting<T>, first: IterateView<T>, last: IterateView<T>) -> bool {
    ||| qp_within_tolerance(c, last)
    ||| exists|err: T| #[trigger] qp_best_is_measured(c, first, last, err) && err.at_most(c.eps)
}

/// The solution passed its test: in closed form the bounds leave room, and the unknowns are their own
/// optimum between them; from the simplex method the multipliers are consistent; from the conic engine
/// its own contract states the test; and from the run it is that of the iterate that the run ended with.
/// What is said of the problem is true of its own matrices, where the numbers are read exactly.
pub open spec fn qp_tested_along<T: Scalar>(
    prob: QpProblem<T>,
    settings: Settings<T>,
    term: TermScale<T>,
    v: QpCourse<T>,
    sol: QpSolution<T>,
) -> bool {
    let c = qp_setting(prob, settings, term, v);
    if closed_form(prob, settings.eps_abs) {
        nonempty_box(prob) && answers_box(prob, settings.eps_abs, sol)
    } else if v.quick is Some {
        consistent(prob, sol.s@, sol.z@) && empty_rows_hold(prob) && answers_simplex(prob, sol)
    } else if v.conic is None {
        qp_tested(
            c,
            qp_first_iterate(prob, c.acc.ain, v.in_csr, v.warm),
            qp_settled(v.end.verdict, v.end.it, v.end.best, v.end.best_err, settings.eps_abs).0,
        ) && answers_run(prob, settings.eps_abs, term.comp, v.low, sol)
    } else {
        true
    }
}

/// Infeasibility that the run reports is true of the problem's own matrices, where the numbers are read
/// exactly.
pub open spec fn qp_refuted_along<T: Scalar>(
    prob: QpProblem<T>,
    settings: Settings<T>,
    v: QpCourse<T>,
    sol: QpSolution<T>,
) -> bool {
    !closed_form(prob, settings.eps_abs) && v.quick is None && v.conic is None ==> {
        &&& sol.status == Status::PrimalInfeasible ==> refutes(prob, settings.eps_abs)
        &&& sol.status == Status::DualInfeasible ==> descends_freely(prob, settings.eps_abs)
    }
}

/// `sol` solves the problem along the course `v`, not through its dual: in closed form where it is
/// separable with positive curvature and its bounds leave room or contradict each other clearly; else by
/// the first of the simplex method and the conic engine that the problem is offered to and that gives a
/// solution; else by the interior-point run. What is reported as solved has passed its test. What was
/// known of low-rank forms is `before`, and what is known then `after`.
pub open spec fn qp_solved_directly<
    T: Scalar,
    X: Fn(&BoxLp<T>) -> Option<Vertex<T>>,
    L: Fn(&DenseMatrix<T>, T, usize) -> Option<LowRankDiag<T>>,
    O: Fn(&CscMatrix<T>) -> Vec<usize>,
    R: Fn(&CscMatrix<T>) -> Vec<usize>,
    U: Fn(&CscMatrix<T>, &[usize]) -> CscMatrix<T>,
    F: Fn(&[T]) -> Vec<T>,
    G: Fn(&[T]) -> Vec<T>,
    K: Fn(&DenseMatrix<T>, Method<T>) -> Option<F>,
    P: Fn(&DenseMatrix<T>) -> F,
    S: Fn(&CscMatrix<T>, T) -> Option<G>,
>(
    prob: QpProblem<T>,
    settings: Settings<T>,
    term: TermScale<T>,
    init: Option<&WarmStart<T>>,
    before: SearchesView<T>,
    simplex: X,
    conics: Conics<T>,
    detect: L,
    sort: Sorting<O, R, U>,
    tools: Factors<K, P, S>,
    v: QpCourse<T>,
    after: SearchesView<T>,
    sol: QpSolution<T>,
) -> bool {
    &&& sol.status == Status::Solved ==> qp_tested_along(prob, settings, term, v, sol)
    &&& qp_refuted_along(prob, settings, v, sol)
    &&& if closed_form(prob, settings.eps_abs) {
        sol.parts() == box_solution(prob, settings.eps_abs) && sol.plain() && after == before
    } else {
        &&& if offers_simplex(prob) {
            simplex_route(prob, simplex, v.quick)
        } else {
            v.quick is None
        }
        &&& match v.quick {
            Some(q) => sol == q && after == before,
            None => {
                &&& conic_route(prob, init, conics, v.conic)
                &&& match v.conic {
                    Some(c) => sol == c && after == before,
                    None => {
                        &&& low_rank_for(
                            prob,
                            general_rows(prob, prob.mi()).len(),
                            before,
                            detect,
                            after,
                            v.low,
                        )
                        &&& qp_prepared(prob, settings, sort, v)
                        &&& qp_interior(
                            prob,
                            settings,
                            term,
                            init,
                            plan_relation(prob, settings, term, v, tools),
                            v,
                            sol,
                        )
                    },
                }
            },
        }
    }
}

/// `r` is the solution that the dual of the problem gives, which is solved from the cold start and
/// unscaled, and not through a dual again.
pub open spec fn dual_route<
    T: Scalar,
    X: Fn(&BoxLp<T>) -> Option<Vertex<T>>,
    L: Fn(&DenseMatrix<T>, T, usize) -> Option<LowRankDiag<T>>,
    O: Fn(&CscMatrix<T>) -> Vec<usize>,
    R: Fn(&CscMatrix<T>) -> Vec<usize>,
    U: Fn(&CscMatrix<T>, &[usize]) -> CscMatrix<T>,
    F: Fn(&[T]) -> Vec<T>,
    G: Fn(&[T]) -> Vec<T>,
    K: Fn(&DenseMatrix<T>, Method<T>) -> Option<F>,
    P: Fn(&DenseMatrix<T>) -> F,
    S: Fn(&CscMatrix<T>, T) -> Option<G>,
>(
    prob: QpProblem<T>,
    settings: Settings<T>,
    before: SearchesView<T>,
    simplex: X,
    conics: Conics<T>,
    detect: L,
    sort: Sorting<O, R, U>,
    tools: Factors<K, P, S>,
    after: SearchesView<T>,
    r: Option<QpSolution<T>>,
) -> bool {
    exists|d: QpProblem<T>, term: TermScale<T>, v: QpCourse<T>, sol: QpSolution<T>|
        {
            &&& is_dual_of(prob, d)
            &&& unscaled(d.n(), d.me(), d.mi(), term)
            &&& #[trigger] qp_solved_directly(
                d,
                settings.undualized(),
                term,
                None,
                before,
                simplex,
                conics,
                detect,
                sort,
                tools,
                v,
                after,
                sol,
            )
            &&& recovers(prob, sol, r)
        }
}

/// The problem is tried through its dual first.
pub open spec fn tries_dual<T: Scalar>(prob: QpProblem<T>, settings: Settings<T>) -> bool {
    takes_dual(prob, settings) && !closed_form(prob, settings.eps_abs)
}

/// `sol` solves the problem: through its dual where it is tried and gives a solution, and else along the
/// course `v`. What was known of low-rank forms is `before`, and what is known then `after`.
pub open spec fn qp_solved_along<
    T: Scalar,
    X: Fn(&BoxLp<T>) -> Option<Vertex<T>>,
    L: Fn(&DenseMatrix<T>, T, usize) -> Option<LowRankDiag<T>>,
    O: Fn(&CscMatrix<T>) -> Vec<usize>,
    R: Fn(&CscMatrix<T>) -> Vec<usize>,
    U: Fn(&CscMatrix<T>, &[usize]) -> CscMatrix<T>,
    F: Fn(&[T]) -> Vec<T>,
    G: Fn(&[T]) -> Vec<T>,
    K: Fn(&DenseMatrix<T>, Method<T>) -> Option<F>,
    P: Fn(&DenseMatrix<T>) -> F,
    S: Fn(&CscMatrix<T>, T) -> Option<G>,
>(
    prob: QpProblem<T>,
    settings: Settings<T>,
    term: TermScale<T>,
    init: Option<&WarmStart<T>>,
    before: SearchesView<T>,
    simplex: X,
    conics: Conics<T>,
    detect: L,
    sort: Sorting<O, R, U>,
    tools: Factors<K, P, S>,
    v: QpCourse<T>,
    after: SearchesView<T>,
    sol: QpSolution<T>,
) -> bool {
    if tries_dual(prob, settings) {
        exists|mid: SearchesView<T>, r: Option<QpSolution<T>>|
            {
                &&& #[trigger] dual_route(
                    prob,
                    settings,
                    before,
                    simplex,
                    conics,
                    detect,
                    sort,
                    tools,
                    mid,
                    r,
                )
                &&& match r {
                    Some(d) => sol == d && after == mid,
                    None => qp_solved_directly(
                        prob,
                        settings,
                        term,
                        init,
                        mid,
                        simplex,
                        conics,
                        detect,
                        sort,
                        tools,
                        v,
                        after,
                        sol,
                    ),
                }
            }
    } else {
        qp_solved_directly(
            prob,
            settings,
            term,
            init,
            before,
            simplex,
            conics,
            detect,
            sort,
            tools,
            v,
            after,
            sol,
        )
    }
}

/// `sol` is the result of the interior-point run.
pub open spec fn qp_interior<T: Scalar>(
    prob: QpProblem<T>,
    settings: Settings<T>,
    term: TermScale<T>,
    init: Option<&WarmStart<T>>,
    directs: Directs<T>,
    v: QpCourse<T>,
    sol: QpSolution<T>,
) -> bool {
    let c = qp_setting(prob, settings, term, v);
    &&& working_rows(prob, v.in_csr)
    &&& qp_seed(prob, init, v.warm)
    &&& whole_qp_run(
        c,
        directs,
        qp_first_iterate(prob, c.acc.ain, v.in_csr, v.warm),
        qp_rho_floor(prob),
        v.end,
    )
    &&& qp_concludes(prob, c.hsd, settings.eps_abs, v.end, sol)
}

/// The search for a low-rank form takes the Hessian, and what it finds has the Hessian's order.
pub open spec fn search_fits<T: Scalar, L: Fn(&DenseMatrix<T>, T, usize) -> Option<LowRankDiag<T>>>(
    prob: QpProblem<T>,
    detect: L,
) -> bool {
    &&& low_rank_candidate(prob.n(), prob.me(), general_rows(prob, prob.mi()).len()) ==> detect.requires(
        (&prob.p, search_tolerance(), search_cap(prob.n()) as usize),
    )
    &&& forall|lr: LowRankDiag<T>| #[trigger]
        detect.ensures((&prob.p, search_tolerance(), search_cap(prob.n()) as usize), Some(lr)) ==> lr.fits(prob.n())
}

/// A low-rank form that the run uses has the sizes of the problem, and the square of its system's
/// dimension can be counted.
proof fn lemma_low_rank_fits<T: Scalar, L: Fn(&DenseMatrix<T>, T, usize) -> Option<LowRankDiag<T>>>(
    prob: QpProblem<T>,
    before: SearchesView<T>,
    detect: L,
    after: SearchesView<T>,
    low: Option<LowRankDiag<T>>,
)
    requires
        prob.wf(),
        search_fits(prob, detect),
        systems_fit(prob, None),
        low_rank_for(prob, general_rows(prob, prob.mi()).len(), before, detect, after, low),
    ensures
        low matches Some(lr) ==> lr.fits(prob.n()) && prob.n() > 0,
        systems_fit(prob, low),
{
    if let Some(lr) = low {
        assert(suitable(lr, prob.n()));
        assert(lr.fits(prob.n()));
        let a = (lr.rank + prob.me()) as int;
        let b = (prob.n() + prob.me() + prob.mi()) as int;
        assert(a * a <= b * b) by (nonlinear_arith)
            requires
                0 <= a <= b,
        ;
        assert(b <= b * b) by (nonlinear_arith)
            requires
                0 <= b,
        ;
    }
}

/// Solves a convex quadratic program, not through its dual.
#[verifier::rlimit(60)]
fn solve_directly<
    T: Scalar,
    X: Fn(&BoxLp<T>) -> Option<Vertex<T>>,
    C: Fn(&QpProblem<T>, Option<&WarmStart<T>>) -> QpSolution<T>,
    L: Fn(&DenseMatrix<T>, T, usize) -> Option<LowRankDiag<T>>,
    O: Fn(&CscMatrix<T>) -> Vec<usize>,
    R: Fn(&CscMatrix<T>) -> Vec<usize>,
    U: Fn(&CscMatrix<T>, &[usize]) -> CscMatrix<T>,
    F: Fn(&[T]) -> Vec<T>,
    G: Fn(&[T]) -> Vec<T>,
    K: Fn(&DenseMatrix<T>, Method<T>) -> Option<F>,
    P: Fn(&DenseMatrix<T>) -> F,
    S: Fn(&CscMatrix<T>, T) -> Option<G>,
>(
    prob: &QpProblem<T>,
    settings: &Settings<T>,
    term: &TermScale<T>,
    init: Option<&WarmStart<T>>,
    known: &mut Searches<T>,
    simplex: &X,
    conic: &C,
    Ghost(conics): Ghost<Conics<T>>,
    detect: &L,
    sort: &Sorting<O, R, U>,
    tools: &Factors<K, P, S>,
) -> (sol: QpSolution<T>)
    requires
        prob.wf(),
        term.fits(prob.n(), prob.me(), prob.mi()),
        qp_parts_fit(*prob, *simplex, *detect),
        offers_conic(*prob) ==> conic_fits(*prob, init, *conic, conics),
        sorting_fits(*sort),
        factors_fit(*tools),
    ensures
        sol.sized(prob.n(), prob.me(), prob.mi()),
        exists|v: QpCourse<T>| #[trigger]
            qp_solved_directly(
                *prob,
                *settings,
                *term,
                init,
                old(known)@,
                *simplex,
                conics,
                *detect,
                *sort,
                *tools,
                v,
                final(known)@,
                sol,
            ),
{
    let n: usize = prob.q.len();
    let me: usize = prob.b_eq.len();
    let mi: usize = prob.b_in.len();
    let classes = classify_rows(prob);
    let ghost mut v = QpCourse {
        quick: None,
        conic: None,
        low: None,
        warm: None,
        in_csr: None,
        plan: Plan::Reduced,
        end: arbitrary(),
    };
    match solve_separable(prob, &classes, settings.eps_abs) {
        Some(sol) => {
            assert(qp_solved_directly(
                *prob,
                *settings,
                *term,
                init,
                old(known)@,
                *simplex,
                conics,
                *detect,
                *sort,
                *tools,
                v,
                known@,
                sol,
            ));
            return sol;
        },
        None => {},
    }
    let to = offers(prob, settings);
    if to.simplex {
        let r = try_sparse_lp_dual_simplex(prob, simplex);
        proof {
            v = QpCourse { quick: r, ..v };
        }
        match r {
            Some(sol) => {
                proof {
                    simplex_solution_is_tested(*prob, *simplex, sol);
                    tested_multipliers_answer_the_problem(*prob, sol);
                }
                assert(qp_solved_directly(
                    *prob,
                    *settings,
                    *term,
                    init,
                    old(known)@,
                    *simplex,
                    conics,
                    *detect,
                    *sort,
                    *tools,
                    v,
                    known@,
                    sol,
                ));
                return sol;
            },
            None => {},
        }
    }
    if to.conic {
        let sol = conic(prob, init);
        assert(granted(conics, *prob, given(init), sol));
        if !matches!(sol.status, Status::MaxIterations) {
            proof {
                v = QpCourse { conic: Some(sol), ..v };
                assert(conic_route(*prob, init, conics, v.conic));
                assert(qp_solved_directly(
                    *prob,
                    *settings,
                    *term,
                    init,
                    old(known)@,
                    *simplex,
                    conics,
                    *detect,
                    *sort,
                    *tools,
                    v,
                    known@,
                    sol,
                ));
            }
            return sol;
        }
        assert(conic_route(*prob, init, conics, None));
    }
    let low = find_low_rank(prob, classes.general.len(), known, detect);
    proof {
        lemma_low_rank_fits(*prob, old(known)@, *detect, known@, low);
    }
    let p_zero: bool = prob.p.is_zero();
    let p_diagonal: bool = prob.p.is_diagonal();
    let hsd: bool = settings.hsd && p_zero;
    let finds: bool = (p_zero || p_diagonal) && mi > 0 && is_sparse_matrix(&prob.a_in) && n >= 64 && me == 0;
    let in_csr: Option<CscMatrix<T>> = if prob.a_in_csr.is_some() || finds {
        Some(sparse_rows_of(&prob.a_in_csr, &prob.a_in, mi, n))
    } else {
        None
    };
    let eq_form = if prob.a_eq_csr.is_some() {
        Form::Rows
    } else {
        Form::Dense
    };
    let in_form = if in_csr.is_some() {
        Form::Rows
    } else {
        Form::Dense
    };
    let acc = QpAccess { p_zero: p_zero && !settings.hsd, p_diagonal, eq: eq_form, ain: in_form };
    let in_ref: Option<&CscMatrix<T>> = in_csr.as_ref();
    let eq_ref: Option<&CscMatrix<T>> = prob.a_eq_csr.as_ref();
    assert(opt_deref(in_ref) == in_csr);
    assert(opt_deref(eq_ref) == prob.a_eq_csr);
    let rho0: T = qp_rho_baseline(prob);
    let warm = qp_warm_seed(prob, init);
    let ghost warm_view = warm;
    let none: Vec<T> = filled(T::zero(), n);
    let ainx0 = times(acc.ain, in_ref, &prob.a_in, &none);
    let seed = qp_starting_point(prob, &ainx0, warm);
    let start = Iterate { x: seed.x, y: filled(T::zero(), me), s: seed.s, z: seed.z };
    assert(start@ == qp_first_iterate(*prob, acc.ain, in_csr, warm_view));
    proof {
        lemma_bound_rows(*prob, mi as nat);
        lemma_bound_of_row(*prob, classes.singleton@, classes.singleton@.len());
    }
    let col_ineq = bounds_by_row(mi, &classes.singleton);
    assert(col_ineq@ == bounds_of(*prob));
    let dz = quotients_of(&start.s, &start.z);
    let plan = plan_qp(prob, settings, &classes, &low, in_ref, rho0, T::decimal(1, 8), &dz, sort);
    let setting = Setting {
        prob,
        units: &classes.singleton,
        general: &classes.general,
        weak: is_weak_hessian(prob, term),
        rho0,
        eps: settings.eps_abs,
        ain: acc.ain,
        in_csr: in_ref,
    };
    proof {
        v = QpCourse { low, warm: warm_view, in_csr, plan, ..v };
        assert(is_setting(*prob, *settings, *term, in_csr, setting));
        assert(qp_prepared(*prob, *settings, *sort, v));
        lemma_bound_rows(*prob, mi as nat);
        lemma_general_rows(*prob, mi as nat);
        assert(setting.wf());
    }
    let rel = Ghost(plan_relation(*prob, *settings, *term, v, *tools));
    let ghost (gn, gme, gmi) = (prob.n(), prob.me(), prob.mi());
    let newton = |p: &Iterate<T>, q: &Measures<T>, rho: T, delta: T, g: usize, k: usize| -> (o: Option<
        (Direction<T>, usize),
    >)
        requires
            p.s@.len() == gmi,
            p.z@.len() == gmi,
            q.r_d@.len() == gn,
            q.r_b@.len() == gme,
            q.r_h@.len() == gmi,
            k < usize::MAX,
        ensures
            o matches Some(d) ==> d.0@.sized(gn, gme, gmi) && d.1 <= k + 1,
            directed(rel@, *p, *q, rho, delta, g, k, o),
    {
        let t = Moment { it: p, m: q, rho, delta, correctors: g, short: k };
        let o = plan_newton(&setting, &t, &low, &plan, tools);
        assert(is_moment(*p, *q, rho, delta, g, k, t));
        o
    };
    assert(directions_fit(*prob, newton, rel@));
    let (it, st, verdict, iters, kappa) = run_qp(
        prob,
        term,
        &acc,
        eq_ref,
        in_ref,
        &low,
        &col_ineq,
        hsd,
        settings.eps_abs,
        settings.max_iters,
        start,
        rho0,
        newton,
        rel,
    );
    let ghost end = QpEnding {
        it: it@,
        best: st.best@,
        best_err: st.best_err,
        verdict,
        iters: iters as int,
        kappa,
    };
    let sol = qp_conclude(prob, hsd, kappa, verdict, it, st, settings.eps_abs, iters);
    proof {
        v = QpCourse { end, ..v };
        assert(qp_setting(*prob, *settings, *term, v) == (QpSetting {
            prob: *prob,
            term: *term,
            acc,
            eq_csr: opt_deref(eq_ref),
            in_csr: opt_deref(in_ref),
            low,
            col_ineq: col_ineq@,
            hsd,
            eps: settings.eps_abs,
            max_iters: settings.max_iters,
        }));
        assert(qp_interior(*prob, *settings, *term, init, rel@, v, sol));
        if sol.status == Status::Solved {
            qp_solved_is_tested(*prob, *settings, *term, init, rel@, v, sol);
            solved_run_answers_the_problem(*prob, *settings, *term, v, sol);
        }
        infeasible_run_tells_the_truth(*prob, *settings, *term, init, rel@, v, sol);
        assert(qp_solved_directly(
            *prob,
            *settings,
            *term,
            init,
            old(known)@,
            *simplex,
            conics,
            *detect,
            *sort,
            *tools,
            v,
            known@,
            sol,
        ));
    }
    sol
}

/// The outside parts take what the solve of this problem hands them, what they return has the sizes of
/// the problem, and the sizes of its systems can be counted.
pub open spec fn qp_parts_fit<
    T: Scalar,
    X: Fn(&BoxLp<T>) -> Option<Vertex<T>>,
    L: Fn(&DenseMatrix<T>, T, usize) -> Option<LowRankDiag<T>>,
>(prob: QpProblem<T>, simplex: X, detect: L) -> bool {
    &&& offers_simplex(prob) ==> prob.mi() * (prob.n() + prob.mi()) <= usize::MAX
    &&& forall|lp: &BoxLp<T>| #[trigger] simplex.requires((lp,))
    &&& forall|lp: &BoxLp<T>, v: Vertex<T>| #[trigger]
        simplex.ensures((lp,), Some(v)) ==> v.x@.len() == lp.c@.len() && v.pi@.len() == lp.b@.len()
    &&& search_fits(prob, detect)
    &&& systems_fit(prob, None)
}

/// What the conic engine may give over the nonnegative orthant.
pub open spec fn orthant_relation<
    T: Scalar,
    X: Fn(&BoxLp<T>) -> Option<Vertex<T>>,
    M: Fn(Cone, &[T]) -> T,
    F: Fn(&[T]) -> Vec<T>,
    G: Fn(&[T]) -> Vec<T>,
    A: Fn(Cone, &[T], &[T]) -> (ConeScaling<T>, Vec<T>),
    CO: Fn(&CscMatrix<T>) -> Vec<usize>,
    CU: Fn(&CscMatrix<T>, &[usize]) -> CscMatrix<T>,
    CK: Fn(&DenseMatrix<T>, Method<T>) -> Option<F>,
    V: Fn(&DenseMatrix<T>) -> F,
    E: Fn(&[T], &[T]) -> (T, Vec<T>),
    CS: Fn(&CscMatrix<T>, T) -> Option<G>,
    Q: Fn(&[ConeScaling<T>], T) -> F,
    I: Fn(Cone) -> Vec<T>,
    CR: Fn(Cone, &[T], &[T]) -> T,
    CC: Fn(&ConeScaling<T>, &[T], bool) -> Vec<T>,
    CP: Fn(Cone, &[T], &[T]) -> Vec<T>,
    Y: Fn(Cone, &[T], &[T]) -> Vec<T>,
    Z: Fn(Cone, &[T], T, T) -> Vec<T>,
>(
    settings: Settings<T>,
    simplex: X,
    margin: M,
    engine: ConicTools<A, CO, CU, CK, V, E, CS, Q>,
    al: Algebra<I, CR, CC, CP, Y, Z>,
) -> Conics<T> {
    |p: QpProblem<T>, init: Option<WarmStart<T>>, sol: QpSolution<T>|
        exists|w: Option<&WarmStart<T>>|
            given(w) == init && #[trigger] conic_solved(
                p,
                orthant(p.mi()),
                settings,
                w,
                simplex,
                margin,
                engine,
                al,
                sol,
            )
}

/// The conic engine takes this problem over the nonnegative orthant.
pub open spec fn orthant_fits<
    T: Scalar,
    F: Fn(&[T]) -> Vec<T>,
    G: Fn(&[T]) -> Vec<T>,
    A: Fn(Cone, &[T], &[T]) -> (ConeScaling<T>, Vec<T>),
    CO: Fn(&CscMatrix<T>) -> Vec<usize>,
    CU: Fn(&CscMatrix<T>, &[usize]) -> CscMatrix<T>,
    CK: Fn(&DenseMatrix<T>, Method<T>) -> Option<F>,
    V: Fn(&DenseMatrix<T>) -> F,
    E: Fn(&[T], &[T]) -> (T, Vec<T>),
    CS: Fn(&CscMatrix<T>, T) -> Option<G>,
    Q: Fn(&[ConeScaling<T>], T) -> F,
    I: Fn(Cone) -> Vec<T>,
    CR: Fn(Cone, &[T], &[T]) -> T,
    CC: Fn(&ConeScaling<T>, &[T], bool) -> Vec<T>,
    CP: Fn(Cone, &[T], &[T]) -> Vec<T>,
    Y: Fn(Cone, &[T], &[T]) -> Vec<T>,
    Z: Fn(Cone, &[T], T, T) -> Vec<T>,
>(
    prob: QpProblem<T>,
    engine: ConicTools<A, CO, CU, CK, V, E, CS, Q>,
    al: Algebra<I, CR, CC, CP, Y, Z>,
) -> bool {
    &&& conic_systems_fit(prob, orthant(prob.mi()))
    &&& permutes_conic(prob, orthant(prob.mi()), engine.permute)
    &&& conic_tools_fit(orthant(prob.mi()), engine)
    &&& algebra_fits(orthant(prob.mi()), al)
}

/// Solves over the nonnegative orthant with the conic engine.
fn solve_orthant<
    T: Scalar,
    X: Fn(&BoxLp<T>) -> Option<Vertex<T>>,
    M: Fn(Cone, &[T]) -> T,
    F: Fn(&[T]) -> Vec<T>,
    G: Fn(&[T]) -> Vec<T>,
    A: Fn(Cone, &[T], &[T]) -> (ConeScaling<T>, Vec<T>),
    CO: Fn(&CscMatrix<T>) -> Vec<usize>,
    CU: Fn(&CscMatrix<T>, &[usize]) -> CscMatrix<T>,
    CK: Fn(&DenseMatrix<T>, Method<T>) -> Option<F>,
    V: Fn(&DenseMatrix<T>) -> F,
    E: Fn(&[T], &[T]) -> (T, Vec<T>),
    CS: Fn(&CscMatrix<T>, T) -> Option<G>,
    Q: Fn(&[ConeScaling<T>], T) -> F,
    I: Fn(Cone) -> Vec<T>,
    CR: Fn(Cone, &[T], &[T]) -> T,
    CC: Fn(&ConeScaling<T>, &[T], bool) -> Vec<T>,
    CP: Fn(Cone, &[T], &[T]) -> Vec<T>,
    Y: Fn(Cone, &[T], &[T]) -> Vec<T>,
    Z: Fn(Cone, &[T], T, T) -> Vec<T>,
>(
    prob: &QpProblem<T>,
    settings: &Settings<T>,
    init: Option<&WarmStart<T>>,
    simplex: &X,
    margin: &M,
    engine: &ConicTools<A, CO, CU, CK, V, E, CS, Q>,
    al: &Algebra<I, CR, CC, CP, Y, Z>,
) -> (sol: QpSolution<T>)
    requires
        prob.wf(),
        parts_fit(*simplex, *margin),
        orthant_fits(*prob, *engine, *al),
    ensures
        sol.sized(prob.n(), prob.me(), prob.mi()),
        granted(orthant_relation(*settings, *simplex, *margin, *engine, *al), *prob, given(init), sol),
{
    solve_orthant_qp_warm(prob, settings, init, simplex, margin, engine, al)
}

/// The outside parts fit the problem, and its dual where that is tried.
pub open spec fn qp_engines_fit<
    T: Scalar,
    X: Fn(&BoxLp<T>) -> Option<Vertex<T>>,
    L: Fn(&DenseMatrix<T>, T, usize) -> Option<LowRankDiag<T>>,
    M: Fn(Cone, &[T]) -> T,
    F: Fn(&[T]) -> Vec<T>,
    G: Fn(&[T]) -> Vec<T>,
    A: Fn(Cone, &[T], &[T]) -> (ConeScaling<T>, Vec<T>),
    CO: Fn(&CscMatrix<T>) -> Vec<usize>,
    CU: Fn(&CscMatrix<T>, &[usize]) -> CscMatrix<T>,
    CK: Fn(&DenseMatrix<T>, Method<T>) -> Option<F>,
    V: Fn(&DenseMatrix<T>) -> F,
    E: Fn(&[T], &[T]) -> (T, Vec<T>),
    CS: Fn(&CscMatrix<T>, T) -> Option<G>,
    Q: Fn(&[ConeScaling<T>], T) -> F,
    I: Fn(Cone) -> Vec<T>,
    CR: Fn(Cone, &[T], &[T]) -> T,
    CC: Fn(&ConeScaling<T>, &[T], bool) -> Vec<T>,
    CP: Fn(Cone, &[T], &[T]) -> Vec<T>,
    Y: Fn(Cone, &[T], &[T]) -> Vec<T>,
    Z: Fn(Cone, &[T], T, T) -> Vec<T>,
>(
    prob: QpProblem<T>,
    settings: Settings<T>,
    simplex: X,
    detect: L,
    margin: M,
    engine: ConicTools<A, CO, CU, CK, V, E, CS, Q>,
    al: Algebra<I, CR, CC, CP, Y, Z>,
) -> bool {
    &&& parts_fit(simplex, margin)
    &&& qp_parts_fit(prob, simplex, detect)
    &&& offers_conic(prob) ==> orthant_fits(prob, engine, al)
    &&& tries_dual(prob, settings) ==> {
        &&& prob.mi() * prob.mi() <= usize::MAX
        &&& prob.n() * prob.mi() <= usize::MAX
        &&& forall|d: QpProblem<T>| #[trigger]
            is_dual_of(prob, d) ==> qp_parts_fit(d, simplex, detect) && (offers_conic(d) ==> orthant_fits(
                d,
                engine,
                al,
            ))
    }
}

/// Solves a convex quadratic program, through its dual where that is tried and gives a solution.
fn solve_from_start<
    T: Scalar,
    X: Fn(&BoxLp<T>) -> Option<Vertex<T>>,
    L: Fn(&DenseMatrix<T>, T, usize) -> Option<LowRankDiag<T>>,
    O: Fn(&CscMatrix<T>) -> Vec<usize>,
    R: Fn(&CscMatrix<T>) -> Vec<usize>,
    U: Fn(&CscMatrix<T>, &[usize]) -> CscMatrix<T>,
    F: Fn(&[T]) -> Vec<T>,
    G: Fn(&[T]) -> Vec<T>,
    K: Fn(&DenseMatrix<T>, Method<T>) -> Option<F>,
    P: Fn(&DenseMatrix<T>) -> F,
    S: Fn(&CscMatrix<T>, T) -> Option<G>,
    M: Fn(Cone, &[T]) -> T,
    A: Fn(Cone, &[T], &[T]) -> (ConeScaling<T>, Vec<T>),
    CO: Fn(&CscMatrix<T>) -> Vec<usize>,
    CU: Fn(&CscMatrix<T>, &[usize]) -> CscMatrix<T>,
    CK: Fn(&DenseMatrix<T>, Method<T>) -> Option<F>,
    V: Fn(&DenseMatrix<T>) -> F,
    E: Fn(&[T], &[T]) -> (T, Vec<T>),
    CS: Fn(&CscMatrix<T>, T) -> Option<G>,
    Q: Fn(&[ConeScaling<T>], T) -> F,
    I: Fn(Cone) -> Vec<T>,
    CR: Fn(Cone, &[T], &[T]) -> T,
    CC: Fn(&ConeScaling<T>, &[T], bool) -> Vec<T>,
    CP: Fn(Cone, &[T], &[T]) -> Vec<T>,
    Y: Fn(Cone, &[T], &[T]) -> Vec<T>,
    Z: Fn(Cone, &[T], T, T) -> Vec<T>,
>(
    prob: &QpProblem<T>,
    settings: &Settings<T>,
    term: &TermScale<T>,
    init: Option<&WarmStart<T>>,
    known: &mut Searches<T>,
    simplex: &X,
    detect: &L,
    sort: &Sorting<O, R, U>,
    tools: &Factors<K, P, S>,
    margin: &M,
    engine: &ConicTools<A, CO, CU, CK, V, E, CS, Q>,
    al: &Algebra<I, CR, CC, CP, Y, Z>,
) -> (sol: QpSolution<T>)
    requires
        prob.wf(),
        term.fits(prob.n(), prob.me(), prob.mi()),
        qp_engines_fit(*prob, *settings, *simplex, *detect, *margin, *engine, *al),
        sorting_fits(*sort),
        factors_fit(*tools),
    ensures
        sol.sized(prob.n(), prob.me(), prob.mi()),
        exists|v: QpCourse<T>| #[trigger]
            qp_solved_along(
                *prob,
                *settings,
                *term,
                init,
                old(known)@,
                *simplex,
                orthant_relation(*settings, *simplex, *margin, *engine, *al),
                *detect,
                *sort,
                *tools,
                v,
                final(known)@,
                sol,
            ),
{
    let rel = Ghost(orthant_relation(*settings, *simplex, *margin, *engine, *al));
    let takes = Ghost(|p: QpProblem<T>| p.wf() && orthant_fits(p, *engine, *al));
    let conic = |p: &QpProblem<T>, w: Option<&WarmStart<T>>| -> (r: QpSolution<T>)
        requires
            takes@(*p),
        ensures
            r.sized(p.n(), p.me(), p.mi()),
            granted(rel@, *p, given(w), r),
    { solve_orthant(p, settings, w, simplex, margin, engine, al) };
    assert(offers_conic(*prob) ==> conic_fits(*prob, init, conic, rel@));
    let to = offers(prob, settings);
    if to.dual {
        let classes = classify_rows(prob);
        match solve_separable(prob, &classes, settings.eps_abs) {
            Some(sol) => {
                let ghost v = QpCourse {
                    quick: None,
                    conic: None,
                    low: None,
                    warm: None,
                    in_csr: None,
                    plan: Plan::Reduced,
                    end: arbitrary(),
                };
                assert(qp_solved_along(
                    *prob,
                    *settings,
                    *term,
                    init,
                    old(known)@,
                    *simplex,
                    rel@,
                    *detect,
                    *sort,
                    *tools,
                    v,
                    known@,
                    sol,
                ));
                return sol;
            },
            None => {},
        }
        let d = dual_problem(prob);
        let plain = TermScale::identity(d.q.len(), d.b_eq.len(), d.b_in.len());
        proof {
            assert(qp_parts_fit(d, *simplex, *detect));
            let size = (d.n() + d.me() + d.mi()) as int;
            assert(size < 2 || size < size * size) by (nonlinear_arith)
                requires
                    size >= 0,
            ;
            assert(d.wf());
            assert(unscaled(d.n(), d.me(), d.mi(), plain));
            assert(offers_conic(d) ==> conic_fits(d, None, conic, rel@));
        }
        let ds = solve_directly(
            &d,
            &settings.for_dual(),
            &plain,
            None,
            known,
            simplex,
            &conic,
            rel,
            detect,
            sort,
            tools,
        );
        let ghost mid = known@;
        let r = recover_primal(prob, &ds);
        assert(dual_route(
            *prob,
            *settings,
            old(known)@,
            *simplex,
            rel@,
            *detect,
            *sort,
            *tools,
            mid,
            r,
        ));
        match r {
            Some(sol) => {
                let ghost v: QpCourse<T> = arbitrary();
                assert(qp_solved_along(
                    *prob,
                    *settings,
                    *term,
                    init,
                    old(known)@,
                    *simplex,
                    rel@,
                    *detect,
                    *sort,
                    *tools,
                    v,
                    known@,
                    sol,
                ));
                return sol;
            },
            None => {},
        }
        let sol = solve_directly(
            prob,
            settings,
            term,
            init,
            known,
            simplex,
            &conic,
            rel,
            detect,
            sort,
            tools,
        );
        proof {
            let v = choose|v: QpCourse<T>| #[trigger]
                qp_solved_directly(
                    *prob,
                    *settings,
                    *term,
                    init,
                    mid,
                    *simplex,
                    rel@,
                    *detect,
                    *sort,
                    *tools,
                    v,
                    known@,
                    sol,
                );
            assert(qp_solved_along(
                *prob,
                *settings,
                *term,
                init,
                old(known)@,
                *simplex,
                rel@,
                *detect,
                *sort,
                *tools,
                v,
                known@,
                sol,
            ));
        }
        return sol;
    }
    let sol = solve_directly(
        prob,
        settings,
        term,
        init,
        known,
        simplex,
        &conic,
        rel,
        detect,
        sort,
        tools,
    );
    proof {
        let v = choose|v: QpCourse<T>| #[trigger]
            qp_solved_directly(
                *prob,
                *settings,
                *term,
                init,
                old(known)@,
                *simplex,
                rel@,
                *detect,
                *sort,
                *tools,
                v,
                known@,
                sol,
            );
        assert(qp_solved_along(
            *prob,
            *settings,
            *term,
            init,
            old(known)@,
            *simplex,
            rel@,
            *detect,
            *sort,
            *tools,
            v,
            known@,
            sol,
        ));
    }
    sol
}

/// Solves a convex quadratic program, from a previous near-solution where one is given and can be
/// used, judging convergence on residuals rescaled by `term`. What searches for a low-rank form of the
/// Hessian found is kept in `known`. The outside parts are the simplex method, the search for a low-rank
/// form, the orders of elimination and the factorizations, and those of the conic engine.
pub fn solve_qp_with_termination_warm<
    T: Scalar,
    X: Fn(&BoxLp<T>) -> Option<Vertex<T>>,
    L: Fn(&DenseMatrix<T>, T, usize) -> Option<LowRankDiag<T>>,
    O: Fn(&CscMatrix<T>) -> Vec<usize>,
    R: Fn(&CscMatrix<T>) -> Vec<usize>,
    U: Fn(&CscMatrix<T>, &[usize]) -> CscMatrix<T>,
    F: Fn(&[T]) -> Vec<T>,
    G: Fn(&[T]) -> Vec<T>,
    K: Fn(&DenseMatrix<T>, Method<T>) -> Option<F>,
    P: Fn(&DenseMatrix<T>) -> F,
    S: Fn(&CscMatrix<T>, T) -> Option<G>,
    M: Fn(Cone, &[T]) -> T,
    A: Fn(Cone, &[T], &[T]) -> (ConeScaling<T>, Vec<T>),
    CO: Fn(&CscMatrix<T>) -> Vec<usize>,
    CU: Fn(&CscMatrix<T>, &[usize]) -> CscMatrix<T>,
    CK: Fn(&DenseMatrix<T>, Method<T>) -> Option<F>,
    V: Fn(&DenseMatrix<T>) -> F,
    E: Fn(&[T], &[T]) -> (T, Vec<T>),
    CS: Fn(&CscMatrix<T>, T) -> Option<G>,
    Q: Fn(&[ConeScaling<T>], T) -> F,
    I: Fn(Cone) -> Vec<T>,
    CR: Fn(Cone, &[T], &[T]) -> T,
    CC: Fn(&ConeScaling<T>, &[T], bool) -> Vec<T>,
    CP: Fn(Cone, &[T], &[T]) -> Vec<T>,
    Y: Fn(Cone, &[T], &[T]) -> Vec<T>,
    Z: Fn(Cone, &[T], T, T) -> Vec<T>,
>(
    prob: &QpProblem<T>,
    settings: &Settings<T>,
    term: &TermScale<T>,
    init: Option<&WarmStart<T>>,
    known: &mut Searches<T>,
    simplex: &X,
    detect: &L,
    sort: &Sorting<O, R, U>,
    tools: &Factors<K, P, S>,
    margin: &M,
    engine: &ConicTools<A, CO, CU, CK, V, E, CS, Q>,
    al: &Algebra<I, CR, CC, CP, Y, Z>,
) -> (sol: QpSolution<T>)
    requires
        prob.wf(),
        term.fits(prob.n(), prob.me(), prob.mi()),
        qp_engines_fit(*prob, *settings, *simplex, *detect, *margin, *engine, *al),
        sorting_fits(*sort),
        factors_fit(*tools),
    ensures
        sol.sized(prob.n(), prob.me(), prob.mi()),
        exists|v: QpCourse<T>| #[trigger]
            qp_solved_along(
                *prob,
                *settings,
                *term,
                init,
                old(known)@,
                *simplex,
                orthant_relation(*settings, *simplex, *margin, *engine, *al),
                *detect,
                *sort,
                *tools,
                v,
                final(known)@,
                sol,
            ),
        qp_start_refused(*prob, init, *margin, al.identity) ==> exists|v: QpCourse<T>| #[trigger]
            qp_solved_along(
                *prob,
                *settings,
                *term,
                None,
                old(known)@,
                *simplex,
                orthant_relation(*settings, *simplex, *margin, *engine, *al),
                *detect,
                *sort,
                *tools,
                v,
                final(known)@,
                sol,
            ),
{
    let sol = solve_from_start(
        prob,
        settings,
        term,
        init,
        known,
        simplex,
        detect,
        sort,
        tools,
        margin,
        engine,
        al,
    );
    proof {
        let rel = orthant_relation(*settings, *simplex, *margin, *engine, *al);
        let v = choose|v: QpCourse<T>| #[trigger]
            qp_solved_along(
                *prob,
                *settings,
                *term,
                init,
                old(known)@,
                *simplex,
                rel,
                *detect,
                *sort,
                *tools,
                v,
                known@,
                sol,
            );
        if qp_start_refused(*prob, init, *margin, al.identity) {
            if offers_conic(*prob) {
                lemma_orthant_refuses(*prob, *settings, init, *simplex, *margin, *engine, *al);
            }
            qp_refused_warm_start_is_cold(
                *prob,
                *settings,
                *term,
                init,
                old(known)@,
                *simplex,
                rel,
                *detect,
                *sort,
                *tools,
                *margin,
                al.identity,
                v,
                known@,
                sol,
            );
        }
    }
    sol
}

/// Solves a convex quadratic program from the cold start, judging convergence on residuals rescaled by
/// `term`.
pub fn solve_qp_with_termination<
    T: Scalar,
    X: Fn(&BoxLp<T>) -> Option<Vertex<T>>,
    L: Fn(&DenseMatrix<T>, T, usize) -> Option<LowRankDiag<T>>,
    O: Fn(&CscMatrix<T>) -> Vec<usize>,
    R: Fn(&CscMatrix<T>) -> Vec<usize>,
    U: Fn(&CscMatrix<T>, &[usize]) -> CscMatrix<T>,
    F: Fn(&[T]) -> Vec<T>,
    G: Fn(&[T]) -> Vec<T>,
    K: Fn(&DenseMatrix<T>, Method<T>) -> Option<F>,
    P: Fn(&DenseMatrix<T>) -> F,
    S: Fn(&CscMatrix<T>, T) -> Option<G>,
    M: Fn(Cone, &[T]) -> T,
    A: Fn(Cone, &[T], &[T]) -> (ConeScaling<T>, Vec<T>),
    CO: Fn(&CscMatrix<T>) -> Vec<usize>,
    CU: Fn(&CscMatrix<T>, &[usize]) -> CscMatrix<T>,
    CK: Fn(&DenseMatrix<T>, Method<T>) -> Option<F>,
    V: Fn(&DenseMatrix<T>) -> F,
    E: Fn(&[T], &[T]) -> (T, Vec<T>),
    CS: Fn(&CscMatrix<T>, T) -> Option<G>,
    Q: Fn(&[ConeScaling<T>], T) -> F,
    I: Fn(Cone) -> Vec<T>,
    CR: Fn(Cone, &[T], &[T]) -> T,
    CC: Fn(&ConeScaling<T>, &[T], bool) -> Vec<T>,
    CP: Fn(Cone, &[T], &[T]) -> Vec<T>,
    Y: Fn(Cone, &[T], &[T]) -> Vec<T>,
    Z: Fn(Cone, &[T], T, T) -> Vec<T>,
>(
    prob: &QpProblem<T>,
    settings: &Settings<T>,
    term: &TermScale<T>,
    known: &mut Searches<T>,
    simplex: &X,
    detect: &L,
    sort: &Sorting<O, R, U>,
    tools: &Factors<K, P, S>,
    margin: &M,
    engine: &ConicTools<A, CO, CU, CK, V, E, CS, Q>,
    al: &Algebra<I, CR, CC, CP, Y, Z>,
) -> (sol: QpSolution<T>)
    requires
        prob.wf(),
        term.fits(prob.n(), prob.me(), prob.mi()),
        qp_engines_fit(*prob, *settings, *simplex, *detect, *margin, *engine, *al),
        sorting_fits(*sort),
        factors_fit(*tools),
    ensures
        sol.sized(prob.n(), prob.me(), prob.mi()),
        exists|v: QpCourse<T>| #[trigger]
            qp_solved_along(
                *prob,
                *settings,
                *term,
                None,
                old(known)@,
                *simplex,
                orthant_relation(*settings, *simplex, *margin, *engine, *al),
                *detect,
                *sort,
                *tools,
                v,
                final(known)@,
                sol,
            ),
{
    solve_qp_with_termination_warm(
        prob,
        settings,
        term,
        None,
        known,
        simplex,
        detect,
        sort,
        tools,
        margin,
        engine,
        al,
    )
}

/// The scaling that changes nothing.
pub open spec fn unscaled<T: Scalar>(n: nat, me: nat, mi: nat, term: TermScale<T>) -> bool {
    &&& term.dual@ == constant(T::one(), n)
    &&& term.prim_eq@ == constant(T::one(), me)
    &&& term.prim_in@ == constant(T::one(), mi)
    &&& term.comp == T::one()
}

/// Solves a convex quadratic program from the cold start.
pub fn solve_qp<
    T: Scalar,
    X: Fn(&BoxLp<T>) -> Option<Vertex<T>>,
    L: Fn(&DenseMatrix<T>, T, usize) -> Option<LowRankDiag<T>>,
    O: Fn(&CscMatrix<T>) -> Vec<usize>,
    R: Fn(&CscMatrix<T>) -> Vec<usize>,
    U: Fn(&CscMatrix<T>, &[usize]) -> CscMatrix<T>,
    F: Fn(&[T]) -> Vec<T>,
    G: Fn(&[T]) -> Vec<T>,
    K: Fn(&DenseMatrix<T>, Method<T>) -> Option<F>,
    P: Fn(&DenseMatrix<T>) -> F,
    S: Fn(&CscMatrix<T>, T) -> Option<G>,
    M: Fn(Cone, &[T]) -> T,
    A: Fn(Cone, &[T], &[T]) -> (ConeScaling<T>, Vec<T>),
    CO: Fn(&CscMatrix<T>) -> Vec<usize>,
    CU: Fn(&CscMatrix<T>, &[usize]) -> CscMatrix<T>,
    CK: Fn(&DenseMatrix<T>, Method<T>) -> Option<F>,
    V: Fn(&DenseMatrix<T>) -> F,
    E: Fn(&[T], &[T]) -> (T, Vec<T>),
    CS: Fn(&CscMatrix<T>, T) -> Option<G>,
    Q: Fn(&[ConeScaling<T>], T) -> F,
    I: Fn(Cone) -> Vec<T>,
    CR: Fn(Cone, &[T], &[T]) -> T,
    CC: Fn(&ConeScaling<T>, &[T], bool) -> Vec<T>,
    CP: Fn(Cone, &[T], &[T]) -> Vec<T>,
    Y: Fn(Cone, &[T], &[T]) -> Vec<T>,
    Z: Fn(Cone, &[T], T, T) -> Vec<T>,
>(
    prob: &QpProblem<T>,
    settings: &Settings<T>,
    known: &mut Searches<T>,
    simplex: &X,
    detect: &L,
    sort: &Sorting<O, R, U>,
    tools: &Factors<K, P, S>,
    margin: &M,
    engine: &ConicTools<A, CO, CU, CK, V, E, CS, Q>,
    al: &Algebra<I, CR, CC, CP, Y, Z>,
) -> (sol: QpSolution<T>)
    requires
        prob.wf(),
        qp_engines_fit(*prob, *settings, *simplex, *detect, *margin, *engine, *al),
        sorting_fits(*sort),
        factors_fit(*tools),
    ensures
        sol.sized(prob.n(), prob.me(), prob.mi()),
        exists|term: TermScale<T>, v: QpCourse<T>|
            unscaled(prob.n(), prob.me(), prob.mi(), term) && #[trigger] qp_solved_along(
                *prob,
                *settings,
                term,
                None,
                old(known)@,
                *simplex,
                orthant_relation(*settings, *simplex, *margin, *engine, *al),
                *detect,
                *sort,
                *tools,
                v,
                final(known)@,
                sol,
            ),
{
    let term = TermScale::identity(prob.q.len(), prob.b_eq.len(), prob.b_in.len());
    assert(unscaled(prob.n(), prob.me(), prob.mi(), term));
    solve_qp_with_termination(prob, settings, &term, known, simplex, detect, sort, tools, margin, engine, al)
}

/// The interior-point run reports a problem as solved only where the iterate that it ended with passed a
/// test.
pub proof fn qp_solved_is_tested<T: Scalar>(
    prob: QpProblem<T>,
    settings: Settings<T>,
    term: TermScale<T>,
    init: Option<&WarmStart<T>>,
    directs: Directs<T>,
    v: QpCourse<T>,
    sol: QpSolution<T>,
)
    requires
        qp_interior(prob, settings, term, init, directs, v, sol),
        sol.status == Status::Solved,
    ensures
        ({
            let c = qp_setting(prob, settings, term, v);
            qp_tested(
                c,
                qp_first_iterate(prob, c.acc.ain, v.in_csr, v.warm),
                qp_settled(v.end.verdict, v.end.it, v.end.best, v.end.best_err, settings.eps_abs).0,
            )
        }),
{
    let c = qp_setting(prob, settings, term, v);
    let first = qp_first_iterate(prob, c.acc.ain, v.in_csr, v.warm);
    let rho0 = qp_rho_floor(prob);
    let st = choose|st: QpStateView<T>| #[trigger]
        qp_starts(first, rho0, st) && qp_runs(
            c,
            directs,
            0,
            c.max_iters as nat,
            first,
            st,
            T::zero(),
            v.end,
        );
    qp_runs_are_honest(c, directs, 0, c.max_iters as nat, first, first, st, T::zero(), v.end);
    assert(qp_best_is_measured(c, first, v.end.best, v.end.best_err));
}

/// The warm start is refused: it has other lengths than the problem, an entry is not finite, a row of
/// `A x + s = b` does not hold, or an entry is not inside the orthant after it is moved towards 1. Where
/// the conic engine takes the problem, it refuses the start too.
pub open spec fn qp_start_refused<T: Scalar, M: Fn(Cone, &[T]) -> T, I: Fn(Cone) -> Vec<T>>(
    prob: QpProblem<T>,
    init: Option<&WarmStart<T>>,
    margin: M,
    identity: I,
) -> bool {
    &&& init matches Some(ws) ==> !(seed_usable(prob, *ws) && orthant_interior(slack_at(prob, ws.x@), ws.z@))
    &&& offers_conic(prob) ==> start_refused(prob, orthant(prob.mi()), init, margin, identity)
}

/// A start that has other lengths than the problem, is not finite or does not satisfy `A x + s = b` is
/// refused by both engines.
pub proof fn unusable_start_is_refused<T: Scalar, M: Fn(Cone, &[T]) -> T, I: Fn(Cone) -> Vec<T>>(
    prob: QpProblem<T>,
    ws: &WarmStart<T>,
    margin: M,
    identity: I,
)
    requires
        !seed_usable(prob, *ws),
    ensures
        qp_start_refused(prob, Some(ws), margin, identity),
        forall|cones: Seq<Cone>| #[trigger] start_refused(prob, cones, Some(ws), margin, identity),
{
}

/// What the conic engine may give for a refused start, it may give without one.
pub open spec fn conics_refuse<T>(conics: Conics<T>, prob: QpProblem<T>, init: Option<&WarmStart<T>>) -> bool {
    forall|sol: QpSolution<T>| #[trigger]
        granted(conics, prob, given(init), sol) ==> granted(conics, prob, None, sol)
}

/// The conic engine over the orthant gives for a refused start what it gives without one.
proof fn lemma_orthant_refuses<
    T: Scalar,
    X: Fn(&BoxLp<T>) -> Option<Vertex<T>>,
    M: Fn(Cone, &[T]) -> T,
    F: Fn(&[T]) -> Vec<T>,
    G: Fn(&[T]) -> Vec<T>,
    A: Fn(Cone, &[T], &[T]) -> (ConeScaling<T>, Vec<T>),
    CO: Fn(&CscMatrix<T>) -> Vec<usize>,
    CU: Fn(&CscMatrix<T>, &[usize]) -> CscMatrix<T>,
    CK: Fn(&DenseMatrix<T>, Method<T>) -> Option<F>,
    V: Fn(&DenseMatrix<T>) -> F,
    E: Fn(&[T], &[T]) -> (T, Vec<T>),
    CS: Fn(&CscMatrix<T>, T) -> Option<G>,
    Q: Fn(&[ConeScaling<T>], T) -> F,
    I: Fn(Cone) -> Vec<T>,
    CR: Fn(Cone, &[T], &[T]) -> T,
    CC: Fn(&ConeScaling<T>, &[T], bool) -> Vec<T>,
    CP: Fn(Cone, &[T], &[T]) -> Vec<T>,
    Y: Fn(Cone, &[T], &[T]) -> Vec<T>,
    Z: Fn(Cone, &[T], T, T) -> Vec<T>,
>(
    prob: QpProblem<T>,
    settings: Settings<T>,
    init: Option<&WarmStart<T>>,
    simplex: X,
    margin: M,
    engine: ConicTools<A, CO, CU, CK, V, E, CS, Q>,
    al: Algebra<I, CR, CC, CP, Y, Z>,
)
    requires
        start_refused(prob, orthant(prob.mi()), init, margin, al.identity),
    ensures
        conics_refuse(orthant_relation(settings, simplex, margin, engine, al), prob, init),
{
    let conics = orthant_relation(settings, simplex, margin, engine, al);
    let cones = orthant(prob.mi());
    assert forall|sol: QpSolution<T>| #[trigger] granted(conics, prob, given(init), sol) implies granted(
        conics,
        prob,
        None,
        sol,
    ) by {
        let w = choose|w: Option<&WarmStart<T>>|
            given(w) == given(init) && #[trigger] conic_solved(
                prob,
                cones,
                settings,
                w,
                simplex,
                margin,
                engine,
                al,
                sol,
            );
        assert(w == init);
        refused_warm_start_is_cold(prob, cones, settings, init, simplex, margin, engine, al, sol);
        let none: Option<&WarmStart<T>> = None;
        assert(given(none) == None::<WarmStart<T>>);
        assert(conic_solved(prob, cones, settings, none, simplex, margin, engine, al, sol));
    }
}

/// A warm start that is refused leaves no trace: the solve is one from the cold start.
pub proof fn qp_refused_warm_start_is_cold<
    T: Scalar,
    X: Fn(&BoxLp<T>) -> Option<Vertex<T>>,
    L: Fn(&DenseMatrix<T>, T, usize) -> Option<LowRankDiag<T>>,
    O: Fn(&CscMatrix<T>) -> Vec<usize>,
    R: Fn(&CscMatrix<T>) -> Vec<usize>,
    U: Fn(&CscMatrix<T>, &[usize]) -> CscMatrix<T>,
    F: Fn(&[T]) -> Vec<T>,
    G: Fn(&[T]) -> Vec<T>,
    K: Fn(&DenseMatrix<T>, Method<T>) -> Option<F>,
    P: Fn(&DenseMatrix<T>) -> F,
    S: Fn(&CscMatrix<T>, T) -> Option<G>,
    M: Fn(Cone, &[T]) -> T,
    I: Fn(Cone) -> Vec<T>,
>(
    prob: QpProblem<T>,
    settings: Settings<T>,
    term: TermScale<T>,
    init: Option<&WarmStart<T>>,
    before: SearchesView<T>,
    simplex: X,
    conics: Conics<T>,
    detect: L,
    sort: Sorting<O, R, U>,
    tools: Factors<K, P, S>,
    margin: M,
    identity: I,
    v: QpCourse<T>,
    after: SearchesView<T>,
    sol: QpSolution<T>,
)
    requires
        qp_solved_along(
            prob,
            settings,
            term,
            init,
            before,
            simplex,
            conics,
            detect,
            sort,
            tools,
            v,
            after,
            sol,
        ),
        qp_start_refused(prob, init, margin, identity),
        offers_conic(prob) ==> conics_refuse(conics, prob, init),
    ensures
        qp_solved_along(
            prob,
            settings,
            term,
            None,
            before,
            simplex,
            conics,
            detect,
            sort,
            tools,
            v,
            after,
            sol,
        ),
{
    if tries_dual(prob, settings) {
        let (mid, r) = choose|mid: SearchesView<T>, r: Option<QpSolution<T>>|
            {
                &&& #[trigger] dual_route(
                    prob,
                    settings,
                    before,
                    simplex,
                    conics,
                    detect,
                    sort,
                    tools,
                    mid,
                    r,
                )
                &&& match r {
                    Some(d) => sol == d && after == mid,
                    None => qp_solved_directly(
                        prob,
                        settings,
                        term,
                        init,
                        mid,
                        simplex,
                        conics,
                        detect,
                        sort,
                        tools,
                        v,
                        after,
                        sol,
                    ),
                }
            };
        if r is None {
            lemma_direct_refusal(
                prob,
                settings,
                term,
                init,
                mid,
                simplex,
                conics,
                detect,
                sort,
                tools,
                v,
                after,
                sol,
            );
        }
    } else {
        lemma_direct_refusal(
            prob,
            settings,
            term,
            init,
            before,
            simplex,
            conics,
            detect,
            sort,
            tools,
            v,
            after,
            sol,
        );
    }
}

/// The part of [`qp_refused_warm_start_is_cold`] on the solve that is not through the dual.
proof fn lemma_direct_refusal<
    T: Scalar,
    X: Fn(&BoxLp<T>) -> Option<Vertex<T>>,
    L: Fn(&DenseMatrix<T>, T, usize) -> Option<LowRankDiag<T>>,
    O: Fn(&CscMatrix<T>) -> Vec<usize>,
    R: Fn(&CscMatrix<T>) -> Vec<usize>,
    U: Fn(&CscMatrix<T>, &[usize]) -> CscMatrix<T>,
    F: Fn(&[T]) -> Vec<T>,
    G: Fn(&[T]) -> Vec<T>,
    K: Fn(&DenseMatrix<T>, Method<T>) -> Option<F>,
    P: Fn(&DenseMatrix<T>) -> F,
    S: Fn(&CscMatrix<T>, T) -> Option<G>,
>(
    prob: QpProblem<T>,
    settings: Settings<T>,
    term: TermScale<T>,
    init: Option<&WarmStart<T>>,
    before: SearchesView<T>,
    simplex: X,
    conics: Conics<T>,
    detect: L,
    sort: Sorting<O, R, U>,
    tools: Factors<K, P, S>,
    v: QpCourse<T>,
    after: SearchesView<T>,
    sol: QpSolution<T>,
)
    requires
        qp_solved_directly(
            prob,
            settings,
            term,
            init,
            before,
            simplex,
            conics,
            detect,
            sort,
            tools,
            v,
            after,
            sol,
        ),
        init matches Some(ws) ==> !(seed_usable(prob, *ws) && orthant_interior(slack_at(prob, ws.x@), ws.z@)),
        offers_conic(prob) ==> conics_refuse(conics, prob, init),
    ensures
        qp_solved_directly(
            prob,
            settings,
            term,
            None,
            before,
            simplex,
            conics,
            detect,
            sort,
            tools,
            v,
            after,
            sol,
        ),
{
    let none: Option<&WarmStart<T>> = None;
    assert(given(none) == None::<WarmStart<T>>);
    if !closed_form(prob, settings.eps_abs) && v.quick is None {
        if offers_conic(prob) {
            let c = choose|c: QpSolution<T>| #[trigger]
                granted(conics, prob, given(init), c) && v.conic == (if c.status == Status::MaxIterations {
                    None
                } else {
                    Some(c)
                });
            assert(granted(conics, prob, given(none), c));
        }
        assert(conic_route(prob, none, conics, v.conic));
    }
}

} // verus!
