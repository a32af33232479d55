//! The conic engine as a whole: routing, starting point, run and result.
use crate::cone::{
    cone_offsets, degree_upto, offsets_of, size_upto, total_degree, Cone, ConeScaling,
};
use crate::conic_backends::{step_fits, ConicMoment, ConicSetting};
use crate::conic_dir::{conclude, engine_objective, honest_status, settle, ConicStep};
use crate::conic_kkt::conic_problem;
use crate::conic_laws::{
    answers_changed, answers_conic, changed_solution_answers_the_problem, solved_conic_run_answers_the_problem,
};
use crate::conic_plan::{
    are_scaled, conic_plan_fits, conic_plan_newton, conic_plan_steps, conic_planned, conic_systems_fit,
    conic_tools_fit, permutes_conic, plan_conic, scale_cones, ConicPlan, ConicTools,
};
use crate::conic_route::{
    cold_slacks, conic_takes_simplex, delta_floor, initial_regularization, level_for, rho_floor,
    starting_point, takes_simplex, Regularization,
};
use crate::conic_run::{
    best_is_measured, run_conic, runs, runs_are_honest, starts, steps_fit, taken, whole_run,
    within_tolerances, Ending, Setting, StateView, Steps,
};
use crate::conic_step::{members_of, Access, Iterate, IterateView, Residuals, Verdict};
use crate::curved::{algebra_fits, identities_at, identities_fit, identities_of, Algebra};
use crate::kkt::opt_deref;
use crate::kron::{is_changed, is_perm_of, is_undone, kron_structure, kron_transform, Changed};
use crate::lp_simplex::{
    consistent, empty_rows_hold, simplex_route, simplex_solution_is_tested, try_sparse_lp_dual_simplex, BoxLp,
    Vertex,
};
use crate::factor::Method;
use crate::matrix::{diagonal_matrix, DenseMatrix};
use crate::problem::{grade, QpProblem, QpSolution, Status, WarmStart};
use crate::products::Form;
use crate::qp_setup::Settings;
use crate::scalar::Scalar;
use crate::simplex_laws::{answers_simplex, tested_multipliers_answer_the_problem};
use crate::sparse::{csr_of_dense, is_row_form, CscMatrix};
use crate::vector::{all_finite, constant, filled};
use crate::warm::{conic_seed, conic_warm_seed, refused_seed_is_none, seed_refused, Seed};
use vstd::prelude::*;

verus! {

/// The sparse rows are the given ones where there are any, and else those of the dense matrix.
pub open spec fn rows_of<T: Scalar>(
    given: Option<CscMatrix<T>>,
    a: DenseMatrix<T>,
    rows: nat,
    n: nat,
    c: CscMatrix<T>,
) -> bool {
    match given {
        Some(g) => {
            &&& c.m == g.m
            &&& c.n == g.n
            &&& c.colptr@ == g.colptr@
            &&& c.rowval@ == g.rowval@
            &&& c.nzval@ == g.nzval@
        },
        None => is_row_form(c, a, rows, n),
    }
}

/// The sparse rows of a matrix, as they are given or found.
pub fn sparse_rows_of<T: Scalar>(given: &Option<CscMatrix<T>>, a: &DenseMatrix<T>, rows: usize, n: usize) -> (c:
    CscMatrix<T>)
    requires
        a.sized(rows as nat, n as nat),
        *given matches Some(g) ==> g.wf() && g.n == rows && g.m == n,
    ensures
        rows_of(*given, *a, rows as nat, n as nat, c),
        c.wf(),
        c.n == rows,
        c.m == n,
{
    match given {
        Some(g) => g.duplicate(),
        None => csr_of_dense(a, rows, n),
    }
}

/// How the matrices of the problem are multiplied: through the negated identity and the dense
/// equality rows after the change of variables, and through the sparse rows else.
pub open spec fn access_for<T: Scalar>(prob: QpProblem<T>, kron: bool) -> Access {
    if kron {
        Access { p_diagonal: true, eq: Form::Dense, ain: Form::Negated }
    } else {
        Access { p_diagonal: diagonal_matrix(prob.p), eq: Form::Rows, ain: Form::Rows }
    }
}

/// The regularization that a run starts with.
pub open spec fn first_regularization<T: Scalar>(cones: Seq<Cone>, reg: Regularization<T>) -> bool {
    &&& reg.wf()
    &&& reg.rho0 == rho_floor::<T>()
    &&& reg.delta0 == delta_floor::<T>(cones)
    &&& reg.level == level_for(reg.rho0, 5)
}

/// The starting point: the warm start where it can be used, the cold start else, without equality
/// multipliers.
pub open spec fn first_iterate<T: Scalar>(
    prob: QpProblem<T>,
    cones: Seq<Cone>,
    identities: Seq<Vec<T>>,
    warm: Option<Seed<T>>,
) -> IterateView<T> {
    let y = constant(T::zero(), prob.me());
    match warm {
        Some(w) => IterateView { x: w.x@, y, s: w.s@, z: w.z@ },
        None => {
            let (s, z) = cold_slacks(prob, cones, identities, cones.len());
            IterateView { x: constant(T::zero(), prob.n()), y, s, z }
        },
    }
}

/// The iterate and the status that an ending stands for: what was accepted, or the best iterate.
pub open spec fn settled<T: Scalar>(end: Ending<T>, eps: T) -> (IterateView<T>, Status) {
    match end.verdict {
        Verdict::Accept(status) => (end.it, status),
        Verdict::Restore(status) if status != Status::MaxIterations => (end.best, status),
        _ => (end.best, grade(end.best_err, eps)),
    }
}

/// `sol` is the result of a run that ends in `end`, in the original variables.
pub open spec fn concludes<T: Scalar>(
    prob: QpProblem<T>,
    p_diagonal: bool,
    change: Option<(Seq<usize>, Seq<T>)>,
    eps: T,
    end: Ending<T>,
    sol: QpSolution<T>,
) -> bool {
    let (last, status) = settled(end, eps);
    &&& sol.y@ == last.y
    &&& sol.s@ == last.s
    &&& sol.z@ == last.z
    &&& sol.iters == end.iters
    &&& sol.plain()
    &&& sol.obj_val == engine_objective(prob, p_diagonal, last.x)
    &&& sol.status == honest_status(status, IterateView { x: sol.x@, ..last })
    &&& sol.x@.len() == prob.n()
    &&& match change {
        None => sol.x@ == last.x,
        Some((sigma, g)) => is_undone(sigma, g, last.x, sol.x@, prob.n()),
    }
}

/// The course of a solve: what the simplex route gave, the warm start, the sparse rows, the prepared
/// backend and the ending of the run.
pub ghost struct Course<T> {
    pub quick: Option<QpSolution<T>>,
    pub warm: Option<Seed<T>>,
    pub eq_csr: Option<CscMatrix<T>>,
    pub in_csr: Option<CscMatrix<T>>,
    pub degree: usize,
    pub reg: Regularization<T>,
    pub plan: ConicPlan<T>,
    pub end: Ending<T>,
}

/// The barrier degree of the cones, at least 1.
pub open spec fn barrier_degree_of(cones: Seq<Cone>, d: usize) -> bool {
    let total = degree_upto(cones, cones.len());
    d == (if total == 0 {
        1
    } else {
        total as int
    })
}

/// `c` is what the backends of the run have in common.
pub open spec fn is_conic_setting<T: Scalar>(
    work: QpProblem<T>,
    kron: bool,
    cones: Seq<Cone>,
    identities: Seq<Vec<T>>,
    eq_csr: Option<CscMatrix<T>>,
    in_csr: Option<CscMatrix<T>>,
    degree: usize,
    c: ConicSetting<T>,
) -> bool {
    let acc = access_for(work, kron);
    &&& *c.prob == work
    &&& c.cones@ == cones
    &&& offsets_of(cones, c.offsets@)
    &&& c.identities@ == identities
    &&& c.ain == acc.ain
    &&& opt_deref(c.eq_csr) == eq_csr
    &&& opt_deref(c.in_csr) == in_csr
    &&& c.degree == T::from_usize(degree)
    &&& c.p_diag == acc.p_diagonal
}

/// The backend of the run is prepared at the starting point.
pub open spec fn conic_prepared<
    T: Scalar,
    A: Fn(Cone, &[T], &[T]) -> (ConeScaling<T>, Vec<T>),
    E: Fn(&[T], &[T]) -> (T, Vec<T>),
    O: Fn(&CscMatrix<T>) -> Vec<usize>,
    U: Fn(&CscMatrix<T>, &[usize]) -> CscMatrix<T>,
>(
    work: QpProblem<T>,
    kron: bool,
    cones: Seq<Cone>,
    identities: Seq<Vec<T>>,
    first: IterateView<T>,
    scale: A,
    soc: E,
    order: O,
    permute: U,
    v: Course<T>,
) -> bool {
    exists|c: ConicSetting<T>, sc: Seq<ConeScaling<T>>, blocks: Seq<Vec<T>>|
        {
            &&& is_conic_setting(work, kron, cones, identities, v.eq_csr, v.in_csr, v.degree, c)
            &&& are_scaled(cones, first.s, first.z, scale, soc, sc, blocks)
            &&& #[trigger] conic_planned(c, kron, sc, blocks, v.reg.rho, v.reg.delta, order, permute, v.plan)
        }
}

/// `t` is the moment with these parts, and the cones scaled at its iterate.
pub open spec fn is_conic_moment<
    T: Scalar,
    A: Fn(Cone, &[T], &[T]) -> (ConeScaling<T>, Vec<T>),
    E: Fn(&[T], &[T]) -> (T, Vec<T>),
>(
    cones: Seq<Cone>,
    scale: A,
    soc: E,
    p: Iterate<T>,
    r: Residuals<T>,
    g: Regularization<T>,
    k: usize,
    t: ConicMoment<T>,
) -> bool {
    &&& *t.it == p
    &&& *t.r == r
    &&& t.rho == g.rho
    &&& t.delta == g.delta
    &&& t.short == k
    &&& are_scaled(cones, p.s@, p.z@, scale, soc, t.sc@, t.blocks@)
}

/// The steps that the prepared backend gives.
pub open spec fn conic_relation<
    T: Scalar,
    F: Fn(&[T]) -> Vec<T>,
    G: Fn(&[T]) -> Vec<T>,
    A: Fn(Cone, &[T], &[T]) -> (ConeScaling<T>, Vec<T>),
    O: Fn(&CscMatrix<T>) -> Vec<usize>,
    U: Fn(&CscMatrix<T>, &[usize]) -> CscMatrix<T>,
    K: Fn(&DenseMatrix<T>, Method<T>) -> Option<F>,
    V: Fn(&DenseMatrix<T>) -> F,
    E: Fn(&[T], &[T]) -> (T, Vec<T>),
    S: Fn(&CscMatrix<T>, T) -> Option<G>,
    Q: Fn(&[ConeScaling<T>], T) -> F,
    I: Fn(Cone) -> Vec<T>,
    R: Fn(Cone, &[T], &[T]) -> T,
    C: Fn(&ConeScaling<T>, &[T], bool) -> Vec<T>,
    P: Fn(Cone, &[T], &[T]) -> Vec<T>,
    Y: Fn(Cone, &[T], &[T]) -> Vec<T>,
    Z: Fn(Cone, &[T], T, T) -> Vec<T>,
>(
    work: QpProblem<T>,
    kron: bool,
    cones: Seq<Cone>,
    identities: Seq<Vec<T>>,
    v: Course<T>,
    tools: ConicTools<A, O, U, K, V, E, S, Q>,
    al: Algebra<I, R, C, P, Y, Z>,
) -> Steps<T> {
    |p: Iterate<T>, r: Residuals<T>, g: Regularization<T>, k: usize, o: Option<(ConicStep<T>, usize)>|
        exists|c: ConicSetting<T>, t: ConicMoment<T>|
            is_conic_setting(work, kron, cones, identities, v.eq_csr, v.in_csr, v.degree, c)
                && is_conic_moment(cones, tools.scale, tools.soc, p, r, g, k, t) && #[trigger] conic_plan_steps(
                c,
                t,
                v.plan,
                tools,
                al,
                o,
            )
}

/// What the run along the course `v` rests on.
pub open spec fn run_setting<T: Scalar, M: Fn(Cone, &[T]) -> T>(
    work: QpProblem<T>,
    kron: bool,
    cones: Seq<Cone>,
    settings: Settings<T>,
    margin: M,
    v: Course<T>,
) -> Setting<T> {
    Setting {
        prob: work,
        acc: access_for(work, kron),
        eq_csr: v.eq_csr,
        in_csr: v.in_csr,
        members: members_of(margin, cones),
        degree: T::from_usize(v.degree),
        eps: settings.eps_abs,
    }
}

/// The iterate passed a test of the run: its residuals are within the tolerances, or the error that was
/// measured for it as the best iterate is. The starting point counts as measured only where infinity is
/// within the tolerance.
pub open spec fn tested<T: Scalar>(c: Setting<T>, first: IterateView<T>, last: IterateView<T>) -> bool {
    ||| within_tolerances(c, last)
    ||| exists|err: T| #[trigger] best_is_measured(c, first, last, err) && err.at_most(c.eps)
}

/// The solution passed its test: that of the multipliers where the simplex method gave it, and else that
/// of the iterate that the run ended with. What is said of the problem is true of its own matrices, where
/// the numbers are read exactly.
pub open spec fn tested_along<T: Scalar, M: Fn(Cone, &[T]) -> T>(
    work: QpProblem<T>,
    kron: bool,
    cones: Seq<Cone>,
    identities: Seq<Vec<T>>,
    settings: Settings<T>,
    margin: M,
    v: Course<T>,
    sol: QpSolution<T>,
) -> bool {
    match v.quick {
        Some(_) => consistent(work, sol.s@, sol.z@) && empty_rows_hold(work) && answers_simplex(work, sol),
        None => {
            &&& answers_conic(work, kron, cones, settings.eps_abs, settled(v.end, settings.eps_abs).0, sol)
            &&& all_finite(sol.x@) && all_finite(sol.y@) && all_finite(sol.s@) && all_finite(sol.z@)
            &&& tested(
                run_setting(work, kron, cones, settings, margin, v),
                first_iterate(work, cones, identities, v.warm),
                settled(v.end, settings.eps_abs).0,
            )
        },
    }
}

/// `sol` is the result of the interior-point run along the course `v`, with the steps `steps`.
pub open spec fn conic_interior<T: Scalar, M: Fn(Cone, &[T]) -> T>(
    work: QpProblem<T>,
    change: Option<(Seq<usize>, Seq<T>)>,
    cones: Seq<Cone>,
    identities: Seq<Vec<T>>,
    settings: Settings<T>,
    init: Option<&WarmStart<T>>,
    margin: M,
    steps: Steps<T>,
    v: Course<T>,
    sol: QpSolution<T>,
) -> bool {
    let kron = change is Some;
    let acc = access_for(work, kron);
    &&& kron ==> v.eq_csr is None && v.in_csr is None && v.warm is None
    &&& !kron ==> {
        &&& v.eq_csr matches Some(c) && rows_of(work.a_eq_csr, work.a_eq, work.me(), work.n(), c)
        &&& v.in_csr matches Some(c) && rows_of(work.a_in_csr, work.a_in, work.mi(), work.n(), c)
        &&& conic_seed(work, cones, identities, init, margin, v.warm)
    }
    &&& barrier_degree_of(cones, v.degree)
    &&& first_regularization(cones, v.reg)
    &&& whole_run(
        run_setting(work, kron, cones, settings, margin, v),
        steps,
        settings.max_iters as nat,
        first_iterate(work, cones, identities, v.warm),
        v.reg,
        v.end,
    )
    &&& concludes(work, acc.p_diagonal, change, settings.eps_abs, v.end, sol)
}

/// `sol` solves the problem `work` along the course `v`. A small sparse linear program is handed to
/// the simplex route first; what that does not solve goes through the interior-point run. What is
/// reported as solved has passed its test. `change` says that the variables were changed, in which case no
/// warm start applies.
pub open spec fn solved_along<
    T: Scalar,
    X: Fn(&BoxLp<T>) -> Option<Vertex<T>>,
    M: Fn(Cone, &[T]) -> T,
    F: Fn(&[T]) -> Vec<T>,
    G: Fn(&[T]) -> Vec<T>,
    A: Fn(Cone, &[T], &[T]) -> (ConeScaling<T>, Vec<T>),
    O: Fn(&CscMatrix<T>) -> Vec<usize>,
    U: Fn(&CscMatrix<T>, &[usize]) -> CscMatrix<T>,
    K: Fn(&DenseMatrix<T>, Method<T>) -> Option<F>,
    V: Fn(&DenseMatrix<T>) -> F,
    E: Fn(&[T], &[T]) -> (T, Vec<T>),
    S: Fn(&CscMatrix<T>, T) -> Option<G>,
    Q: Fn(&[ConeScaling<T>], T) -> F,
    I: Fn(Cone) -> Vec<T>,
    R: Fn(Cone, &[T], &[T]) -> T,
    C: Fn(&ConeScaling<T>, &[T], bool) -> Vec<T>,
    P: Fn(Cone, &[T], &[T]) -> Vec<T>,
    Y: Fn(Cone, &[T], &[T]) -> Vec<T>,
    Z: Fn(Cone, &[T], T, T) -> Vec<T>,
>(
    work: QpProblem<T>,
    change: Option<(Seq<usize>, Seq<T>)>,
    cones: Seq<Cone>,
    identities: Seq<Vec<T>>,
    settings: Settings<T>,
    init: Option<&WarmStart<T>>,
    simplex: X,
    margin: M,
    tools: ConicTools<A, O, U, K, V, E, S, Q>,
    al: Algebra<I, R, C, P, Y, Z>,
    v: Course<T>,
    sol: QpSolution<T>,
) -> bool {
    let kron = change is Some;
    let first = first_iterate(work, cones, identities, v.warm);
    &&& if takes_simplex(work, cones) {
        simplex_route(work, simplex, v.quick)
    } else {
        v.quick is None
    }
    &&& sol.status == Status::Solved ==> tested_along(
        work,
        kron,
        cones,
        identities,
        settings,
        margin,
        v,
        sol,
    )
    &&& match v.quick {
        Some(q) => sol == q,
        None => {
            &&& conic_prepared(
                work,
                kron,
                cones,
                identities,
                first,
                tools.scale,
                tools.soc,
                tools.order,
                tools.permute,
                v,
            )
            &&& conic_interior(
                work,
                change,
                cones,
                identities,
                settings,
                init,
                margin,
                conic_relation(work, kron, cones, identities, v, tools, al),
                v,
                sol,
            )
        },
    }
}

/// `sol` solves the conic program: after the change of variables where the problem has the structure
/// for it, and as it stands else.
pub open spec fn conic_solution<
    T: Scalar,
    X: Fn(&BoxLp<T>) -> Option<Vertex<T>>,
    M: Fn(Cone, &[T]) -> T,
    F: Fn(&[T]) -> Vec<T>,
    G: Fn(&[T]) -> Vec<T>,
    A: Fn(Cone, &[T], &[T]) -> (ConeScaling<T>, Vec<T>),
    O: Fn(&CscMatrix<T>) -> Vec<usize>,
    U: Fn(&CscMatrix<T>, &[usize]) -> CscMatrix<T>,
    K: Fn(&DenseMatrix<T>, Method<T>) -> Option<F>,
    V: Fn(&DenseMatrix<T>) -> F,
    E: Fn(&[T], &[T]) -> (T, Vec<T>),
    S: Fn(&CscMatrix<T>, T) -> Option<G>,
    Q: Fn(&[ConeScaling<T>], T) -> F,
    I: Fn(Cone) -> Vec<T>,
    R: Fn(Cone, &[T], &[T]) -> T,
    C: Fn(&ConeScaling<T>, &[T], bool) -> Vec<T>,
    P: Fn(Cone, &[T], &[T]) -> Vec<T>,
    Y: Fn(Cone, &[T], &[T]) -> Vec<T>,
    Z: Fn(Cone, &[T], T, T) -> Vec<T>,
>(
    prob: QpProblem<T>,
    cones: Seq<Cone>,
    identities: Seq<Vec<T>>,
    settings: Settings<T>,
    init: Option<&WarmStart<T>>,
    simplex: X,
    margin: M,
    tools: ConicTools<A, O, U, K, V, E, S, Q>,
    al: Algebra<I, R, C, P, Y, Z>,
    sol: QpSolution<T>,
) -> bool {
    if kron_structure(prob, cones) {
        exists|c: Changed<T>, v: Course<T>|
            {
                &&& is_perm_of(prob.a_in, c.sigma@, c.g@)
                &&& is_changed(prob, c.sigma@, c.g@, c.prob)
                &&& #[trigger] solved_along(
                    c.prob,
                    Some((c.sigma@, c.g@)),
                    cones,
                    identities,
                    settings,
                    init,
                    simplex,
                    margin,
                    tools,
                    al,
                    v,
                    sol,
                )
            }
    } else {
        exists|v: Course<T>| #[trigger]
            solved_along(
                prob,
                None,
                cones,
                identities,
                settings,
                init,
                simplex,
                margin,
                tools,
                al,
                v,
                sol,
            )
    }
}

/// The outside parts take what the solve hands them, and what they return has the sizes of the
/// problem: `simplex` for a linear program in standard form, and `margin` for a point of a curved cone.
pub open spec fn parts_fit<
    T: Scalar,
    X: Fn(&BoxLp<T>) -> Option<Vertex<T>>,
    M: Fn(Cone, &[T]) -> T,
>(simplex: X, margin: M) -> bool {
    &&& forall|lp: &BoxLp<T>| #[trigger] simplex.requires((lp,))
    &&& forall|lp: &BoxLp<T>, v: Vertex<T>| #[trigger]
        simplex.ensures((lp,), Some(v)) ==> v.x@.len() == lp.c@.len() && v.pi@.len() == lp.b@.len()
    &&& forall|c: Cone, b: &[T]| #[trigger] margin.requires((c, b))
}

/// `sol` solves the conic program with the identities that the algebra of the cones gives.
pub open spec fn conic_solved<
    T: Scalar,
    X: Fn(&BoxLp<T>) -> Option<Vertex<T>>,
    M: Fn(Cone, &[T]) -> T,
    F: Fn(&[T]) -> Vec<T>,
    G: Fn(&[T]) -> Vec<T>,
    A: Fn(Cone, &[T], &[T]) -> (ConeScaling<T>, Vec<T>),
    O: Fn(&CscMatrix<T>) -> Vec<usize>,
    U: Fn(&CscMatrix<T>, &[usize]) -> CscMatrix<T>,
    K: Fn(&DenseMatrix<T>, Method<T>) -> Option<F>,
    V: Fn(&DenseMatrix<T>) -> F,
    E: Fn(&[T], &[T]) -> (T, Vec<T>),
    S: Fn(&CscMatrix<T>, T) -> Option<G>,
    Q: Fn(&[ConeScaling<T>], T) -> F,
    I: Fn(Cone) -> Vec<T>,
    R: Fn(Cone, &[T], &[T]) -> T,
    C: Fn(&ConeScaling<T>, &[T], bool) -> Vec<T>,
    P: Fn(Cone, &[T], &[T]) -> Vec<T>,
    Y: Fn(Cone, &[T], &[T]) -> Vec<T>,
    Z: Fn(Cone, &[T], T, T) -> Vec<T>,
>(
    prob: QpProblem<T>,
    cones: Seq<Cone>,
    settings: Settings<T>,
    init: Option<&WarmStart<T>>,
    simplex: X,
    margin: M,
    tools: ConicTools<A, O, U, K, V, E, S, Q>,
    al: Algebra<I, R, C, P, Y, Z>,
    sol: QpSolution<T>,
) -> bool {
    exists|identities: Seq<Vec<T>>|
        identities_at(cones, al.identity, identities) && #[trigger] conic_solution(
            prob,
            cones,
            identities,
            settings,
            init,
            simplex,
            margin,
            tools,
            al,
            sol,
        )
}

/// Solves a conic program, from a previous near-solution where one is given and can be used. The
/// outside parts are the simplex method for small sparse linear programs, the distance of a point
/// from the boundary of a curved cone, the scalings, orders of elimination and factorizations of the
/// backends, and the algebra of the curved cones.
pub fn solve_cone_qp_warm<
    T: Scalar,
    X: Fn(&BoxLp<T>) -> Option<Vertex<T>>,
    M: Fn(Cone, &[T]) -> T,
    F: Fn(&[T]) -> Vec<T>,
    G: Fn(&[T]) -> Vec<T>,
    A: Fn(Cone, &[T], &[T]) -> (ConeScaling<T>, Vec<T>),
    O: Fn(&CscMatrix<T>) -> Vec<usize>,
    U: Fn(&CscMatrix<T>, &[usize]) -> CscMatrix<T>,
    K: Fn(&DenseMatrix<T>, Method<T>) -> Option<F>,
    V: Fn(&DenseMatrix<T>) -> F,
    E: Fn(&[T], &[T]) -> (T, Vec<T>),
    S: Fn(&CscMatrix<T>, T) -> Option<G>,
    Q: Fn(&[ConeScaling<T>], T) -> F,
    I: Fn(Cone) -> Vec<T>,
    R: Fn(Cone, &[T], &[T]) -> T,
    C: Fn(&ConeScaling<T>, &[T], bool) -> Vec<T>,
    P: Fn(Cone, &[T], &[T]) -> Vec<T>,
    Y: Fn(Cone, &[T], &[T]) -> Vec<T>,
    Z: Fn(Cone, &[T], T, T) -> Vec<T>,
>(
    prob: &QpProblem<T>,
    cones: &[Cone],
    settings: &Settings<T>,
    init: Option<&WarmStart<T>>,
    simplex: &X,
    margin: &M,
    tools: &ConicTools<A, O, U, K, V, E, S, Q>,
    al: &Algebra<I, R, C, P, Y, Z>,
) -> (sol: QpSolution<T>)
    requires
        conic_problem(*prob, cones@),
        degree_upto(cones@, cones@.len()) <= usize::MAX,
        forall|c: int| 0 <= c < cones@.len() && cones@[c] is Soc ==> (#[trigger] cones@[c]).size() > 0,
        parts_fit(*simplex, *margin),
        conic_systems_fit(*prob, cones@),
        if kron_structure(*prob, cones@) {
            prob.n() > 0
        } else {
            permutes_conic(*prob, cones@, tools.permute)
        },
        conic_tools_fit(cones@, *tools),
        algebra_fits(cones@, *al),
    ensures
        conic_solved(*prob, cones@, *settings, init, *simplex, *margin, *tools, *al, sol),
        start_refused(*prob, cones@, init, *margin, al.identity) ==> conic_solved(
            *prob,
            cones@,
            *settings,
            None,
            *simplex,
            *margin,
            *tools,
            *al,
            sol,
        ),
        sol.sized(prob.n(), prob.me(), prob.mi()),
        kron_structure(*prob, cones@) && sol.status == Status::Solved ==> answers_changed(
            *prob,
            cones@,
            settings.eps_abs,
            sol,
        ),
{
    let identities = identities_of(cones, al);
    let kron = kron_transform(prob, cones);
    let sol = match &kron {
        Some(c) => {
            let change: Option<(&[usize], &[T])> = Some((c.sigma.as_slice(), c.g.as_slice()));
            let sol = solve_from(
                &c.prob,
                change,
                cones,
                &identities,
                settings,
                init,
                simplex,
                margin,
                tools,
                al,
            );
            proof {
                let v = choose|v: Course<T>| #[trigger]
                    solved_along(
                        c.prob,
                        Some((c.sigma@, c.g@)),
                        cones@,
                        identities@,
                        *settings,
                        init,
                        *simplex,
                        *margin,
                        *tools,
                        *al,
                        v,
                        sol,
                    );
                assert(solved_along(
                    c.prob,
                    Some((c.sigma@, c.g@)),
                    cones@,
                    identities@,
                    *settings,
                    init,
                    *simplex,
                    *margin,
                    *tools,
                    *al,
                    v,
                    sol,
                ));
                if sol.status == Status::Solved {
                    let last = settled(v.end, settings.eps_abs).0;
                    assert(v.quick is None);
                    assert(concludes(
                        c.prob,
                        access_for(c.prob, true).p_diagonal,
                        Some((c.sigma@, c.g@)),
                        settings.eps_abs,
                        v.end,
                        sol,
                    ));
                    assert(c.prob.n() == prob.n());
                    changed_solution_answers_the_problem(*prob, *c, cones@, settings.eps_abs, last, sol);
                }
            }
            sol
        },
        None => solve_from(
            prob,
            None,
            cones,
            &identities,
            settings,
            init,
            simplex,
            margin,
            tools,
            al,
        ),
    };
    assert(conic_solution(
        *prob,
        cones@,
        identities@,
        *settings,
        init,
        *simplex,
        *margin,
        *tools,
        *al,
        sol,
    ));
    proof {
        if start_refused(*prob, cones@, init, *margin, al.identity) {
            refused_warm_start_is_cold(*prob, cones@, *settings, init, *simplex, *margin, *tools, *al, sol);
        }
    }
    sol
}

/// The change of variables as contents.
pub open spec fn change_view<T>(change: Option<(&[usize], &[T])>) -> Option<(Seq<usize>, Seq<T>)> {
    match change {
        Some(c) => Some((c.0@, c.1@)),
        None => None,
    }
}

proof fn lemma_slacks_square<T: Scalar>(prob: QpProblem<T>, cones: Seq<Cone>)
    requires
        conic_systems_fit(prob, cones),
    ensures
        prob.mi() * prob.mi() <= usize::MAX,
{
    let (rest, mi) = (prob.n() + prob.me(), prob.mi());
    assert(mi * mi <= (rest + mi) * (rest + mi)) by (nonlinear_arith)
        requires
            rest >= 0,
            mi >= 0,
    ;
}

/// The step of an iteration, with the cones scaled at its iterate.
fn step_from<
    T: Scalar,
    F: Fn(&[T]) -> Vec<T>,
    G: Fn(&[T]) -> Vec<T>,
    A: Fn(Cone, &[T], &[T]) -> (ConeScaling<T>, Vec<T>),
    O: Fn(&CscMatrix<T>) -> Vec<usize>,
    U: Fn(&CscMatrix<T>, &[usize]) -> CscMatrix<T>,
    K: Fn(&DenseMatrix<T>, Method<T>) -> Option<F>,
    V: Fn(&DenseMatrix<T>) -> F,
    E: Fn(&[T], &[T]) -> (T, Vec<T>),
    S: Fn(&CscMatrix<T>, T) -> Option<G>,
    Q: Fn(&[ConeScaling<T>], T) -> F,
    I: Fn(Cone) -> Vec<T>,
    R: Fn(Cone, &[T], &[T]) -> T,
    C: Fn(&ConeScaling<T>, &[T], bool) -> Vec<T>,
    P: Fn(Cone, &[T], &[T]) -> Vec<T>,
    Y: Fn(Cone, &[T], &[T]) -> Vec<T>,
    Z: Fn(Cone, &[T], T, T) -> Vec<T>,
>(
    c: &ConicSetting<T>,
    plan: &ConicPlan<T>,
    tools: &ConicTools<A, O, U, K, V, E, S, Q>,
    al: &Algebra<I, R, C, P, Y, Z>,
    p: &Iterate<T>,
    q: &Residuals<T>,
    g: &Regularization<T>,
    k: usize,
) -> (o: Option<(ConicStep<T>, usize)>)
    requires
        c.wf(),
        p.fits(*c.prob),
        q.r_d@.len() == c.prob.n(),
        q.r_b@.len() == c.prob.me(),
        q.r_h@.len() == c.prob.mi(),
        k < usize::MAX,
        forall|i: int| 0 <= i < c.cones@.len() && c.cones@[i] is Soc ==> (#[trigger] c.cones@[i]).size() > 0,
        conic_plan_fits(*c.prob, c.cones@, *plan),
        conic_systems_fit(*c.prob, c.cones@),
        conic_tools_fit(c.cones@, *tools),
        algebra_fits(c.cones@, *al),
    ensures
        exists|t: ConicMoment<T>|
            is_conic_moment(c.cones@, tools.scale, tools.soc, *p, *q, *g, k, t) && #[trigger] conic_plan_steps(
                *c,
                t,
                *plan,
                *tools,
                *al,
                o,
            ),
        step_fits(*c.prob, k, o),
{
    proof {
        lemma_slacks_square(*c.prob, c.cones@);
    }
    let (sc, blocks) = scale_cones(c.cones, c.offsets, &p.s, &p.z, &tools.scale, &tools.soc);
    let t = ConicMoment { it: p, r: q, sc: &sc, blocks: &blocks, rho: g.rho, delta: g.delta, short: k };
    let o = conic_plan_newton(c, &t, plan, tools, al);
    assert(is_conic_moment(c.cones@, tools.scale, tools.soc, *p, *q, *g, k, t));
    o
}

fn solve_from<
    T: Scalar,
    X: Fn(&BoxLp<T>) -> Option<Vertex<T>>,
    M: Fn(Cone, &[T]) -> T,
    F: Fn(&[T]) -> Vec<T>,
    G: Fn(&[T]) -> Vec<T>,
    A: Fn(Cone, &[T], &[T]) -> (ConeScaling<T>, Vec<T>),
    O: Fn(&CscMatrix<T>) -> Vec<usize>,
    U: Fn(&CscMatrix<T>, &[usize]) -> CscMatrix<T>,
    K: Fn(&DenseMatrix<T>, Method<T>) -> Option<F>,
    V: Fn(&DenseMatrix<T>) -> F,
    E: Fn(&[T], &[T]) -> (T, Vec<T>),
    S: Fn(&CscMatrix<T>, T) -> Option<G>,
    Q: Fn(&[ConeScaling<T>], T) -> F,
    I: Fn(Cone) -> Vec<T>,
    R: Fn(Cone, &[T], &[T]) -> T,
    C: Fn(&ConeScaling<T>, &[T], bool) -> Vec<T>,
    P: Fn(Cone, &[T], &[T]) -> Vec<T>,
    Y: Fn(Cone, &[T], &[T]) -> Vec<T>,
    Z: Fn(Cone, &[T], T, T) -> Vec<T>,
>(
    work: &QpProblem<T>,
    change: Option<(&[usize], &[T])>,
    cones: &[Cone],
    identities: &[Vec<T>],
    settings: &Settings<T>,
    init: Option<&WarmStart<T>>,
    simplex: &X,
    margin: &M,
    tools: &ConicTools<A, O, U, K, V, E, S, Q>,
    al: &Algebra<I, R, C, P, Y, Z>,
) -> (sol: QpSolution<T>)
    requires
        conic_problem(*work, cones@),
        degree_upto(cones@, cones@.len()) <= usize::MAX,
        identities_fit(cones@, identities@),
        forall|c: int| 0 <= c < cones@.len() && cones@[c] is Soc ==> (#[trigger] cones@[c]).size() > 0,
        parts_fit(*simplex, *margin),
        conic_systems_fit(*work, cones@),
        if change is Some {
            work.n() > 0
        } else {
            permutes_conic(*work, cones@, tools.permute)
        },
        conic_tools_fit(cones@, *tools),
        algebra_fits(cones@, *al),
        change is Some ==> work.mi() == work.n(),
        change matches Some(c) ==> {
            &&& c.0@.len() == work.n()
            &&& c.1@.len() == work.n()
            &&& forall|i: int| 0 <= i < work.n() ==> (#[trigger] c.0@[i]) < work.n()
            &&& forall|i: int, k: int| 0 <= i < k < work.n() ==> #[trigger] c.0@[i] != #[trigger] c.0@[k]
        },
    ensures
        sol.sized(work.n(), work.me(), work.mi()),
        exists|v: Course<T>| #[trigger]
            solved_along(
                *work,
                change_view(change),
                cones@,
                identities@,
                *settings,
                init,
                *simplex,
                *margin,
                *tools,
                *al,
                v,
                sol,
            ),
{
    let kron: bool = change.is_some();
    let n: usize = work.q.len();
    let me: usize = work.b_eq.len();
    let mi: usize = work.b_in.len();
    if conic_takes_simplex(work, cones) {
        assert(mi * (n + mi) <= 400 * 2400) by (nonlinear_arith)
            requires
                mi <= 400,
                n <= 2000,
        ;
        let quick = try_sparse_lp_dual_simplex(work, simplex);
        match quick {
            Some(q) => {
                proof {
                    simplex_solution_is_tested(*work, *simplex, q);
                    tested_multipliers_answer_the_problem(*work, q);
                    let v = Course {
                        quick: Some(q),
                        warm: None,
                        eq_csr: None,
                        in_csr: None,
                        degree: 1,
                        reg: arbitrary(),
                        plan: ConicPlan::Dense,
                        end: arbitrary(),
                    };
                    assert(solved_along(
                        *work,
                        change_view(change),
                        cones@,
                        identities@,
                        *settings,
                        init,
                        *simplex,
                        *margin,
                        *tools,
                        *al,
                        v,
                        q,
                    ));
                }
                return q;
            },
            None => {},
        }
    }
    let ghost quick: Option<QpSolution<T>> = None;
    assert(takes_simplex(*work, cones@) ==> simplex_route(*work, *simplex, quick));
    let offsets = cone_offsets(cones);
    let degree: usize = total_degree(cones);
    let p_diagonal: bool = kron || work.p.is_diagonal();
    let acc = if kron {
        Access { p_diagonal, eq: Form::Dense, ain: Form::Negated }
    } else {
        Access { p_diagonal, eq: Form::Rows, ain: Form::Rows }
    };
    let eq_csr: Option<CscMatrix<T>> = if kron {
        None
    } else {
        Some(sparse_rows_of(&work.a_eq_csr, &work.a_eq, me, n))
    };
    let in_csr: Option<CscMatrix<T>> = if kron {
        None
    } else {
        Some(sparse_rows_of(&work.a_in_csr, &work.a_in, mi, n))
    };
    let reg: Regularization<T> = initial_regularization(cones);
    let warm: Option<Seed<T>> = if kron {
        None
    } else {
        conic_warm_seed(work, cones, &offsets, init, identities, margin)
    };
    let ghost warm_view = warm;
    let seed = starting_point(work, cones, &offsets, identities, warm);
    let start = Iterate { x: seed.x, y: filled(T::zero(), me), s: seed.s, z: seed.z };
    assert(start@ == first_iterate(*work, cones@, identities@, warm_view));
    let eq_ref: Option<&CscMatrix<T>> = eq_csr.as_ref();
    let in_ref: Option<&CscMatrix<T>> = in_csr.as_ref();
    assert(opt_deref(eq_ref) == eq_csr);
    assert(opt_deref(in_ref) == in_csr);
    let setting = ConicSetting {
        prob: work,
        cones,
        offsets: &offsets,
        identities,
        ain: acc.ain,
        eq_csr: eq_ref,
        in_csr: in_ref,
        degree: T::from_usize(degree),
        p_diag: p_diagonal,
    };
    proof {
        lemma_slacks_square(*work, cones@);
    }
    let (sc0, blocks0) = scale_cones(cones, &offsets, &start.s, &start.z, &tools.scale, &tools.soc);
    let plan = plan_conic(
        &setting,
        kron,
        &sc0,
        &blocks0,
        reg.rho,
        reg.delta,
        &tools.order,
        &tools.permute,
    );
    let ghost v0 = Course { quick, warm: warm_view, eq_csr, in_csr, degree, reg, plan, end: arbitrary() };
    proof {
        assert(acc == access_for(*work, kron));
        assert(is_conic_setting(*work, kron, cones@, identities@, eq_csr, in_csr, degree, setting));
    }
    let rel = Ghost(conic_relation(*work, kron, cones@, identities@, v0, *tools, *al));
    let ghost (gn, gme, gmi) = (work.n(), work.me(), work.mi());
    let newton = |p: &Iterate<T>, q: &Residuals<T>, g: &Regularization<T>, k: usize| -> (o: Option<
        (ConicStep<T>, usize),
    >)
        requires
            p.x@.len() == gn,
            p.y@.len() == gme,
            p.s@.len() == gmi,
            p.z@.len() == gmi,
            q.r_d@.len() == gn,
            q.r_b@.len() == gme,
            q.r_h@.len() == gmi,
            k < usize::MAX,
        ensures
            o matches Some(d) ==> d.0.d@.x.len() == gn && d.0.d@.y.len() == gme && d.0.d@.s.len() == gmi
                && d.0.d@.z.len() == gmi && d.1 <= k + 1,
            taken(rel@, *p, *q, *g, k, o),
    {
        step_from(&setting, &plan, tools, al, p, q, g, k)
    };
    assert(steps_fit(*work, newton, rel@));
    let (it, st, verdict, iters) = run_conic(
        work,
        &acc,
        eq_ref,
        in_ref,
        cones,
        &offsets,
        margin,
        T::from_usize(degree),
        settings.eps_abs,
        settings.max_iters,
        start,
        reg,
        newton,
        rel,
    );
    let ghost end = Ending {
        it: it@,
        best: st.best@,
        best_err: st.best_err,
        verdict,
        iters: iters as int,
    };
    let (last, status) = settle(verdict, it, st, settings.eps_abs);
    assert((last@, status) == settled(end, settings.eps_abs));
    let sol = conclude(work, p_diagonal, last, status, iters, change);
    proof {
        let v = Course { end, ..v0 };
        assert(rel@ == conic_relation(*work, kron, cones@, identities@, v, *tools, *al));
        let first = first_iterate(*work, cones@, identities@, warm_view);
        assert(conic_planned(
            setting,
            kron,
            sc0@,
            blocks0@,
            v.reg.rho,
            v.reg.delta,
            tools.order,
            tools.permute,
            v.plan,
        ));
        assert(conic_prepared(
            *work,
            kron,
            cones@,
            identities@,
            first,
            tools.scale,
            tools.soc,
            tools.order,
            tools.permute,
            v,
        ));
        assert(concludes(*work, acc.p_diagonal, change_view(change), settings.eps_abs, end, sol));
        if sol.status == Status::Solved {
            solved_is_tested(
                *work,
                change_view(change),
                cones@,
                identities@,
                *settings,
                init,
                *margin,
                rel@,
                v,
                sol,
            );
            solved_conic_run_answers_the_problem(
                *work,
                change_view(change),
                cones@,
                identities@,
                *settings,
                *margin,
                v,
                sol,
            );
        }
        assert(solved_along(
            *work,
            change_view(change),
            cones@,
            identities@,
            *settings,
            init,
            *simplex,
            *margin,
            *tools,
            *al,
            v,
            sol,
        ));
    }
    sol
}

/// Solves a conic program from the cold start.
pub fn solve_cone_qp<
    T: Scalar,
    X: Fn(&BoxLp<T>) -> Option<Vertex<T>>,
    M: Fn(Cone, &[T]) -> T,
    F: Fn(&[T]) -> Vec<T>,
    G: Fn(&[T]) -> Vec<T>,
    A: Fn(Cone, &[T], &[T]) -> (ConeScaling<T>, Vec<T>),
    O: Fn(&CscMatrix<T>) -> Vec<usize>,
    U: Fn(&CscMatrix<T>, &[usize]) -> CscMatrix<T>,
    K: Fn(&DenseMatrix<T>, Method<T>) -> Option<F>,
    V: Fn(&DenseMatrix<T>) -> F,
    E: Fn(&[T], &[T]) -> (T, Vec<T>),
    S: Fn(&CscMatrix<T>, T) -> Option<G>,
    Q: Fn(&[ConeScaling<T>], T) -> F,
    I: Fn(Cone) -> Vec<T>,
    R: Fn(Cone, &[T], &[T]) -> T,
    C: Fn(&ConeScaling<T>, &[T], bool) -> Vec<T>,
    P: Fn(Cone, &[T], &[T]) -> Vec<T>,
    Y: Fn(Cone, &[T], &[T]) -> Vec<T>,
    Z: Fn(Cone, &[T], T, T) -> Vec<T>,
>(
    prob: &QpProblem<T>,
    cones: &[Cone],
    settings: &Settings<T>,
    simplex: &X,
    margin: &M,
    tools: &ConicTools<A, O, U, K, V, E, S, Q>,
    al: &Algebra<I, R, C, P, Y, Z>,
) -> (sol: QpSolution<T>)
    requires
        conic_problem(*prob, cones@),
        degree_upto(cones@, cones@.len()) <= usize::MAX,
        forall|c: int| 0 <= c < cones@.len() && cones@[c] is Soc ==> (#[trigger] cones@[c]).size() > 0,
        parts_fit(*simplex, *margin),
        conic_systems_fit(*prob, cones@),
        if kron_structure(*prob, cones@) {
            prob.n() > 0
        } else {
            permutes_conic(*prob, cones@, tools.permute)
        },
        conic_tools_fit(cones@, *tools),
        algebra_fits(cones@, *al),
    ensures
        conic_solved(*prob, cones@, *settings, None, *simplex, *margin, *tools, *al, sol),
        sol.sized(prob.n(), prob.me(), prob.mi()),
{
    solve_cone_qp_warm(prob, cones, settings, None, simplex, margin, tools, al)
}

/// Solves a quadratic program over the nonnegative orthant with the conic engine.
pub fn solve_orthant_qp_warm<
    T: Scalar,
    X: Fn(&BoxLp<T>) -> Option<Vertex<T>>,
    M: Fn(Cone, &[T]) -> T,
    F: Fn(&[T]) -> Vec<T>,
    G: Fn(&[T]) -> Vec<T>,
    A: Fn(Cone, &[T], &[T]) -> (ConeScaling<T>, Vec<T>),
    O: Fn(&CscMatrix<T>) -> Vec<usize>,
    U: Fn(&CscMatrix<T>, &[usize]) -> CscMatrix<T>,
    K: Fn(&DenseMatrix<T>, Method<T>) -> Option<F>,
    V: Fn(&DenseMatrix<T>) -> F,
    E: Fn(&[T], &[T]) -> (T, Vec<T>),
    S: Fn(&CscMatrix<T>, T) -> Option<G>,
    Q: Fn(&[ConeScaling<T>], T) -> F,
    I: Fn(Cone) -> Vec<T>,
    R: Fn(Cone, &[T], &[T]) -> T,
    C: Fn(&ConeScaling<T>, &[T], bool) -> Vec<T>,
    P: Fn(Cone, &[T], &[T]) -> Vec<T>,
    Y: Fn(Cone, &[T], &[T]) -> Vec<T>,
    Z: Fn(Cone, &[T], T, T) -> Vec<T>,
>(
    prob: &QpProblem<T>,
    settings: &Settings<T>,
    init: Option<&WarmStart<T>>,
    simplex: &X,
    margin: &M,
    tools: &ConicTools<A, O, U, K, V, E, S, Q>,
    al: &Algebra<I, R, C, P, Y, Z>,
) -> (sol: QpSolution<T>)
    requires
        prob.wf(),
        parts_fit(*simplex, *margin),
        conic_systems_fit(*prob, orthant(prob.mi())),
        permutes_conic(*prob, orthant(prob.mi()), tools.permute),
        conic_tools_fit(orthant(prob.mi()), *tools),
        algebra_fits(orthant(prob.mi()), *al),
    ensures
        sol.sized(prob.n(), prob.me(), prob.mi()),
        conic_solved(*prob, orthant(prob.mi()), *settings, init, *simplex, *margin, *tools, *al, sol),
{
    let mi: usize = prob.b_in.len();
    let mut cones: Vec<Cone> = Vec::new();
    cones.push(Cone::NonNeg(mi));
    proof {
        assert(cones@ =~= orthant(prob.mi()));
        reveal_with_fuel(size_upto, 2);
        reveal_with_fuel(degree_upto, 2);
    }
    solve_cone_qp_warm(prob, &cones, settings, init, simplex, margin, tools, al)
}

/// The nonnegative orthant as a list of cones.
pub open spec fn orthant(mi: nat) -> Seq<Cone> {
    seq![Cone::NonNeg(mi as usize)]
}

/// The interior-point run reports a solution as solved only where it is finite and the iterate that it
/// ended with passed a test.
pub proof fn solved_is_tested<T: Scalar, M: Fn(Cone, &[T]) -> T>(
    work: QpProblem<T>,
    change: Option<(Seq<usize>, Seq<T>)>,
    cones: Seq<Cone>,
    identities: Seq<Vec<T>>,
    settings: Settings<T>,
    init: Option<&WarmStart<T>>,
    margin: M,
    steps: Steps<T>,
    v: Course<T>,
    sol: QpSolution<T>,
)
    requires
        conic_interior(
            work,
            change,
            cones,
            identities,
            settings,
            init,
            margin,
            steps,
            v,
            sol,
        ),
        sol.status == Status::Solved,
    ensures
        all_finite(sol.x@) && all_finite(sol.y@) && all_finite(sol.s@) && all_finite(sol.z@),
        tested(
            run_setting(work, change is Some, cones, settings, margin, v),
            first_iterate(work, cones, identities, v.warm),
            settled(v.end, settings.eps_abs).0,
        ),
{
    let c = run_setting(work, change is Some, cones, settings, margin, v);
    let first = first_iterate(work, cones, identities, v.warm);
    let st = choose|st: StateView<T>| #[trigger]
        starts(first, v.reg, st) && runs(c, steps, 0, settings.max_iters as nat, first, st, v.end);
    runs_are_honest(c, steps, 0, settings.max_iters as nat, first, first, st, v.end);
    assert(best_is_measured(c, first, v.end.best, v.end.best_err));
}

/// The warm start cannot be used, whatever the margins of its blocks come out as: the problem has the
/// structure for the change of variables, the start has other lengths than the problem, an entry is not
/// finite, a row of `A x + s = b` does not hold, or some block does not come to lie inside its cone.
pub open spec fn start_refused<T: Scalar, M: Fn(Cone, &[T]) -> T, I: Fn(Cone) -> Vec<T>>(
    prob: QpProblem<T>,
    cones: Seq<Cone>,
    init: Option<&WarmStart<T>>,
    margin: M,
    identity: I,
) -> bool {
    kron_structure(prob, cones) || forall|identities: Seq<Vec<T>>| #[trigger]
        identities_at(cones, identity, identities) ==> seed_refused(prob, cones, identities, init, margin)
}

/// A warm start that is refused leaves no trace: the solve is one from the cold start.
pub proof fn refused_warm_start_is_cold<
    T: Scalar,
    X: Fn(&BoxLp<T>) -> Option<Vertex<T>>,
    M: Fn(Cone, &[T]) -> T,
    F: Fn(&[T]) -> Vec<T>,
    G: Fn(&[T]) -> Vec<T>,
    A: Fn(Cone, &[T], &[T]) -> (ConeScaling<T>, Vec<T>),
    O: Fn(&CscMatrix<T>) -> Vec<usize>,
    U: Fn(&CscMatrix<T>, &[usize]) -> CscMatrix<T>,
    K: Fn(&DenseMatrix<T>, Method<T>) -> Option<F>,
    V: Fn(&DenseMatrix<T>) -> F,
    E: Fn(&[T], &[T]) -> (T, Vec<T>),
    S: Fn(&CscMatrix<T>, T) -> Option<G>,
    Q: Fn(&[ConeScaling<T>], T) -> F,
    I: Fn(Cone) -> Vec<T>,
    R: Fn(Cone, &[T], &[T]) -> T,
    C: Fn(&ConeScaling<T>, &[T], bool) -> Vec<T>,
    P: Fn(Cone, &[T], &[T]) -> Vec<T>,
    Y: Fn(Cone, &[T], &[T]) -> Vec<T>,
    Z: Fn(Cone, &[T], T, T) -> Vec<T>,
>(
    prob: QpProblem<T>,
    cones: Seq<Cone>,
    settings: Settings<T>,
    init: Option<&WarmStart<T>>,
    simplex: X,
    margin: M,
    tools: ConicTools<A, O, U, K, V, E, S, Q>,
    al: Algebra<I, R, C, P, Y, Z>,
    sol: QpSolution<T>,
)
    requires
        conic_solved(prob, cones, settings, init, simplex, margin, tools, al, sol),
        start_refused(prob, cones, init, margin, al.identity),
    ensures
        conic_solved(prob, cones, settings, None, simplex, margin, tools, al, sol),
{
    let identities = choose|identities: Seq<Vec<T>>|
        identities_at(cones, al.identity, identities) && #[trigger] conic_solution(
            prob,
            cones,
            identities,
            settings,
            init,
            simplex,
            margin,
            tools,
            al,
            sol,
        );
    if kron_structure(prob, cones) {
        let (c, v) = choose|c: Changed<T>, v: Course<T>|
            {
                &&& is_perm_of(prob.a_in, c.sigma@, c.g@)
                &&& is_changed(prob, c.sigma@, c.g@, c.prob)
                &&& #[trigger] solved_along(
                    c.prob,
                    Some((c.sigma@, c.g@)),
                    cones,
                    identities,
                    settings,
                    init,
                    simplex,
                    margin,
                    tools,
                    al,
                    v,
                    sol,
                )
            };
        assert(solved_along(
            c.prob,
            Some((c.sigma@, c.g@)),
            cones,
            identities,
            settings,
            None,
            simplex,
            margin,
            tools,
            al,
            v,
            sol,
        ));
    } else {
        let v = choose|v: Course<T>| #[trigger]
            solved_along(
                prob,
                None,
                cones,
                identities,
                settings,
                init,
                simplex,
                margin,
                tools,
                al,
                v,
                sol,
            );
        assert(seed_refused(prob, cones, identities, init, margin));
        if v.quick is None {
            refused_seed_is_none(prob, cones, identities, init, margin, v.warm);
        }
        assert(solved_along(
            prob,
            None,
            cones,
            identities,
            settings,
            None,
            simplex,
            margin,
            tools,
            al,
            v,
            sol,
        ));
    }
    assert(conic_solution(prob, cones, identities, settings, None, simplex, margin, tools, al, sol));
}

} // verus!
