//! Quadratic programs with a low-rank Hessian, through the conic engine.
use crate::factor::Method;
use crate::cone::{cones_fit, degree_upto, size_upto, total_size, Cone, ConeScaling};
use crate::conic_kkt::conic_problem;
use crate::conic_plan::{conic_systems_fit, conic_tools_fit, permutes_conic, ConicTools};
use crate::conic_solve::{conic_solved, parts_fit, solve_cone_qp};
use crate::curved::{algebra_fits, Algebra};
use crate::lowrank::{
    detects, is_reformulation, lowrank_route, reform_cones, reform_sizes, solve_reformed, solved_as, LowRankDiag,
    Solves,
};
use crate::lp_simplex::{BoxLp, Vertex};
use crate::lr_cache::Searches;
use crate::matrix::DenseMatrix;
use crate::problem::{QpProblem, QpSolution};
use crate::qp_setup::Settings;
use crate::scalar::Scalar;
use crate::sparse::CscMatrix;
use vstd::prelude::*;

verus! {

/// What the conic engine may give under an iteration cap in place of that of the settings.
pub open spec fn capped_relation<
    T: Scalar,
    X: Fn(&BoxLp<T>) -> Option<Vertex<T>>,
    M: Fn(Cone, &[T]) -> T,
    F: Fn(&[T]) -> Vec<T>,
    G: Fn(&[T]) -> Vec<T>,
    A: Fn(Cone, &[T], &[T]) -> (ConeScaling<T>, Vec<T>),
    O: Fn(&CscMatrix<T>) -> Vec<usize>,
    U: Fn(&CscMatrix<T>, &[usize]) -> CscMatrix<T>,
    K: Fn(&DenseMatrix<T>, Method<T>) -> Option<F>,
    V: Fn(&DenseMatrix<T>) -> F,
    E: Fn(&[T], &[T]) -> (T, Vec<T>),
    S: Fn(&CscMatrix<T>, T) -> Option<G>,
    Q: Fn(&[ConeScaling<T>], T) -> F,
    I: Fn(Cone) -> Vec<T>,
    R: Fn(Cone, &[T], &[T]) -> T,
    C: Fn(&ConeScaling<T>, &[T], bool) -> Vec<T>,
    P: Fn(Cone, &[T], &[T]) -> Vec<T>,
    Y: Fn(Cone, &[T], &[T]) -> Vec<T>,
    Z: Fn(Cone, &[T], T, T) -> Vec<T>,
>(
    settings: Settings<T>,
    simplex: X,
    margin: M,
    tools: ConicTools<A, O, U, K, V, E, S, Q>,
    al: Algebra<I, R, C, P, Y, Z>,
) -> Solves<T> {
    |p: QpProblem<T>, cones: Seq<Cone>, cap: usize, sol: QpSolution<T>|
        conic_solved(p, cones, settings.capped(cap), None, simplex, margin, tools, al, sol)
}

/// The conic engine takes this reformulation.
pub open spec fn reform_taken<
    T: Scalar,
    F: Fn(&[T]) -> Vec<T>,
    G: Fn(&[T]) -> Vec<T>,
    A: Fn(Cone, &[T], &[T]) -> (ConeScaling<T>, Vec<T>),
    O: Fn(&CscMatrix<T>) -> Vec<usize>,
    U: Fn(&CscMatrix<T>, &[usize]) -> CscMatrix<T>,
    K: Fn(&DenseMatrix<T>, Method<T>) -> Option<F>,
    V: Fn(&DenseMatrix<T>) -> F,
    E: Fn(&[T], &[T]) -> (T, Vec<T>),
    S: Fn(&CscMatrix<T>, T) -> Option<G>,
    Q: Fn(&[ConeScaling<T>], T) -> F,
    I: Fn(Cone) -> Vec<T>,
    R: Fn(Cone, &[T], &[T]) -> T,
    C: Fn(&ConeScaling<T>, &[T], bool) -> Vec<T>,
    P: Fn(Cone, &[T], &[T]) -> Vec<T>,
    Y: Fn(Cone, &[T], &[T]) -> Vec<T>,
    Z: Fn(Cone, &[T], T, T) -> Vec<T>,
>(
    p: QpProblem<T>,
    cones: Seq<Cone>,
    tools: ConicTools<A, O, U, K, V, E, S, Q>,
    al: Algebra<I, R, C, P, Y, Z>,
) -> bool {
    &&& conic_systems_fit(p, cones)
    &&& permutes_conic(p, cones, tools.permute)
    &&& conic_tools_fit(cones, tools)
    &&& algebra_fits(cones, al)
}

/// A problem over an orthant and a second-order cone with at least two entries, whose slacks the cones
/// make up.
pub open spec fn over_two_cones<T: Scalar>(p: QpProblem<T>, cones: Seq<Cone>) -> bool {
    &&& conic_problem(p, cones)
    &&& cones.len() == 2
    &&& cones[0] is NonNeg
    &&& cones[1] is Soc
    &&& cones[1].size() >= 2
    &&& degree_upto(cones, cones.len()) <= usize::MAX
}

proof fn lemma_reform_cones<T: Scalar>(prob: QpProblem<T>, lr: LowRankDiag<T>, p: QpProblem<T>)
    requires
        prob.wf(),
        reform_sizes(prob),
        lr.genuine(prob.n()),
        is_reformulation(prob, lr, p),
        conic_systems_fit(p, reform_cones(prob, lr)),
    ensures
        over_two_cones(p, reform_cones(prob, lr)),
{
    let cones = reform_cones(prob, lr);
    reveal_with_fuel(size_upto, 3);
    reveal_with_fuel(degree_upto, 3);
    let size = (p.n() + p.me() + p.mi()) as int;
    assert(size < 2 || size < size * size) by (nonlinear_arith)
        requires
            size >= 0,
    ;
    assert(total_size(cones) == p.mi());
    assert(cones_fit(cones));
}

/// Solves a reformulation with the conic engine under an iteration cap.
fn solve_capped<
    T: Scalar,
    X: Fn(&BoxLp<T>) -> Option<Vertex<T>>,
    M: Fn(Cone, &[T]) -> T,
    F: Fn(&[T]) -> Vec<T>,
    G: Fn(&[T]) -> Vec<T>,
    A: Fn(Cone, &[T], &[T]) -> (ConeScaling<T>, Vec<T>),
    O: Fn(&CscMatrix<T>) -> Vec<usize>,
    U: Fn(&CscMatrix<T>, &[usize]) -> CscMatrix<T>,
    K: Fn(&DenseMatrix<T>, Method<T>) -> Option<F>,
    V: Fn(&DenseMatrix<T>) -> F,
    E: Fn(&[T], &[T]) -> (T, Vec<T>),
    S: Fn(&CscMatrix<T>, T) -> Option<G>,
    Q: Fn(&[ConeScaling<T>], T) -> F,
    I: Fn(Cone) -> Vec<T>,
    R: Fn(Cone, &[T], &[T]) -> T,
    C: Fn(&ConeScaling<T>, &[T], bool) -> Vec<T>,
    P: Fn(Cone, &[T], &[T]) -> Vec<T>,
    Y: Fn(Cone, &[T], &[T]) -> Vec<T>,
    Z: Fn(Cone, &[T], T, T) -> Vec<T>,
>(
    p: &QpProblem<T>,
    cones: &[Cone],
    cap: usize,
    settings: &Settings<T>,
    simplex: &X,
    margin: &M,
    tools: &ConicTools<A, O, U, K, V, E, S, Q>,
    al: &Algebra<I, R, C, P, Y, Z>,
) -> (sol: QpSolution<T>)
    requires
        over_two_cones(*p, cones@),
        parts_fit(*simplex, *margin),
        reform_taken(*p, cones@, *tools, *al),
    ensures
        sol.sized(p.n(), p.me(), p.mi()),
        solved_as(capped_relation(*settings, *simplex, *margin, *tools, *al), *p, cones@, cap, sol),
{
    solve_cone_qp(p, cones, &settings.with_cap(cap), simplex, margin, tools, al)
}

/// Solves a quadratic program whose Hessian is low-rank plus diagonal through the conic program
/// that stands for it. `detect` looks for the structure in the Hessian, up to a rank, where `known` does
/// not tell. None where there is no such structure, or the conic solve finds no solution.
pub fn solve_qp_lowrank<
    T: Scalar,
    D: Fn(&DenseMatrix<T>, T, usize) -> Option<LowRankDiag<T>>,
    X: Fn(&BoxLp<T>) -> Option<Vertex<T>>,
    M: Fn(Cone, &[T]) -> T,
    F: Fn(&[T]) -> Vec<T>,
    G: Fn(&[T]) -> Vec<T>,
    A: Fn(Cone, &[T], &[T]) -> (ConeScaling<T>, Vec<T>),
    O: Fn(&CscMatrix<T>) -> Vec<usize>,
    U: Fn(&CscMatrix<T>, &[usize]) -> CscMatrix<T>,
    K: Fn(&DenseMatrix<T>, Method<T>) -> Option<F>,
    V: Fn(&DenseMatrix<T>) -> F,
    E: Fn(&[T], &[T]) -> (T, Vec<T>),
    S: Fn(&CscMatrix<T>, T) -> Option<G>,
    Q: Fn(&[ConeScaling<T>], T) -> F,
    I: Fn(Cone) -> Vec<T>,
    R: Fn(Cone, &[T], &[T]) -> T,
    C: Fn(&ConeScaling<T>, &[T], bool) -> Vec<T>,
    P: Fn(Cone, &[T], &[T]) -> Vec<T>,
    Y: Fn(Cone, &[T], &[T]) -> Vec<T>,
    Z: Fn(Cone, &[T], T, T) -> Vec<T>,
>(
    prob: &QpProblem<T>,
    settings: &Settings<T>,
    known: &mut Searches<T>,
    detect: &D,
    simplex: &X,
    margin: &M,
    tools: &ConicTools<A, O, U, K, V, E, S, Q>,
    al: &Algebra<I, R, C, P, Y, Z>,
) -> (r: Option<QpSolution<T>>)
    requires
        prob.wf(),
        prob.n() * prob.me() <= usize::MAX,
        detects(*prob, *detect),
        reform_sizes(*prob),
        parts_fit(*simplex, *margin),
        forall|lr: LowRankDiag<T>, p: QpProblem<T>|
            lr.genuine(prob.n()) && #[trigger] is_reformulation(*prob, lr, p) ==> reform_taken(
                p,
                reform_cones(*prob, lr),
                *tools,
                *al,
            ),
    ensures
        lowrank_route(
            *prob,
            settings.max_iters,
            old(known)@,
            *detect,
            capped_relation(*settings, *simplex, *margin, *tools, *al),
            final(known)@,
            r,
        ),
{
    let rel = Ghost(capped_relation(*settings, *simplex, *margin, *tools, *al));
    let takes = Ghost(
        |p: QpProblem<T>, cones: Seq<Cone>| over_two_cones(p, cones) && reform_taken(p, cones, *tools, *al),
    );
    let solve = |p: &QpProblem<T>, cones: &[Cone], cap: usize| -> (sol: QpSolution<T>)
        requires
            takes@(*p, cones@),
        ensures
            sol.sized(p.n(), p.me(), p.mi()),
            solved_as(rel@, *p, cones@, cap, sol),
    { solve_capped(p, cones, cap, settings, simplex, margin, tools, al) };
    assert forall|p: &QpProblem<T>, c: &[Cone], cap: usize, lr: LowRankDiag<T>|
        #![trigger solve.requires((p, c, cap)), is_reformulation(*prob, lr, *p)]
        is_reformulation(*prob, lr, *p) && lr.genuine(prob.n()) && c@ == reform_cones(
            *prob,
            lr,
        ) implies solve.requires((p, c, cap)) by {
        lemma_reform_cones(*prob, lr, *p);
    }
    solve_reformed(prob, settings.max_iters, known, detect, &solve, rel)
}

} // verus!
