//! The interior-point run of a conic program, where the operations of the numbers are exact: what it reports
//! as solved satisfies the rows of the problem, also after a change of variables.
use crate::change_laws::{changes_variables, same_program, undone_change_is_the_point};
use crate::cone::{degree_upto, Cone};
use crate::conic_dir::engine_objective;
use crate::conic_run::{best_is_measured, measured, within_tolerances, Setting};
use crate::conic_solve::{
    barrier_degree_of, concludes, first_iterate, rows_of, run_setting, settled, tested, Course,
};
use crate::conic_step::{error_of, residuals_of, terms_of, IterateView, Residuals, Terms};
use crate::exact::{
    exact, exact_counts, exact_order, largest, lemma_largest_same, lemma_over, lemma_sum_same, lemma_whole,
    magnitude, products_are_exact, sum, whole,
};
use crate::kron::{generalized_permutation, is_changed, is_perm_of, is_undone, Changed};
use crate::lowrank_laws::reading_of_solution;
use crate::matrix::{diagonal_matrix, zero_matrix, DenseMatrix};
use crate::optimum_laws::{across, along, entries, inner, program_of, reading_of, Program, Reading};
use crate::problem::{QpProblem, QpSolution};
use crate::product_laws::{
    form_holds, found_rows_hold_the_matrix, held, hessian_products_are_those_of_the_matrix, hold_rows,
    products_are_those_of_the_matrix, transposed_products_are_those_of_the_matrix,
};
use crate::products::{hessian_times, Form};
use crate::qp_setup::Settings;
use crate::scalar::Scalar;
use crate::separable_laws::twice_objective;
use crate::solution_laws::{
    image, larger, lemma_same_solved, reads_problem, same_readings, small_residuals_solve_the_rows, solved_within,
    true_terms,
};
use crate::sparse::CscMatrix;
use vstd::prelude::*;

verus! {

/// The barrier degree of the cones, and 1 where they have none.
pub open spec fn degree_of(cones: Seq<Cone>) -> nat {
    let total = degree_upto(cones, cones.len());
    if total == 0 {
        1
    } else {
        total
    }
}

/// The point satisfies every row of the problem up to the tolerance, the complementarity is within it, and
/// `obj` is the objective of the point.
pub open spec fn conic_answer<T: Scalar>(
    v: spec_fn(T) -> real,
    prob: QpProblem<T>,
    cones: Seq<Cone>,
    eps: T,
    w: Reading,
    obj: T,
) -> bool {
    let c = program_of(v, prob);
    &&& solved_within(c, w, v(eps), true)
    &&& inner(w.s, w.z, c.mi) <= v(eps) * whole(degree_of(cones))
    &&& v(obj) + v(obj) == twice_objective(c, w.x)
}

/// What the run reports is true of the problem that it works on, however its numbers are read: at the
/// reported point, and after a change of variables at the point in the new variables.
pub open spec fn answers_conic<T: Scalar>(
    work: QpProblem<T>,
    kron: bool,
    cones: Seq<Cone>,
    eps: T,
    last: IterateView<T>,
    sol: QpSolution<T>,
) -> bool {
    forall|v: spec_fn(T) -> real| #[trigger]
        reads_problem(v, work, eps) && (kron ==> form_holds(v, Form::Negated, None, work.a_in) && diagonal_matrix(
            work.p,
        )) ==> conic_answer(
            v,
            work,
            cones,
            eps,
            if kron {
                reading_of(v, last)
            } else {
                reading_of_solution(v, sol)
            },
            sol.obj_val,
        )
}

/// Sparse rows that are taken over or found hold the matrix.
proof fn lemma_rows_of<T: Scalar>(
    v: spec_fn(T) -> real,
    given: Option<CscMatrix<T>>,
    a: DenseMatrix<T>,
    c: CscMatrix<T>,
)
    requires
        exact(v),
        a.wf(),
        rows_of(given, a, a.nrows as nat, a.ncols as nat, c),
        given matches Some(g) ==> hold_rows(v, g, a),
    ensures
        hold_rows(v, c, a),
{
    match given {
        Some(g) => {
            assert forall|r: int, j: int| 0 <= r < a.nrows && 0 <= j < a.ncols implies #[trigger] held(
                v,
                c.col(r),
                j,
                c.col(r).len(),
            ) == v(a.at(r, j)) by {
                assert(c.col(r) == g.col(r));
                assert(held(v, g.col(r), j, g.col(r).len()) == v(a.at(r, j)));
            }
        },
        None => {
            found_rows_hold_the_matrix(v, c, a);
        },
    }
}

/// The forms in which the run multiplies stand for the problem's matrices.
pub open spec fn true_forms<T: Scalar>(v: spec_fn(T) -> real, c: Setting<T>) -> bool {
    &&& crate::conic_step::access_fits(c.prob, c.acc, c.eq_csr, c.in_csr)
    &&& form_holds(v, c.acc.eq, c.eq_csr, c.prob.a_eq)
    &&& form_holds(v, c.acc.ain, c.in_csr, c.prob.a_in)
    &&& c.acc.p_diagonal ==> diagonal_matrix(c.prob.p)
}

proof fn lemma_conic_terms<T: Scalar>(v: spec_fn(T) -> real, c: Setting<T>, it: IterateView<T>, t: Terms<T>)
    requires
        exact(v),
        true_forms(v, c),
        terms_of(c.prob, c.acc, c.eq_csr, c.in_csr, it, t),
        it.x.len() == c.prob.n(),
        it.y.len() == c.prob.me(),
        it.s.len() == c.prob.mi(),
        it.z.len() == c.prob.mi(),
    ensures
        true_terms(v, c.prob, it, t),
{
    let prob = c.prob;
    let p = program_of(v, prob);
    let w = reading_of(v, it);
    let n = prob.n();
    assert forall|i: int| 0 <= i < n implies v(#[trigger] t.aty@[i]) == across(p.a_eq, w.y, i, p.me) by {
        transposed_products_are_those_of_the_matrix(v, c.acc.eq, c.eq_csr, prob.a_eq, it.y, i);
    }
    assert forall|i: int| 0 <= i < prob.me() implies v(#[trigger] t.aeqx@[i]) == along(p.a_eq, w.x, i, n) by {
        products_are_those_of_the_matrix(v, c.acc.eq, c.eq_csr, prob.a_eq, it.x, i);
    }
    assert forall|i: int| 0 <= i < n implies v(#[trigger] t.px@[i]) == along(p.p, w.x, i, n) by {
        hessian_products_are_those_of_the_matrix(v, prob.p, c.acc.p_diagonal, it.x, i);
    }
    assert forall|i: int| 0 <= i < n implies v(#[trigger] t.atz@[i]) == across(p.a_in, w.z, i, p.mi) by {
        transposed_products_are_those_of_the_matrix(v, c.acc.ain, c.in_csr, prob.a_in, it.z, i);
    }
    assert forall|i: int| 0 <= i < prob.mi() implies v(#[trigger] t.ainx@[i]) == along(p.a_in, w.x, i, n) by {
        products_are_those_of_the_matrix(v, c.acc.ain, c.in_csr, prob.a_in, it.x, i);
    }
}

/// Residuals within the tolerance put the rows of the problem within it.
proof fn lemma_conic_measured<T: Scalar>(
    v: spec_fn(T) -> real,
    c: Setting<T>,
    degree: usize,
    it: IterateView<T>,
    r: Residuals<T>,
)
    requires
        exact(v),
        exact_order(v),
        exact_counts(v),
        true_forms(v, c),
        measured(c, it, r),
        r.rel.at_most(c.eps),
        r.mu.at_most(c.eps),
        c.degree == T::from_usize(degree),
        degree > 0,
        it.x.len() == c.prob.n(),
        it.y.len() == c.prob.me(),
        it.s.len() == c.prob.mi(),
        it.z.len() == c.prob.mi(),
    ensures
        solved_within(program_of(v, c.prob), reading_of(v, it), v(c.eps), true),
        inner(reading_of(v, it).s, reading_of(v, it).z, c.prob.mi()) <= v(c.eps) * whole(degree as nat),
{
    let t = choose|t: Terms<T>| #[trigger]
        terms_of(c.prob, c.acc, c.eq_csr, c.in_csr, it, t) && residuals_of(c.prob, t, c.degree, it, r);
    lemma_conic_terms(v, c, it, t);
    small_residuals_solve_the_rows(v, c.prob, it, t, c.eps, true);
    let mi = c.prob.mi();
    let w = reading_of(v, it);
    lemma_whole(degree as nat);
    products_are_exact(v, it.s, it.z);
    lemma_over(v, crate::vector::dot_spec(it.s, it.z), c.degree);
    lemma_sum_same(|i: int| v(it.s[i]) * v(it.z[i]), |i: int| (w.s)(i) * (w.z)(i), mi);
    let (mu, e, k) = (v(r.mu), v(c.eps), whole(degree as nat));
    assert(mu * k <= e * k) by (nonlinear_arith)
        requires
            mu <= e,
            k > 0real,
    ;
}

/// The objective of the engine, doubled, is that of the point.
proof fn lemma_engine_objective<T: Scalar>(v: spec_fn(T) -> real, prob: QpProblem<T>, diagonal: bool, x: Seq<T>)
    requires
        exact(v),
        prob.wf(),
        diagonal ==> diagonal_matrix(prob.p),
        x.len() == prob.n(),
    ensures
        v(engine_objective(prob, diagonal, x)) + v(engine_objective(prob, diagonal, x)) == twice_objective(
            program_of(v, prob),
            entries(v, x),
        ),
{
    let c = program_of(v, prob);
    let xv = entries(v, x);
    let px = hessian_times(prob.p, diagonal, x);
    products_are_exact(v, x, px);
    products_are_exact(v, prob.q@, x);
    let f = |i: int| v(x[i]) * v(px[i]);
    let g = |i: int| xv(i) * (|i: int| along(c.p, xv, i, c.n))(i);
    assert forall|i: int| 0 <= i < c.n implies #[trigger] f(i) == g(i) by {
        hessian_products_are_those_of_the_matrix(v, prob.p, diagonal, x, i);
    }
    lemma_sum_same(f, g, c.n);
    lemma_sum_same(|i: int| v(prob.q@[i]) * v(x[i]), |i: int| (c.q)(i) * xv(i), c.n);
    let (h, k) = (v(T::decimal(5, 1)), sum(g, c.n));
    assert(h * k + h * k == (h * 2real) * k) by (nonlinear_arith);
    assert(1real * k == k) by (nonlinear_arith);
}

/// A run that reports its problem as solved tells the truth: the rows of the problem that it works on hold
/// up to the tolerance, and the reported objective is that of the point.
pub proof fn solved_conic_run_answers_the_problem<T: Scalar, M: Fn(Cone, &[T]) -> T>(
    work: QpProblem<T>,
    change: Option<(Seq<usize>, Seq<T>)>,
    cones: Seq<Cone>,
    identities: Seq<Vec<T>>,
    settings: Settings<T>,
    margin: M,
    course: Course<T>,
    sol: QpSolution<T>,
)
    requires
        work.wf(),
        sol.sized(work.n(), work.me(), work.mi()),
        settled(course.end, settings.eps_abs).0.x.len() == work.n(),
        change is Some ==> work.mi() == work.n(),
        change is Some ==> course.eq_csr is None && course.in_csr is None,
        change is None ==> {
            &&& course.eq_csr matches Some(c) && c.wf() && c.n == work.me() && c.m == work.n() && rows_of(
                work.a_eq_csr,
                work.a_eq,
                work.me(),
                work.n(),
                c,
            )
            &&& course.in_csr matches Some(c) && c.wf() && c.n == work.mi() && c.m == work.n() && rows_of(
                work.a_in_csr,
                work.a_in,
                work.mi(),
                work.n(),
                c,
            )
        },
        barrier_degree_of(cones, course.degree),
        tested(
            run_setting(work, change is Some, cones, settings, margin, course),
            first_iterate(work, cones, identities, course.warm),
            settled(course.end, settings.eps_abs).0,
        ),
        concludes(
            work,
            crate::conic_solve::access_for(work, change is Some).p_diagonal,
            change,
            settings.eps_abs,
            course.end,
            sol,
        ),
    ensures
        answers_conic(
            work,
            change is Some,
            cones,
            settings.eps_abs,
            settled(course.end, settings.eps_abs).0,
            sol,
        ),
{
    let kron = change is Some;
    let c = run_setting(work, kron, cones, settings, margin, course);
    let eps = settings.eps_abs;
    let first = first_iterate(work, cones, identities, course.warm);
    let last = settled(course.end, eps).0;
    assert forall|v: spec_fn(T) -> real| #[trigger]
        reads_problem(v, work, eps) && (kron ==> form_holds(v, Form::Negated, None, work.a_in) && diagonal_matrix(
            work.p,
        )) implies conic_answer(
        v,
        work,
        cones,
        eps,
        if kron {
            reading_of(v, last)
        } else {
            reading_of_solution(v, sol)
        },
        sol.obj_val,
    ) by {
        if !kron {
            lemma_rows_of(v, work.a_eq_csr, work.a_eq, course.eq_csr->0);
            lemma_rows_of(v, work.a_in_csr, work.a_in, course.in_csr->0);
        }
        assert(true_forms(v, c));
        if within_tolerances(c, last) {
            let r = choose|r: Residuals<T>| #[trigger]
                measured(c, last, r) && crate::conic_step::finite_iterate(last) && r.rel.at_most(c.eps)
                    && crate::conic_step::complementary(r.mu, r.min_sz, c.eps);
            lemma_conic_measured(v, c, course.degree, last, r);
        } else {
            let err = choose|err: T| #[trigger] best_is_measured(c, first, last, err) && err.at_most(c.eps);
            assert(!(err == T::infinity()));
            let r = choose|r: Residuals<T>| #[trigger]
                measured(c, last, r) && crate::conic_step::finite_iterate(last) && err == error_of(r);
            lemma_conic_measured(v, c, course.degree, last, r);
        }
        lemma_engine_objective(v, work, c.acc.p_diagonal, last.x);
        let p = program_of(v, work);
        let (a, b) = (reading_of(v, last), reading_of_solution(v, sol));
        if !kron {
            assert(same_readings(p, a, b));
            lemma_same_solved(p, a, b, v(eps), true);
        }
    }
}

/// The equality rows and the inequality rows of the problem hold at the point, up to `eps` times the size
/// of what each row adds up.
pub open spec fn rows_within(c: Program, w: Reading, eps: real) -> bool {
    &&& forall|i: int|
        0 <= i < c.me ==> magnitude(along(c.a_eq, w.x, i, c.n) - #[trigger] (c.b_eq)(i)) <= eps * (1real + larger(
            largest(image(c.a_eq, w.x, c.n), c.me),
            largest(c.b_eq, c.me),
        ))
    &&& forall|i: int|
        0 <= i < c.mi ==> magnitude(along(c.a_in, w.x, i, c.n) + (w.s)(i) - #[trigger] (c.b_in)(i)) <= eps * (1real
            + larger(
            larger(largest(image(c.a_in, w.x, c.n), c.mi), largest(w.s, c.mi)),
            largest(c.b_in, c.mi),
        ))
}

/// What is reported of a problem whose variables were changed is true of the given problem: its rows hold
/// at the reported point, the complementarity is within the tolerance, and the reported objective is that
/// of the point.
pub open spec fn answers_changed<T: Scalar>(
    prob: QpProblem<T>,
    cones: Seq<Cone>,
    eps: T,
    sol: QpSolution<T>,
) -> bool {
    forall|v: spec_fn(T) -> real| #[trigger]
        reads_problem(v, prob, eps) ==> {
            let c = program_of(v, prob);
            let w = reading_of_solution(v, sol);
            &&& rows_within(c, w, v(eps))
            &&& inner(w.s, w.z, c.mi) <= v(eps) * whole(degree_of(cones))
            &&& v(sol.obj_val) + v(sol.obj_val) == twice_objective(c, w.x)
        }
}

/// A solution in changed variables answers the given problem.
pub proof fn changed_solution_answers_the_problem<T: Scalar>(
    prob: QpProblem<T>,
    c: Changed<T>,
    cones: Seq<Cone>,
    eps: T,
    last: IterateView<T>,
    sol: QpSolution<T>,
)
    requires
        prob.wf(),
        prob.mi() == prob.n(),
        zero_matrix(prob.p),
        generalized_permutation(prob.a_in),
        is_perm_of(prob.a_in, c.sigma@, c.g@),
        is_changed(prob, c.sigma@, c.g@, c.prob),
        changes_variables(prob, c),
        answers_conic(c.prob, true, cones, eps, last, sol),
        last.x.len() == prob.n(),
        sol.x@.len() == prob.n(),
        sol.s@ == last.s,
        sol.z@ == last.z,
        is_undone(c.sigma@, c.g@, last.x, sol.x@, prob.n()),
    ensures
        answers_changed(prob, cones, eps, sol),
{
    let out = c.prob;
    assert forall|v: spec_fn(T) -> real| #[trigger] reads_problem(v, prob, eps) implies {
        let p = program_of(v, prob);
        let w = reading_of_solution(v, sol);
        &&& rows_within(p, w, v(eps))
        &&& inner(w.s, w.z, p.mi) <= v(eps) * whole(degree_of(cones))
        &&& v(sol.obj_val) + v(sol.obj_val) == twice_objective(p, w.x)
    } by {
        let (p, q) = (program_of(v, prob), program_of(v, out));
        let (w, u) = (reading_of_solution(v, sol), reading_of(v, last));
        assert(reads_problem(v, out, eps));
        assert forall|i: int, j: int| 0 <= i < out.a_in.nrows && 0 <= j < out.a_in.ncols implies v(
            #[trigger] out.a_in.at(i, j),
        ) == if i == j {
            -1real
        } else {
            0real
        } by {
            assert(out.a_in.at(i, j) == if i == j {
                T::one().neg()
            } else {
                T::zero()
            });
        }
        assert(diagonal_matrix(out.p)) by {
            assert forall|i: int, j: int|
                0 <= i < out.p.nrows && 0 <= j < out.p.ncols && i != j implies (#[trigger] out.p.at(i, j)).equals(
                T::zero(),
            ) by {
                assert(out.p.at(i, j) == T::zero());
            }
        }
        assert(conic_answer(v, out, cones, eps, u, sol.obj_val));
        undone_change_is_the_point(v, prob, c, sol.x@, last.x);
        assert(same_program(p, q, w.x, u.x));
        let (fe, ge) = (image(p.a_eq, w.x, p.n), image(q.a_eq, u.x, q.n));
        assert forall|i: int| 0 <= i < p.me implies #[trigger] fe(i) == ge(i) by {
            assert((p.b_eq)(i) == (q.b_eq)(i));
        }
        lemma_largest_same(fe, ge, p.me);
        lemma_largest_same(p.b_eq, q.b_eq, p.me);
        let (fi, gi) = (image(p.a_in, w.x, p.n), image(q.a_in, u.x, q.n));
        assert forall|i: int| 0 <= i < p.mi implies #[trigger] fi(i) == gi(i) by {
            assert((p.b_in)(i) == (q.b_in)(i));
        }
        lemma_largest_same(fi, gi, p.mi);
        lemma_largest_same(p.b_in, q.b_in, p.mi);
        lemma_largest_same(w.s, u.s, p.mi);
        assert forall|i: int| 0 <= i < p.me implies magnitude(along(p.a_eq, w.x, i, p.n) - #[trigger] (p.b_eq)(i)) <= v(eps)
            * (1real + larger(largest(image(p.a_eq, w.x, p.n), p.me), largest(p.b_eq, p.me))) by {
            assert((q.b_eq)(i) == (p.b_eq)(i));
            assert(fe(i) == ge(i));
        }
        assert forall|i: int| 0 <= i < p.mi implies magnitude(
            along(p.a_in, w.x, i, p.n) + (w.s)(i) - #[trigger] (p.b_in)(i),
        ) <= v(eps) * (1real + larger(
            larger(largest(image(p.a_in, w.x, p.n), p.mi), largest(w.s, p.mi)),
            largest(p.b_in, p.mi),
        )) by {
            assert((q.b_in)(i) == (p.b_in)(i));
            assert(fi(i) == gi(i));
        }
        lemma_sum_same(|i: int| (w.s)(i) * (w.z)(i), |i: int| (u.s)(i) * (u.z)(i), p.mi);
    }
}

} // verus!
