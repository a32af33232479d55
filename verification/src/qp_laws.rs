//! The interior-point run of a quadratic program, where the operations of the numbers are exact: what it
//! reports as solved satisfies the rows of the problem.
use crate::conic_step::{ray_scale, IterateView, Terms};
use crate::exact::{
    exact, exact_counts, exact_order, lemma_over, lemma_sum_same, lemma_sum_zero, lemma_whole, products_are_exact, sum,
    whole,
};
use crate::lowrank::{objective, LowRankDiag};
use crate::lowrank_laws::{decomposes, lemma_decomposed, reading_of_solution};
use crate::lp_simplex::{bound_col, bound_rows, bound_val, entries_in, general_rows, lemma_bound_rows, lemma_general_rows};
use crate::matrix::{diagonal_matrix, matvec_spec, matvec_t_spec, zero_matrix, DenseMatrix};
use crate::optimum_laws::{across, along, entries, inner, program_of, reading_of};
use crate::problem::{ray_of, unbounded_ray, QpProblem, QpSolution, Status, TermScale, WarmStart};
use crate::product_laws::{
    entries_of, form_holds, found_rows_hold_the_matrix, held, hessian_products_are_those_of_the_matrix, hold_rows,
    lemma_zero_hessian, products_are_those_of_the_matrix, transposed_products_are_those_of_the_matrix,
};
use crate::products::Form;
use crate::qp_loop::{
    bounds_t_times, bounds_times, low_rank_times, measures_of, qp_error, qp_settled, rescaled, within_tolerance,
    Floors, Measures,
};
use crate::qp_plan::bounds_of;
use crate::qp_run::{
    qp_access_fits, qp_best_is_measured, qp_measured, qp_runs, qp_runs_are_honest, qp_starts, qp_terms_of,
    qp_within_tolerance, Directs, QpSetting, QpStateView,
};
use crate::qp_setup::{qp_rho_floor, Settings};
use crate::qp_solve::{
    form_for, qp_concludes, qp_first_iterate, qp_interior, qp_setting, qp_tested, working_rows, QpCourse,
};
use crate::qp_sparse::bound_of_row;
use crate::refute_laws::{
    descends_freely, exact_decimals, falls_along, refuted, refutes, tested_multipliers_refute_the_problem,
    tested_unknowns_fall, unbounded_rays_fall,
};
use crate::scalar::Scalar;
use crate::schur_laws::{lemma_no_entry, lemma_one_entry};
use crate::separable_laws::twice_objective;
use crate::simplex_laws::{lemma_bound_row, lemma_empty_row};
use crate::solution_laws::{
    lemma_same_solved, reads_problem, reported_objective_is_that_of_the_point, same_readings,
    small_residuals_solve_the_rows, solved_within, true_terms,
};
use crate::sparse::CscMatrix;
use crate::vector::divided;
use vstd::prelude::*;

verus! {

/// The reported point satisfies every row of the problem up to the tolerance, the complementarity is within
/// it, and the reported objective is that of the point.
pub open spec fn run_answer<T: Scalar>(
    v: spec_fn(T) -> real,
    prob: QpProblem<T>,
    eps: T,
    comp: T,
    sol: QpSolution<T>,
) -> bool {
    let c = program_of(v, prob);
    let w = reading_of_solution(v, sol);
    &&& solved_within(c, w, v(eps), false)
    &&& prob.mi() > 0 ==> inner(w.s, w.z, c.mi) * v(comp) <= v(eps) * whole(c.mi)
    &&& v(sol.obj_val) + v(sol.obj_val) == twice_objective(c, w.x)
}

/// What the run reports is true of the problem, however its numbers are read. A low-rank form counts where
/// it is one of the Hessian.
pub open spec fn answers_run<T: Scalar>(
    prob: QpProblem<T>,
    eps: T,
    comp: T,
    low: Option<LowRankDiag<T>>,
    sol: QpSolution<T>,
) -> bool {
    forall|v: spec_fn(T) -> real| #[trigger]
        reads_problem(v, prob, eps) && (low matches Some(lr) ==> decomposes(v, prob, lr)) ==> run_answer(
            v,
            prob,
            eps,
            comp,
            sol,
        )
}

proof fn lemma_units(x: real)
    ensures
        0real * x == 0real,
        x * 0real == 0real,
        1real * x == x,
        x * 1real == x,
{
    assert(0real * x == 0real) by (nonlinear_arith);
    assert(x * 0real == 0real) by (nonlinear_arith);
    assert(1real * x == x) by (nonlinear_arith);
    assert(x * 1real == x) by (nonlinear_arith);
}

/// What the list of bounds by row says of row `r`.
proof fn lemma_listed<T: Scalar>(prob: QpProblem<T>, r: int, k: nat)
    requires
        prob.wf(),
        0 <= r < prob.mi(),
        k <= bound_rows(prob, prob.mi()).len(),
    ensures
        ({
            let rows = bound_rows(prob, prob.mi());
            let e = bound_of_row(rows, r, k);
            &&& (exists|t: int| 0 <= t < k && (#[trigger] rows[t]).0 == r) ==> e.0 == bound_col(prob, r) && e.1
                == bound_val(prob, r) && entries_in(prob, r) == 1
            &&& !(exists|t: int| 0 <= t < k && (#[trigger] rows[t]).0 == r) ==> e == (0usize, T::zero())
        }),
    decreases k,
{
    let rows = bound_rows(prob, prob.mi());
    lemma_bound_rows(prob, prob.mi());
    if k > 0 {
        lemma_listed(prob, r, (k - 1) as nat);
        let e = rows[k - 1];
        if e.0 != r {
            assert((exists|t: int| 0 <= t < k && (#[trigger] rows[t]).0 == r) ==> (exists|t: int|
                0 <= t < k - 1 && (#[trigger] rows[t]).0 == r));
            assert((exists|t: int| 0 <= t < k - 1 && (#[trigger] rows[t]).0 == r) ==> (exists|t: int|
                0 <= t < k && (#[trigger] rows[t]).0 == r));
        }
    }
}

/// Where no row has more than one entry, the list of bounds holds the inequality matrix.
proof fn lemma_bound_entry<T: Scalar>(v: spec_fn(T) -> real, prob: QpProblem<T>, r: int)
    requires
        exact(v),
        prob.wf(),
        general_rows(prob, prob.mi()).len() == 0,
        0 <= r < prob.mi(),
    ensures
        ({
            let e = bounds_of(prob)[r];
            &&& entries_in(prob, r) <= 1
            &&& entries_in(prob, r) == 1 ==> e.0 == bound_col(prob, r) && e.1 == bound_val(prob, r)
            &&& entries_in(prob, r) == 0 ==> e == (0usize, T::zero())
            &&& forall|j: int|
                0 <= j < prob.n() ==> v(#[trigger] prob.a_in.at(r, j)) == if j == e.0 {
                    v(e.1)
                } else {
                    0real
                }
        }),
{
    let rows = bound_rows(prob, prob.mi());
    lemma_general_rows(prob, prob.mi());
    lemma_bound_rows(prob, prob.mi());
    lemma_listed(prob, r, rows.len());
    assert(entries_in(prob, r) <= 1);
    let row = prob.a_in.row(r);
    if entries_in(prob, r) == 1 {
        lemma_one_entry(row, prob.n());
        assert(prob.a_in.at(r, bound_col(prob, r)) == bound_val(prob, r));
    } else {
        lemma_no_entry(row, prob.n());
    }
    assert forall|j: int| 0 <= j < prob.n() implies v(#[trigger] prob.a_in.at(r, j)) == if j == bounds_of(prob)[r].0 {
        v(bounds_of(prob)[r].1)
    } else {
        0real
    } by {
        assert(row[j] == prob.a_in.at(r, j));
        if entries_in(prob, r) == 0 || j != bound_col(prob, r) {
            assert(row[j].equals(T::zero()));
        }
    }
}

proof fn lemma_bounds_times<T: Scalar>(v: spec_fn(T) -> real, prob: QpProblem<T>, x: Seq<T>, r: int)
    requires
        exact(v),
        prob.wf(),
        general_rows(prob, prob.mi()).len() == 0,
        0 <= r < prob.mi(),
    ensures
        v(bounds_times(bounds_of(prob), x)[r]) == along(program_of(v, prob).a_in, entries(v, x), r, prob.n()),
{
    lemma_bound_entry(v, prob, r);
    lemma_units(v(x[0]));
    if entries_in(prob, r) == 1 {
        lemma_bound_row(v, prob, entries(v, x), r);
    } else {
        lemma_empty_row(v, prob, entries(v, x), r);
    }
}

proof fn lemma_bounds_t_times<T: Scalar>(v: spec_fn(T) -> real, prob: QpProblem<T>, z: Seq<T>, k: nat, j: int)
    requires
        exact(v),
        prob.wf(),
        general_rows(prob, prob.mi()).len() == 0,
        0 <= j < prob.n(),
        k <= prob.mi(),
    ensures
        bounds_t_times(bounds_of(prob), z, prob.n(), k).len() == prob.n(),
        v(bounds_t_times(bounds_of(prob), z, prob.n(), k)[j]) == sum(
            |r: int| (program_of(v, prob).a_in)(r, j) * entries(v, z)(r),
            k,
        ),
    decreases k,
{
    if k > 0 {
        lemma_bounds_t_times(v, prob, z, (k - 1) as nat, j);
        lemma_bound_entry(v, prob, k - 1);
        lemma_units(v(z[k - 1]));
        assert(v(prob.a_in.at(k - 1, j)) == if j == bounds_of(prob)[k - 1].0 {
            v(bounds_of(prob)[k - 1].1)
        } else {
            0real
        });
        if entries_in(prob, k - 1) == 1 {
            lemma_bound_row(v, prob, entries(v, z), k - 1);
        }
    }
}

proof fn lemma_low_rank_times<T: Scalar>(
    v: spec_fn(T) -> real,
    prob: QpProblem<T>,
    lr: LowRankDiag<T>,
    x: Seq<T>,
    i: int,
)
    requires
        exact(v),
        prob.wf(),
        lr.fits(prob.n()),
        decomposes(v, prob, lr),
        x.len() == prob.n(),
        0 <= i < prob.n(),
    ensures
        low_rank_times(lr, x).len() == prob.n(),
        v(low_rank_times(lr, x)[i]) == along(program_of(v, prob).p, entries(v, x), i, prob.n()),
{
    let n = prob.n();
    let r = lr.rank as nat;
    let xv = entries(v, x);
    let ltx = matvec_t_spec(lr.l, x);
    products_are_those_of_the_matrix(v, Form::Dense, None, lr.l, ltx, i);
    let f = |k: int| entries_of(v, lr.l)(i, k) * entries(v, ltx)(k);
    let g = |k: int| v(lr.l.at(i, k)) * sum(|j: int| v(lr.l.at(j, k)) * xv(j), n);
    assert forall|k: int| 0 <= k < r implies #[trigger] f(k) == g(k) by {
        transposed_products_are_those_of_the_matrix(v, Form::Dense, None, lr.l, x, k);
        lemma_sum_same(|j: int| entries_of(v, lr.l)(j, k) * xv(j), |j: int| v(lr.l.at(j, k)) * xv(j), n);
    }
    lemma_sum_same(f, g, r);
    lemma_decomposed(v, prob, lr, xv, i);
}

/// The forms in which the run multiplies stand for the problem's matrices.
pub open spec fn true_access<T: Scalar>(v: spec_fn(T) -> real, c: QpSetting<T>) -> bool {
    &&& form_holds(v, c.acc.eq, c.eq_csr, c.prob.a_eq)
    &&& form_holds(v, c.acc.ain, c.in_csr, c.prob.a_in)
    &&& c.acc.p_zero ==> zero_matrix(c.prob.p)
    &&& c.acc.p_diagonal ==> diagonal_matrix(c.prob.p)
    &&& c.low matches Some(lr) ==> {
        &&& decomposes(v, c.prob, lr)
        &&& c.col_ineq == bounds_of(c.prob)
        &&& general_rows(c.prob, c.prob.mi()).len() == 0
    }
}

/// The terms that the run measures are the products of the problem's matrices.
proof fn lemma_run_terms<T: Scalar>(v: spec_fn(T) -> real, c: QpSetting<T>, it: IterateView<T>, t: Terms<T>)
    requires
        exact(v),
        qp_access_fits(c),
        true_access(v, c),
        qp_terms_of(c, it, t),
        it.x.len() == c.prob.n(),
        it.y.len() == c.prob.me(),
        it.s.len() == c.prob.mi(),
        it.z.len() == c.prob.mi(),
    ensures
        true_terms(v, c.prob, it, t),
{
    let prob = c.prob;
    let p = program_of(v, prob);
    let w = reading_of(v, it);
    let n = prob.n();
    assert forall|i: int| 0 <= i < n implies v(#[trigger] t.aty@[i]) == across(p.a_eq, w.y, i, p.me) by {
        transposed_products_are_those_of_the_matrix(v, c.acc.eq, c.eq_csr, prob.a_eq, it.y, i);
    }
    assert forall|i: int| 0 <= i < prob.me() implies v(#[trigger] t.aeqx@[i]) == along(p.a_eq, w.x, i, n) by {
        products_are_those_of_the_matrix(v, c.acc.eq, c.eq_csr, prob.a_eq, it.x, i);
    }
    match c.low {
        Some(lr) => {
            assert forall|i: int| 0 <= i < n implies v(#[trigger] t.px@[i]) == along(p.p, w.x, i, n) by {
                lemma_low_rank_times(v, prob, lr, it.x, i);
            }
            assert forall|i: int| 0 <= i < n implies v(#[trigger] t.atz@[i]) == across(p.a_in, w.z, i, p.mi) by {
                lemma_bounds_t_times(v, prob, it.z, prob.mi(), i);
            }
            assert forall|i: int| 0 <= i < prob.mi() implies v(#[trigger] t.ainx@[i]) == along(p.a_in, w.x, i, n) by {
                lemma_bounds_times(v, prob, it.x, i);
            }
        },
        None => {
            assert forall|i: int| 0 <= i < n implies v(#[trigger] t.px@[i]) == along(p.p, w.x, i, n) by {
                if c.acc.p_zero {
                    lemma_zero_hessian(v, prob.p, w.x, i);
                } else {
                    hessian_products_are_those_of_the_matrix(v, prob.p, c.acc.p_diagonal, it.x, i);
                }
            }
            assert forall|i: int| 0 <= i < n implies v(#[trigger] t.atz@[i]) == across(p.a_in, w.z, i, p.mi) by {
                transposed_products_are_those_of_the_matrix(v, c.acc.ain, c.in_csr, prob.a_in, it.z, i);
            }
            assert forall|i: int| 0 <= i < prob.mi() implies v(#[trigger] t.ainx@[i]) == along(p.a_in, w.x, i, n) by {
                products_are_those_of_the_matrix(v, c.acc.ain, c.in_csr, prob.a_in, it.x, i);
            }
        },
    }
}

/// Measures within the tolerance put the rows of the problem within it.
proof fn lemma_measured<T: Scalar>(v: spec_fn(T) -> real, c: QpSetting<T>, it: IterateView<T>, m: Measures<T>)
    requires
        exact(v),
        exact_order(v),
        exact_counts(v),
        qp_access_fits(c),
        true_access(v, c),
        qp_measured(c, it, m),
        m.nd.at_most(c.eps),
        m.nb.at_most(c.eps),
        m.nh.at_most(c.eps),
        m.mu.times(c.term.comp).at_most(c.eps),
        it.x.len() == c.prob.n(),
        it.y.len() == c.prob.me(),
        it.s.len() == c.prob.mi(),
        it.z.len() == c.prob.mi(),
    ensures
        solved_within(program_of(v, c.prob), reading_of(v, it), v(c.eps), false),
        c.prob.mi() > 0 ==> inner(reading_of(v, it).s, reading_of(v, it).z, c.prob.mi()) * v(c.term.comp) <= v(c.eps)
            * whole(c.prob.mi()),
{
    let (t, f) = choose|t: Terms<T>, f: Floors<T>|
        {
            &&& #[trigger] qp_terms_of(c, it, t)
            &&& crate::qp_loop::floors_of(c.prob, c.term, f)
            &&& #[trigger] measures_of(c.prob, c.term, f, t, it, m)
        };
    lemma_run_terms(v, c, it, t);
    small_residuals_solve_the_rows(v, c.prob, it, t, c.eps, false);
    let mi = c.prob.mi();
    if mi > 0 {
        let w = reading_of(v, it);
        lemma_whole(mi);
        products_are_exact(v, it.s, it.z);
        let k = T::from_usize(mi as usize);
        lemma_over(v, crate::vector::dot_spec(it.s, it.z), k);
        lemma_sum_same(|i: int| v(it.s[i]) * v(it.z[i]), |i: int| (w.s)(i) * (w.z)(i), mi);
        lemma_gap(v(m.mu), v(c.term.comp), v(c.eps), whole(mi), inner(w.s, w.z, mi));
    }
}

proof fn lemma_gap(mu: real, comp: real, eps: real, k: real, g: real)
    requires
        mu * k == g,
        mu * comp <= eps,
        k > 0real,
    ensures
        g * comp <= eps * k,
{
    let a = mu * comp;
    assert(a * k <= eps * k) by (nonlinear_arith)
        requires
            a <= eps,
            k > 0real,
    ;
    assert((mu * k) * comp == (mu * comp) * k) by (nonlinear_arith);
}

/// The forms of a solve stand for the problem's matrices.
proof fn lemma_true_access<T: Scalar>(
    v: spec_fn(T) -> real,
    prob: QpProblem<T>,
    settings: Settings<T>,
    term: TermScale<T>,
    course: QpCourse<T>,
)
    requires
        prob.wf(),
        reads_problem(v, prob, settings.eps_abs),
        working_rows(prob, course.in_csr),
        course.low matches Some(lr) ==> decomposes(v, prob, lr),
        course.low is Some ==> general_rows(prob, prob.mi()).len() == 0,
    ensures
        true_access(v, qp_setting(prob, settings, term, course)),
{
    if let Some(rows) = course.in_csr {
        match prob.a_in_csr {
            Some(g) => {
                assert forall|r: int, j: int| 0 <= r < prob.a_in.nrows && 0 <= j < prob.a_in.ncols implies #[trigger] held(
                    v,
                    rows.col(r),
                    j,
                    rows.col(r).len(),
                ) == v(prob.a_in.at(r, j)) by {
                    assert(rows.col(r) == g.col(r));
                    assert(held(v, g.col(r), j, g.col(r).len()) == v(prob.a_in.at(r, j)));
                }
            },
            None => {
                found_rows_hold_the_matrix(v, rows, prob.a_in);
            },
        }
    }
}

/// A run that reports its problem as solved tells the truth: the rows of the problem hold at the reported
/// point up to the tolerance, and the reported objective is that of the point.
pub proof fn solved_run_answers_the_problem<T: Scalar>(
    prob: QpProblem<T>,
    settings: Settings<T>,
    term: TermScale<T>,
    course: QpCourse<T>,
    sol: QpSolution<T>,
)
    requires
        prob.wf(),
        sol.sized(prob.n(), prob.me(), prob.mi()),
        qp_access_fits(qp_setting(prob, settings, term, course)),
        working_rows(prob, course.in_csr),
        course.low is Some ==> general_rows(prob, prob.mi()).len() == 0,
        qp_tested(
            qp_setting(prob, settings, term, course),
            qp_first_iterate(prob, form_for(course.in_csr), course.in_csr, course.warm),
            qp_settled(
                course.end.verdict,
                course.end.it,
                course.end.best,
                course.end.best_err,
                settings.eps_abs,
            ).0,
        ),
        qp_concludes(
            prob,
            qp_setting(prob, settings, term, course).hsd,
            settings.eps_abs,
            course.end,
            sol,
        ),
    ensures
        answers_run(prob, settings.eps_abs, term.comp, course.low, sol),
{
    let c = qp_setting(prob, settings, term, course);
    let eps = settings.eps_abs;
    let first = qp_first_iterate(prob, form_for(course.in_csr), course.in_csr, course.warm);
    let last = qp_settled(course.end.verdict, course.end.it, course.end.best, course.end.best_err, eps).0;
    assert(last.x.len() == prob.n() && last.y.len() == prob.me() && last.s.len() == prob.mi() && last.z.len()
        == prob.mi());
    assert forall|v: spec_fn(T) -> real| #[trigger]
        reads_problem(v, prob, eps) && (course.low matches Some(lr) ==> decomposes(v, prob, lr)) implies run_answer(
        v,
        prob,
        eps,
        term.comp,
        sol,
    ) by {
        lemma_true_access(v, prob, settings, term, course);
        if qp_within_tolerance(c, last) {
            let m = choose|m: Measures<T>| #[trigger]
                qp_measured(c, last, m) && crate::conic_step::finite_iterate(last) && within_tolerance(
                    m,
                    c.term.comp,
                    c.eps,
                );
            lemma_measured(v, c, last, m);
        } else {
            let err = choose|err: T| #[trigger] qp_best_is_measured(c, first, last, err) && err.at_most(c.eps);
            assert(!(err == T::infinity()));
            let m = choose|m: Measures<T>| #[trigger]
                qp_measured(c, last, m) && crate::conic_step::finite_iterate(last) && err == qp_error(m, c.term.comp);
            lemma_measured(v, c, last, m);
        }
        let p = program_of(v, prob);
        let (a, b) = (reading_of(v, last), reading_of_solution(v, sol));
        let one = T::one();
        let t = one.over(one);
        lemma_over(v, one, one);
        assert(v(t) == 1real) by {
            let y = v(t);
            assert(y * 1real == y) by (nonlinear_arith);
        }
        assert forall|i: int| 0 <= i < p.n implies #[trigger] (a.x)(i) == (b.x)(i) by {
            lemma_units(v(last.x[i]));
        }
        assert forall|i: int| 0 <= i < p.me implies #[trigger] (a.y)(i) == (b.y)(i) by {
            lemma_units(v(last.y[i]));
        }
        assert forall|i: int| 0 <= i < p.mi implies #[trigger] (a.s)(i) == (b.s)(i) by {
            lemma_units(v(last.s[i]));
        }
        assert forall|i: int| 0 <= i < p.mi implies #[trigger] (a.z)(i) == (b.z)(i) by {
            lemma_units(v(last.z[i]));
        }
        assert(same_readings(p, a, b));
        lemma_same_solved(p, a, b, v(eps), false);
        reported_objective_is_that_of_the_point(v, prob, last.x);
        lemma_units(v(objective(prob, last.x)));
    }
}

/// The forms of a solve stand for the constraint matrices.
proof fn lemma_true_forms<T: Scalar>(v: spec_fn(T) -> real, prob: QpProblem<T>, in_csr: Option<CscMatrix<T>>, eps: T)
    requires
        prob.wf(),
        reads_problem(v, prob, eps),
        working_rows(prob, in_csr),
    ensures
        form_holds(v, form_for(prob.a_eq_csr), prob.a_eq_csr, prob.a_eq),
        form_holds(v, form_for(in_csr), in_csr, prob.a_in),
{
    if let Some(rows) = in_csr {
        match prob.a_in_csr {
            Some(g) => {
                assert forall|r: int, j: int| 0 <= r < prob.a_in.nrows && 0 <= j < prob.a_in.ncols implies #[trigger] held(
                    v,
                    rows.col(r),
                    j,
                    rows.col(r).len(),
                ) == v(prob.a_in.at(r, j)) by {
                    assert(rows.col(r) == g.col(r));
                    assert(held(v, g.col(r), j, g.col(r).len()) == v(prob.a_in.at(r, j)));
                }
            },
            None => {
                found_rows_hold_the_matrix(v, rows, prob.a_in);
            },
        }
    }
}

/// A run names infeasibility truly: a problem that it reports as primal infeasible has no feasible point of
/// ordinary size, and one that it reports as dual infeasible has a direction along which its objective
/// falls.
pub proof fn infeasible_run_tells_the_truth<T: Scalar>(
    prob: QpProblem<T>,
    settings: Settings<T>,
    term: TermScale<T>,
    init: Option<&WarmStart<T>>,
    directs: Directs<T>,
    course: QpCourse<T>,
    sol: QpSolution<T>,
)
    requires
        prob.wf(),
        sol.sized(prob.n(), prob.me(), prob.mi()),
        qp_access_fits(qp_setting(prob, settings, term, course)),
        qp_interior(prob, settings, term, init, directs, course, sol),
    ensures
        sol.status == Status::PrimalInfeasible ==> refutes(prob, settings.eps_abs),
        sol.status == Status::DualInfeasible ==> descends_freely(prob, settings.eps_abs),
{
    let c = qp_setting(prob, settings, term, course);
    let eps = settings.eps_abs;
    let first = qp_first_iterate(prob, c.acc.ain, course.in_csr, course.warm);
    let rho0 = qp_rho_floor(prob);
    let st = choose|st: QpStateView<T>| #[trigger]
        qp_starts(first, rho0, st) && qp_runs(
            c,
            directs,
            0,
            c.max_iters as nat,
            first,
            st,
            T::zero(),
            course.end,
        );
    qp_runs_are_honest(c, directs, 0, c.max_iters as nat, first, first, st, T::zero(), course.end);
    let it = course.end.it;
    let (eq, ain) = ((c.acc.eq, c.eq_csr), (c.acc.ain, c.in_csr));
    if sol.status == Status::PrimalInfeasible {
        assert forall|v: spec_fn(T) -> real| #[trigger] reads_problem(v, prob, eps) && exact_decimals(
            v,
        ) implies refuted(program_of(v, prob)) by {
            lemma_true_forms(v, prob, course.in_csr, eps);
            tested_multipliers_refute_the_problem(v, prob, eq, ain, it);
        }
    }
    if sol.status == Status::DualInfeasible {
        assert forall|v: spec_fn(T) -> real| #[trigger] reads_problem(v, prob, eps) && exact_decimals(
            v,
        ) implies exists|d: spec_fn(int) -> real| #[trigger] falls_along(program_of(v, prob), d) by {
            lemma_true_forms(v, prob, course.in_csr, eps);
            if unbounded_ray(prob, it.x) {
                unbounded_rays_fall(v, prob, it.x);
                assert(falls_along(program_of(v, prob), entries(v, ray_of(it.x))));
            } else {
                tested_unknowns_fall(v, prob, eq, ain, it);
                assert(falls_along(program_of(v, prob), entries(v, divided(it.x, ray_scale(prob, it)))));
            }
        }
    }
}

} // verus!
