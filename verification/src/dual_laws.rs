//! The dual of a linear program, where the operations of the numbers are exact: what it says of multipliers
//! and points is what the program says of them, and an optimal point of it gives one of the program.
use crate::dualize::{is_dual_of, primal_from_dual, recovers, slack_at};
use crate::exact::{
    exact, lemma_sum_nonnegative, lemma_sum_plus, lemma_sum_same, lemma_sum_single, lemma_sum_times, lemma_sum_zero,
    products_are_exact, sum,
};
use crate::lowrank_laws::reading_of_solution;
use crate::matrix::zero_matrix;
use crate::optimum_laws::{across, along, entries, inner, program_of, Program, Reading};
use crate::problem::{QpProblem, QpSolution, Status};
use crate::product_laws::products_are_those_of_the_matrix;
use crate::products::Form;
use crate::scalar::Scalar;
use crate::separable_laws::keeps_rows;
use vstd::prelude::*;

verus! {

/// The negated vector.
pub open spec fn opposite(x: spec_fn(int) -> real) -> spec_fn(int) -> real {
    |i: int| -x(i)
}

/// The program `d` is the dual of the linear program `c`, seen at multipliers `z` and a point `x` of that:
/// its equality rows are the stationarity rows of `c`, its slope against the multipliers `-x` is the slack
/// of `c` at `x`, its inequality rows keep its unknowns from being negative, and its objective is that of
/// the right-hand sides.
pub open spec fn dual_at(c: Program, d: Program, x: spec_fn(int) -> real, z: spec_fn(int) -> real) -> bool {
    &&& d.n == c.mi && d.me == c.n && d.mi == c.mi
    &&& forall|j: int|
        0 <= j < c.n ==> along(d.a_eq, z, j, d.n) - #[trigger] (d.b_eq)(j) == (c.q)(j) + across(c.a_in, z, j, c.mi)
    &&& forall|r: int|
        0 <= r < c.mi ==> #[trigger] (d.q)(r) + across(d.a_eq, opposite(x), r, d.me) == (c.b_in)(r) - along(
            c.a_in,
            x,
            r,
            c.n,
        )
    &&& forall|r: int| 0 <= r < c.mi ==> along(d.a_in, z, r, d.n) - #[trigger] (d.b_in)(r) == -z(r)
    &&& forall|r: int| 0 <= r < c.mi ==> #[trigger] across(d.a_in, z, r, d.mi) == -z(r)
    &&& forall|r: int| 0 <= r < c.mi ==> #[trigger] along(d.p, z, r, d.n) == 0real
    &&& inner(d.q, z, d.n) == inner(c.b_in, z, c.mi)
}

/// The problem is the dual of the given one, however the numbers are read.
pub open spec fn mirrors<T: Scalar>(prob: QpProblem<T>, dual: QpProblem<T>) -> bool {
    forall|v: spec_fn(T) -> real, x: spec_fn(int) -> real, z: spec_fn(int) -> real|
        exact(v) ==> #[trigger] dual_at(program_of(v, prob), program_of(v, dual), x, z)
}

proof fn lemma_units(a: real, x: real)
    ensures
        0real * x == 0real,
        (-1real) * x == -x,
        a * (-x) == -1real * (a * x),
        -1real * x == -x,
        x * a == a * x,
{
    assert(0real * x == 0real) by (nonlinear_arith);
    assert((-1real) * x == -x) by (nonlinear_arith);
    assert(a * (-x) == -1real * (a * x)) by (nonlinear_arith);
    assert(x * a == a * x) by (nonlinear_arith);
}

/// The dual says of multipliers and points what the linear program says of them.
pub proof fn dual_problem_mirrors_the_program<T: Scalar>(prob: QpProblem<T>, dual: QpProblem<T>)
    requires
        prob.wf(),
        is_dual_of(prob, dual),
    ensures
        mirrors(prob, dual),
{
    assert forall|v: spec_fn(T) -> real, x: spec_fn(int) -> real, z: spec_fn(int) -> real| exact(v) implies #[trigger] dual_at(
        program_of(v, prob),
        program_of(v, dual),
        x,
        z,
    ) by {
        let (c, d) = (program_of(v, prob), program_of(v, dual));
        let (n, mi) = (prob.n(), prob.mi());
        assert forall|j: int| 0 <= j < n implies along(d.a_eq, z, j, d.n) - #[trigger] (d.b_eq)(j) == (c.q)(j) + across(
            c.a_in,
            z,
            j,
            c.mi,
        ) by {
            let f = |r: int| (d.a_eq)(j, r) * z(r);
            let g = |r: int| (c.a_in)(r, j) * z(r);
            assert forall|r: int| 0 <= r < mi implies #[trigger] f(r) == g(r) by {
                assert(dual.a_eq.at(j, r) == prob.a_in.at(r, j));
            }
            lemma_sum_same(f, g, mi);
            assert(dual.b_eq@[j] == prob.q@[j].neg());
        }
        assert forall|r: int| 0 <= r < mi implies #[trigger] (d.q)(r) + across(d.a_eq, opposite(x), r, d.me) == (c.b_in)(
            r,
        ) - along(c.a_in, x, r, c.n) by {
            let f = |j: int| (d.a_eq)(j, r) * opposite(x)(j);
            let h = |j: int| (c.a_in)(r, j) * x(j);
            let g = |j: int| -1real * h(j);
            assert forall|j: int| 0 <= j < n implies #[trigger] f(j) == g(j) by {
                assert(dual.a_eq.at(j, r) == prob.a_in.at(r, j));
                lemma_units((c.a_in)(r, j), x(j));
            }
            lemma_sum_same(f, g, n);
            lemma_sum_times(-1real, h, n);
            lemma_units(0real, sum(h, n));
        }
        assert forall|r: int| 0 <= r < mi implies along(d.a_in, z, r, d.n) - #[trigger] (d.b_in)(r) == -z(r) by {
            let f = |j: int| (d.a_in)(r, j) * z(j);
            assert forall|j: int| 0 <= j < mi && j != r implies #[trigger] f(j) == 0real by {
                assert(dual.a_in.at(r, j) == T::zero());
                lemma_units(0real, z(j));
            }
            lemma_sum_single(f, mi, r);
            assert(dual.a_in.at(r, r) == T::one().neg());
            lemma_units(0real, z(r));
            assert(dual.b_in@[r] == T::zero());
        }
        assert forall|r: int| 0 <= r < mi implies #[trigger] across(d.a_in, z, r, d.mi) == -z(r) by {
            let f = |j: int| (d.a_in)(j, r) * z(j);
            assert forall|j: int| 0 <= j < mi && j != r implies #[trigger] f(j) == 0real by {
                assert(dual.a_in.at(j, r) == T::zero());
                lemma_units(0real, z(j));
            }
            lemma_sum_single(f, mi, r);
            assert(dual.a_in.at(r, r) == T::one().neg());
            lemma_units(0real, z(r));
        }
        assert forall|r: int| 0 <= r < mi implies #[trigger] along(d.p, z, r, d.n) == 0real by {
            let f = |j: int| (d.p)(r, j) * z(j);
            assert forall|j: int| 0 <= j < mi implies #[trigger] f(j) == 0real by {
                assert(dual.p.at(r, j) == T::zero());
                lemma_units(0real, z(j));
            }
            lemma_sum_zero(f, mi);
        }
        lemma_sum_same(|r: int| (d.q)(r) * z(r), |r: int| (c.b_in)(r) * z(r), mi);
    }
}

/// Multipliers that are not negative and balance the objective bound it from below at every feasible point.
pub proof fn dual_objective_bounds_the_program(c: Program, x: spec_fn(int) -> real, z: spec_fn(int) -> real)
    requires
        keeps_rows(c, x),
        forall|r: int| 0 <= r < c.mi ==> #[trigger] z(r) >= 0real,
        forall|j: int| 0 <= j < c.n ==> #[trigger] (c.q)(j) + across(c.a_in, z, j, c.mi) == 0real,
    ensures
        inner(c.q, x, c.n) + inner(c.b_in, z, c.mi) >= 0real,
{
    let az = |j: int| across(c.a_in, z, j, c.mi);
    let ax = |r: int| along(c.a_in, x, r, c.n);
    crate::optimum_laws::lemma_transpose(c.a_in, x, z, c.n, c.mi);
    let f = |j: int| (c.q)(j) * x(j);
    let g = |j: int| x(j) * az(j);
    let fg = |j: int| f(j) + g(j);
    assert forall|j: int| 0 <= j < c.n implies #[trigger] fg(j) == 0real by {
        let (q, y, a) = ((c.q)(j), x(j), az(j));
        assert(q + a == 0real);
        assert(q * y + y * a == (q + a) * y) by (nonlinear_arith);
        lemma_units(0real, y);
    }
    lemma_sum_zero(fg, c.n);
    lemma_sum_plus(f, g, c.n);
    let b = |r: int| (c.b_in)(r) * z(r);
    let e = |r: int| z(r) * ax(r);
    let slack = |r: int| b(r) + -1real * e(r);
    assert forall|r: int| 0 <= r < c.mi implies #[trigger] slack(r) >= 0real by {
        assert(along(c.a_in, x, r, c.n) <= (c.b_in)(r));
        let (p, y, a) = ((c.b_in)(r), z(r), ax(r));
        assert(y >= 0real);
        assert(p * y + -1real * (y * a) == (p - a) * y) by (nonlinear_arith);
        assert((p - a) * y >= 0real) by (nonlinear_arith)
            requires
                p - a >= 0real,
                y >= 0real,
        ;
    }
    lemma_sum_nonnegative(slack, c.mi);
    let minus = |r: int| -1real * e(r);
    lemma_sum_plus(b, minus, c.mi);
    lemma_sum_times(-1real, e, c.mi);
    lemma_units(0real, sum(e, c.mi));
    assert(inner(x, az, c.n) == inner(z, ax, c.mi));
    assert(inner(x, az, c.n) == sum(g, c.n)) by {
        lemma_sum_same(|i: int| x(i) * az(i), g, c.n);
    }
    assert(inner(z, ax, c.mi) == sum(e, c.mi)) by {
        lemma_sum_same(|i: int| z(i) * ax(i), e, c.mi);
    }
    assert(sum(slack, c.mi) == sum(b, c.mi) + sum(minus, c.mi)) by {
        lemma_sum_same(slack, |r: int| b(r) + minus(r), c.mi);
    }
}

/// An optimal point of the dual gives one of the linear program: the unknowns are the negated multipliers of
/// its equality rows, the multipliers are its unknowns, and the slacks are what the rows leave.
pub proof fn optimal_dual_gives_an_optimal_point(c: Program, d: Program, w: Reading, p: Reading)
    requires
        forall|x: spec_fn(int) -> real, z: spec_fn(int) -> real| #[trigger] dual_at(c, d, x, z),
        d.optimal(w),
        c.me == 0,
        forall|x: spec_fn(int) -> real, i: int| 0 <= i < c.n ==> #[trigger] along(c.p, x, i, c.n) == 0real,
        forall|j: int| 0 <= j < c.n ==> #[trigger] (p.x)(j) == -(w.y)(j),
        forall|r: int| 0 <= r < c.mi ==> #[trigger] (p.z)(r) == (w.x)(r),
        forall|r: int| 0 <= r < c.mi ==> #[trigger] (p.s)(r) == (c.b_in)(r) - along(c.a_in, p.x, r, c.n),
    ensures
        c.optimal(p),
{
    assert(dual_at(c, d, p.x, w.x));
    assert(dual_at(c, d, p.x, w.z));
    // The multipliers of the dual's inequality rows are the slacks.
    assert forall|r: int| 0 <= r < c.mi implies (w.z)(r) == #[trigger] (p.s)(r) by {
        assert((d.dual_residual(w))(r) == 0real);
        assert(along(d.p, w.x, r, d.n) == 0real);
        assert(across(d.a_in, w.z, r, d.mi) == -(w.z)(r));
        let f = |j: int| (d.a_eq)(j, r) * (w.y)(j);
        let g = |j: int| (d.a_eq)(j, r) * opposite(p.x)(j);
        assert forall|j: int| 0 <= j < d.me implies #[trigger] f(j) == g(j) by {
            assert((p.x)(j) == -(w.y)(j));
        }
        lemma_sum_same(f, g, d.me);
        assert((d.q)(r) + across(d.a_eq, opposite(p.x), r, d.me) == (c.b_in)(r) - along(c.a_in, p.x, r, c.n));
    }
    // Its slacks are its unknowns.
    assert forall|r: int| 0 <= r < c.mi implies (w.s)(r) == #[trigger] (p.z)(r) by {
        assert((d.in_residual(w))(r) == 0real);
        assert(along(d.a_in, w.x, r, d.n) - (d.b_in)(r) == -(w.x)(r));
    }
    assert(c.signed(p)) by {
        assert forall|r: int| 0 <= r < c.mi implies #[trigger] (p.s)(r) >= 0real && (p.z)(r) >= 0real by {
            assert((w.s)(r) >= 0real && (w.z)(r) >= 0real);
            assert((w.s)(r) == (p.z)(r));
        }
    }
    let f = |r: int| (p.s)(r) * (p.z)(r);
    let g = |r: int| (w.s)(r) * (w.z)(r);
    assert forall|r: int| 0 <= r < c.mi implies #[trigger] f(r) == g(r) by {
        assert((w.z)(r) == (p.s)(r));
        assert((w.s)(r) == (p.z)(r));
        lemma_units((p.s)(r), (p.z)(r));
    }
    lemma_sum_same(f, g, c.mi);
    assert forall|j: int| 0 <= j < c.n implies #[trigger] (c.dual_residual(p))(j) == 0real by {
        assert((d.eq_residual(w))(j) == 0real);
        assert(along(d.a_eq, w.x, j, d.n) - (d.b_eq)(j) == (c.q)(j) + across(c.a_in, w.x, j, c.mi));
        crate::lowrank_laws::lemma_across_same(c.a_in, p.z, w.x, j, c.mi);
        assert(across(c.a_eq, p.y, j, 0) == 0real);
        assert(along(c.p, p.x, j, c.n) == 0real);
    }
    assert forall|r: int| 0 <= r < c.mi implies #[trigger] (c.in_residual(p))(r) == 0real by {
        assert((p.s)(r) == (c.b_in)(r) - along(c.a_in, p.x, r, c.n));
    }
}

/// What is recovered from the dual is a point of the program with its slacks, its multipliers and its
/// objective, however the numbers are read; and where the dual's solution is optimal, so is the point.
pub open spec fn recovers_truly<T: Scalar>(prob: QpProblem<T>, sol: QpSolution<T>, out: QpSolution<T>) -> bool {
    forall|v: spec_fn(T) -> real| #[trigger]
        exact(v) ==> {
            let c = program_of(v, prob);
            let (w, p) = (reading_of_solution(v, sol), reading_of_solution(v, out));
            &&& out.status == Status::Solved
            &&& forall|j: int| 0 <= j < c.n ==> #[trigger] (p.x)(j) == -(w.y)(j)
            &&& forall|r: int| 0 <= r < c.mi ==> #[trigger] (p.s)(r) == (c.b_in)(r) - along(c.a_in, p.x, r, c.n)
            &&& forall|r: int| 0 <= r < c.mi ==> #[trigger] (p.z)(r) == (w.x)(r)
            &&& v(out.obj_val) == inner(c.q, p.x, c.n)
            &&& forall|dual: QpProblem<T>| #[trigger]
                mirrors(prob, dual) && prob.me() == 0 && zero_matrix(prob.p) && program_of(v, dual).optimal(w)
                    ==> c.optimal(p)
        }
}

/// The recovered solution tells the truth of the program.
pub proof fn recovered_solution_is_of_the_program<T: Scalar>(
    prob: QpProblem<T>,
    sol: QpSolution<T>,
    out: QpSolution<T>,
)
    requires
        prob.wf(),
        sol.y@.len() == prob.n(),
        recovers(prob, sol, Some(out)),
    ensures
        recovers_truly(prob, sol, out),
{
    assert forall|v: spec_fn(T) -> real| #[trigger] exact(v) implies {
        let c = program_of(v, prob);
        let (w, p) = (reading_of_solution(v, sol), reading_of_solution(v, out));
        &&& out.status == Status::Solved
        &&& forall|j: int| 0 <= j < c.n ==> #[trigger] (p.x)(j) == -(w.y)(j)
        &&& forall|r: int| 0 <= r < c.mi ==> #[trigger] (p.s)(r) == (c.b_in)(r) - along(c.a_in, p.x, r, c.n)
        &&& forall|r: int| 0 <= r < c.mi ==> #[trigger] (p.z)(r) == (w.x)(r)
        &&& v(out.obj_val) == inner(c.q, p.x, c.n)
        &&& forall|dual: QpProblem<T>| #[trigger]
            mirrors(prob, dual) && prob.me() == 0 && zero_matrix(prob.p) && program_of(v, dual).optimal(w)
                ==> c.optimal(p)
    } by {
        let c = program_of(v, prob);
        let (w, p) = (reading_of_solution(v, sol), reading_of_solution(v, out));
        let x = out.x@;
        assert forall|j: int| 0 <= j < c.n implies #[trigger] (p.x)(j) == -(w.y)(j) by {
            assert(x[j] == sol.y@[j].neg());
        }
        assert forall|r: int| 0 <= r < c.mi implies #[trigger] (p.s)(r) == (c.b_in)(r) - along(c.a_in, p.x, r, c.n) by {
            products_are_those_of_the_matrix(v, Form::Dense, None, prob.a_in, x, r);
            assert(out.s@[r] == slack_at(prob, x)[r]);
        }
        products_are_exact(v, prob.q@, x);
        lemma_sum_same(|j: int| v(prob.q@[j]) * v(x[j]), |j: int| (c.q)(j) * (p.x)(j), c.n);
        assert forall|dual: QpProblem<T>| #[trigger]
            mirrors(prob, dual) && prob.me() == 0 && zero_matrix(prob.p) && program_of(v, dual).optimal(
                w,
            ) implies c.optimal(p) by {
            assert forall|y: spec_fn(int) -> real, i: int| 0 <= i < c.n implies #[trigger] along(c.p, y, i, c.n) == 0real by {
                crate::product_laws::lemma_zero_hessian(v, prob.p, y, i);
            }
            optimal_dual_gives_an_optimal_point(c, program_of(v, dual), w, p);
        }
    }
}

} // verus!
