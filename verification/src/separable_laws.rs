//! The closed form of a separable problem, where the operations of the numbers are exact: what is
//! reported as solved is feasible and optimal in terms of the problem's own matrices, and what is reported
//! as infeasible has no feasible point.
use crate::exact::{
    exact, exact_counts, exact_order, lemma_cancel, lemma_over, lemma_sum_same, lemma_sum_single, lemma_sum_times,
    lemma_whole, sum, whole,
};
use crate::lp_simplex::{bound_col, bound_rows, bound_val, entries_in, lower_bound, unbounded, upper_bound};
use crate::optimum_laws::{across, along, entries, inner, program_of, Program};
use crate::problem::{QpProblem, QpSolution, Status};
use crate::qp_setup::{
    box_load, box_multiplier, box_objective, box_point, box_slack, box_solution, clipped, closed_form,
    holding_count, holds_back, lemma_all_bounds, nonempty_box, parted_box, positive_diagonal, separable,
};
use crate::scalar::Scalar;
use crate::schur_laws::lemma_one_entry;
use vstd::prelude::*;

verus! {

/// The reading is exact, the tolerance is not negative, and no unconstrained minimizer and no bound lies
/// beyond the number that stands for no bound.
pub open spec fn reads_box<T: Scalar>(v: spec_fn(T) -> real, prob: QpProblem<T>, eps: T) -> bool {
    &&& exact(v)
    &&& exact_order(v)
    &&& exact_counts(v)
    &&& v(eps) >= 0real
    &&& forall|i: int|
        0 <= i < prob.n() ==> -v(unbounded::<T>()) * v(#[trigger] prob.p.at(i, i)) <= v(prob.q@[i]) <= v(
            unbounded::<T>(),
        ) * v(prob.p.at(i, i))
    &&& forall|r: int, c: int|
        0 <= r < prob.mi() && 0 <= c < prob.n() && v(#[trigger] prob.a_in.at(r, c)) > 0real ==> v(prob.b_in@[r])
            >= -v(unbounded::<T>()) * v(prob.a_in.at(r, c))
    &&& forall|r: int, c: int|
        0 <= r < prob.mi() && 0 <= c < prob.n() && v(#[trigger] prob.a_in.at(r, c)) < 0real ==> v(prob.b_in@[r])
            >= v(unbounded::<T>()) * v(prob.a_in.at(r, c))
}

/// `x` satisfies every inequality row.
pub open spec fn keeps_rows(c: Program, x: spec_fn(int) -> real) -> bool {
    forall|r: int| 0 <= r < c.mi ==> #[trigger] along(c.a_in, x, r, c.n) <= (c.b_in)(r)
}

/// The objective `x'Px / 2 + q'x`, doubled.
pub open spec fn twice_objective(c: Program, x: spec_fn(int) -> real) -> real {
    let qx = inner(c.q, x, c.n);
    inner(x, |i: int| along(c.p, x, i, c.n), c.n) + qx + qx
}

/// The point is feasible and better than no other feasible one; slacks, multipliers and the objective are
/// those of the point, the multipliers balance the slope, are not negative, and vanish where the slack is
/// above the tolerance.
pub open spec fn box_optimal<T: Scalar>(v: spec_fn(T) -> real, prob: QpProblem<T>, eps: T, sol: QpSolution<T>) -> bool {
    let c = program_of(v, prob);
    let (x, s, z) = (entries(v, sol.x@), entries(v, sol.s@), entries(v, sol.z@));
    &&& sol.sized(prob.n(), 0, prob.mi())
    &&& keeps_rows(c, x)
    &&& forall|o: spec_fn(int) -> real| #[trigger] keeps_rows(c, o) ==> twice_objective(c, x) <= twice_objective(c, o)
    &&& v(sol.obj_val) + v(sol.obj_val) == twice_objective(c, x)
    &&& forall|r: int| 0 <= r < prob.mi() ==> #[trigger] s(r) == (c.b_in)(r) - along(c.a_in, x, r, c.n)
    &&& forall|i: int|
        0 <= i < prob.n() ==> #[trigger] along(c.p, x, i, c.n) + (c.q)(i) + across(c.a_in, z, i, c.mi) == 0real
    &&& forall|r: int| 0 <= r < prob.mi() ==> #[trigger] z(r) >= 0real && (z(r) == 0real || s(r) <= v(eps))
}

/// What the closed form reports is true of the problem, however its numbers are read: a solved problem is
/// optimal, and an infeasible one has no feasible point.
pub open spec fn answers_box<T: Scalar>(prob: QpProblem<T>, eps: T, sol: QpSolution<T>) -> bool {
    forall|v: spec_fn(T) -> real| #[trigger]
        reads_box(v, prob, eps) ==> {
            &&& sol.status == Status::Solved || sol.status == Status::PrimalInfeasible
            &&& sol.status == Status::Solved ==> box_optimal(v, prob, eps, sol)
            &&& sol.status == Status::PrimalInfeasible ==> forall|o: spec_fn(int) -> real|
                !(#[trigger] keeps_rows(program_of(v, prob), o))
        }
}

proof fn lemma_scale_order(a: real, x: real, y: real)
    ensures
        a > 0real && x <= y ==> a * x <= a * y,
        a < 0real && x <= y ==> a * y <= a * x,
        a > 0real && x < y ==> a * x < a * y,
        a < 0real && x < y ==> a * y < a * x,
        a * x == x * a,
{
    if a > 0real && x <= y {
        assert(a * x <= a * y) by (nonlinear_arith)
            requires
                a > 0real,
                x <= y,
        ;
    }
    if a < 0real && x <= y {
        assert(a * y <= a * x) by (nonlinear_arith)
            requires
                a < 0real,
                x <= y,
        ;
    }
    if a > 0real && x < y {
        assert(a * x < a * y) by (nonlinear_arith)
            requires
                a > 0real,
                x < y,
        ;
    }
    if a < 0real && x < y {
        assert(a * y < a * x) by (nonlinear_arith)
            requires
                a < 0real,
                x < y,
        ;
    }
    assert(a * x == x * a) by (nonlinear_arith);
}

/// What the separable structure says of row `r`: one entry, `bound_val`, in column `bound_col`.
proof fn lemma_row<T: Scalar>(v: spec_fn(T) -> real, prob: QpProblem<T>, x: spec_fn(int) -> real, r: int)
    requires
        exact(v),
        prob.wf(),
        separable(prob),
        0 <= r < prob.mi(),
    ensures
        ({
            let c = bound_col(prob, r);
            &&& 0 <= c < prob.n()
            &&& v(bound_val(prob, r)) != 0real
            &&& prob.a_in.at(r, c) == bound_val(prob, r)
            &&& forall|j: int| 0 <= j < prob.n() && j != c ==> v(#[trigger] prob.a_in.at(r, j)) == 0real
            &&& along(program_of(v, prob).a_in, x, r, prob.n()) == v(bound_val(prob, r)) * x(c)
        }),
{
    let c = bound_col(prob, r);
    let n = prob.n();
    assert(entries_in(prob, r) == 1);
    lemma_one_entry(prob.a_in.row(r), n);
    crate::lp_simplex::lemma_last_nonzero(prob.a_in.row(r), n);
    assert(prob.a_in.row(r)[c] == prob.a_in.at(r, c));
    assert forall|j: int| 0 <= j < n && j != c implies v(#[trigger] prob.a_in.at(r, j)) == 0real by {
        assert(prob.a_in.row(r)[j] == prob.a_in.at(r, j));
        assert(prob.a_in.row(r)[j].equals(T::zero()));
    }
    let f = |j: int| (program_of(v, prob).a_in)(r, j) * x(j);
    assert forall|j: int| 0 <= j < n && j != c implies #[trigger] f(j) == 0real by {
        assert(v(prob.a_in.at(r, j)) == 0real);
        lemma_zero_times(x(j));
    }
    lemma_sum_single(f, n, c);
}

proof fn lemma_zero_times(x: real)
    ensures
        0real * x == 0real,
        x * 0real == 0real,
        1real * x == x,
{
    assert(0real * x == 0real) by (nonlinear_arith);
    assert(x * 0real == 0real) by (nonlinear_arith);
    assert(1real * x == x) by (nonlinear_arith);
}

/// The row of the Hessian holds the diagonal entry alone.
proof fn lemma_curvature<T: Scalar>(v: spec_fn(T) -> real, prob: QpProblem<T>, x: spec_fn(int) -> real, i: int)
    requires
        exact(v),
        prob.wf(),
        separable(prob),
        0 <= i < prob.n(),
    ensures
        along(program_of(v, prob).p, x, i, prob.n()) == v(prob.p.at(i, i)) * x(i),
{
    let f = |j: int| (program_of(v, prob).p)(i, j) * x(j);
    assert forall|j: int| 0 <= j < prob.n() && j != i implies #[trigger] f(j) == 0real by {
        assert(prob.p.at(i, j).equals(T::zero()));
        lemma_zero_times(x(j));
    }
    lemma_sum_single(f, prob.n(), i);
}

/// A row bounds its unknown from above.
pub open spec fn caps<T: Scalar>(v: spec_fn(T) -> real, prob: QpProblem<T>, r: int, c: int) -> bool {
    bound_col(prob, r) == c && v(bound_val(prob, r)) > 0real
}

/// A row bounds its unknown from below.
pub open spec fn props<T: Scalar>(v: spec_fn(T) -> real, prob: QpProblem<T>, r: int, c: int) -> bool {
    bound_col(prob, r) == c && v(bound_val(prob, r)) < 0real
}

/// The upper bound is the least that a row or the absence of rows gives.
proof fn lemma_upper<T: Scalar>(v: spec_fn(T) -> real, prob: QpProblem<T>, c: int, k: nat)
    requires
        exact(v),
        exact_order(v),
        prob.wf(),
        separable(prob),
        k <= prob.mi(),
    ensures
        ({
            let u = v(upper_bound(prob, bound_rows(prob, prob.mi()), c, k));
            &&& u <= v(unbounded::<T>())
            &&& forall|r: int| 0 <= r < k && #[trigger] caps(v, prob, r, c) ==> v(bound_val(prob, r)) * u <= v(prob.b_in@[r])
            &&& u == v(unbounded::<T>()) || exists|r: int|
                0 <= r < k && #[trigger] caps(v, prob, r, c) && v(bound_val(prob, r)) * u == v(prob.b_in@[r])
        }),
    decreases k,
{
    let rows = bound_rows(prob, prob.mi());
    lemma_all_bounds(prob, prob.mi());
    if k > 0 {
        let t = k - 1;
        lemma_upper(v, prob, c, t as nat);
        let u0 = v(upper_bound(prob, rows, c, t as nat));
        let u = v(upper_bound(prob, rows, c, k));
        assert(rows[t].0 == t);
        lemma_row(v, prob, |j: int| 0real, t);
        let a = v(bound_val(prob, t));
        if caps(v, prob, t, c) {
            lemma_over(v, prob.b_in@[t], bound_val(prob, t));
            let q = v(prob.b_in@[t].over(bound_val(prob, t)));
            lemma_scale_order(a, u, q);
            lemma_scale_order(a, q, q);
            assert(u == if q < u0 { q } else { u0 });
            assert forall|r: int| 0 <= r < k && #[trigger] caps(v, prob, r, c) implies v(bound_val(prob, r)) * u <= v(
                prob.b_in@[r],
            ) by {
                if r < t {
                    lemma_scale_order(v(bound_val(prob, r)), u, u0);
                }
            }
        } else {
            assert(u == u0);
        }
        if u != v(unbounded::<T>()) {
            if u == u0 {
                let r = choose|r: int|
                    0 <= r < t && #[trigger] caps(v, prob, r, c) && v(bound_val(prob, r)) * u0 == v(prob.b_in@[r]);
                assert(caps(v, prob, r, c));
            } else {
                assert(caps(v, prob, t, c));
            }
        }
    }
}

/// The lower bound is the largest that a row or the absence of rows gives.
proof fn lemma_lower<T: Scalar>(v: spec_fn(T) -> real, prob: QpProblem<T>, c: int, k: nat)
    requires
        exact(v),
        exact_order(v),
        prob.wf(),
        separable(prob),
        k <= prob.mi(),
    ensures
        ({
            let u = v(lower_bound(prob, bound_rows(prob, prob.mi()), c, k));
            &&& u >= -v(unbounded::<T>())
            &&& forall|r: int| 0 <= r < k && #[trigger] props(v, prob, r, c) ==> v(bound_val(prob, r)) * u <= v(prob.b_in@[r])
            &&& u == -v(unbounded::<T>()) || exists|r: int|
                0 <= r < k && #[trigger] props(v, prob, r, c) && v(bound_val(prob, r)) * u == v(prob.b_in@[r])
        }),
    decreases k,
{
    let rows = bound_rows(prob, prob.mi());
    lemma_all_bounds(prob, prob.mi());
    if k > 0 {
        let t = k - 1;
        lemma_lower(v, prob, c, t as nat);
        let u0 = v(lower_bound(prob, rows, c, t as nat));
        let u = v(lower_bound(prob, rows, c, k));
        assert(rows[t].0 == t);
        lemma_row(v, prob, |j: int| 0real, t);
        let a = v(bound_val(prob, t));
        if props(v, prob, t, c) {
            lemma_over(v, prob.b_in@[t], bound_val(prob, t));
            let q = v(prob.b_in@[t].over(bound_val(prob, t)));
            lemma_scale_order(a, q, u);
            lemma_scale_order(a, q, q);
            assert(u == if u0 < q { q } else { u0 });
            assert forall|r: int| 0 <= r < k && #[trigger] props(v, prob, r, c) implies v(bound_val(prob, r)) * u <= v(
                prob.b_in@[r],
            ) by {
                if r < t {
                    lemma_scale_order(v(bound_val(prob, r)), u0, u);
                }
            }
        } else {
            assert(u == u0);
        }
        if u != -v(unbounded::<T>()) {
            if u == u0 {
                let r = choose|r: int|
                    0 <= r < t && #[trigger] props(v, prob, r, c) && v(bound_val(prob, r)) * u0 == v(prob.b_in@[r]);
                assert(props(v, prob, r, c));
            } else {
                assert(props(v, prob, t, c));
            }
        }
    }
}

/// The slope of unknown `i` at `x`.
pub open spec fn slope<T: Scalar>(v: spec_fn(T) -> real, prob: QpProblem<T>, x: Seq<T>, i: int) -> real {
    v(prob.p.at(i, i)) * v(x[i]) + v(prob.q@[i])
}

/// A row that is met with equality stands against the slope.
pub open spec fn stops<T: Scalar>(v: spec_fn(T) -> real, prob: QpProblem<T>, x: Seq<T>, i: int, r: int) -> bool {
    &&& 0 <= r < prob.mi()
    &&& bound_col(prob, r) == i
    &&& v(bound_val(prob, r)) * v(x[i]) == v(prob.b_in@[r])
    &&& slope(v, prob, x, i) > 0real ==> v(bound_val(prob, r)) < 0real
    &&& slope(v, prob, x, i) < 0real ==> v(bound_val(prob, r)) > 0real
}

/// The point keeps its bounds, and where it is not the unconstrained minimizer a row stands against the
/// slope.
proof fn lemma_point<T: Scalar>(v: spec_fn(T) -> real, prob: QpProblem<T>, eps: T, i: int)
    requires
        reads_box(v, prob, eps),
        prob.wf(),
        separable(prob),
        positive_diagonal(prob),
        nonempty_box(prob),
        0 <= i < prob.n(),
    ensures
        forall|r: int|
            0 <= r < prob.mi() && #[trigger] bound_col(prob, r) == i ==> v(bound_val(prob, r)) * v(
                box_point(prob)[i],
            ) <= v(prob.b_in@[r]),
        slope(v, prob, box_point(prob), i) != 0real ==> exists|r: int| #[trigger]
            stops(v, prob, box_point(prob), i, r),
{
    let rows = bound_rows(prob, prob.mi());
    lemma_all_bounds(prob, prob.mi());
    let x = box_point(prob);
    let (p, q) = (v(prob.p.at(i, i)), v(prob.q@[i]));
    let (lb, ub) = (v(lower_bound(prob, rows, i, rows.len())), v(upper_bound(prob, rows, i, rows.len())));
    lemma_upper(v, prob, i, prob.mi());
    lemma_lower(v, prob, i, prob.mi());
    assert(lower_bound(prob, rows, i, rows.len()).at_most(upper_bound(prob, rows, i, rows.len())));
    assert(!prob.p.at(i, i).at_most(T::zero()));
    assert(p > 0real);
    lemma_over(v, prob.q@[i].neg(), prob.p.at(i, i));
    let m = v(prob.q@[i].neg().over(prob.p.at(i, i)));
    let xi = v(x[i]);
    assert(x[i] == clipped(prob, i));
    assert(lb <= xi <= ub);
    assert(m * p == -q);
    lemma_scale_order(p, m, m);
    assert forall|r: int| 0 <= r < prob.mi() && #[trigger] bound_col(prob, r) == i implies v(bound_val(prob, r)) * v(
        x[i],
    ) <= v(prob.b_in@[r]) by {
        lemma_row(v, prob, |j: int| 0real, r);
        let a = v(bound_val(prob, r));
        if a > 0real {
            assert(caps(v, prob, r, i));
            lemma_scale_order(a, xi, ub);
        } else {
            assert(props(v, prob, r, i));
            lemma_scale_order(a, lb, xi);
        }
    }
    let g = slope(v, prob, x, i);
    if m < lb {
        assert(xi == lb);
        lemma_scale_order(p, m, lb);
        assert(g > 0real);
        // The minimizer is not below every bound, so a row gives this one.
        let big = v(unbounded::<T>());
        assert(prob.p.at(i, i) == prob.p.at(i, i));
        assert(q <= big * p);
        if lb == -big {
            lemma_scale_order(p, m, -big);
            lemma_minus_product(big, p);
            assert(false);
        }
        let r = choose|r: int|
            0 <= r < prob.mi() && #[trigger] props(v, prob, r, i) && v(bound_val(prob, r)) * lb == v(prob.b_in@[r]);
        assert(stops(v, prob, x, i, r));
    } else if ub < m {
        assert(xi == ub);
        lemma_scale_order(p, ub, m);
        assert(g < 0real);
        let big = v(unbounded::<T>());
        assert(-big * p <= q);
        if ub == big {
            lemma_scale_order(p, big, m);
            lemma_minus_product(big, p);
            assert(false);
        }
        let r = choose|r: int|
            0 <= r < prob.mi() && #[trigger] caps(v, prob, r, i) && v(bound_val(prob, r)) * ub == v(prob.b_in@[r]);
        assert(stops(v, prob, x, i, r));
    } else {
        assert(xi == m);
        assert(g == 0real);
    }
}

proof fn lemma_minus_product(a: real, b: real)
    ensures
        -a * b == -(a * b),
        b * -a == -(a * b),
        b * a == a * b,
{
    assert(-a * b == -(a * b)) by (nonlinear_arith);
    assert(b * -a == -(a * b)) by (nonlinear_arith);
    assert(b * a == a * b) by (nonlinear_arith);
}

proof fn lemma_holding_count<T: Scalar>(prob: QpProblem<T>, x: Seq<T>, eps: T, c: int, k: nat)
    ensures
        holding_count(prob, x, eps, c, k) <= k,
        holding_count(prob, x, eps, c, k) == 0 ==> forall|r: int|
            0 <= r < k && #[trigger] bound_col(prob, r) == c ==> !holds_back(prob, x, eps, r),
    decreases k,
{
    if k > 0 {
        lemma_holding_count(prob, x, eps, c, (k - 1) as nat);
    }
}

/// The load of a row, times its entry, balances the slope.
proof fn lemma_load<T: Scalar>(v: spec_fn(T) -> real, prob: QpProblem<T>, x: Seq<T>, r: int)
    requires
        exact(v),
        v(bound_val(prob, r)) != 0real,
    ensures
        v(box_load(prob, x, r)) * v(bound_val(prob, r)) == -slope(v, prob, x, bound_col(prob, r)),
{
    let c = bound_col(prob, r);
    lemma_over(v, prob.p.at(c, c).times(x[c]).plus(prob.q@[c]).neg(), bound_val(prob, r));
}

/// A row that stands against the slope holds its unknown back.
proof fn lemma_stop_holds<T: Scalar>(
    v: spec_fn(T) -> real,
    prob: QpProblem<T>,
    eps: T,
    x: Seq<T>,
    i: int,
    r: int,
)
    requires
        reads_box(v, prob, eps),
        prob.wf(),
        separable(prob),
        stops(v, prob, x, i, r),
        slope(v, prob, x, i) != 0real,
    ensures
        holds_back(prob, x, eps, r),
{
    lemma_row(v, prob, |j: int| 0real, r);
    lemma_load(v, prob, x, r);
    let (a, l, g) = (v(bound_val(prob, r)), v(box_load(prob, x, r)), slope(v, prob, x, i));
    assert(l * a == -g);
    if l <= 0real {
        lemma_scale_order(a, l, 0real);
        lemma_zero_times(a);
        assert(false);
    }
}

proof fn lemma_share(z: real, n: real, l: real, a: real, g: real)
    requires
        z * n == l,
        l * a == -g,
    ensures
        n * (a * z) == -g,
{
    assert(n * (a * z) == (z * n) * a) by (nonlinear_arith);
}

proof fn lemma_distribute(n: real, s: real, t: real)
    ensures
        n * (s + t) == n * s + n * t,
        (s + t) * n == s * n + t * n,
{
    assert(n * (s + t) == n * s + n * t) by (nonlinear_arith);
    assert((s + t) * n == s * n + t * n) by (nonlinear_arith);
}

/// What the multipliers of the first `k` rows give in the row of unknown `i`.
proof fn lemma_shares<T: Scalar>(
    v: spec_fn(T) -> real,
    prob: QpProblem<T>,
    eps: T,
    x: Seq<T>,
    i: int,
    k: nat,
)
    requires
        reads_box(v, prob, eps),
        prob.wf(),
        separable(prob),
        0 <= i < prob.n(),
        k <= prob.mi(),
        holding_count(prob, x, eps, i, prob.mi()) > 0,
    ensures
        whole(holding_count(prob, x, eps, i, prob.mi())) * sum(
            |r: int| v(prob.a_in.at(r, i)) * v(box_multiplier(prob, x, eps, r)),
            k,
        ) == whole(holding_count(prob, x, eps, i, k)) * -slope(v, prob, x, i),
    decreases k,
{
    let count = holding_count(prob, x, eps, i, prob.mi());
    let n = whole(count);
    let g = slope(v, prob, x, i);
    let f = |r: int| v(prob.a_in.at(r, i)) * v(box_multiplier(prob, x, eps, r));
    lemma_holding_count(prob, x, eps, i, prob.mi());
    lemma_whole(count);
    if k == 0 {
        lemma_zero_times(n);
        lemma_zero_times(-g);
    } else {
        let r = k - 1;
        lemma_shares(v, prob, eps, x, i, r as nat);
        lemma_row(v, prob, |j: int| 0real, r);
        let z = box_multiplier(prob, x, eps, r);
        let h0 = whole(holding_count(prob, x, eps, i, r as nat));
        lemma_distribute(n, sum(f, r as nat), f(r));
        lemma_distribute(-g, h0, 1real);
        lemma_zero_times(-g);
        if bound_col(prob, r) == i {
            if holds_back(prob, x, eps, r) {
                let load = box_load(prob, x, r);
                lemma_over(v, load, T::from_usize(count as usize));
                lemma_load(v, prob, x, r);
                lemma_share(v(z), n, v(load), v(bound_val(prob, r)), g);
            } else {
                assert(v(z) == 0real);
                lemma_zero_times(v(prob.a_in.at(r, i)));
                lemma_zero_times(n);
            }
        } else {
            assert(v(prob.a_in.at(r, i)) == 0real);
            lemma_zero_times(v(z));
            lemma_zero_times(n);
        }
    }
}

/// The multipliers balance the slope.
proof fn lemma_balanced<T: Scalar>(v: spec_fn(T) -> real, prob: QpProblem<T>, eps: T, i: int)
    requires
        reads_box(v, prob, eps),
        prob.wf(),
        separable(prob),
        positive_diagonal(prob),
        nonempty_box(prob),
        0 <= i < prob.n(),
    ensures
        slope(v, prob, box_point(prob), i) + sum(
            |r: int| v(prob.a_in.at(r, i)) * v(box_multiplier(prob, box_point(prob), eps, r)),
            prob.mi(),
        ) == 0real,
{
    let x = box_point(prob);
    let mi = prob.mi();
    let count = holding_count(prob, x, eps, i, mi);
    let f = |r: int| v(prob.a_in.at(r, i)) * v(box_multiplier(prob, x, eps, r));
    let g = slope(v, prob, x, i);
    lemma_point(v, prob, eps, i);
    lemma_holding_count(prob, x, eps, i, mi);
    if count == 0 {
        if g != 0real {
            let r = choose|r: int| #[trigger] stops(v, prob, x, i, r);
            lemma_stop_holds(v, prob, eps, x, i, r);
            assert(bound_col(prob, r) == i);
            assert(false);
        }
        assert forall|r: int| 0 <= r < mi implies #[trigger] f(r) == 0real by {
            lemma_row(v, prob, |j: int| 0real, r);
            if bound_col(prob, r) == i {
                assert(!holds_back(prob, x, eps, r));
                lemma_zero_times(v(prob.a_in.at(r, i)));
            } else {
                assert(v(prob.a_in.at(r, i)) == 0real);
                lemma_zero_times(v(box_multiplier(prob, x, eps, r)));
            }
        }
        crate::exact::lemma_sum_zero(f, mi);
    } else {
        lemma_shares(v, prob, eps, x, i, mi);
        lemma_whole(count);
        let (n, s) = (whole(count), sum(f, mi));
        lemma_scale_order(n, s, s);
        lemma_scale_order(n, -g, -g);
        lemma_cancel(s, -g, n);
    }
}

/// A multiplier is not negative, and vanishes where its slack is above the tolerance.
proof fn lemma_multiplier<T: Scalar>(v: spec_fn(T) -> real, prob: QpProblem<T>, eps: T, x: Seq<T>, r: int)
    requires
        reads_box(v, prob, eps),
        0 <= r < prob.mi() <= usize::MAX,
    ensures
        v(box_multiplier(prob, x, eps, r)) >= 0real,
        v(box_multiplier(prob, x, eps, r)) == 0real || v(box_slack(prob, x, r)) <= v(eps),
{
    if holds_back(prob, x, eps, r) {
        let c = bound_col(prob, r);
        let count = holding_count(prob, x, eps, c, prob.mi());
        lemma_holding_count(prob, x, eps, c, prob.mi());
        assert(count > 0);
        lemma_whole(count);
        let load = box_load(prob, x, r);
        lemma_over(v, load, T::from_usize(count as usize));
        let (z, n) = (v(box_multiplier(prob, x, eps, r)), whole(count));
        if z < 0real {
            lemma_scale_order(n, z, 0real);
            lemma_zero_times(n);
            assert(false);
        }
    }
}

/// Twice the share of one unknown in the objective.
pub open spec fn share_at(c: Program, x: spec_fn(int) -> real, i: int) -> real {
    x(i) * along(c.p, x, i, c.n) + (c.q)(i) * x(i) + (c.q)(i) * x(i)
}

proof fn lemma_objective_shares(c: Program, x: spec_fn(int) -> real)
    ensures
        twice_objective(c, x) == sum(|i: int| share_at(c, x, i), c.n),
{
    let px = |i: int| along(c.p, x, i, c.n);
    let f = |i: int| x(i) * px(i);
    let g = |i: int| (c.q)(i) * x(i);
    let fg = |i: int| f(i) + g(i);
    crate::exact::lemma_sum_plus(f, g, c.n);
    crate::exact::lemma_sum_plus(fg, g, c.n);
    lemma_sum_same(|i: int| fg(i) + g(i), |i: int| share_at(c, x, i), c.n);
}

/// A step along a parabola: the slope times the step, twice, and the curvature.
proof fn lemma_parabola(p: real, q: real, w: real, d: real)
    ensures
        (w + d) * (p * (w + d)) + q * (w + d) + q * (w + d) == w * (p * w) + q * w + q * w + (p * w + q) * d + (p * w + q)
            * d + p * (d * d),
{
    let e = w + d;
    assert(p * e == p * w + p * d) by (nonlinear_arith)
        requires
            e == w + d,
    ;
    let (a, b) = (p * w, p * d);
    assert((w + d) * (a + b) == w * a + w * b + d * a + d * b) by (nonlinear_arith);
    assert(w * (p * d) == (p * w) * d) by (nonlinear_arith);
    assert(d * (p * w) == (p * w) * d) by (nonlinear_arith);
    assert(d * (p * d) == p * (d * d)) by (nonlinear_arith);
    assert(q * (w + d) == q * w + q * d) by (nonlinear_arith);
    assert((a + q) * d == a * d + q * d) by (nonlinear_arith);
}

/// No feasible value of unknown `i` is better than the point's.
proof fn lemma_coordinate<T: Scalar>(
    v: spec_fn(T) -> real,
    prob: QpProblem<T>,
    eps: T,
    o: spec_fn(int) -> real,
    i: int,
)
    requires
        reads_box(v, prob, eps),
        prob.wf(),
        separable(prob),
        positive_diagonal(prob),
        nonempty_box(prob),
        keeps_rows(program_of(v, prob), o),
        0 <= i < prob.n(),
    ensures
        share_at(program_of(v, prob), entries(v, box_point(prob)), i) <= share_at(program_of(v, prob), o, i),
{
    let x = box_point(prob);
    let xv = entries(v, x);
    let c = program_of(v, prob);
    let (p, q) = (v(prob.p.at(i, i)), v(prob.q@[i]));
    assert(!prob.p.at(i, i).at_most(T::zero()));
    lemma_curvature(v, prob, xv, i);
    lemma_curvature(v, prob, o, i);
    let (w, d) = (xv(i), o(i) - xv(i));
    lemma_parabola(p, q, w, d);
    let g = p * w + q;
    assert(g == slope(v, prob, x, i));
    assert(g * d >= 0real) by {
        lemma_point(v, prob, eps, i);
        if g == 0real {
            lemma_zero_times(d);
        } else {
            let r = choose|r: int| #[trigger] stops(v, prob, x, i, r);
            lemma_row(v, prob, o, r);
            assert(along(c.a_in, o, r, c.n) <= (c.b_in)(r));
            let a = v(bound_val(prob, r));
            assert(a * o(i) <= a * w);
            if g > 0real {
                if o(i) < w {
                    lemma_scale_order(a, o(i), w);
                    assert(false);
                }
                lemma_scale_order(g, 0real, d);
                lemma_zero_times(g);
            } else {
                if w < o(i) {
                    lemma_scale_order(a, w, o(i));
                    assert(false);
                }
                lemma_scale_order(g, d, 0real);
                lemma_zero_times(g);
            }
        }
    }
    assert(p * (d * d) >= 0real) by {
        assert(d * d >= 0real) by (nonlinear_arith);
        lemma_scale_order(p, 0real, d * d);
        lemma_zero_times(p);
    }
    assert(w + d == o(i));
}

/// The objective that is reported, doubled, is that of the point.
proof fn lemma_reported<T: Scalar>(v: spec_fn(T) -> real, prob: QpProblem<T>, x: Seq<T>, k: nat)
    requires
        exact(v),
        prob.wf(),
        separable(prob),
        k <= prob.n(),
    ensures
        v(box_objective(prob, x, k)) + v(box_objective(prob, x, k)) == sum(
            |i: int| share_at(program_of(v, prob), entries(v, x), i),
            k,
        ),
    decreases k,
{
    if k > 0 {
        let i = k - 1;
        lemma_reported(v, prob, x, i as nat);
        lemma_curvature(v, prob, entries(v, x), i);
        let (h, p, w) = (v(T::decimal(5, 1)), v(prob.p.at(i, i)), v(x[i]));
        lemma_half(h, p, w);
    }
}

proof fn lemma_half(h: real, p: real, w: real)
    requires
        h * 2real == 1real,
    ensures
        h * p * w * w + h * p * w * w == w * (p * w),
{
    let e = w * (p * w);
    assert(h * p * w * w == h * (w * (p * w))) by (nonlinear_arith);
    assert(h * e + h * e == (h * 2real) * e) by (nonlinear_arith);
    assert(1real * e == e) by (nonlinear_arith);
}

/// The closed form tells the truth: a problem that it reports as solved is solved in terms of its own
/// matrices, and one that it reports as infeasible has no feasible point.
pub proof fn closed_form_answers_the_problem<T: Scalar>(prob: QpProblem<T>, eps: T, sol: QpSolution<T>)
    requires
        prob.wf(),
        closed_form(prob, eps),
        sol.parts() == box_solution(prob, eps),
    ensures
        answers_box(prob, eps, sol),
{
    assert forall|v: spec_fn(T) -> real| #[trigger] reads_box(v, prob, eps) implies {
        &&& sol.status == Status::Solved || sol.status == Status::PrimalInfeasible
        &&& sol.status == Status::Solved ==> box_optimal(v, prob, eps, sol)
        &&& sol.status == Status::PrimalInfeasible ==> forall|o: spec_fn(int) -> real|
            !(#[trigger] keeps_rows(program_of(v, prob), o))
    } by {
        if nonempty_box(prob) {
            lemma_solved(v, prob, eps, sol);
        } else {
            assert forall|o: spec_fn(int) -> real| !(#[trigger] keeps_rows(program_of(v, prob), o)) by {
                lemma_parted(v, prob, eps, o);
            }
        }
    }
}

proof fn lemma_solved<T: Scalar>(v: spec_fn(T) -> real, prob: QpProblem<T>, eps: T, sol: QpSolution<T>)
    requires
        reads_box(v, prob, eps),
        prob.wf(),
        separable(prob),
        positive_diagonal(prob),
        nonempty_box(prob),
        sol.parts() == box_solution(prob, eps),
    ensures
        box_optimal(v, prob, eps, sol),
{
    let c = program_of(v, prob);
    let x = box_point(prob);
    let (xv, s, z) = (entries(v, sol.x@), entries(v, sol.s@), entries(v, sol.z@));
    assert(sol.x@ == x);
    assert(sol.y@.len() == 0);
    assert forall|r: int| 0 <= r < c.mi implies #[trigger] along(c.a_in, xv, r, c.n) <= (c.b_in)(r) by {
        lemma_row(v, prob, xv, r);
        lemma_point(v, prob, eps, bound_col(prob, r));
    }
    assert(keeps_rows(c, xv));
    assert forall|r: int| 0 <= r < prob.mi() implies #[trigger] s(r) == (c.b_in)(r) - along(c.a_in, xv, r, c.n) by {
        lemma_row(v, prob, xv, r);
        assert(sol.s@[r] == box_slack(prob, x, r));
    }
    assert forall|r: int| 0 <= r < prob.mi() implies #[trigger] z(r) >= 0real && (z(r) == 0real || s(r) <= v(eps)) by {
        lemma_multiplier(v, prob, eps, x, r);
        assert(sol.z@[r] == box_multiplier(prob, x, eps, r));
        assert(sol.s@[r] == box_slack(prob, x, r));
    }
    assert forall|i: int| 0 <= i < prob.n() implies #[trigger] along(c.p, xv, i, c.n) + (c.q)(i) + across(
        c.a_in,
        z,
        i,
        c.mi,
    ) == 0real by {
        lemma_curvature(v, prob, xv, i);
        lemma_balanced(v, prob, eps, i);
        let f = |r: int| (c.a_in)(r, i) * z(r);
        let g = |r: int| v(prob.a_in.at(r, i)) * v(box_multiplier(prob, x, eps, r));
        assert forall|r: int| 0 <= r < prob.mi() implies #[trigger] f(r) == g(r) by {
            assert(sol.z@[r] == box_multiplier(prob, x, eps, r));
        }
        lemma_sum_same(f, g, prob.mi());
    }
    lemma_objective_shares(c, xv);
    lemma_reported(v, prob, x, prob.n());
    assert forall|o: spec_fn(int) -> real| #[trigger] keeps_rows(c, o) implies twice_objective(c, xv)
        <= twice_objective(c, o) by {
        lemma_objective_shares(c, o);
        let f = |i: int| share_at(c, xv, i);
        let g = |i: int| share_at(c, o, i);
        assert forall|i: int| 0 <= i < c.n implies #[trigger] f(i) <= g(i) by {
            lemma_coordinate(v, prob, eps, o, i);
        }
        lemma_sum_order(f, g, c.n);
    }
}

proof fn lemma_sum_order(f: spec_fn(int) -> real, g: spec_fn(int) -> real, n: nat)
    requires
        forall|i: int| 0 <= i < n ==> #[trigger] f(i) <= g(i),
    ensures
        sum(f, n) <= sum(g, n),
    decreases n,
{
    if n > 0 {
        lemma_sum_order(f, g, (n - 1) as nat);
        assert(f(n - 1) <= g(n - 1));
    }
}

/// Bounds that contradict each other leave no feasible point.
proof fn lemma_parted<T: Scalar>(v: spec_fn(T) -> real, prob: QpProblem<T>, eps: T, o: spec_fn(int) -> real)
    requires
        reads_box(v, prob, eps),
        prob.wf(),
        separable(prob),
        positive_diagonal(prob),
        parted_box(prob, eps),
    ensures
        !keeps_rows(program_of(v, prob), o),
{
    let rows = bound_rows(prob, prob.mi());
    let c = program_of(v, prob);
    lemma_all_bounds(prob, prob.mi());
    let i = choose|i: int|
        0 <= i < prob.n() && upper_bound(prob, rows, i, rows.len()).plus(eps).below(
            #[trigger] lower_bound(prob, rows, i, rows.len()),
        );
    lemma_upper(v, prob, i, prob.mi());
    lemma_lower(v, prob, i, prob.mi());
    let (lb, ub) = (v(lower_bound(prob, rows, i, rows.len())), v(upper_bound(prob, rows, i, rows.len())));
    let big = v(unbounded::<T>());
    assert(ub < lb);
    let p = v(prob.p.at(i, i));
    assert(!prob.p.at(i, i).at_most(T::zero()));
    assert(-big * p <= big * p);
    if big < 0real {
        lemma_scale_order(p, big, -big);
        lemma_minus_product(big, p);
    }
    if ub != big {
        let r = choose|r: int|
            0 <= r < prob.mi() && #[trigger] caps(v, prob, r, i) && v(bound_val(prob, r)) * ub == v(prob.b_in@[r]);
        lemma_row(v, prob, o, r);
        if keeps_rows(c, o) {
            assert(along(c.a_in, o, r, c.n) <= (c.b_in)(r));
        }
        let a = v(bound_val(prob, r));
        if ub < o(i) {
            lemma_scale_order(a, ub, o(i));
        }
        assert(v(prob.a_in.at(r, i)) > 0real);
        assert(-big * a <= v(prob.b_in@[r]));
        if ub < -big {
            lemma_scale_order(a, ub, -big);
            lemma_minus_product(big, a);
        }
    }
    if lb != -big {
        let r = choose|r: int|
            0 <= r < prob.mi() && #[trigger] props(v, prob, r, i) && v(bound_val(prob, r)) * lb == v(prob.b_in@[r]);
        lemma_row(v, prob, o, r);
        if keeps_rows(c, o) {
            assert(along(c.a_in, o, r, c.n) <= (c.b_in)(r));
        }
        let a = v(bound_val(prob, r));
        if o(i) < lb {
            lemma_scale_order(a, o(i), lb);
        }
        assert(v(prob.a_in.at(r, i)) < 0real);
        assert(big * a <= v(prob.b_in@[r]));
        if big < lb {
            lemma_scale_order(a, big, lb);
            lemma_minus_product(big, a);
        }
    }
}

} // verus!
