//! The benchmark programs, where the operations of the numbers are exact: what their rows and objectives say
//! of a point.
use crate::exact::{
    exact, exact_counts, inv, lemma_inv, lemma_over, lemma_sum_plus, lemma_sum_same, lemma_sum_single,
    lemma_sum_split, lemma_sum_times, lemma_sum_zero, lemma_whole, sum, whole,
};
use crate::exp_laws::in_exp;
use crate::generators::{
    entropy_cost, entropy_entry, entropy_program, is_log_sum, minus_identity, moment_entry, simplex_entry, unit_entry,
    weighted_cost, NsCone,
};
use crate::optimum_laws::{along, inner, program_of, Program};
use crate::pow_laws::{exact_powers, exponential, lemma_logarithm, lemma_ratio};
use crate::problem::QpProblem;
use crate::scalar::Scalar;
use crate::separable_laws::twice_objective;
use crate::vector::constant;
use vstd::prelude::*;

verus! {

/// What inequality row `r` leaves at a point.
pub open spec fn left_at(c: Program, w: spec_fn(int) -> real, r: int) -> real {
    (c.b_in)(r) - along(c.a_in, w, r, c.n)
}

proof fn lemma_units(x: real)
    ensures
        0real * x == 0real,
        1real * x == x,
        (-1real) * x == -x,
        x * 0real == 0real,
{
    assert(0real * x == 0real) by (nonlinear_arith);
    assert(1real * x == x) by (nonlinear_arith);
    assert((-1real) * x == -x) by (nonlinear_arith);
    assert(x * 0real == 0real) by (nonlinear_arith);
}

/// The program projects onto its cone: a point is its own slack, and twice the objective is the squared
/// distance from `target` less the squared norm of `target`.
pub open spec fn projects_at<T: Scalar>(
    v: spec_fn(T) -> real,
    prob: QpProblem<T>,
    target: spec_fn(int) -> real,
    w: spec_fn(int) -> real,
) -> bool {
    let c = program_of(v, prob);
    &&& c.me == 0 && c.mi == c.n
    &&& forall|r: int| 0 <= r < c.n ==> #[trigger] left_at(c, w, r) == w(r)
    &&& twice_objective(c, w) == sum(|i: int| (w(i) - target(i)) * (w(i) - target(i)), c.n) - sum(
        |i: int| target(i) * target(i),
        c.n,
    )
}

/// A program over its own slacks: the identity Hessian, and the negated target as its cost.
pub proof fn projection_program_projects<T: Scalar>(
    v: spec_fn(T) -> real,
    prob: QpProblem<T>,
    target: spec_fn(int) -> real,
    w: spec_fn(int) -> real,
)
    requires
        exact(v),
        prob.wf(),
        prob.b_eq@.len() == 0,
        prob.mi() == prob.n(),
        prob.p.entries_are(unit_entry()),
        prob.a_in.entries_are(minus_identity()),
        prob.b_in@ == constant(T::zero(), prob.n()),
        forall|i: int| 0 <= i < prob.n() ==> v(#[trigger] prob.q@[i]) == -target(i),
    ensures
        projects_at(v, prob, target, w),
{
    let c = program_of(v, prob);
    let n = prob.n();
    assert forall|r: int| 0 <= r < n implies #[trigger] left_at(c, w, r) == w(r) by {
        lemma_own_slack(v, prob, w, r);
    }
    let px = |i: int| along(c.p, w, i, n);
    let f = |i: int| w(i) * px(i);
    let g = |i: int| (c.q)(i) * w(i);
    let fg = |i: int| f(i) + g(i);
    let all = |i: int| fg(i) + g(i);
    lemma_sum_plus(f, g, n);
    lemma_sum_plus(fg, g, n);
    let square = |i: int| (w(i) - target(i)) * (w(i) - target(i));
    let minus = |i: int| -1real * (target(i) * target(i));
    assert forall|i: int| 0 <= i < n implies #[trigger] all(i) == square(i) + minus(i) by {
        let h = |j: int| (c.p)(i, j) * w(j);
        assert forall|j: int| 0 <= j < n && j != i implies #[trigger] h(j) == 0real by {
            assert(prob.p.at(i, j) == T::zero());
            lemma_units(w(j));
        }
        lemma_sum_single(h, n, i);
        assert(prob.p.at(i, i) == T::one());
        lemma_units(w(i));
        let (x, a) = (w(i), target(i));
        assert(v(prob.q@[i]) == -target(i));
        assert(x * x + (-a) * x + (-a) * x == (x - a) * (x - a) + -1real * (a * a)) by (nonlinear_arith);
    }
    lemma_sum_same(all, |i: int| square(i) + minus(i), n);
    lemma_sum_plus(square, minus, n);
    let tt = |i: int| target(i) * target(i);
    lemma_sum_times(-1real, tt, n);
    lemma_sum_same(minus, |i: int| -1real * tt(i), n);
    lemma_units(sum(tt, n));
}

/// With the negated identity and no right-hand side a point is its own slack.
proof fn lemma_own_slack<T: Scalar>(v: spec_fn(T) -> real, prob: QpProblem<T>, w: spec_fn(int) -> real, r: int)
    requires
        exact(v),
        prob.wf(),
        prob.mi() == prob.n(),
        prob.a_in.entries_are(minus_identity()),
        prob.b_in@ == constant(T::zero(), prob.n()),
        0 <= r < prob.n(),
    ensures
        left_at(program_of(v, prob), w, r) == w(r),
{
    let c = program_of(v, prob);
    let f = |j: int| (c.a_in)(r, j) * w(j);
    assert forall|j: int| 0 <= j < prob.n() && j != r implies #[trigger] f(j) == 0real by {
        assert(prob.a_in.at(r, j) == T::zero());
        lemma_units(w(j));
    }
    lemma_sum_single(f, prob.n(), r);
    assert(prob.a_in.at(r, r) == T::one().neg());
    lemma_units(w(r));
    assert(prob.b_in@[r] == T::zero());
}

/// The slacks of the entropy cones: `(t_i, x_i, 1)` for the unknowns `(x, t)`.
pub proof fn entropy_slacks<T: Scalar>(
    v: spec_fn(T) -> real,
    prob: QpProblem<T>,
    cones: Seq<NsCone<T>>,
    n: nat,
    w: spec_fn(int) -> real,
    i: int,
)
    requires
        exact(v),
        prob.wf(),
        entropy_program(prob, cones, n),
        0 <= i < n,
    ensures
        ({
            let c = program_of(v, prob);
            &&& left_at(c, w, 3 * i) == w(n + i)
            &&& left_at(c, w, 3 * i + 1) == w(i)
            &&& left_at(c, w, 3 * i + 2) == 1real
        }),
{
    lemma_entropy_row(v, prob, cones, n, w, i, 0);
    lemma_entropy_row(v, prob, cones, n, w, i, 1);
    lemma_entropy_row(v, prob, cones, n, w, i, 2);
}

proof fn lemma_entropy_row<T: Scalar>(
    v: spec_fn(T) -> real,
    prob: QpProblem<T>,
    cones: Seq<NsCone<T>>,
    n: nat,
    w: spec_fn(int) -> real,
    i: int,
    k: int,
)
    requires
        exact(v),
        prob.wf(),
        entropy_program(prob, cones, n),
        0 <= i < n,
        0 <= k < 3,
    ensures
        left_at(program_of(v, prob), w, 3 * i + k) == if k == 0 {
            w(n + i)
        } else if k == 1 {
            w(i)
        } else {
            1real
        },
{
    let c = program_of(v, prob);
    let m = prob.n();
    let r = 3 * i + k;
    assert(r / 3 == i && r % 3 == k);
    let f = |j: int| (c.a_in)(r, j) * w(j);
    let at = if k == 0 {
        n + i
    } else {
        i
    };
    assert forall|j: int| 0 <= j < m && (j != at || k == 2) implies #[trigger] f(j) == 0real by {
        assert(prob.a_in.at(r, j) == entropy_entry::<T>(n)(r, j));
        lemma_units(w(j));
    }
    if k < 2 {
        lemma_sum_single(f, m, at);
        assert(prob.a_in.at(r, at) == entropy_entry::<T>(n)(r, at));
        lemma_units(w(at));
    } else {
        lemma_sum_zero(f, m);
    }
    assert(prob.b_in@[r] == crate::generators::entropy_rhs::<T>(n)[r]);
}

/// A point whose entropy slacks lie in the exponential cone has `t` at most `-x log x`.
pub proof fn entropy_cone_bounds_the_entropy(e: spec_fn(real) -> real, l: spec_fn(real) -> real, x: real, t: real)
    requires
        exponential(e, l),
        in_exp(e, t, x, 1real),
    ensures
        t <= -(x * l(x)),
{
    crate::exp_laws::lemma_excess_sign(e, l, t, x, 1real);
    lemma_ratio(1real, x);
    lemma_logarithm(e, l, x, 1real * inv(x));
    assert(l(e(0real)) == 0real);
    let (q, p) = (l(1real * inv(x)), l(x));
    assert(x * (-p) == -(x * p)) by (nonlinear_arith);
}

/// The logarithm is below its tangent at 1.
proof fn lemma_tangent(e: spec_fn(real) -> real, l: spec_fn(real) -> real, a: real)
    requires
        exponential(e, l),
        a > 0real,
    ensures
        l(a) <= a - 1real,
{
    assert(e(l(a)) >= 1real + l(a));
}

/// No distribution has more entropy than the uniform one: where the entropy slacks lie in the exponential
/// cone and the unknowns sum to 1, the objective is at least `-log n`.
pub proof fn entropy_is_at_most_that_of_the_uniform_distribution(
    e: spec_fn(real) -> real,
    l: spec_fn(real) -> real,
    x: spec_fn(int) -> real,
    t: spec_fn(int) -> real,
    n: nat,
)
    requires
        exponential(e, l),
        n > 0,
        sum(x, n) == 1real,
        forall|i: int| 0 <= i < n ==> in_exp(e, #[trigger] t(i), x(i), 1real),
    ensures
        sum(t, n) <= l(whole(n)),
{
    lemma_whole(n);
    let k = whole(n);
    lemma_inv(k);
    let j = inv(k);
    let c = l(k) - 1real;
    let one = |i: int| 1real;
    let cx = |i: int| c * x(i);
    let jo = |i: int| j * one(i);
    let bound = |i: int| jo(i) + cx(i);
    assert forall|i: int| 0 <= i < n implies #[trigger] t(i) <= bound(i) by {
        assert(in_exp(e, t(i), x(i), 1real));
        let y = x(i);
        entropy_cone_bounds_the_entropy(e, l, y, t(i));
        // log(1 / (n x)) is at most 1 / (n x) - 1.
        lemma_logarithm(e, l, k, y);
        lemma_ratio(1real, k * y);
        let q = 1real * inv(k * y);
        lemma_logarithm(e, l, k * y, q);
        assert(l(e(0real)) == 0real);
        lemma_tangent(e, l, q);
        let (p, b, a) = (l(y), l(k), q);
        assert(y * (-b - p) <= y * (a - 1real)) by (nonlinear_arith)
            requires
                y > 0real,
                -b - p <= a - 1real,
        ;
        assert(y * (-b - p) == -(y * b) - y * p) by (nonlinear_arith);
        assert(y * (a - 1real) == y * a - y) by (nonlinear_arith);
        assert((k * y) * a == k * (y * a)) by (nonlinear_arith);
        let g = y * a;
        assert(k * g == 1real);
        assert(j * (k * g) == (j * k) * g) by (nonlinear_arith);
        lemma_units(g);
        assert(j * 1real == j) by (nonlinear_arith);
        assert((b - 1real) * y == y * b - y) by (nonlinear_arith);
    }
    lemma_sum_order(t, bound, n);
    lemma_sum_plus(jo, cx, n);
    lemma_sum_times(j, one, n);
    lemma_sum_times(c, x, n);
    lemma_count(n);
    lemma_sum_same(one, |i: int| 1real, n);
    assert(c * 1real == c) by (nonlinear_arith);
}

proof fn lemma_count(n: nat)
    ensures
        sum(|i: int| 1real, n) == whole(n),
    decreases n,
{
    if n > 0 {
        lemma_count((n - 1) as nat);
    }
}

proof fn lemma_sum_order(f: spec_fn(int) -> real, g: spec_fn(int) -> real, n: nat)
    requires
        forall|i: int| 0 <= i < n ==> #[trigger] f(i) <= g(i),
    ensures
        sum(f, n) <= sum(g, n),
    decreases n,
{
    if n > 0 {
        lemma_sum_order(f, g, (n - 1) as nat);
        assert(f(n - 1) <= g(n - 1));
    }
}

/// The objective of the entropy program is the negated sum of `t`, and its equality row the sum of `x`.
pub proof fn entropy_program_reads<T: Scalar>(v: spec_fn(T) -> real, prob: QpProblem<T>, n: nat, w: spec_fn(int) -> real)
    requires
        exact(v),
        prob.q@ == entropy_cost::<T>(n),
        prob.a_eq.sized(1, 2 * n),
        prob.a_eq.entries_are(simplex_entry(n)),
        prob.b_eq@ == seq![T::one()],
    ensures
        inner(program_of(v, prob).q, w, 2 * n) == -sum(|i: int| w(n + i), n),
        along(program_of(v, prob).a_eq, w, 0, 2 * n) == sum(w, n),
        v(prob.b_eq@[0]) == 1real,
{
    let c = program_of(v, prob);
    let f = |i: int| (c.q)(i) * w(i);
    lemma_sum_split(f, n, n);
    assert forall|i: int| 0 <= i < n implies #[trigger] f(i) == 0real by {
        lemma_units(w(i));
    }
    lemma_sum_zero(f, n);
    let tail = |i: int| f(n + i);
    let t = |i: int| w(n + i);
    let minus = |i: int| -1real * t(i);
    assert forall|i: int| 0 <= i < n implies #[trigger] tail(i) == minus(i) by {
        lemma_units(w(n + i));
    }
    lemma_sum_same(tail, minus, n);
    lemma_sum_times(-1real, t, n);
    lemma_units(sum(t, n));
    let g = |i: int| (c.a_eq)(0, i) * w(i);
    lemma_sum_split(g, n, n);
    assert forall|i: int| 0 <= i < n implies #[trigger] g(i) == w(i) by {
        assert(prob.a_eq.at(0, i) == T::one());
        lemma_units(w(i));
    }
    lemma_sum_same(g, w, n);
    let rest = |i: int| g(n + i);
    assert forall|i: int| 0 <= i < n implies #[trigger] rest(i) == 0real by {
        assert(prob.a_eq.at(0, n + i) == T::zero());
        lemma_units(w(n + i));
    }
    lemma_sum_zero(rest, n);
}

/// The weighted objective takes `skew i` off for every unit of `x_i`: it is the negated sum of `t` and of
/// `skew i x_i`.
pub proof fn weighted_objective_reads<T: Scalar>(
    v: spec_fn(T) -> real,
    e: spec_fn(real) -> real,
    l: spec_fn(real) -> real,
    prob: QpProblem<T>,
    n: nat,
    skew: T,
    w: spec_fn(int) -> real,
)
    requires
        exact(v),
        exact_counts(v),
        exact_powers(v, e, l),
        n <= usize::MAX,
        prob.q@ == weighted_cost(n, skew),
    ensures
        inner(program_of(v, prob).q, w, 2 * n) == -sum(|i: int| (v(skew) * whole(i as nat)) * w(i), n) - sum(
            |i: int| w(n + i),
            n,
        ),
{
    let c = program_of(v, prob);
    let f = |i: int| (c.q)(i) * w(i);
    lemma_sum_split(f, n, n);
    let g = |i: int| (v(skew) * whole(i as nat)) * w(i);
    let gm = |i: int| -1real * g(i);
    assert forall|i: int| 0 <= i < n implies #[trigger] f(i) == gm(i) by {
        let a = skew.times(T::from_usize(i as usize));
        crate::pow_laws::lemma_positive(e, l, v(a));
        assert(l(e(v(a))) == v(a));
        let (x, y) = (v(a), w(i));
        assert((-x) * y == -1real * (x * y)) by (nonlinear_arith);
    }
    lemma_sum_same(f, gm, n);
    lemma_sum_times(-1real, g, n);
    lemma_units(sum(g, n));
    let tail = |i: int| f(n + i);
    let t = |i: int| w(n + i);
    let minus = |i: int| -1real * t(i);
    assert forall|i: int| 0 <= i < n implies #[trigger] tail(i) == minus(i) by {
        lemma_units(w(n + i));
    }
    lemma_sum_same(tail, minus, n);
    lemma_sum_times(-1real, t, n);
    lemma_units(sum(t, n));
}

/// The second row of the moment program is the mean of `i / (n - 1)`.
pub proof fn moment_row_reads<T: Scalar>(v: spec_fn(T) -> real, prob: QpProblem<T>, n: nat, w: spec_fn(int) -> real)
    requires
        exact(v),
        exact_counts(v),
        2 <= n <= usize::MAX,
        prob.a_eq.sized(2, 2 * n),
        prob.a_eq.entries_are(moment_entry(n)),
    ensures
        along(program_of(v, prob).a_eq, w, 0, 2 * n) == sum(w, n),
        along(program_of(v, prob).a_eq, w, 1, 2 * n) * whole((n - 1) as nat) == sum(|i: int| whole(i as nat) * w(i), n),
{
    let c = program_of(v, prob);
    let k = whole((n - 1) as nat);
    lemma_whole((n - 1) as nat);
    let f = |j: int| (c.a_eq)(0, j) * w(j);
    let g = |j: int| (c.a_eq)(1, j) * w(j);
    lemma_sum_split(f, n, n);
    lemma_sum_split(g, n, n);
    assert forall|j: int| 0 <= j < n implies #[trigger] f(j) == w(j) by {
        assert(prob.a_eq.at(0, j) == T::one());
        lemma_units(w(j));
    }
    lemma_sum_same(f, w, n);
    let (ft, gt) = (|j: int| f(n + j), |j: int| g(n + j));
    assert forall|j: int| 0 <= j < n implies #[trigger] ft(j) == 0real by {
        assert(prob.a_eq.at(0, n + j) == T::zero());
        lemma_units(w(n + j));
    }
    assert forall|j: int| 0 <= j < n implies #[trigger] gt(j) == 0real by {
        assert(prob.a_eq.at(1, n + j) == T::zero());
        lemma_units(w(n + j));
    }
    lemma_sum_zero(ft, n);
    lemma_sum_zero(gt, n);
    let h = |j: int| whole(j as nat) * w(j);
    let kg = |j: int| k * g(j);
    assert forall|j: int| 0 <= j < n implies #[trigger] kg(j) == h(j) by {
        let (top, low) = (T::from_usize(j as usize), T::from_usize(n as usize).minus(T::one()));
        assert(prob.a_eq.at(1, j) == top.over(low));
        assert(v(low) == k);
        lemma_over(v, top, low);
        let (q, y) = (v(top.over(low)), w(j));
        assert(k * (q * y) == (q * k) * y) by (nonlinear_arith);
    }
    lemma_sum_same(kg, h, n);
    lemma_sum_times(k, g, n);
    let s = sum(g, n);
    assert(s * k == k * s) by (nonlinear_arith);
}

/// The slacks of the log-sum-exp cones are `(scale a_j'x + b_j / 2, 1, t_j)`, and the box is `-1 <= x_i <= 1`.
pub proof fn log_sum_slacks<T: Scalar>(
    v: spec_fn(T) -> real,
    n: nat,
    m: nat,
    scale: T,
    draws: Seq<T>,
    prob: QpProblem<T>,
    cones: Seq<NsCone<T>>,
    w: spec_fn(int) -> real,
    j: int,
)
    requires
        exact(v),
        is_log_sum(n, m, scale, draws, prob, cones),
        prob.n() == n + m,
        prob.mi() == 3 * m + 2 * n,
    ensures
        ({
            let c = program_of(v, prob);
            &&& 0 <= j < m ==> left_at(c, w, 3 * j) == v(T::decimal(5, 1)) * v(draws[j * (n + 1) + n]) + v(scale) * sum(
                |i: int| v(draws[j * (n + 1) + i]) * w(i),
                n,
            )
            &&& 0 <= j < m ==> left_at(c, w, 3 * j + 1) == 1real
            &&& 0 <= j < m ==> left_at(c, w, 3 * j + 2) == w(n + j)
            &&& 0 <= j < n ==> left_at(c, w, 3 * m + 2 * j) == 1real - w(j)
            &&& 0 <= j < n ==> left_at(c, w, 3 * m + 2 * j + 1) == 1real + w(j)
        }),
{
    let c = program_of(v, prob);
    let nv = n + m;
    if 0 <= j < m {
        let r = 3 * j;
        assert(r / 3 == j && r % 3 == 0);
        let f = |i: int| (c.a_in)(r, i) * w(i);
        lemma_sum_split(f, n, m);
        let d = |i: int| v(draws[j * (n + 1) + i]) * w(i);
        let sd = |i: int| -v(scale) * d(i);
        assert forall|i: int| 0 <= i < n implies #[trigger] f(i) == sd(i) by {
            assert(prob.a_in.at(r, i) == draws[(r / 3) * (n + 1) + i].neg().times(scale));
            let (x, y, z) = (v(draws[j * (n + 1) + i]), v(scale), w(i));
            assert(((-x) * y) * z == -y * (x * z)) by (nonlinear_arith);
        }
        lemma_sum_same(f, sd, n);
        lemma_sum_times(-v(scale), d, n);
        let tail = |i: int| f(n + i);
        assert forall|i: int| 0 <= i < m implies #[trigger] tail(i) == 0real by {
            assert(prob.a_in.at(r, n + i) == T::zero());
            lemma_units(w(n + i));
        }
        lemma_sum_zero(tail, m);
        let (y, s) = (v(scale), sum(d, n));
        assert(-y * s == -(y * s)) by (nonlinear_arith);
        let (p, q) = (v(draws[j * (n + 1) + n]), v(T::decimal(5, 1)));
        assert(p * q == q * p) by (nonlinear_arith);
        assert(prob.b_in@[r] == draws[(r / 3) * (n + 1) + n].times(T::decimal(5, 1)));
        // The second row.
        let r1 = 3 * j + 1;
        assert(r1 / 3 == j && r1 % 3 == 1);
        let f1 = |i: int| (c.a_in)(r1, i) * w(i);
        assert forall|i: int| 0 <= i < nv implies #[trigger] f1(i) == 0real by {
            assert(prob.a_in.at(r1, i) == T::zero());
            lemma_units(w(i));
        }
        lemma_sum_zero(f1, nv);
        assert(prob.b_in@[r1] == T::one());
        // The third row.
        let r2 = 3 * j + 2;
        assert(r2 / 3 == j && r2 % 3 == 2);
        let f2 = |i: int| (c.a_in)(r2, i) * w(i);
        assert forall|i: int| 0 <= i < nv && i != n + j implies #[trigger] f2(i) == 0real by {
            assert(prob.a_in.at(r2, i) == T::zero());
            lemma_units(w(i));
        }
        lemma_sum_single(f2, nv, n + j);
        assert(prob.a_in.at(r2, n + j) == T::one().neg());
        lemma_units(w(n + j));
        assert(prob.b_in@[r2] == T::zero());
    }
    if 0 <= j < n {
        let r = 3 * m + 2 * j;
        assert((r - 3 * m) / 2 == j && (r - 3 * m) % 2 == 0);
        let f = |i: int| (c.a_in)(r, i) * w(i);
        assert forall|i: int| 0 <= i < nv && i != j implies #[trigger] f(i) == 0real by {
            assert(prob.a_in.at(r, i) == T::zero());
            lemma_units(w(i));
        }
        lemma_sum_single(f, nv, j);
        assert(prob.a_in.at(r, j) == T::one());
        lemma_units(w(j));
        assert(prob.b_in@[r] == T::one());
        let r1 = 3 * m + 2 * j + 1;
        assert((r1 - 3 * m) / 2 == j && (r1 - 3 * m) % 2 == 1);
        let g = |i: int| (c.a_in)(r1, i) * w(i);
        assert forall|i: int| 0 <= i < nv && i != j implies #[trigger] g(i) == 0real by {
            assert(prob.a_in.at(r1, i) == T::zero());
            lemma_units(w(i));
        }
        lemma_sum_single(g, nv, j);
        assert(prob.a_in.at(r1, j) == T::one().neg());
        lemma_units(w(j));
        assert(prob.b_in@[r1] == T::one());
    }
}

/// The point `(1, 1, 0)`.
pub open spec fn corner() -> spec_fn(int) -> real {
    |i: int|
        if i < 2 {
            1real
        } else {
            0real
        }
}

/// The point with 8 in the first `k` entries and 2 in the others.
pub open spec fn inner_point(k: nat) -> spec_fn(int) -> real {
    |i: int|
        if i < k {
            8real
        } else {
            2real
        }
}

/// The program projects `target` onto its cone, however the numbers are read.
pub open spec fn projects<T: Scalar>(prob: QpProblem<T>, target: spec_fn(int) -> real) -> bool {
    forall|v: spec_fn(T) -> real, w: spec_fn(int) -> real|
        exact(v) && exact_counts(v) ==> #[trigger] projects_at(v, prob, target, w)
}

/// The program with the cost `(-1, -1, 0)` projects `(1, 1, 0)`.
pub proof fn corner_is_projected<T: Scalar>(prob: QpProblem<T>)
    requires
        prob.wf(),
        prob.b_eq@.len() == 0,
        prob.mi() == prob.n(),
        prob.p.entries_are(unit_entry()),
        prob.a_in.entries_are(minus_identity()),
        prob.b_in@ == constant(T::zero(), prob.n()),
        prob.q@ == seq![T::one().neg(), T::one().neg(), T::zero()],
    ensures
        projects(prob, corner()),
{
    assert forall|v: spec_fn(T) -> real, w: spec_fn(int) -> real| exact(v) && exact_counts(v) implies #[trigger] projects_at(
        v,
        prob,
        corner(),
        w,
    ) by {
        projection_program_projects(v, prob, corner(), w);
    }
}

/// The program with the cost `-8` on the bases and `-2` behind them projects the point with these entries.
pub proof fn inner_point_is_projected<T: Scalar>(prob: QpProblem<T>, k: nat, tail: nat)
    requires
        prob.wf(),
        prob.b_eq@.len() == 0,
        prob.mi() == prob.n(),
        prob.p.entries_are(unit_entry()),
        prob.a_in.entries_are(minus_identity()),
        prob.b_in@ == constant(T::zero(), prob.n()),
        prob.q@ == crate::generators::geomean_cost::<T>(k, tail),
    ensures
        projects(prob, inner_point(k)),
{
    assert forall|v: spec_fn(T) -> real, w: spec_fn(int) -> real| exact(v) && exact_counts(v) implies #[trigger] projects_at(
        v,
        prob,
        inner_point(k),
        w,
    ) by {
        reveal_with_fuel(whole, 9);
        assert(v(T::from_usize(8)) == whole(8));
        assert(v(T::from_usize(2)) == whole(2));
        projection_program_projects(v, prob, inner_point(k), w);
    }
}

/// At a point, the objective is the negated last unknown, the equality row is `x + y = 1`, and each unknown is
/// its own slack.
pub open spec fn last_at<T: Scalar>(v: spec_fn(T) -> real, prob: QpProblem<T>, w: spec_fn(int) -> real) -> bool {
    let c = program_of(v, prob);
    &&& c.n == 3 && c.me == 1 && c.mi == 3
    &&& forall|r: int| 0 <= r < 3 ==> #[trigger] left_at(c, w, r) == w(r)
    &&& inner(c.q, w, 3) == -w(2)
    &&& along(c.a_eq, w, 0, 3) == w(0) + w(1)
    &&& (c.b_eq)(0) == 1real
}

/// The program maximizes the last unknown over `x + y = 1`, however the numbers are read.
pub open spec fn maximizes_last<T: Scalar>(prob: QpProblem<T>) -> bool {
    forall|v: spec_fn(T) -> real, w: spec_fn(int) -> real| exact(v) ==> #[trigger] last_at(v, prob, w)
}

/// The program of the weighted product maximizes the last unknown.
pub proof fn product_program_maximizes_last<T: Scalar>(prob: QpProblem<T>)
    requires
        prob.wf(),
        prob.q@ == seq![T::zero(), T::zero(), T::one().neg()],
        prob.a_eq.sized(1, 3),
        prob.a_eq.at(0, 0) == T::one(),
        prob.a_eq.at(0, 1) == T::one(),
        prob.a_eq.at(0, 2) == T::zero(),
        prob.b_eq@ == seq![T::one()],
        prob.a_in.entries_are(minus_identity()),
        prob.b_in@ == constant(T::zero(), 3),
    ensures
        maximizes_last(prob),
{
    assert forall|v: spec_fn(T) -> real, w: spec_fn(int) -> real| exact(v) implies #[trigger] last_at(v, prob, w) by {
        let c = program_of(v, prob);
        assert forall|r: int| 0 <= r < 3 implies #[trigger] left_at(c, w, r) == w(r) by {
            lemma_own_slack(v, prob, w, r);
        }
        let f = |i: int| (c.q)(i) * w(i);
        assert forall|i: int| 0 <= i < 3 && i != 2 implies #[trigger] f(i) == 0real by {
            lemma_units(w(i));
        }
        lemma_sum_single(f, 3, 2);
        lemma_units(w(2));
        let g = |i: int| (c.a_eq)(0, i) * w(i);
        reveal_with_fuel(sum, 4);
        assert(sum(g, 3) == g(0) + g(1) + g(2));
        lemma_units(w(0));
        lemma_units(w(1));
    }
}

} // verus!
