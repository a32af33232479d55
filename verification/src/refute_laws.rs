//! Infeasibility, where the operations of the numbers are exact: a problem that is reported as primal
//! infeasible has no feasible point of ordinary size, and one that is reported as dual infeasible has a
//! direction along which the objective falls while the rows hardly move.
use crate::conic_step::{dual_certificate, primal_certificate, ray_scale, Access, IterateView};
use crate::exact::{
    exact, exact_order, inv, largest, lemma_largest, lemma_over, lemma_sum_nonnegative, lemma_sum_plus, lemma_sum_same,
    lemma_sum_times, magnitude, norms_are_exact, products_are_exact, sum, whole,
};
use crate::matrix::diagonal_matrix;
use crate::optimum_laws::{across, along, entries, inner, lemma_transpose, program_of, Program};
use crate::pc_step::sums;
use crate::problem::{descending_ray, ray_of, unbounded_ray, QpProblem};
use crate::product_laws::{
    form_holds, hessian_products_are_those_of_the_matrix, products_are_those_of_the_matrix,
    transposed_products_are_those_of_the_matrix,
};
use crate::products::{form_fits, hessian_times, times_spec, times_t_spec, Form};
use crate::qp_loop::{largest_upto, qp_dual_test, qp_primal_test};
use crate::scalar::Scalar;
use crate::separable_laws::keeps_rows;
use crate::solution_laws::reads_problem;
use crate::sparse::CscMatrix;
use crate::vector::{divided, dot_spec, inf_norm_spec};
use crate::warm::orthant_margin;
use vstd::prelude::*;

verus! {

/// The power of ten.
pub open spec fn tens(k: nat) -> real
    decreases k,
{
    if k == 0 {
        1real
    } else {
        10real * tens((k - 1) as nat)
    }
}

/// Decimal numbers are exact.
pub open spec fn exact_decimals<T: Scalar>(v: spec_fn(T) -> real) -> bool {
    forall|d: u64, p: u64| v(#[trigger] T::decimal(d, p)) * tens(p as nat) == whole(d as nat)
}

proof fn lemma_decimals<T: Scalar>(v: spec_fn(T) -> real)
    requires
        exact_decimals(v),
    ensures
        v(T::decimal(1, 6)) * 1000000real == 1real,
        v(T::decimal(1, 10)) * 10000000000real == 1real,
{
    reveal_with_fuel(tens, 11);
    reveal_with_fuel(whole, 2);
    let (a, b) = (v(T::decimal(1, 6)), v(T::decimal(1, 10)));
    assert(tens(6) == 1000000real);
    assert(tens(10) == 10000000000real);
    assert(a * tens(6) == whole(1));
    assert(b * tens(10) == whole(1));
}

/// The point satisfies every row of the problem.
pub open spec fn feasible(c: Program, o: spec_fn(int) -> real) -> bool {
    keeps_rows(c, o) && forall|i: int| 0 <= i < c.me ==> along(c.a_eq, o, i, c.n) == #[trigger] (c.b_eq)(i)
}

/// The sum of the magnitudes.
pub open spec fn spread(o: spec_fn(int) -> real, n: nat) -> real {
    sum(|j: int| magnitude(o(j)), n)
}

/// The problem has no feasible point of ordinary size: the magnitudes of any sum to more than a
/// ten-thousandth.
pub open spec fn refuted(c: Program) -> bool {
    forall|o: spec_fn(int) -> real| #[trigger] feasible(c, o) ==> 10000real * spread(o, c.n) > 1real
}

/// The objective falls along `d`, whose entries are at most 1, and no row moves against the problem by more
/// than a millionth; neither does the curvature.
pub open spec fn falls_along(c: Program, d: spec_fn(int) -> real) -> bool {
    &&& forall|i: int| 0 <= i < c.n ==> magnitude(#[trigger] d(i)) <= 1real
    &&& 10000000000real * inner(c.q, d, c.n) < -1real
    &&& forall|i: int| 0 <= i < c.me ==> 1000000real * magnitude(#[trigger] along(c.a_eq, d, i, c.n)) <= 1real
    &&& forall|r: int| 0 <= r < c.mi ==> 1000000real * #[trigger] along(c.a_in, d, r, c.n) <= 1real
    &&& forall|i: int| 0 <= i < c.n ==> 1000000real * magnitude(#[trigger] along(c.p, d, i, c.n)) <= 1real
}

/// A problem reported as primal infeasible has no feasible point of ordinary size, however its numbers are
/// read.
pub open spec fn refutes<T: Scalar>(prob: QpProblem<T>, eps: T) -> bool {
    forall|v: spec_fn(T) -> real| #[trigger]
        reads_problem(v, prob, eps) && exact_decimals(v) ==> refuted(program_of(v, prob))
}

/// A problem reported as dual infeasible has a direction along which its objective falls, however its numbers
/// are read.
pub open spec fn descends_freely<T: Scalar>(prob: QpProblem<T>, eps: T) -> bool {
    forall|v: spec_fn(T) -> real| #[trigger]
        reads_problem(v, prob, eps) && exact_decimals(v) ==> exists|d: spec_fn(int) -> real| #[trigger]
            falls_along(program_of(v, prob), d)
}

proof fn lemma_term(o: real, g: real, t: real)
    requires
        magnitude(g) <= t,
    ensures
        o * g + t * magnitude(o) >= 0real,
{
    let m = magnitude(o);
    if o >= 0real {
        assert(o * g >= o * (-t)) by (nonlinear_arith)
            requires
                o >= 0real,
                g >= -t,
        ;
        assert(o * (-t) == -(t * o)) by (nonlinear_arith);
    } else {
        assert(o * g >= o * t) by (nonlinear_arith)
            requires
                o <= 0real,
                g <= t,
        ;
        assert(o * t == -(t * (-o))) by (nonlinear_arith);
    }
}

/// Multipliers that vanish on the matrices and are negative on the right-hand sides leave no feasible point
/// of ordinary size.
pub proof fn multipliers_refute(
    c: Program,
    y: spec_fn(int) -> real,
    z: spec_fn(int) -> real,
    o: spec_fn(int) -> real,
    t: real,
    b: real,
)
    requires
        forall|i: int| 0 <= i < c.me ==> along(c.a_eq, o, i, c.n) == #[trigger] (c.b_eq)(i),
        inner(z, |r: int| along(c.a_in, o, r, c.n), c.mi) <= inner(c.b_in, z, c.mi),
        inner(c.b_eq, y, c.me) + inner(c.b_in, z, c.mi) < -b,
        forall|j: int|
            0 <= j < c.n ==> magnitude(#[trigger] across(c.a_eq, y, j, c.me) + across(c.a_in, z, j, c.mi)) <= t,
    ensures
        t * spread(o, c.n) > b,
{
    let n = c.n;
    let ge = |j: int| across(c.a_eq, y, j, c.me);
    let gi = |j: int| across(c.a_in, z, j, c.mi);
    let ao = |r: int| along(c.a_in, o, r, n);
    let eo = |r: int| along(c.a_eq, o, r, n);
    lemma_transpose(c.a_eq, o, y, n, c.me);
    lemma_transpose(c.a_in, o, z, n, c.mi);
    let f = |j: int| o(j) * ge(j);
    let g = |j: int| o(j) * gi(j);
    let m = |j: int| magnitude(o(j));
    let tm = |j: int| t * m(j);
    let fg = |j: int| f(j) + g(j);
    let all = |j: int| fg(j) + tm(j);
    assert forall|j: int| 0 <= j < n implies #[trigger] all(j) >= 0real by {
        assert(magnitude(across(c.a_eq, y, j, c.me) + across(c.a_in, z, j, c.mi)) <= t);
        lemma_term(o(j), ge(j) + gi(j), t);
        let (x, p, q) = (o(j), ge(j), gi(j));
        assert(x * (p + q) == x * p + x * q) by (nonlinear_arith);
    }
    lemma_sum_nonnegative(all, n);
    lemma_sum_plus(fg, tm, n);
    lemma_sum_plus(f, g, n);
    lemma_sum_times(t, m, n);
    assert(inner(o, ge, n) == sum(f, n)) by {
        lemma_sum_same(|j: int| o(j) * ge(j), f, n);
    }
    assert(inner(o, gi, n) == sum(g, n)) by {
        lemma_sum_same(|j: int| o(j) * gi(j), g, n);
    }
    assert(inner(o, ge, n) == inner(y, eo, c.me));
    assert(inner(o, gi, n) == inner(z, ao, c.mi));
    let ye = |i: int| y(i) * eo(i);
    let bty = |i: int| (c.b_eq)(i) * y(i);
    assert forall|i: int| 0 <= i < c.me implies #[trigger] ye(i) == bty(i) by {
        assert(along(c.a_eq, o, i, n) == (c.b_eq)(i));
        let (p, q) = (y(i), eo(i));
        assert(p * q == q * p) by (nonlinear_arith);
    }
    lemma_sum_same(ye, bty, c.me);
    assert(spread(o, n) == sum(m, n)) by {
        lemma_sum_same(|j: int| magnitude(o(j)), m, n);
    }
}

proof fn lemma_scale<T: Scalar>(v: spec_fn(T) -> real, prob: QpProblem<T>, it: IterateView<T>)
    requires
        exact(v),
        exact_order(v),
    ensures
        v(ray_scale(prob, it)) >= 1real,
        v(ray_scale(prob, it)) >= v(inf_norm_spec(it.x)),
{
}

proof fn lemma_below<T: Scalar>(v: spec_fn(T) -> real, a: Seq<T>, t: T, i: int)
    requires
        exact(v),
        exact_order(v),
        inf_norm_spec(a).at_most(t),
        0 <= i < a.len(),
    ensures
        magnitude(v(a[i])) <= v(t),
{
    norms_are_exact(v, a, a.len());
    lemma_largest(|i: int| v(a[i]), a.len(), i);
}

proof fn lemma_margin_sign<T: Scalar>(v: spec_fn(T) -> real, z: Seq<T>, k: nat)
    requires
        exact(v),
        exact_order(v),
        v(orthant_margin(z, k)) >= 0real,
    ensures
        forall|i: int| 0 <= i < k ==> v(#[trigger] z[i]) >= 0real,
    decreases k,
{
    if k > 0 {
        lemma_margin_sign(v, z, (k - 1) as nat);
    }
}

proof fn lemma_divided_sign(q: real, n: real, x: real)
    requires
        q * n == x,
        n > 0real,
    ensures
        x >= 0real ==> q >= 0real,
        magnitude(x) <= n ==> magnitude(q) <= 1real,
{
    if x >= 0real && q < 0real {
        assert(q * n < 0real) by (nonlinear_arith)
            requires
                q < 0real,
                n > 0real,
        ;
    }
    if magnitude(x) <= n {
        if q > 1real {
            assert(q * n > n) by (nonlinear_arith)
                requires
                    q > 1real,
                    n > 0real,
            ;
        }
        if q < -1real {
            assert(q * n < -n) by (nonlinear_arith)
                requires
                    q < -1real,
                    n > 0real,
            ;
        }
    }
}

/// The real facts of a certificate of primal infeasibility.
proof fn lemma_certificate<T: Scalar>(
    v: spec_fn(T) -> real,
    prob: QpProblem<T>,
    eq: (Form, Option<CscMatrix<T>>),
    ain: (Form, Option<CscMatrix<T>>),
    y: Seq<T>,
    z: Seq<T>,
)
    requires
        exact(v),
        exact_order(v),
        prob.wf(),
        form_fits(eq.0, eq.1, prob.a_eq),
        form_fits(ain.0, ain.1, prob.a_in),
        form_holds(v, eq.0, eq.1, prob.a_eq),
        form_holds(v, ain.0, ain.1, prob.a_in),
        y.len() == prob.me(),
        z.len() == prob.mi(),
        dot_spec(prob.b_eq@, y).plus(dot_spec(prob.b_in@, z)).below(T::decimal(1, 10).neg()),
        inf_norm_spec(
            sums(times_t_spec(eq.0, eq.1, prob.a_eq, y), times_t_spec(ain.0, ain.1, prob.a_in, z)),
        ).below(T::decimal(1, 6)),
    ensures
        ({
            let c = program_of(v, prob);
            let (yv, zv) = (entries(v, y), entries(v, z));
            &&& inner(c.b_eq, yv, c.me) + inner(c.b_in, zv, c.mi) < -v(T::decimal(1, 10))
            &&& forall|j: int|
                0 <= j < c.n ==> magnitude(#[trigger] across(c.a_eq, yv, j, c.me) + across(c.a_in, zv, j, c.mi)) <= v(
                    T::decimal(1, 6),
                )
        }),
{
    let c = program_of(v, prob);
    let (yv, zv) = (entries(v, y), entries(v, z));
    products_are_exact(v, prob.b_eq@, y);
    products_are_exact(v, prob.b_in@, z);
    lemma_sum_same(|i: int| v(prob.b_eq@[i]) * v(y[i]), |i: int| (c.b_eq)(i) * yv(i), c.me);
    lemma_sum_same(|i: int| v(prob.b_in@[i]) * v(z[i]), |i: int| (c.b_in)(i) * zv(i), c.mi);
    let (a, b) = (times_t_spec(eq.0, eq.1, prob.a_eq, y), times_t_spec(ain.0, ain.1, prob.a_in, z));
    assert forall|j: int| 0 <= j < c.n implies magnitude(
        #[trigger] across(c.a_eq, yv, j, c.me) + across(c.a_in, zv, j, c.mi),
    ) <= v(T::decimal(1, 6)) by {
        transposed_products_are_those_of_the_matrix(v, eq.0, eq.1, prob.a_eq, y, j);
        transposed_products_are_those_of_the_matrix(v, ain.0, ain.1, prob.a_in, z, j);
        lemma_below(v, sums(a, b), T::decimal(1, 6), j);
    }
}

proof fn lemma_refuted(t: real, b: real, s: real)
    requires
        t * 1000000real == 1real,
        b * 10000000000real == 1real,
        t * s > b,
    ensures
        10000real * s > 1real,
{
    assert(t == 1real / 1000000real);
    assert(b == 1real / 10000000000real);
    assert((1real / 1000000real) * s > 1real / 10000000000real);
}

/// Multipliers that pass the test of the orthant engine show that no feasible point of ordinary size exists.
pub proof fn tested_multipliers_refute_the_problem<T: Scalar>(
    v: spec_fn(T) -> real,
    prob: QpProblem<T>,
    eq: (Form, Option<CscMatrix<T>>),
    ain: (Form, Option<CscMatrix<T>>),
    it: IterateView<T>,
)
    requires
        exact(v),
        exact_order(v),
        exact_decimals(v),
        prob.wf(),
        form_fits(eq.0, eq.1, prob.a_eq),
        form_fits(ain.0, ain.1, prob.a_in),
        form_holds(v, eq.0, eq.1, prob.a_eq),
        form_holds(v, ain.0, ain.1, prob.a_in),
        it.y.len() == prob.me(),
        it.z.len() == prob.mi(),
        qp_primal_test(prob, eq, ain, it),
    ensures
        refuted(program_of(v, prob)),
{
    let c = program_of(v, prob);
    let ns = ray_scale(prob, it);
    let (yh, zh) = (divided(it.y, ns), divided(it.z, ns));
    let (yv, zv) = (entries(v, yh), entries(v, zh));
    lemma_scale(v, prob, it);
    lemma_decimals::<T>(v);
    lemma_certificate(v, prob, eq, ain, yh, zh);
    lemma_margin_sign(v, it.z, it.z.len());
    assert forall|o: spec_fn(int) -> real| #[trigger] feasible(c, o) implies 10000real * spread(o, c.n) > 1real by {
        let ao = |r: int| along(c.a_in, o, r, c.n);
        let f = |r: int| zv(r) * ao(r);
        let g = |r: int| (c.b_in)(r) * zv(r);
        assert forall|r: int| 0 <= r < c.mi implies #[trigger] f(r) <= g(r) by {
            assert(along(c.a_in, o, r, c.n) <= (c.b_in)(r));
            assert(v(it.z[r]) >= 0real);
            lemma_over(v, it.z[r], ns);
            lemma_divided_sign(v(zh[r]), v(ns), v(it.z[r]));
            let (p, q, b) = (zv(r), ao(r), (c.b_in)(r));
            assert(p * q <= b * p) by (nonlinear_arith)
                requires
                    p >= 0real,
                    q <= b,
            ;
        }
        lemma_sum_order(f, g, c.mi);
        assert(inner(zv, ao, c.mi) == sum(f, c.mi)) by {
            lemma_sum_same(|r: int| zv(r) * ao(r), f, c.mi);
        }
        multipliers_refute(c, yv, zv, o, v(T::decimal(1, 6)), v(T::decimal(1, 10)));
        lemma_refuted(v(T::decimal(1, 6)), v(T::decimal(1, 10)), spread(o, c.n));
    }
}

proof fn lemma_sum_order(f: spec_fn(int) -> real, g: spec_fn(int) -> real, n: nat)
    requires
        forall|i: int| 0 <= i < n ==> #[trigger] f(i) <= g(i),
    ensures
        sum(f, n) <= sum(g, n),
    decreases n,
{
    if n > 0 {
        lemma_sum_order(f, g, (n - 1) as nat);
        assert(f(n - 1) <= g(n - 1));
    }
}

/// A certificate of the conic engine shows that no feasible point of ordinary size exists: where the
/// normalized multipliers pair with every slack in the cones to a number that is not negative, every point
/// whose slacks lie in the cones is large.
pub proof fn conic_certificate_refutes_the_problem<T: Scalar>(
    v: spec_fn(T) -> real,
    prob: QpProblem<T>,
    acc: Access,
    eq_csr: Option<CscMatrix<T>>,
    in_csr: Option<CscMatrix<T>>,
    it: IterateView<T>,
    o: spec_fn(int) -> real,
)
    requires
        exact(v),
        exact_order(v),
        exact_decimals(v),
        prob.wf(),
        form_fits(acc.eq, eq_csr, prob.a_eq),
        form_fits(acc.ain, in_csr, prob.a_in),
        form_holds(v, acc.eq, eq_csr, prob.a_eq),
        form_holds(v, acc.ain, in_csr, prob.a_in),
        it.y.len() == prob.me(),
        it.z.len() == prob.mi(),
        primal_certificate(prob, acc, eq_csr, in_csr, it),
        forall|i: int|
            0 <= i < prob.me() ==> along(program_of(v, prob).a_eq, o, i, prob.n()) == #[trigger] (program_of(
                v,
                prob,
            ).b_eq)(i),
        inner(
            entries(v, divided(it.z, ray_scale(prob, it))),
            |r: int| along(program_of(v, prob).a_in, o, r, prob.n()),
            prob.mi(),
        ) <= inner(program_of(v, prob).b_in, entries(v, divided(it.z, ray_scale(prob, it))), prob.mi()),
    ensures
        10000real * spread(o, prob.n()) > 1real,
{
    let c = program_of(v, prob);
    let ns = ray_scale(prob, it);
    let (yh, zh) = (divided(it.y, ns), divided(it.z, ns));
    lemma_decimals::<T>(v);
    lemma_certificate(v, prob, (acc.eq, eq_csr), (acc.ain, in_csr), yh, zh);
    multipliers_refute(c, entries(v, yh), entries(v, zh), o, v(T::decimal(1, 6)), v(T::decimal(1, 10)));
    lemma_refuted(v(T::decimal(1, 6)), v(T::decimal(1, 10)), spread(o, c.n));
}

proof fn lemma_largest_upto<T: Scalar>(v: spec_fn(T) -> real, a: Seq<T>, k: nat, i: int)
    requires
        exact(v),
        exact_order(v),
        0 <= i < k,
    ensures
        v(a[i]) <= v(largest_upto(a, k)),
    decreases k,
{
    if i < k - 1 {
        lemma_largest_upto(v, a, (k - 1) as nat, i);
    }
}

/// Unknowns that pass the test of the orthant engine show a direction along which the objective falls.
pub proof fn tested_unknowns_fall<T: Scalar>(
    v: spec_fn(T) -> real,
    prob: QpProblem<T>,
    eq: (Form, Option<CscMatrix<T>>),
    ain: (Form, Option<CscMatrix<T>>),
    it: IterateView<T>,
)
    requires
        exact(v),
        exact_order(v),
        exact_decimals(v),
        prob.wf(),
        form_fits(eq.0, eq.1, prob.a_eq),
        form_fits(ain.0, ain.1, prob.a_in),
        form_holds(v, eq.0, eq.1, prob.a_eq),
        form_holds(v, ain.0, ain.1, prob.a_in),
        it.x.len() == prob.n(),
        qp_dual_test(prob, eq, ain, it),
    ensures
        falls_along(program_of(v, prob), entries(v, divided(it.x, ray_scale(prob, it)))),
{
    let c = program_of(v, prob);
    let ns = ray_scale(prob, it);
    let xh = divided(it.x, ns);
    let d = entries(v, xh);
    lemma_scale(v, prob, it);
    lemma_decimals::<T>(v);
    let t6 = T::decimal(1, 6);
    assert forall|i: int| 0 <= i < c.n implies magnitude(#[trigger] d(i)) <= 1real by {
        norms_are_exact(v, it.x, it.x.len());
        lemma_largest(|i: int| v(it.x[i]), it.x.len(), i);
        lemma_over(v, it.x[i], ns);
        lemma_divided_sign(v(xh[i]), v(ns), v(it.x[i]));
    }
    products_are_exact(v, prob.q@, xh);
    lemma_sum_same(|i: int| v(prob.q@[i]) * v(xh[i]), |i: int| (c.q)(i) * d(i), c.n);
    let (ae, ai) = (times_spec(eq.0, eq.1, prob.a_eq, xh), times_spec(ain.0, ain.1, prob.a_in, xh));
    assert forall|i: int| 0 <= i < c.me implies 1000000real * magnitude(#[trigger] along(c.a_eq, d, i, c.n)) <= 1real by {
        products_are_those_of_the_matrix(v, eq.0, eq.1, prob.a_eq, xh, i);
        lemma_below(v, ae, t6, i);
    }
    assert forall|r: int| 0 <= r < c.mi implies 1000000real * #[trigger] along(c.a_in, d, r, c.n) <= 1real by {
        products_are_those_of_the_matrix(v, ain.0, ain.1, prob.a_in, xh, r);
        lemma_largest_upto(v, ai, ai.len(), r);
    }
    let px = crate::matrix::matvec_spec(prob.p, xh);
    assert forall|i: int| 0 <= i < c.n implies 1000000real * magnitude(#[trigger] along(c.p, d, i, c.n)) <= 1real by {
        products_are_those_of_the_matrix(v, Form::Dense, None, prob.p, xh, i);
        lemma_below(v, px, t6, i);
    }
}

/// A ray of descent shows a direction along which the objective falls.
pub proof fn unbounded_rays_fall<T: Scalar>(v: spec_fn(T) -> real, prob: QpProblem<T>, x: Seq<T>)
    requires
        exact(v),
        exact_order(v),
        exact_decimals(v),
        prob.wf(),
        x.len() == prob.n(),
        unbounded_ray(prob, x),
    ensures
        falls_along(program_of(v, prob), entries(v, ray_of(x))),
        forall|i: int|
            0 <= i < prob.n() ==> #[trigger] along(program_of(v, prob).p, entries(v, ray_of(x)), i, prob.n()) == 0real,
        forall|r: int|
            0 <= r < prob.mi() ==> #[trigger] along(program_of(v, prob).a_in, entries(v, ray_of(x)), r, prob.n()) <= 0real,
{
    let c = program_of(v, prob);
    let dt = ray_of(x);
    let d = entries(v, dt);
    lemma_decimals::<T>(v);
    let norm = inf_norm_spec(x);
    norms_are_exact(v, x, x.len());
    assert(v(norm) > 0real) by {
        reveal_with_fuel(tens, 2);
        crate::exact::lemma_whole(1000000);
        let big = v(T::decimal(1000000, 0));
        assert(big * tens(0) == whole(1000000));
    }
    assert forall|i: int| 0 <= i < c.n implies magnitude(#[trigger] d(i)) <= 1real by {
        lemma_largest(|i: int| v(x[i]), x.len(), i);
        lemma_over(v, x[i], norm);
        lemma_divided_sign(v(x[i].over(norm)), v(norm), v(x[i]));
    }
    products_are_exact(v, prob.q@, dt);
    lemma_sum_same(|i: int| v(prob.q@[i]) * v(dt[i]), |i: int| (c.q)(i) * d(i), c.n);
    let (pd, ed, id) = (
        crate::matrix::matvec_spec(prob.p, dt),
        crate::matrix::matvec_spec(prob.a_eq, dt),
        crate::matrix::matvec_spec(prob.a_in, dt),
    );
    assert forall|i: int| 0 <= i < c.n implies #[trigger] along(c.p, d, i, c.n) == 0real by {
        products_are_those_of_the_matrix(v, Form::Dense, None, prob.p, dt, i);
        lemma_below(v, pd, T::zero(), i);
    }
    assert forall|i: int| 0 <= i < c.me implies 1000000real * magnitude(#[trigger] along(c.a_eq, d, i, c.n)) <= 1real by {
        products_are_those_of_the_matrix(v, Form::Dense, None, prob.a_eq, dt, i);
        lemma_below(v, ed, T::decimal(1, 6), i);
    }
    assert forall|r: int| 0 <= r < c.mi implies #[trigger] along(c.a_in, d, r, c.n) <= 0real by {
        products_are_those_of_the_matrix(v, Form::Dense, None, prob.a_in, dt, r);
        assert(id[r].at_most(T::zero()));
    }
}

/// Unknowns that pass the test of the conic engine show a direction along which the objective falls.
pub proof fn conic_unknowns_fall<T: Scalar>(
    v: spec_fn(T) -> real,
    prob: QpProblem<T>,
    acc: Access,
    eq_csr: Option<CscMatrix<T>>,
    in_csr: Option<CscMatrix<T>>,
    it: IterateView<T>,
)
    requires
        exact(v),
        exact_order(v),
        exact_decimals(v),
        prob.wf(),
        form_fits(acc.eq, eq_csr, prob.a_eq),
        form_fits(acc.ain, in_csr, prob.a_in),
        form_holds(v, acc.eq, eq_csr, prob.a_eq),
        form_holds(v, acc.ain, in_csr, prob.a_in),
        acc.p_diagonal ==> diagonal_matrix(prob.p),
        it.x.len() == prob.n(),
        dual_certificate(prob, acc, eq_csr, in_csr, it),
    ensures
        falls_along(program_of(v, prob), entries(v, divided(it.x, ray_scale(prob, it)))),
{
    let c = program_of(v, prob);
    let ns = ray_scale(prob, it);
    let xh = divided(it.x, ns);
    let d = entries(v, xh);
    lemma_scale(v, prob, it);
    lemma_decimals::<T>(v);
    let t6 = T::decimal(1, 6);
    assert forall|i: int| 0 <= i < c.n implies magnitude(#[trigger] d(i)) <= 1real by {
        norms_are_exact(v, it.x, it.x.len());
        lemma_largest(|i: int| v(it.x[i]), it.x.len(), i);
        lemma_over(v, it.x[i], ns);
        lemma_divided_sign(v(xh[i]), v(ns), v(it.x[i]));
    }
    products_are_exact(v, prob.q@, xh);
    lemma_sum_same(|i: int| v(prob.q@[i]) * v(xh[i]), |i: int| (c.q)(i) * d(i), c.n);
    let (ae, ai) = (times_spec(acc.eq, eq_csr, prob.a_eq, xh), times_spec(acc.ain, in_csr, prob.a_in, xh));
    assert forall|i: int| 0 <= i < c.me implies 1000000real * magnitude(#[trigger] along(c.a_eq, d, i, c.n)) <= 1real by {
        products_are_those_of_the_matrix(v, acc.eq, eq_csr, prob.a_eq, xh, i);
        lemma_below(v, ae, t6, i);
    }
    assert forall|r: int| 0 <= r < c.mi implies 1000000real * #[trigger] along(c.a_in, d, r, c.n) <= 1real by {
        products_are_those_of_the_matrix(v, acc.ain, in_csr, prob.a_in, xh, r);
        lemma_below(v, ai, t6, r);
    }
    let px = hessian_times(prob.p, acc.p_diagonal, xh);
    assert forall|i: int| 0 <= i < c.n implies 1000000real * magnitude(#[trigger] along(c.p, d, i, c.n)) <= 1real by {
        hessian_products_are_those_of_the_matrix(v, prob.p, acc.p_diagonal, xh, i);
        lemma_below(v, px, t6, i);
    }
}

} // verus!
