//! What a run reports as solved, where the operations of the numbers are exact: the reported point
//! satisfies the rows of the problem, stated with the problem's own matrices and right-hand sides.
use crate::conic_step::{dual_residual, equality_residual, inequality_residual, IterateView, Terms};
use crate::exact::{
    exact, exact_counts, exact_order, largest, lemma_largest, lemma_largest_same, lemma_largest_sign, lemma_over,
    lemma_sum_same, lemma_sum_times, magnitude, norms_are_exact, products_are_exact, sum, whole,
};
use crate::lowrank::objective;
use crate::lowrank_laws::{lemma_across_same, lemma_along_same, reading_of_solution};
use crate::matrix::matvec_spec;
use crate::optimum_laws::{across, along, entries, inner, program_of, reading_of, Program, Reading};
use crate::problem::QpProblem;
use crate::product_laws::{entries_of, hold_rows, products_are_those_of_the_matrix};
use crate::products::Form;
use crate::scalar::Scalar;
use crate::separable_laws::twice_objective;
use crate::vector::{dot_spec, inf_norm_spec};
use vstd::prelude::*;

verus! {

/// The larger of two real numbers.
pub open spec fn larger(a: real, b: real) -> real {
    if a < b {
        b
    } else {
        a
    }
}

/// The rows of a matrix times a vector.
pub open spec fn image(a: spec_fn(int, int) -> real, x: spec_fn(int) -> real, n: nat) -> spec_fn(int) -> real {
    |i: int| along(a, x, i, n)
}

/// The columns of a matrix times a vector.
pub open spec fn coimage(a: spec_fn(int, int) -> real, y: spec_fn(int) -> real, m: nat) -> spec_fn(int) -> real {
    |i: int| across(a, y, i, m)
}

/// The size of what the stationarity row adds up. The equality multipliers count where `with_y` is set.
pub open spec fn dual_size(c: Program, w: Reading, with_y: bool) -> real {
    let px = larger(largest(image(c.p, w.x, c.n), c.n), largest(c.q, c.n));
    let pxy = if with_y {
        larger(px, largest(coimage(c.a_eq, w.y, c.me), c.n))
    } else {
        px
    };
    larger(pxy, largest(coimage(c.a_in, w.z, c.mi), c.n))
}

/// Every row of the problem holds at the point, up to `eps` times the size of what the row adds up: the
/// equality rows `A_eq x = b_eq`, the inequality rows `A_in x + s = b_in`, and stationarity
/// `P x + q + A_eq' y + A_in' z = 0`.
pub open spec fn solved_within(c: Program, w: Reading, eps: real, with_y: bool) -> bool {
    &&& forall|i: int|
        0 <= i < c.me ==> magnitude(along(c.a_eq, w.x, i, c.n) - #[trigger] (c.b_eq)(i)) <= eps * (1real + larger(
            largest(image(c.a_eq, w.x, c.n), c.me),
            largest(c.b_eq, c.me),
        ))
    &&& forall|i: int|
        0 <= i < c.mi ==> magnitude(along(c.a_in, w.x, i, c.n) + (w.s)(i) - #[trigger] (c.b_in)(i)) <= eps * (1real
            + larger(
            larger(largest(image(c.a_in, w.x, c.n), c.mi), largest(w.s, c.mi)),
            largest(c.b_in, c.mi),
        ))
    &&& forall|i: int|
        0 <= i < c.n ==> magnitude(
            along(c.p, w.x, i, c.n) + #[trigger] (c.q)(i) + across(c.a_eq, w.y, i, c.me) + across(c.a_in, w.z, i, c.mi),
        ) <= eps * (1real + dual_size(c, w, with_y))
}

/// The reading is exact, the tolerance is finite, and sparse rows that come with the problem hold its
/// matrices.
pub open spec fn reads_problem<T: Scalar>(v: spec_fn(T) -> real, prob: QpProblem<T>, eps: T) -> bool {
    &&& exact(v)
    &&& exact_order(v)
    &&& exact_counts(v)
    &&& v(eps) < v(T::infinity())
    &&& prob.a_eq_csr matches Some(g) ==> hold_rows(v, g, prob.a_eq)
    &&& prob.a_in_csr matches Some(g) ==> hold_rows(v, g, prob.a_in)
}

/// The terms are the products of the problem's matrices with the iterate.
pub open spec fn true_terms<T: Scalar>(v: spec_fn(T) -> real, prob: QpProblem<T>, it: IterateView<T>, t: Terms<T>) -> bool {
    let c = program_of(v, prob);
    let w = reading_of(v, it);
    &&& t.px@.len() == c.n && t.aty@.len() == c.n && t.atz@.len() == c.n
    &&& t.aeqx@.len() == c.me && t.ainx@.len() == c.mi && it.s.len() == c.mi
    &&& forall|i: int| 0 <= i < c.n ==> v(#[trigger] t.px@[i]) == along(c.p, w.x, i, c.n)
    &&& forall|i: int| 0 <= i < c.n ==> v(#[trigger] t.aty@[i]) == across(c.a_eq, w.y, i, c.me)
    &&& forall|i: int| 0 <= i < c.n ==> v(#[trigger] t.atz@[i]) == across(c.a_in, w.z, i, c.mi)
    &&& forall|i: int| 0 <= i < c.me ==> v(#[trigger] t.aeqx@[i]) == along(c.a_eq, w.x, i, c.n)
    &&& forall|i: int| 0 <= i < c.mi ==> v(#[trigger] t.ainx@[i]) == along(c.a_in, w.x, i, c.n)
}

/// A residual whose norm is small relative to a size is small in every row.
proof fn lemma_row_within<T: Scalar>(v: spec_fn(T) -> real, r: Seq<T>, scale: T, eps: T, i: int)
    requires
        exact(v),
        exact_order(v),
        v(scale) >= 0real,
        inf_norm_spec(r).over(T::one().plus(scale)).at_most(eps),
        0 <= i < r.len(),
    ensures
        magnitude(v(r[i])) <= v(eps) * (1real + v(scale)),
{
    let d = T::one().plus(scale);
    let f = |i: int| v(r[i]);
    norms_are_exact(v, r, r.len());
    lemma_largest(f, r.len(), i);
    lemma_over(v, inf_norm_spec(r), d);
    let (q, k, e) = (v(inf_norm_spec(r).over(d)), v(d), v(eps));
    assert(q * k <= e * k) by (nonlinear_arith)
        requires
            q <= e,
            k > 0real,
    ;
}

/// The norm of a vector that reads as `f`.
proof fn lemma_norm<T: Scalar>(v: spec_fn(T) -> real, a: Seq<T>, f: spec_fn(int) -> real)
    requires
        exact(v),
        exact_order(v),
        forall|i: int| 0 <= i < a.len() ==> v(#[trigger] a[i]) == f(i),
    ensures
        v(inf_norm_spec(a)) == largest(f, a.len()),
        v(inf_norm_spec(a)) >= 0real,
{
    let g = |i: int| v(a[i]);
    norms_are_exact(v, a, a.len());
    assert forall|i: int| 0 <= i < a.len() implies #[trigger] g(i) == f(i) by {
        assert(v(a[i]) == f(i));
    }
    lemma_largest_same(g, f, a.len());
    lemma_largest_sign(f, a.len());
}

/// Residuals that are small relative to the size of their terms are small in the rows of the problem.
pub proof fn small_residuals_solve_the_rows<T: Scalar>(
    v: spec_fn(T) -> real,
    prob: QpProblem<T>,
    it: IterateView<T>,
    t: Terms<T>,
    eps: T,
    with_y: bool,
)
    requires
        exact(v),
        exact_order(v),
        true_terms(v, prob, it, t),
        inf_norm_spec(equality_residual(prob, t)).over(
            T::one().plus(inf_norm_spec(t.aeqx@).max(inf_norm_spec(prob.b_eq@))),
        ).at_most(eps),
        inf_norm_spec(inequality_residual(prob, t, it.s)).over(
            T::one().plus(
                inf_norm_spec(t.ainx@).max(inf_norm_spec(it.s)).max(inf_norm_spec(prob.b_in@)),
            ),
        ).at_most(eps),
        with_y ==> inf_norm_spec(dual_residual(prob, t)).over(
            T::one().plus(
                inf_norm_spec(t.px@).max(inf_norm_spec(prob.q@)).max(inf_norm_spec(t.aty@)).max(
                    inf_norm_spec(t.atz@),
                ),
            ),
        ).at_most(eps),
        !with_y ==> inf_norm_spec(dual_residual(prob, t)).over(
            T::one().plus(inf_norm_spec(t.px@).max(inf_norm_spec(prob.q@)).max(inf_norm_spec(t.atz@))),
        ).at_most(eps),
    ensures
        solved_within(program_of(v, prob), reading_of(v, it), v(eps), with_y),
{
    let c = program_of(v, prob);
    let w = reading_of(v, it);
    lemma_norm(v, t.aeqx@, image(c.a_eq, w.x, c.n));
    lemma_norm(v, prob.b_eq@, c.b_eq);
    lemma_norm(v, t.ainx@, image(c.a_in, w.x, c.n));
    lemma_norm(v, it.s, w.s);
    lemma_norm(v, prob.b_in@, c.b_in);
    lemma_norm(v, t.px@, image(c.p, w.x, c.n));
    lemma_norm(v, prob.q@, c.q);
    lemma_norm(v, t.aty@, coimage(c.a_eq, w.y, c.me));
    lemma_norm(v, t.atz@, coimage(c.a_in, w.z, c.mi));
    let (re, ri, rd) = (equality_residual(prob, t), inequality_residual(prob, t, it.s), dual_residual(prob, t));
    let se = inf_norm_spec(t.aeqx@).max(inf_norm_spec(prob.b_eq@));
    let si = inf_norm_spec(t.ainx@).max(inf_norm_spec(it.s)).max(inf_norm_spec(prob.b_in@));
    let sd = if with_y {
        inf_norm_spec(t.px@).max(inf_norm_spec(prob.q@)).max(inf_norm_spec(t.aty@)).max(inf_norm_spec(t.atz@))
    } else {
        inf_norm_spec(t.px@).max(inf_norm_spec(prob.q@)).max(inf_norm_spec(t.atz@))
    };
    assert forall|i: int| 0 <= i < c.me implies magnitude(along(c.a_eq, w.x, i, c.n) - #[trigger] (c.b_eq)(i)) <= v(eps)
        * (1real + larger(largest(image(c.a_eq, w.x, c.n), c.me), largest(c.b_eq, c.me))) by {
        lemma_row_within(v, re, se, eps, i);
        assert(v(re[i]) == v(t.aeqx@[i]) - v(prob.b_eq@[i]));
    }
    assert forall|i: int| 0 <= i < c.mi implies magnitude(
        along(c.a_in, w.x, i, c.n) + (w.s)(i) - #[trigger] (c.b_in)(i),
    ) <= v(eps) * (1real + larger(
        larger(largest(image(c.a_in, w.x, c.n), c.mi), largest(w.s, c.mi)),
        largest(c.b_in, c.mi),
    )) by {
        lemma_row_within(v, ri, si, eps, i);
        assert(v(ri[i]) == v(t.ainx@[i]) + v(it.s[i]) - v(prob.b_in@[i]));
    }
    assert(v(sd) == dual_size(c, w, with_y));
    assert forall|i: int| 0 <= i < c.n implies magnitude(
        along(c.p, w.x, i, c.n) + #[trigger] (c.q)(i) + across(c.a_eq, w.y, i, c.me) + across(c.a_in, w.z, i, c.mi),
    ) <= v(eps) * (1real + dual_size(c, w, with_y)) by {
        lemma_row_within(v, rd, sd, eps, i);
        assert(v(rd[i]) == v(t.px@[i]) + v(prob.q@[i]) + v(t.aty@[i]) + v(t.atz@[i]));
    }
}

/// Two readings agree in all that a program reads of them.
pub open spec fn same_readings(c: Program, a: Reading, b: Reading) -> bool {
    &&& forall|i: int| 0 <= i < c.n ==> #[trigger] (a.x)(i) == (b.x)(i)
    &&& forall|i: int| 0 <= i < c.me ==> #[trigger] (a.y)(i) == (b.y)(i)
    &&& forall|i: int| 0 <= i < c.mi ==> #[trigger] (a.s)(i) == (b.s)(i)
    &&& forall|i: int| 0 <= i < c.mi ==> #[trigger] (a.z)(i) == (b.z)(i)
}

proof fn lemma_image_same(
    a: spec_fn(int, int) -> real,
    x: spec_fn(int) -> real,
    y: spec_fn(int) -> real,
    n: nat,
    m: nat,
)
    requires
        forall|j: int| 0 <= j < n ==> #[trigger] x(j) == y(j),
    ensures
        forall|i: int| #[trigger] along(a, x, i, n) == along(a, y, i, n),
        largest(image(a, x, n), m) == largest(image(a, y, n), m),
{
    assert forall|i: int| #[trigger] along(a, x, i, n) == along(a, y, i, n) by {
        lemma_along_same(a, x, y, i, n);
    }
    let (f, g) = (image(a, x, n), image(a, y, n));
    assert forall|i: int| 0 <= i < m implies #[trigger] f(i) == g(i) by {
        assert(along(a, x, i, n) == along(a, y, i, n));
    }
    lemma_largest_same(f, g, m);
}

proof fn lemma_coimage_same(
    a: spec_fn(int, int) -> real,
    x: spec_fn(int) -> real,
    y: spec_fn(int) -> real,
    m: nat,
    n: nat,
)
    requires
        forall|j: int| 0 <= j < m ==> #[trigger] x(j) == y(j),
    ensures
        forall|i: int| #[trigger] across(a, x, i, m) == across(a, y, i, m),
        largest(coimage(a, x, m), n) == largest(coimage(a, y, m), n),
{
    assert forall|i: int| #[trigger] across(a, x, i, m) == across(a, y, i, m) by {
        lemma_across_same(a, x, y, i, m);
    }
    let (f, g) = (coimage(a, x, m), coimage(a, y, m));
    assert forall|i: int| 0 <= i < n implies #[trigger] f(i) == g(i) by {
        assert(across(a, x, i, m) == across(a, y, i, m));
    }
    lemma_largest_same(f, g, n);
}

/// What holds at a point holds at any reading of it.
pub proof fn lemma_same_solved(c: Program, a: Reading, b: Reading, eps: real, with_y: bool)
    requires
        same_readings(c, a, b),
        solved_within(c, a, eps, with_y),
    ensures
        solved_within(c, b, eps, with_y),
        inner(a.s, a.z, c.mi) == inner(b.s, b.z, c.mi),
        twice_objective(c, a.x) == twice_objective(c, b.x),
{
    lemma_image_same(c.a_eq, a.x, b.x, c.n, c.me);
    lemma_image_same(c.a_in, a.x, b.x, c.n, c.mi);
    lemma_image_same(c.p, a.x, b.x, c.n, c.n);
    lemma_coimage_same(c.a_eq, a.y, b.y, c.me, c.n);
    lemma_coimage_same(c.a_in, a.z, b.z, c.mi, c.n);
    lemma_largest_same(a.s, b.s, c.mi);
    assert forall|i: int| 0 <= i < c.me implies magnitude(along(c.a_eq, b.x, i, c.n) - #[trigger] (c.b_eq)(i)) <= eps
        * (1real + larger(largest(image(c.a_eq, b.x, c.n), c.me), largest(c.b_eq, c.me))) by {
        assert(along(c.a_eq, a.x, i, c.n) == along(c.a_eq, b.x, i, c.n));
    }
    assert forall|i: int| 0 <= i < c.mi implies magnitude(
        along(c.a_in, b.x, i, c.n) + (b.s)(i) - #[trigger] (c.b_in)(i),
    ) <= eps * (1real + larger(
        larger(largest(image(c.a_in, b.x, c.n), c.mi), largest(b.s, c.mi)),
        largest(c.b_in, c.mi),
    )) by {
        assert(along(c.a_in, a.x, i, c.n) == along(c.a_in, b.x, i, c.n));
        assert((a.s)(i) == (b.s)(i));
    }
    assert forall|i: int| 0 <= i < c.n implies magnitude(
        along(c.p, b.x, i, c.n) + #[trigger] (c.q)(i) + across(c.a_eq, b.y, i, c.me) + across(c.a_in, b.z, i, c.mi),
    ) <= eps * (1real + dual_size(c, b, with_y)) by {
        assert(along(c.p, a.x, i, c.n) == along(c.p, b.x, i, c.n));
        assert(across(c.a_eq, a.y, i, c.me) == across(c.a_eq, b.y, i, c.me));
        assert(across(c.a_in, a.z, i, c.mi) == across(c.a_in, b.z, i, c.mi));
    }
    let f = |i: int| (a.s)(i) * (a.z)(i);
    let g = |i: int| (b.s)(i) * (b.z)(i);
    assert forall|i: int| 0 <= i < c.mi implies #[trigger] f(i) == g(i) by {
        assert((a.s)(i) == (b.s)(i) && (a.z)(i) == (b.z)(i));
    }
    lemma_sum_same(f, g, c.mi);
    let p = |i: int| (a.x)(i) * along(c.p, a.x, i, c.n);
    let q = |i: int| (b.x)(i) * along(c.p, b.x, i, c.n);
    assert forall|i: int| 0 <= i < c.n implies #[trigger] p(i) == q(i) by {
        assert((a.x)(i) == (b.x)(i));
        assert(along(c.p, a.x, i, c.n) == along(c.p, b.x, i, c.n));
    }
    lemma_sum_same(p, q, c.n);
    let pa = |i: int| (a.x)(i) * (|i: int| along(c.p, a.x, i, c.n))(i);
    let pb = |i: int| (b.x)(i) * (|i: int| along(c.p, b.x, i, c.n))(i);
    lemma_sum_same(pa, p, c.n);
    lemma_sum_same(pb, q, c.n);
    let r = |i: int| (c.q)(i) * (a.x)(i);
    let s = |i: int| (c.q)(i) * (b.x)(i);
    assert forall|i: int| 0 <= i < c.n implies #[trigger] r(i) == s(i) by {
        assert((a.x)(i) == (b.x)(i));
    }
    lemma_sum_same(r, s, c.n);
}

/// The objective that is reported, doubled, is that of the point in the problem's own matrices.
pub proof fn reported_objective_is_that_of_the_point<T: Scalar>(v: spec_fn(T) -> real, prob: QpProblem<T>, x: Seq<T>)
    requires
        exact(v),
        prob.wf(),
        x.len() == prob.n(),
    ensures
        v(objective(prob, x)) + v(objective(prob, x)) == twice_objective(program_of(v, prob), entries(v, x)),
{
    let c = program_of(v, prob);
    let xv = entries(v, x);
    let px = matvec_spec(prob.p, x);
    products_are_exact(v, x, px);
    products_are_exact(v, prob.q@, x);
    let f = |i: int| v(x[i]) * v(px[i]);
    let g = |i: int| xv(i) * (|i: int| along(c.p, xv, i, c.n))(i);
    assert forall|i: int| 0 <= i < c.n implies #[trigger] f(i) == g(i) by {
        products_are_those_of_the_matrix(v, Form::Dense, None, prob.p, x, i);
    }
    lemma_sum_same(f, g, c.n);
    lemma_sum_same(|i: int| v(prob.q@[i]) * v(x[i]), |i: int| (c.q)(i) * xv(i), c.n);
    let (h, k) = (v(T::decimal(5, 1)), sum(g, c.n));
    assert(h * k + h * k == (h * 2real) * k) by (nonlinear_arith);
    assert(1real * k == k) by (nonlinear_arith);
}

} // verus!
