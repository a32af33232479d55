//! The converged point, where the operations of the numbers are exact: two points that meet the
//! optimality conditions of a strictly convex program are the same, wherever the runs started that
//! reached them.
use crate::conic_step::IterateView;
use crate::exact::{
    lemma_sum_plus, lemma_sum_same, lemma_sum_swap, lemma_sum_times, lemma_sum_zero, sum,
};
use crate::problem::QpProblem;
use crate::product_laws::entries_of;
use crate::scalar::Scalar;
use vstd::prelude::*;

verus! {

/// Row `r` of a matrix times a vector.
pub open spec fn along(a: spec_fn(int, int) -> real, x: spec_fn(int) -> real, r: int, n: nat) -> real {
    sum(|j: int| a(r, j) * x(j), n)
}

/// Column `i` of a matrix times a vector.
pub open spec fn across(a: spec_fn(int, int) -> real, y: spec_fn(int) -> real, i: int, m: nat) -> real {
    sum(|r: int| a(r, i) * y(r), m)
}

/// The inner product.
pub open spec fn inner(x: spec_fn(int) -> real, y: spec_fn(int) -> real, n: nat) -> real {
    sum(|i: int| x(i) * y(i), n)
}

/// The difference of two vectors.
pub open spec fn less(x: spec_fn(int) -> real, y: spec_fn(int) -> real) -> spec_fn(int) -> real {
    |i: int| x(i) - y(i)
}

/// The entries of a vector.
pub open spec fn entries<T>(v: spec_fn(T) -> real, a: Seq<T>) -> spec_fn(int) -> real {
    |i: int| v(a[i])
}

/// The data of a quadratic program as real numbers.
pub ghost struct Program {
    pub n: nat,
    pub me: nat,
    pub mi: nat,
    pub p: spec_fn(int, int) -> real,
    pub q: spec_fn(int) -> real,
    pub a_eq: spec_fn(int, int) -> real,
    pub b_eq: spec_fn(int) -> real,
    pub a_in: spec_fn(int, int) -> real,
    pub b_in: spec_fn(int) -> real,
}

/// The program that the problem stands for.
pub open spec fn program_of<T: Scalar>(v: spec_fn(T) -> real, prob: QpProblem<T>) -> Program {
    Program {
        n: prob.n(),
        me: prob.me(),
        mi: prob.mi(),
        p: entries_of(v, prob.p),
        q: entries(v, prob.q@),
        a_eq: entries_of(v, prob.a_eq),
        b_eq: entries(v, prob.b_eq@),
        a_in: entries_of(v, prob.a_in),
        b_in: entries(v, prob.b_in@),
    }
}

/// An iterate as real numbers.
pub ghost struct Reading {
    pub x: spec_fn(int) -> real,
    pub y: spec_fn(int) -> real,
    pub s: spec_fn(int) -> real,
    pub z: spec_fn(int) -> real,
}

/// The reading of an iterate.
pub open spec fn reading_of<T>(v: spec_fn(T) -> real, it: IterateView<T>) -> Reading {
    Reading { x: entries(v, it.x), y: entries(v, it.y), s: entries(v, it.s), z: entries(v, it.z) }
}

impl Program {
    /// The residual of stationarity, `P x + q + A_eq' y + A_in' z`.
    pub open spec fn dual_residual(self, w: Reading) -> spec_fn(int) -> real {
        |i: int|
            along(self.p, w.x, i, self.n) + (self.q)(i) + across(self.a_eq, w.y, i, self.me) + across(
                self.a_in,
                w.z,
                i,
                self.mi,
            )
    }

    /// The residual of the equality rows, `A_eq x - b_eq`.
    pub open spec fn eq_residual(self, w: Reading) -> spec_fn(int) -> real {
        |r: int| along(self.a_eq, w.x, r, self.n) - (self.b_eq)(r)
    }

    /// The residual of the inequality rows, `A_in x + s - b_in`.
    pub open spec fn in_residual(self, w: Reading) -> spec_fn(int) -> real {
        |r: int| along(self.a_in, w.x, r, self.n) + (w.s)(r) - (self.b_in)(r)
    }

    /// The complementarity gap `s'z`.
    pub open spec fn gap(self, w: Reading) -> real {
        inner(w.s, w.z, self.mi)
    }

    /// `d'P d`.
    pub open spec fn curvature(self, d: spec_fn(int) -> real) -> real {
        inner(d, |i: int| along(self.p, d, i, self.n), self.n)
    }

    /// Slacks and multipliers are not negative.
    pub open spec fn signed(self, w: Reading) -> bool {
        forall|r: int| 0 <= r < self.mi ==> #[trigger] (w.s)(r) >= 0real && (w.z)(r) >= 0real
    }

    /// No direction but zero is flat.
    pub open spec fn strictly_convex(self) -> bool {
        forall|d: spec_fn(int) -> real|
            #[trigger] self.curvature(d) <= 0real ==> forall|i: int| 0 <= i < self.n ==> #[trigger] d(i) == 0real
    }

    /// The point meets the optimality conditions.
    pub open spec fn optimal(self, w: Reading) -> bool {
        &&& self.signed(w)
        &&& self.gap(w) == 0real
        &&& forall|i: int| 0 <= i < self.n ==> #[trigger] (self.dual_residual(w))(i) == 0real
        &&& forall|r: int| 0 <= r < self.me ==> #[trigger] (self.eq_residual(w))(r) == 0real
        &&& forall|r: int| 0 <= r < self.mi ==> #[trigger] (self.in_residual(w))(r) == 0real
    }
}

pub proof fn lemma_sum_less(f: spec_fn(int) -> real, g: spec_fn(int) -> real, n: nat)
    ensures
        sum(less(f, g), n) == sum(f, n) - sum(g, n),
    decreases n,
{
    if n > 0 {
        lemma_sum_less(f, g, (n - 1) as nat);
    }
}

pub proof fn lemma_times_less(a: real, x: real, y: real)
    ensures
        a * (x - y) == a * x - a * y,
{
    assert(a * (x - y) == a * x - a * y) by (nonlinear_arith);
}

proof fn lemma_times_plus(a: real, x: real, y: real)
    ensures
        a * (x + y) == a * x + a * y,
{
    assert(a * (x + y) == a * x + a * y) by (nonlinear_arith);
}

proof fn lemma_order(a: real, b: real, c: real)
    ensures
        a * (b * c) == c * (b * a),
{
    assert(a * (b * c) == c * (b * a)) by (nonlinear_arith);
}

proof fn lemma_along_less(
    a: spec_fn(int, int) -> real,
    x: spec_fn(int) -> real,
    y: spec_fn(int) -> real,
    r: int,
    n: nat,
)
    ensures
        along(a, less(x, y), r, n) == along(a, x, r, n) - along(a, y, r, n),
{
    let f = |j: int| a(r, j) * x(j);
    let g = |j: int| a(r, j) * y(j);
    let h = |j: int| a(r, j) * less(x, y)(j);
    lemma_sum_less(f, g, n);
    assert forall|j: int| 0 <= j < n implies #[trigger] h(j) == less(f, g)(j) by {
        lemma_times_less(a(r, j), x(j), y(j));
    }
    lemma_sum_same(h, less(f, g), n);
}

proof fn lemma_across_less(
    a: spec_fn(int, int) -> real,
    x: spec_fn(int) -> real,
    y: spec_fn(int) -> real,
    i: int,
    m: nat,
)
    ensures
        across(a, less(x, y), i, m) == across(a, x, i, m) - across(a, y, i, m),
{
    let f = |r: int| a(r, i) * x(r);
    let g = |r: int| a(r, i) * y(r);
    let h = |r: int| a(r, i) * less(x, y)(r);
    lemma_sum_less(f, g, m);
    assert forall|r: int| 0 <= r < m implies #[trigger] h(r) == less(f, g)(r) by {
        lemma_times_less(a(r, i), x(r), y(r));
    }
    lemma_sum_same(h, less(f, g), m);
}

/// A matrix may change sides in an inner product.
pub proof fn lemma_transpose(
    a: spec_fn(int, int) -> real,
    d: spec_fn(int) -> real,
    y: spec_fn(int) -> real,
    n: nat,
    m: nat,
)
    ensures
        inner(d, |i: int| across(a, y, i, m), n) == inner(y, |r: int| along(a, d, r, n), m),
{
    let term = |i: int, r: int| d(i) * (a(r, i) * y(r));
    lemma_sum_swap(term, n, m);
    let by_col = |i: int| sum(|r: int| term(i, r), m);
    let lhs = |i: int| d(i) * across(a, y, i, m);
    assert forall|i: int| 0 <= i < n implies #[trigger] lhs(i) == by_col(i) by {
        let f = |r: int| a(r, i) * y(r);
        lemma_sum_times(d(i), f, m);
        lemma_sum_same(|r: int| d(i) * f(r), |r: int| term(i, r), m);
    }
    let lhs2 = |i: int| d(i) * (|i: int| across(a, y, i, m))(i);
    lemma_sum_same(lhs2, lhs, n);
    lemma_sum_same(lhs, by_col, n);
    let by_row = |r: int| sum(|i: int| term(i, r), n);
    let rhs = |r: int| y(r) * along(a, d, r, n);
    assert forall|r: int| 0 <= r < m implies #[trigger] rhs(r) == by_row(r) by {
        let f = |i: int| a(r, i) * d(i);
        lemma_sum_times(y(r), f, n);
        let g = |i: int| y(r) * f(i);
        let h = |i: int| term(i, r);
        assert forall|i: int| 0 <= i < n implies #[trigger] g(i) == h(i) by {
            lemma_order(d(i), a(r, i), y(r));
        }
        lemma_sum_same(g, h, n);
    }
    let rhs2 = |r: int| y(r) * (|r: int| along(a, d, r, n))(r);
    lemma_sum_same(rhs2, rhs, m);
    lemma_sum_same(rhs, by_row, m);
}

proof fn lemma_inner_plus(
    d: spec_fn(int) -> real,
    f: spec_fn(int) -> real,
    g: spec_fn(int) -> real,
    n: nat,
)
    ensures
        inner(d, |i: int| f(i) + g(i), n) == inner(d, f, n) + inner(d, g, n),
{
    let a = |i: int| d(i) * f(i);
    let b = |i: int| d(i) * g(i);
    let c = |i: int| d(i) * (|i: int| f(i) + g(i))(i);
    lemma_sum_plus(a, b, n);
    assert forall|i: int| 0 <= i < n implies #[trigger] c(i) == (|i: int| a(i) + b(i))(i) by {
        lemma_times_plus(d(i), f(i), g(i));
    }
    lemma_sum_same(c, |i: int| a(i) + b(i), n);
}

proof fn lemma_cross(s1: real, s2: real, z1: real, z2: real)
    requires
        s1 >= 0real,
        s2 >= 0real,
        z1 >= 0real,
        z2 >= 0real,
    ensures
        (z1 - z2) * (s1 - s2) <= s1 * z1 + s2 * z2,
{
    lemma_times_less(z1 - z2, s1, s2);
    assert((z1 - z2) * s1 == s1 * z1 - z2 * s1) by (nonlinear_arith);
    assert((z1 - z2) * s2 == z1 * s2 - s2 * z2) by (nonlinear_arith);
    assert(z2 * s1 >= 0real) by (nonlinear_arith)
        requires
            z2 >= 0real,
            s1 >= 0real,
    ;
    assert(z1 * s2 >= 0real) by (nonlinear_arith)
        requires
            z1 >= 0real,
            s2 >= 0real,
    ;
}

proof fn lemma_inner_bound(s1: spec_fn(int) -> real, z1: spec_fn(int) -> real, s2: spec_fn(int) -> real, z2: spec_fn(
    int,
) -> real, m: nat)
    requires
        forall|r: int| 0 <= r < m ==> #[trigger] s1(r) >= 0real && z1(r) >= 0real,
        forall|r: int| 0 <= r < m ==> #[trigger] s2(r) >= 0real && z2(r) >= 0real,
    ensures
        inner(less(z1, z2), less(s1, s2), m) <= inner(s1, z1, m) + inner(s2, z2, m),
    decreases m,
{
    if m > 0 {
        let k = (m - 1) as nat;
        lemma_inner_bound(s1, z1, s2, z2, k);
        assert(s1(k as int) >= 0real && s2(k as int) >= 0real);
        lemma_cross(s1(k as int), s2(k as int), z1(k as int), z2(k as int));
    }
}

/// How far two points of a program are apart: the curvature of their difference is at most what their
/// residuals and their gaps account for. A run that starts elsewhere reaches the same point, up to the
/// residuals that both runs were stopped at.
pub proof fn points_differ_by_their_residuals(c: Program, a: Reading, b: Reading)
    requires
        c.signed(a),
        c.signed(b),
    ensures
        c.curvature(less(a.x, b.x)) <= inner(less(a.x, b.x), less(c.dual_residual(a), c.dual_residual(b)), c.n) - inner(
            less(a.y, b.y),
            less(c.eq_residual(a), c.eq_residual(b)),
            c.me,
        ) - inner(less(a.z, b.z), less(c.in_residual(a), c.in_residual(b)), c.mi) + c.gap(a) + c.gap(b),
{
    let (dx, dy, dz, ds) = (less(a.x, b.x), less(a.y, b.y), less(a.z, b.z), less(a.s, b.s));
    let (n, me, mi) = (c.n, c.me, c.mi);
    let rd = less(c.dual_residual(a), c.dual_residual(b));
    let rb = less(c.eq_residual(a), c.eq_residual(b));
    let rh = less(c.in_residual(a), c.in_residual(b));
    let px = |i: int| along(c.p, dx, i, n);
    let ety = |i: int| across(c.a_eq, dy, i, me);
    let itz = |i: int| across(c.a_in, dz, i, mi);
    let ex = |r: int| along(c.a_eq, dx, r, n);
    let ix = |r: int| along(c.a_in, dx, r, n);
    // The difference of the stationarity residuals.
    let pe = |i: int| px(i) + ety(i);
    let pei = |i: int| pe(i) + itz(i);
    assert forall|i: int| 0 <= i < n implies #[trigger] rd(i) == pei(i) by {
        lemma_along_less(c.p, a.x, b.x, i, n);
        lemma_across_less(c.a_eq, a.y, b.y, i, me);
        lemma_across_less(c.a_in, a.z, b.z, i, mi);
    }
    lemma_inner_same(dx, rd, pei, n);
    lemma_inner_plus(dx, pe, itz, n);
    lemma_inner_plus(dx, px, ety, n);
    lemma_transpose(c.a_eq, dx, dy, n, me);
    lemma_transpose(c.a_in, dx, dz, n, mi);
    // Those of the rows.
    assert forall|r: int| 0 <= r < me implies #[trigger] rb(r) == ex(r) by {
        lemma_along_less(c.a_eq, a.x, b.x, r, n);
    }
    lemma_inner_same(dy, rb, ex, me);
    let is = |r: int| ix(r) + ds(r);
    assert forall|r: int| 0 <= r < mi implies #[trigger] rh(r) == is(r) by {
        lemma_along_less(c.a_in, a.x, b.x, r, n);
    }
    lemma_inner_same(dz, rh, is, mi);
    lemma_inner_plus(dz, ix, ds, mi);
    lemma_inner_bound(a.s, a.z, b.s, b.z, mi);
}

proof fn lemma_inner_same(d: spec_fn(int) -> real, f: spec_fn(int) -> real, g: spec_fn(int) -> real, n: nat)
    requires
        forall|i: int| 0 <= i < n ==> #[trigger] f(i) == g(i),
    ensures
        inner(d, f, n) == inner(d, g, n),
{
    let a = |i: int| d(i) * f(i);
    let b = |i: int| d(i) * g(i);
    assert forall|i: int| 0 <= i < n implies #[trigger] a(i) == b(i) by {
        assert(f(i) == g(i));
    }
    lemma_sum_same(a, b, n);
}

proof fn lemma_inner_zero(d: spec_fn(int) -> real, f: spec_fn(int) -> real, n: nat)
    requires
        forall|i: int| 0 <= i < n ==> #[trigger] f(i) == 0real,
    ensures
        inner(d, f, n) == 0real,
{
    let a = |i: int| d(i) * f(i);
    assert forall|i: int| 0 <= i < n implies #[trigger] a(i) == 0real by {
        let (x, y) = (d(i), f(i));
        assert(y == 0real);
        assert(x * 0real == 0real) by (nonlinear_arith);
    }
    lemma_sum_zero(a, n);
}

/// A warm start changes the speed of a run and never the point that it converges to: two iterates that
/// meet the optimality conditions of a strictly convex problem have the same unknowns.
pub proof fn converged_points_agree<T: Scalar>(
    v: spec_fn(T) -> real,
    prob: QpProblem<T>,
    warm: IterateView<T>,
    cold: IterateView<T>,
)
    requires
        program_of(v, prob).strictly_convex(),
        program_of(v, prob).optimal(reading_of(v, warm)),
        program_of(v, prob).optimal(reading_of(v, cold)),
    ensures
        forall|i: int| 0 <= i < prob.n() ==> v(#[trigger] warm.x[i]) == v(cold.x[i]),
{
    let c = program_of(v, prob);
    let (a, b) = (reading_of(v, warm), reading_of(v, cold));
    points_differ_by_their_residuals(c, a, b);
    let rd = less(c.dual_residual(a), c.dual_residual(b));
    let rb = less(c.eq_residual(a), c.eq_residual(b));
    let rh = less(c.in_residual(a), c.in_residual(b));
    assert forall|i: int| 0 <= i < c.n implies #[trigger] rd(i) == 0real by {
        assert((c.dual_residual(a))(i) == 0real && (c.dual_residual(b))(i) == 0real);
    }
    assert forall|i: int| 0 <= i < c.me implies #[trigger] rb(i) == 0real by {
        assert((c.eq_residual(a))(i) == 0real && (c.eq_residual(b))(i) == 0real);
    }
    assert forall|i: int| 0 <= i < c.mi implies #[trigger] rh(i) == 0real by {
        assert((c.in_residual(a))(i) == 0real && (c.in_residual(b))(i) == 0real);
    }
    lemma_inner_zero(less(a.x, b.x), rd, c.n);
    lemma_inner_zero(less(a.y, b.y), rb, c.me);
    lemma_inner_zero(less(a.z, b.z), rh, c.mi);
    let d = less(a.x, b.x);
    assert(c.curvature(d) <= 0real);
    assert forall|i: int| 0 <= i < prob.n() implies v(#[trigger] warm.x[i]) == v(cold.x[i]) by {
        assert(d(i) == 0real);
    }
}

} // verus!
