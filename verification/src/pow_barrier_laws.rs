//! The barrier of the generalized power cone, where the operations of the numbers are exact: it is
//! logarithmically homogeneous, and so are its gradient and its Hessian.
use crate::exact::{
    exact, exact_order, inv, lemma_cancel, lemma_inv, lemma_over, lemma_sum_plus, lemma_sum_same, lemma_sum_single,
    lemma_sum_split, lemma_sum_times, lemma_sum_zero, sum, whole,
};
use crate::genpow::{
    barrier_upto, gradient_at, hessian_at, phi_curvature, phi_of, phi_slope, product_upto, squares_upto,
};
use crate::pow_laws::{
    bases, bases_above, behind, exact_powers, exponential, lemma_logarithm, lemma_phi, lemma_powers, lemma_squares,
    pow_excess, powers, weights,
};
use crate::scalar::Scalar;
use vstd::prelude::*;

verus! {

/// The point lies inside the power cone.
pub open spec fn inside<T: Scalar>(
    v: spec_fn(T) -> real,
    e: spec_fn(real) -> real,
    l: spec_fn(real) -> real,
    s: Seq<T>,
    alpha: Seq<T>,
) -> bool {
    &&& alpha.len() <= s.len()
    &&& weights(bases(v, alpha), alpha.len())
    &&& bases_above(v, s, alpha.len(), 0real)
    &&& pow_excess(v, e, l, s, alpha) > 0real
}

/// The weighted logarithms of the bases that the barrier takes off.
pub open spec fn log_terms<T: Scalar>(
    v: spec_fn(T) -> real,
    l: spec_fn(real) -> real,
    s: Seq<T>,
    alpha: Seq<T>,
) -> spec_fn(int) -> real {
    |i: int| (1real - v(alpha[i])) * l(v(s[i]))
}

/// The barrier is `-log(phi) - sum (1 - alpha_i) log(x_i)`, `phi` what the squared product of the bases leaves
/// over the squared norm behind them.
pub proof fn lemma_barrier_value<T: Scalar>(
    v: spec_fn(T) -> real,
    e: spec_fn(real) -> real,
    l: spec_fn(real) -> real,
    s: Seq<T>,
    alpha: Seq<T>,
    k: nat,
)
    requires
        exact(v),
        exact_powers(v, e, l),
        inside(v, e, l, s, alpha),
        k <= alpha.len(),
    ensures
        v(barrier_upto(s, alpha, k)) == -l(pow_excess(v, e, l, s, alpha)) - sum(log_terms(v, l, s, alpha), k),
    decreases k,
{
    if k == 0 {
        lemma_phi(v, e, l, s, alpha);
    } else {
        lemma_barrier_value(v, e, l, s, alpha, (k - 1) as nat);
        assert(bases(v, s)(k - 1) > 0real);
    }
}

proof fn lemma_products(a: real, b: real, c: real)
    ensures
        a * (b + c) == a * b + a * c,
        (b + c) * a == b * a + c * a,
        (b - c) * a == b * a - c * a,
        a * b == b * a,
        1real * a == a,
        a * 1real == a,
        0real * a == 0real,
{
    assert(a * (b + c) == a * b + a * c) by (nonlinear_arith);
    assert((b + c) * a == b * a + c * a) by (nonlinear_arith);
    assert((b - c) * a == b * a - c * a) by (nonlinear_arith);
    assert(a * b == b * a) by (nonlinear_arith);
    assert(1real * a == a) by (nonlinear_arith);
    assert(a * 1real == a) by (nonlinear_arith);
    assert(0real * a == 0real) by (nonlinear_arith);
}

proof fn lemma_ones(n: nat)
    ensures
        sum(|i: int| 1real, n) == whole(n),
    decreases n,
{
    if n > 0 {
        lemma_ones((n - 1) as nat);
    }
}

/// The second point is the first one, stretched by `t`.
pub open spec fn stretched<T: Scalar>(v: spec_fn(T) -> real, s: Seq<T>, r: Seq<T>, t: real) -> bool {
    r.len() == s.len() && forall|i: int| 0 <= i < s.len() ==> v(#[trigger] r[i]) == t * v(s[i])
}

/// The excess of a stretched point is that of the point, stretched twice.
proof fn lemma_excess_stretched<T: Scalar>(
    v: spec_fn(T) -> real,
    e: spec_fn(real) -> real,
    l: spec_fn(real) -> real,
    s: Seq<T>,
    r: Seq<T>,
    alpha: Seq<T>,
    t: real,
)
    requires
        exponential(e, l),
        inside(v, e, l, s, alpha),
        stretched(v, s, r, t),
        t > 0real,
    ensures
        bases_above(v, r, alpha.len(), 0real),
        pow_excess(v, e, l, r, alpha) == (t * t) * pow_excess(v, e, l, s, alpha),
{
    let n = alpha.len();
    let m = (s.len() - n) as nat;
    let (x, y, a) = (bases(v, s), bases(v, r), bases(v, alpha));
    assert forall|i: int| 0 <= i < n implies #[trigger] bases(v, r)(i) > 0real by {
        assert(bases(v, s)(i) > 0real);
        assert(v(r[i]) == t * v(s[i]));
        lemma_logarithm(e, l, t, v(s[i]));
    }
    let f = |i: int| a(i) * l(x(i));
    let g = |i: int| a(i) * l(y(i));
    let h = |i: int| l(t) * a(i);
    assert forall|i: int| 0 <= i < n implies #[trigger] g(i) == f(i) + h(i) by {
        assert(bases(v, s)(i) > 0real);
        assert(v(r[i]) == t * v(s[i]));
        lemma_logarithm(e, l, t, v(s[i]));
        lemma_products(a(i), l(t), l(x(i)));
    }
    lemma_sum_same(g, |i: int| f(i) + h(i), n);
    lemma_sum_plus(f, h, n);
    lemma_sum_times(l(t), a, n);
    lemma_products(l(t), 0real, 0real);
    lemma_powers(e, l, x, a, n);
    lemma_powers(e, l, y, a, n);
    assert(e(sum(f, n) + l(t)) == e(sum(f, n)) * e(l(t)));
    assert(e(l(t)) == t);
    let p = powers(e, l, x, a, n);
    assert((p * t) * (p * t) == (t * t) * (p * p)) by (nonlinear_arith);
    let (z, w) = (behind(v, s, n), behind(v, r, n));
    let zz = |j: int| z(j) * z(j);
    let ww = |j: int| w(j) * w(j);
    let tt = t * t;
    assert forall|j: int| 0 <= j < m implies #[trigger] ww(j) == tt * zz(j) by {
        assert(v(r[n + j]) == t * v(s[n + j]));
        let q = z(j);
        assert((t * q) * (t * q) == (t * t) * (q * q)) by (nonlinear_arith);
    }
    lemma_sum_same(ww, |j: int| tt * zz(j), m);
    lemma_sum_times(tt, zz, m);
    let (b, c) = (p * p, sum(zz, m));
    assert(tt * b - tt * c == tt * (b - c)) by (nonlinear_arith);
}

/// The barrier is logarithmically homogeneous: a point stretched by `t` has the barrier of the point less
/// `n + 1` times the logarithm of `t`.
pub proof fn barrier_is_logarithmically_homogeneous<T: Scalar>(
    v: spec_fn(T) -> real,
    e: spec_fn(real) -> real,
    l: spec_fn(real) -> real,
    s: Seq<T>,
    r: Seq<T>,
    alpha: Seq<T>,
    t: real,
)
    requires
        exact(v),
        exact_powers(v, e, l),
        inside(v, e, l, s, alpha),
        stretched(v, s, r, t),
        t > 0real,
    ensures
        v(barrier_upto(r, alpha, alpha.len())) == v(barrier_upto(s, alpha, alpha.len())) - (whole(alpha.len()) + 1real)
            * l(t),
{
    let n = alpha.len();
    let a = bases(v, alpha);
    lemma_excess_stretched(v, e, l, s, r, alpha, t);
    let k = pow_excess(v, e, l, s, alpha);
    lemma_logarithm(e, l, t, t);
    lemma_logarithm(e, l, t * t, k);
    assert(inside(v, e, l, r, alpha));
    lemma_barrier_value(v, e, l, s, alpha, n);
    lemma_barrier_value(v, e, l, r, alpha, n);
    let (f, g) = (log_terms(v, l, s, alpha), log_terms(v, l, r, alpha));
    let one = |i: int| 1real;
    let lo = |i: int| l(t) * one(i);
    let la = |i: int| -l(t) * a(i);
    let both = |i: int| lo(i) + la(i);
    assert forall|i: int| 0 <= i < n implies #[trigger] g(i) == f(i) + both(i) by {
        assert(bases(v, s)(i) > 0real);
        assert(v(r[i]) == t * v(s[i]));
        lemma_logarithm(e, l, t, v(s[i]));
        lemma_products(1real - a(i), l(t), l(v(s[i])));
        let (x, y) = (a(i), l(t));
        assert((1real - x) * y == y * 1real + -y * x) by (nonlinear_arith);
    }
    lemma_sum_same(g, |i: int| f(i) + both(i), n);
    lemma_sum_plus(f, both, n);
    lemma_sum_plus(lo, la, n);
    lemma_sum_times(l(t), one, n);
    lemma_sum_times(-l(t), a, n);
    lemma_ones(n);
    assert(sum(one, n) == whole(n)) by {
        lemma_sum_same(one, |i: int| 1real, n);
    }
    let (y, c) = (l(t), whole(n));
    assert((c + 1real) * y == y * c + y) by (nonlinear_arith);
    assert(-y * 1real == -y) by (nonlinear_arith);
}

/// The readings of what the gradient is made of: the squared product of the bases, and the slopes.
proof fn lemma_slope<T: Scalar>(v: spec_fn(T) -> real, s: Seq<T>, alpha: Seq<T>, a: int)
    requires
        exact(v),
        0 <= a < s.len(),
        bases_above(v, s, alpha.len(), 0real),
    ensures
        a < alpha.len() ==> v(phi_slope(s, alpha, a)) * v(s[a]) == 2real * v(alpha[a]) * v(
            product_upto(s, alpha, alpha.len()),
        ),
        a >= alpha.len() ==> v(phi_slope(s, alpha, a)) == -(2real * v(s[a])),
{
    if a < alpha.len() {
        assert(bases(v, s)(a) > 0real);
        let two = T::decimal(2, 0);
        lemma_over(v, two.times(alpha[a]).times(product_upto(s, alpha, alpha.len())), s[a]);
    } else {
        let x = v(s[a]);
        assert((-2real) * x == -(2real * x)) by (nonlinear_arith);
    }
}

/// The slopes pair with the point to twice `phi`.
proof fn lemma_slopes_pair<T: Scalar>(v: spec_fn(T) -> real, s: Seq<T>, alpha: Seq<T>)
    requires
        exact(v),
        alpha.len() <= s.len(),
        weights(bases(v, alpha), alpha.len()),
        bases_above(v, s, alpha.len(), 0real),
    ensures
        sum(|a: int| v(phi_slope(s, alpha, a)) * v(s[a]), s.len()) == 2real * v(phi_of(s, alpha)),
{
    let n = alpha.len();
    let m = (s.len() - n) as nat;
    let p = v(product_upto(s, alpha, n));
    let f = |a: int| v(phi_slope(s, alpha, a)) * v(s[a]);
    lemma_sum_split(f, n, m);
    let al = bases(v, alpha);
    let c = 2real * p;
    let g = |a: int| c * al(a);
    assert forall|a: int| 0 <= a < n implies #[trigger] f(a) == g(a) by {
        lemma_slope(v, s, alpha, a);
        let x = al(a);
        assert(2real * x * p == (2real * p) * x) by (nonlinear_arith);
    }
    lemma_sum_same(f, g, n);
    lemma_sum_times(c, al, n);
    lemma_products(c, 0real, 0real);
    let z = behind(v, s, n);
    let zz = |j: int| z(j) * z(j);
    let tail = |j: int| f(n + j);
    let h = |j: int| -2real * zz(j);
    assert forall|j: int| 0 <= j < m implies #[trigger] tail(j) == h(j) by {
        lemma_slope(v, s, alpha, n + j);
        let x = z(j);
        assert((-(2real * x)) * x == -2real * (x * x)) by (nonlinear_arith);
    }
    lemma_sum_same(tail, h, m);
    lemma_sum_times(-2real, zz, m);
    lemma_squares(v, s, n, s.len());
    let q = sum(zz, m);
    assert(2real * p + -2real * q == 2real * (p - q)) by (nonlinear_arith);
}

/// The part of the gradient that the logarithm of base `a` gives.
pub open spec fn log_slope<T: Scalar>(v: spec_fn(T) -> real, s: Seq<T>, alpha: Seq<T>, a: int) -> real {
    if a < alpha.len() {
        (1real - v(alpha[a])) * inv(v(s[a]))
    } else {
        0real
    }
}

proof fn lemma_gradient<T: Scalar>(v: spec_fn(T) -> real, s: Seq<T>, alpha: Seq<T>, a: int)
    requires
        exact(v),
        0 <= a < s.len(),
        bases_above(v, s, alpha.len(), 0real),
        v(phi_of(s, alpha)) > 0real,
    ensures
        v(gradient_at(s, alpha, a)) == -(inv(v(phi_of(s, alpha))) * v(phi_slope(s, alpha, a))) - log_slope(
            v,
            s,
            alpha,
            a,
        ),
{
    lemma_over(v, T::one(), phi_of(s, alpha));
    let i = inv(v(phi_of(s, alpha)));
    let g = v(phi_slope(s, alpha, a));
    lemma_products(i, 0real, 0real);
    assert((-i) * g == -(i * g)) by (nonlinear_arith);
    if a < alpha.len() {
        assert(bases(v, s)(a) > 0real);
        lemma_over(v, T::one().minus(alpha[a]), s[a]);
    }
}

/// The gradient pairs with its point to the negated degree of the barrier.
pub proof fn gradient_pairs_to_the_degree<T: Scalar>(
    v: spec_fn(T) -> real,
    e: spec_fn(real) -> real,
    l: spec_fn(real) -> real,
    s: Seq<T>,
    alpha: Seq<T>,
)
    requires
        exact(v),
        exact_powers(v, e, l),
        inside(v, e, l, s, alpha),
    ensures
        sum(|a: int| v(gradient_at(s, alpha, a)) * v(s[a]), s.len()) == -(whole(alpha.len()) + 1real),
{
    let n = alpha.len();
    let m = (s.len() - n) as nat;
    lemma_phi(v, e, l, s, alpha);
    let phi = v(phi_of(s, alpha));
    let i = inv(phi);
    lemma_inv(phi);
    lemma_slopes_pair(v, s, alpha);
    let sl = |a: int| v(phi_slope(s, alpha, a)) * v(s[a]);
    let lg = |a: int| log_slope(v, s, alpha, a) * v(s[a]);
    let f = |a: int| v(gradient_at(s, alpha, a)) * v(s[a]);
    let g = |a: int| -i * sl(a);
    let h = |a: int| -1real * lg(a);
    assert forall|a: int| 0 <= a < s.len() implies #[trigger] f(a) == g(a) + h(a) by {
        lemma_gradient(v, s, alpha, a);
        let (x, y, z) = (v(phi_slope(s, alpha, a)), log_slope(v, s, alpha, a), v(s[a]));
        assert((-(i * x) - y) * z == -i * (x * z) + -1real * (y * z)) by (nonlinear_arith);
    }
    lemma_sum_same(f, |a: int| g(a) + h(a), s.len());
    lemma_sum_plus(g, h, s.len());
    lemma_sum_times(-i, sl, s.len());
    lemma_sum_times(-1real, lg, s.len());
    assert(-i * (2real * phi) == -2real * (i * phi)) by (nonlinear_arith);
    // The logarithms give n - 1.
    lemma_sum_split(lg, n, m);
    let tail = |j: int| lg(n + j);
    assert forall|j: int| 0 <= j < m implies #[trigger] tail(j) == 0real by {
        lemma_products(v(s[n + j]), 0real, 0real);
    }
    lemma_sum_zero(tail, m);
    let al = bases(v, alpha);
    let one = |a: int| 1real;
    let minus = |a: int| -1real * al(a);
    assert forall|a: int| 0 <= a < n implies #[trigger] lg(a) == one(a) + minus(a) by {
        assert(bases(v, s)(a) > 0real);
        lemma_inv(v(s[a]));
        let (x, y, z) = (al(a), inv(v(s[a])), v(s[a]));
        assert(((1real - x) * y) * z == (1real - x) * (y * z)) by (nonlinear_arith);
        lemma_products(1real - x, 0real, 0real);
    }
    lemma_sum_same(lg, |a: int| one(a) + minus(a), n);
    lemma_sum_plus(one, minus, n);
    lemma_sum_times(-1real, al, n);
    lemma_ones(n);
    assert(sum(one, n) == whole(n)) by {
        lemma_sum_same(one, |i: int| 1real, n);
    }
}

/// The curvature of `phi`, applied to the point, gives the slope.
proof fn lemma_curvature_row<T: Scalar>(v: spec_fn(T) -> real, s: Seq<T>, alpha: Seq<T>, a: int)
    requires
        exact(v),
        alpha.len() <= s.len(),
        0 <= a < s.len(),
        weights(bases(v, alpha), alpha.len()),
        bases_above(v, s, alpha.len(), 0real),
    ensures
        sum(|b: int| v(phi_curvature(s, alpha, a, b)) * v(s[b]), s.len()) == v(phi_slope(s, alpha, a)),
{
    let n = alpha.len();
    let m = (s.len() - n) as nat;
    let f = |b: int| v(phi_curvature(s, alpha, a, b)) * v(s[b]);
    let g = v(phi_slope(s, alpha, a));
    lemma_slope(v, s, alpha, a);
    if a < n {
        let al = bases(v, alpha);
        let p = v(product_upto(s, alpha, n));
        let xa = v(s[a]);
        assert(bases(v, s)(a) > 0real);
        let two = T::decimal(2, 0);
        let c = 2real * g;
        let all = |b: int| c * al(b);
        let off = |b: int|
            if b == a {
                -g
            } else {
                0real
            };
        assert forall|b: int| 0 <= b < n implies #[trigger] f(b) == all(b) + off(b) by {
            assert(bases(v, s)(b) > 0real);
            let xb = v(s[b]);
            let k = v(phi_curvature(s, alpha, a, b));
            assert(xa * xb != 0real) by (nonlinear_arith)
                requires
                    xa > 0real,
                    xb > 0real,
            ;
            let (x, y) = (al(a), al(b));
            if a == b {
                let top = two.times(alpha[a]).times(two.times(alpha[a]).minus(T::one())).times(
                    product_upto(s, alpha, n),
                );
                lemma_over(v, top, s[a].times(s[a]));
                assert(k * (xa * xa) == 2real * x * (2real * x - 1real) * p);
                assert((k * xa) * xa == k * (xa * xa)) by (nonlinear_arith);
                assert(2real * x * (2real * x - 1real) * p == (2real * x - 1real) * (2real * x * p)) by (nonlinear_arith);
                let w = 2real * x - 1real;
                assert(w * (g * xa) == (w * g) * xa) by (nonlinear_arith);
                lemma_cancel(k * xa, w * g, xa);
                assert((2real * x - 1real) * g == (2real * g) * x + -g) by (nonlinear_arith);
            } else {
                let top = two.times(two).times(alpha[a]).times(alpha[b]).times(product_upto(s, alpha, n));
                lemma_over(v, top, s[a].times(s[b]));
                assert(k * (xa * xb) == 2real * 2real * x * y * p);
                assert((k * xb) * xa == k * (xa * xb)) by (nonlinear_arith);
                assert(2real * 2real * x * y * p == (2real * y) * (2real * x * p)) by (nonlinear_arith);
                let w = 2real * y;
                assert(w * (g * xa) == (w * g) * xa) by (nonlinear_arith);
                lemma_cancel(k * xb, w * g, xa);
                assert((2real * y) * g == (2real * g) * y) by (nonlinear_arith);
            }
        }
        lemma_sum_split(f, n, m);
        lemma_sum_same(f, |b: int| all(b) + off(b), n);
        lemma_sum_plus(all, off, n);
        lemma_sum_times(c, al, n);
        lemma_products(c, 0real, 0real);
        lemma_sum_single(off, n, a);
        let tail = |j: int| f(n + j);
        assert forall|j: int| 0 <= j < m implies #[trigger] tail(j) == 0real by {
            lemma_products(v(s[n + j]), 0real, 0real);
        }
        lemma_sum_zero(tail, m);
    } else {
        assert forall|b: int| 0 <= b < s.len() && b != a implies #[trigger] f(b) == 0real by {
            lemma_products(v(s[b]), 0real, 0real);
        }
        lemma_sum_single(f, s.len(), a);
        let x = v(s[a]);
        assert((-2real) * x == -(2real * x)) by (nonlinear_arith);
    }
}

/// The part of the Hessian that the logarithm of base `a` gives on the diagonal.
pub open spec fn log_curvature<T: Scalar>(v: spec_fn(T) -> real, s: Seq<T>, alpha: Seq<T>, a: int, b: int) -> real {
    if a == b && a < alpha.len() {
        (1real - v(alpha[a])) * inv(v(s[a]) * v(s[a]))
    } else {
        0real
    }
}

proof fn lemma_hessian<T: Scalar>(v: spec_fn(T) -> real, s: Seq<T>, alpha: Seq<T>, a: int, b: int)
    requires
        exact(v),
        0 <= a < s.len(),
        0 <= b < s.len(),
        bases_above(v, s, alpha.len(), 0real),
        v(phi_of(s, alpha)) > 0real,
    ensures
        ({
            let i = inv(v(phi_of(s, alpha)));
            v(hessian_at(s, alpha, a, b)) == -(i * v(phi_curvature(s, alpha, a, b))) + (i * i) * v(
                phi_slope(s, alpha, a),
            ) * v(phi_slope(s, alpha, b)) + log_curvature(v, s, alpha, a, b)
        }),
{
    lemma_over(v, T::one(), phi_of(s, alpha));
    let i = inv(v(phi_of(s, alpha)));
    let k = v(phi_curvature(s, alpha, a, b));
    lemma_products(i, 0real, 0real);
    assert((-i) * k == -(i * k)) by (nonlinear_arith);
    if a == b && a < alpha.len() {
        assert(bases(v, s)(a) > 0real);
        let x = v(s[a]);
        assert(x * x != 0real) by (nonlinear_arith)
            requires
                x > 0real,
        ;
        lemma_over(v, T::one().minus(alpha[a]), s[a].times(s[a]));
    }
}

/// The Hessian applied to its point is the negated gradient.
pub proof fn hessian_maps_the_point_to_the_gradient<T: Scalar>(
    v: spec_fn(T) -> real,
    e: spec_fn(real) -> real,
    l: spec_fn(real) -> real,
    s: Seq<T>,
    alpha: Seq<T>,
    a: int,
)
    requires
        exact(v),
        exact_powers(v, e, l),
        inside(v, e, l, s, alpha),
        0 <= a < s.len(),
    ensures
        sum(|b: int| v(hessian_at(s, alpha, a, b)) * v(s[b]), s.len()) == -v(gradient_at(s, alpha, a)),
{
    lemma_phi(v, e, l, s, alpha);
    let phi = v(phi_of(s, alpha));
    let i = inv(phi);
    lemma_inv(phi);
    lemma_slopes_pair(v, s, alpha);
    lemma_curvature_row(v, s, alpha, a);
    lemma_gradient(v, s, alpha, a);
    let sa = v(phi_slope(s, alpha, a));
    let f = |b: int| v(hessian_at(s, alpha, a, b)) * v(s[b]);
    let ku = |b: int| v(phi_curvature(s, alpha, a, b)) * v(s[b]);
    let sl = |b: int| v(phi_slope(s, alpha, b)) * v(s[b]);
    let lg = |b: int| log_curvature(v, s, alpha, a, b) * v(s[b]);
    let c = (i * i) * sa;
    let g = |b: int| -i * ku(b);
    let h = |b: int| c * sl(b);
    let gh = |b: int| g(b) + h(b);
    assert forall|b: int| 0 <= b < s.len() implies #[trigger] f(b) == gh(b) + lg(b) by {
        lemma_hessian(v, s, alpha, a, b);
        let (k, y, w, x) = (
            v(phi_curvature(s, alpha, a, b)),
            v(phi_slope(s, alpha, b)),
            log_curvature(v, s, alpha, a, b),
            v(s[b]),
        );
        let (p, q) = (i * k, c * y);
        assert((-p + q + w) * x == -(p * x) + q * x + w * x) by (nonlinear_arith);
        assert((i * k) * x == i * (k * x)) by (nonlinear_arith);
        assert((c * y) * x == c * (y * x)) by (nonlinear_arith);
        let t = k * x;
        assert(-(i * t) == -i * t) by (nonlinear_arith);
    }
    lemma_sum_same(f, |b: int| gh(b) + lg(b), s.len());
    lemma_sum_plus(gh, lg, s.len());
    lemma_sum_plus(g, h, s.len());
    lemma_sum_times(-i, ku, s.len());
    lemma_sum_times(c, sl, s.len());
    assert(((i * i) * sa) * (2real * phi) == 2real * (i * phi) * (i * sa)) by (nonlinear_arith);
    let t = i * sa;
    assert(2real * 1real * t == t + t) by (nonlinear_arith);
    assert(-i * sa == -(i * sa)) by (nonlinear_arith);
    // The logarithm of the base itself.
    assert forall|b: int| 0 <= b < s.len() && b != a implies #[trigger] lg(b) == 0real by {
        lemma_products(v(s[b]), 0real, 0real);
    }
    lemma_sum_single(lg, s.len(), a);
    if a < alpha.len() {
        assert(bases(v, s)(a) > 0real);
        let x = v(s[a]);
        assert(x * x != 0real) by (nonlinear_arith)
            requires
                x > 0real,
        ;
        lemma_inv(x);
        lemma_inv(x * x);
        let (p, q) = (inv(x), inv(x * x));
        assert((q * x) * x == q * (x * x)) by (nonlinear_arith);
        lemma_cancel(q * x, p, x);
        let w = 1real - v(alpha[a]);
        assert((w * q) * x == w * (q * x)) by (nonlinear_arith);
    } else {
        lemma_products(v(s[a]), 0real, 0real);
    }
}

/// The gradient in each coordinate, multiplied out: `phi x_i g_i = -2 alpha_i prod x^(2 alpha) - (1 - alpha_i) phi`
/// for a base, and `phi g_j = 2 z_j` behind the bases.
pub proof fn gradient_multiplied_out<T: Scalar>(
    v: spec_fn(T) -> real,
    e: spec_fn(real) -> real,
    l: spec_fn(real) -> real,
    s: Seq<T>,
    alpha: Seq<T>,
    a: int,
)
    requires
        exact(v),
        exact_powers(v, e, l),
        inside(v, e, l, s, alpha),
        0 <= a < s.len(),
    ensures
        ({
            let phi = pow_excess(v, e, l, s, alpha);
            let p = powers(e, l, bases(v, s), bases(v, alpha), alpha.len());
            let g = v(gradient_at(s, alpha, a));
            &&& a < alpha.len() ==> (g * v(s[a])) * phi == -(2real * v(alpha[a]) * (p * p)) - (1real - v(alpha[a])) * phi
            &&& a >= alpha.len() ==> g * phi == 2real * v(s[a])
        }),
{
    lemma_phi(v, e, l, s, alpha);
    crate::pow_laws::lemma_product(v, e, l, s, alpha, alpha.len());
    let phi = v(phi_of(s, alpha));
    let i = inv(phi);
    lemma_inv(phi);
    lemma_gradient(v, s, alpha, a);
    lemma_slope(v, s, alpha, a);
    let sa = v(phi_slope(s, alpha, a));
    if a < alpha.len() {
        assert(bases(v, s)(a) > 0real);
        let x = v(s[a]);
        lemma_inv(x);
        let (w, y) = (1real - v(alpha[a]), inv(x));
        assert((-(i * sa) - w * y) * x == -(i * (sa * x)) - w * (y * x)) by (nonlinear_arith);
        lemma_products(w, 0real, 0real);
        let u = sa * x;
        assert((-(i * u) - w) * phi == -((i * phi) * u) - w * phi) by (nonlinear_arith);
        lemma_products(u, 0real, 0real);
    } else {
        assert((-(i * sa) - 0real) * phi == -((i * phi) * sa)) by (nonlinear_arith);
        lemma_products(sa, 0real, 0real);
    }
}

/// What the barrier, its gradient and its Hessian say inside the cone, however the numbers are read and
/// whichever the exponential function is.
pub open spec fn barrier_tells<T: Scalar>(s: Seq<T>, alpha: Seq<T>, r: T) -> bool {
    forall|v: spec_fn(T) -> real, e: spec_fn(real) -> real, l: spec_fn(real) -> real|
        exact(v) && #[trigger] exact_powers(v, e, l) && inside(v, e, l, s, alpha) ==> v(r) == -l(
            pow_excess(v, e, l, s, alpha),
        ) - sum(log_terms(v, l, s, alpha), alpha.len())
}

pub open spec fn gradient_tells<T: Scalar>(s: Seq<T>, alpha: Seq<T>, g: Seq<T>) -> bool {
    forall|v: spec_fn(T) -> real, e: spec_fn(real) -> real, l: spec_fn(real) -> real|
        exact(v) && #[trigger] exact_powers(v, e, l) && inside(v, e, l, s, alpha) ==> {
            let phi = pow_excess(v, e, l, s, alpha);
            let p = powers(e, l, bases(v, s), bases(v, alpha), alpha.len());
            &&& sum(|a: int| v(g[a]) * v(s[a]), s.len()) == -(whole(alpha.len()) + 1real)
            &&& forall|a: int|
                0 <= a < alpha.len() ==> (v(#[trigger] g[a]) * v(s[a])) * phi == -(2real * v(alpha[a]) * (p * p)) - (1real
                    - v(alpha[a])) * phi
            &&& forall|a: int| alpha.len() <= a < s.len() ==> v(#[trigger] g[a]) * phi == 2real * v(s[a])
        }
}

pub open spec fn hessian_tells<T: Scalar>(s: Seq<T>, alpha: Seq<T>, h: Seq<T>) -> bool {
    forall|v: spec_fn(T) -> real, e: spec_fn(real) -> real, l: spec_fn(real) -> real|
        exact(v) && #[trigger] exact_powers(v, e, l) && inside(v, e, l, s, alpha) ==> forall|a: int|
            0 <= a < s.len() ==> sum(|b: int| v(h[a * s.len() + b]) * v(s[b]), s.len()) == -v(
                #[trigger] gradient_at(s, alpha, a),
            )
}

/// The barrier that is computed is the barrier.
pub proof fn computed_barrier_tells<T: Scalar>(s: Seq<T>, alpha: Seq<T>)
    ensures
        barrier_tells(s, alpha, barrier_upto(s, alpha, alpha.len())),
{
    assert forall|v: spec_fn(T) -> real, e: spec_fn(real) -> real, l: spec_fn(real) -> real|
        exact(v) && #[trigger] exact_powers(v, e, l) && inside(v, e, l, s, alpha) implies v(
        barrier_upto(s, alpha, alpha.len()),
    ) == -l(pow_excess(v, e, l, s, alpha)) - sum(log_terms(v, l, s, alpha), alpha.len()) by {
        lemma_barrier_value(v, e, l, s, alpha, alpha.len());
    }
}

/// The gradient that is computed is that of the barrier.
pub proof fn computed_gradient_tells<T: Scalar>(s: Seq<T>, alpha: Seq<T>, g: Seq<T>)
    requires
        g == Seq::new(s.len(), |i: int| gradient_at(s, alpha, i)),
    ensures
        gradient_tells(s, alpha, g),
{
    assert forall|v: spec_fn(T) -> real, e: spec_fn(real) -> real, l: spec_fn(real) -> real|
        exact(v) && #[trigger] exact_powers(v, e, l) && inside(v, e, l, s, alpha) implies {
        let phi = pow_excess(v, e, l, s, alpha);
        let p = powers(e, l, bases(v, s), bases(v, alpha), alpha.len());
        &&& sum(|a: int| v(g[a]) * v(s[a]), s.len()) == -(whole(alpha.len()) + 1real)
        &&& forall|a: int|
            0 <= a < alpha.len() ==> (v(#[trigger] g[a]) * v(s[a])) * phi == -(2real * v(alpha[a]) * (p * p)) - (1real
                - v(alpha[a])) * phi
        &&& forall|a: int| alpha.len() <= a < s.len() ==> v(#[trigger] g[a]) * phi == 2real * v(s[a])
    } by {
        gradient_pairs_to_the_degree(v, e, l, s, alpha);
        lemma_sum_same(|a: int| v(g[a]) * v(s[a]), |a: int| v(gradient_at(s, alpha, a)) * v(s[a]), s.len());
        assert forall|a: int| 0 <= a < alpha.len() implies (v(#[trigger] g[a]) * v(s[a])) * pow_excess(
            v,
            e,
            l,
            s,
            alpha,
        ) == -(2real * v(alpha[a]) * (powers(e, l, bases(v, s), bases(v, alpha), alpha.len()) * powers(
            e,
            l,
            bases(v, s),
            bases(v, alpha),
            alpha.len(),
        ))) - (1real - v(alpha[a])) * pow_excess(v, e, l, s, alpha) by {
            gradient_multiplied_out(v, e, l, s, alpha, a);
        }
        assert forall|a: int| alpha.len() <= a < s.len() implies v(#[trigger] g[a]) * pow_excess(v, e, l, s, alpha)
            == 2real * v(s[a]) by {
            gradient_multiplied_out(v, e, l, s, alpha, a);
        }
    }
}

/// The Hessian that is computed maps the point to the negated gradient.
pub proof fn computed_hessian_tells<T: Scalar>(s: Seq<T>, alpha: Seq<T>, h: Seq<T>)
    requires
        forall|a: int, b: int|
            0 <= a < s.len() && 0 <= b < s.len() ==> #[trigger] h[a * s.len() + b] == hessian_at(s, alpha, a, b),
    ensures
        hessian_tells(s, alpha, h),
{
    assert forall|v: spec_fn(T) -> real, e: spec_fn(real) -> real, l: spec_fn(real) -> real|
        exact(v) && #[trigger] exact_powers(v, e, l) && inside(v, e, l, s, alpha) implies forall|a: int|
        0 <= a < s.len() ==> sum(|b: int| v(h[a * s.len() + b]) * v(s[b]), s.len()) == -v(
            #[trigger] gradient_at(s, alpha, a),
        ) by {
        assert forall|a: int| 0 <= a < s.len() implies sum(|b: int| v(h[a * s.len() + b]) * v(s[b]), s.len()) == -v(
            #[trigger] gradient_at(s, alpha, a),
        ) by {
            hessian_maps_the_point_to_the_gradient(v, e, l, s, alpha, a);
            let f = |b: int| v(h[a * s.len() + b]) * v(s[b]);
            let g = |b: int| v(hessian_at(s, alpha, a, b)) * v(s[b]);
            assert forall|b: int| 0 <= b < s.len() implies #[trigger] f(b) == g(b) by {
                assert(h[a * s.len() + b] == hessian_at(s, alpha, a, b));
            }
            lemma_sum_same(f, g, s.len());
        }
    }
}

} // verus!
