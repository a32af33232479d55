//! The generalized power cone, where the operations of the numbers are exact, powers and logarithms among
//! them: the margins tell the cone and its dual, and the barrier is logarithmically homogeneous.
use crate::exact::{
    exact, exact_order, inv, lemma_cancel, lemma_inv, lemma_over, lemma_sum_nonnegative, lemma_sum_plus,
    lemma_sum_same, lemma_sum_single, lemma_sum_times, lemma_sum_zero, magnitude, sum,
};
use crate::genpow::{
    dual_margin_of, dual_product_upto, interior, least_upto, margin_of, phi_of, product_upto, squares_upto,
};
use crate::scalar::Scalar;
use vstd::prelude::*;

verus! {

/// `e` is an exponential function and `l` its inverse.
pub open spec fn exponential(e: spec_fn(real) -> real, l: spec_fn(real) -> real) -> bool {
    &&& e(0real) == 1real
    &&& forall|x: real, y: real| #[trigger] e(x + y) == e(x) * e(y)
    &&& forall|x: real| #[trigger] e(x) >= 1real + x
    &&& forall|x: real| x > 0real ==> e(#[trigger] l(x)) == x
    &&& forall|x: real| l(#[trigger] e(x)) == x
}

/// Exponentials, logarithms and powers are exact: `e` is the exponential function and `l` the logarithm.
pub open spec fn exact_powers<T: Scalar>(
    v: spec_fn(T) -> real,
    e: spec_fn(real) -> real,
    l: spec_fn(real) -> real,
) -> bool {
    &&& exponential(e, l)
    &&& forall|a: T, b: T| v(a) > 0real ==> v(#[trigger] a.powf(b)) == e(v(b) * l(v(a)))
    &&& forall|a: T| v(a) > 0real ==> v(#[trigger] a.ln()) == l(v(a))
    &&& forall|a: T| v(#[trigger] a.exp()) == e(v(a))
}

/// The product of `x_i^a_i` over the first `n`, for positive `x_i`.
pub open spec fn powers(
    e: spec_fn(real) -> real,
    l: spec_fn(real) -> real,
    x: spec_fn(int) -> real,
    a: spec_fn(int) -> real,
    n: nat,
) -> real
    decreases n,
{
    if n == 0 {
        1real
    } else {
        powers(e, l, x, a, (n - 1) as nat) * e(a(n - 1) * l(x(n - 1)))
    }
}

/// `(x, z)` lies in the power cone: the bases are positive, and their weighted product is at least the norm
/// of `z`.
pub open spec fn in_pow(
    e: spec_fn(real) -> real,
    l: spec_fn(real) -> real,
    a: spec_fn(int) -> real,
    n: nat,
    m: nat,
    x: spec_fn(int) -> real,
    z: spec_fn(int) -> real,
) -> bool {
    let p = powers(e, l, x, a, n);
    &&& forall|i: int| 0 <= i < n ==> #[trigger] x(i) > 0real
    &&& p * p >= sum(|j: int| z(j) * z(j), m)
}

/// The exponents are positive and sum to 1.
pub open spec fn weights(a: spec_fn(int) -> real, n: nat) -> bool {
    &&& forall|i: int| 0 <= i < n ==> #[trigger] a(i) > 0real
    &&& sum(a, n) == 1real
}

/// The inner product of `(u, w)` and `(x, z)`.
pub open spec fn pairing(
    u: spec_fn(int) -> real,
    w: spec_fn(int) -> real,
    x: spec_fn(int) -> real,
    z: spec_fn(int) -> real,
    n: nat,
    m: nat,
) -> real {
    sum(|i: int| u(i) * x(i), n) + sum(|j: int| w(j) * z(j), m)
}

/// The readings of the bases of a point, and of what stands behind them.
pub open spec fn bases<T>(v: spec_fn(T) -> real, s: Seq<T>) -> spec_fn(int) -> real {
    |i: int| v(s[i])
}

pub open spec fn behind<T>(v: spec_fn(T) -> real, s: Seq<T>, n: nat) -> spec_fn(int) -> real {
    |j: int| v(s[n + j])
}

pub proof fn lemma_positive(e: spec_fn(real) -> real, l: spec_fn(real) -> real, x: real)
    requires
        exponential(e, l),
    ensures
        e(x) > 0real,
        e(x) * e(-x) == 1real,
{
    let h = x / 2real;
    assert(h + h == x);
    assert(e(h + h) == e(h) * e(h));
    let y = e(h);
    assert(y * y >= 0real) by (nonlinear_arith);
    assert(x + -x == 0real);
    assert(e(x + -x) == e(x) * e(-x));
    let (p, q) = (e(x), e(-x));
    if p == 0real {
        assert(0real * q == 0real) by (nonlinear_arith);
    }
}

pub proof fn lemma_logarithm(e: spec_fn(real) -> real, l: spec_fn(real) -> real, a: real, b: real)
    requires
        exponential(e, l),
        a > 0real,
        b > 0real,
    ensures
        a * b > 0real,
        l(a * b) == l(a) + l(b),
{
    assert(e(l(a)) == a && e(l(b)) == b);
    assert(e(l(a) + l(b)) == e(l(a)) * e(l(b)));
    assert(l(e(l(a) + l(b))) == l(a) + l(b));
    assert(a * b > 0real) by (nonlinear_arith)
        requires
            a > 0real,
            b > 0real,
    ;
}

/// The product of powers is the exponential of the weighted sum of logarithms.
pub proof fn lemma_powers(
    e: spec_fn(real) -> real,
    l: spec_fn(real) -> real,
    x: spec_fn(int) -> real,
    a: spec_fn(int) -> real,
    n: nat,
)
    requires
        exponential(e, l),
    ensures
        powers(e, l, x, a, n) == e(sum(|i: int| a(i) * l(x(i)), n)),
        powers(e, l, x, a, n) > 0real,
    decreases n,
{
    let f = |i: int| a(i) * l(x(i));
    if n > 0 {
        lemma_powers(e, l, x, a, (n - 1) as nat);
        assert(e(sum(f, (n - 1) as nat) + f(n - 1)) == e(sum(f, (n - 1) as nat)) * e(f(n - 1)));
    }
    lemma_positive(e, l, sum(f, n));
}

proof fn lemma_mean_term(c: real, t: real, a: real, em: real, y: real)
    requires
        em > 0real,
        a >= 0real,
        t == em * y,
        y >= 1real + c,
    ensures
        a * t >= em * (a + a * c),
{
    assert(em * y >= em * (1real + c)) by (nonlinear_arith)
        requires
            em > 0real,
            y >= 1real + c,
    ;
    let k = em * (1real + c);
    assert(a * t >= a * k) by (nonlinear_arith)
        requires
            a >= 0real,
            t >= k,
    ;
    assert(a * (em * (1real + c)) == em * (a + a * c)) by (nonlinear_arith);
}

/// The weighted arithmetic mean is at least the weighted geometric one.
pub proof fn weighted_means(
    e: spec_fn(real) -> real,
    l: spec_fn(real) -> real,
    t: spec_fn(int) -> real,
    a: spec_fn(int) -> real,
    n: nat,
)
    requires
        exponential(e, l),
        weights(a, n),
        forall|i: int| 0 <= i < n ==> #[trigger] t(i) > 0real,
    ensures
        sum(|i: int| a(i) * t(i), n) >= powers(e, l, t, a, n),
{
    let f = |i: int| a(i) * l(t(i));
    let m = sum(f, n);
    let em = e(m);
    lemma_powers(e, l, t, a, n);
    let mean = |i: int| a(i) * t(i);
    let low = |i: int| em * (a(i) + (f(i) + -m * a(i)));
    assert forall|i: int| 0 <= i < n implies #[trigger] mean(i) >= low(i) by {
        assert(a(i) > 0real && t(i) > 0real);
        let c = l(t(i)) - m;
        assert(e(l(t(i))) == t(i));
        assert(m + c == l(t(i)));
        assert(e(m + c) == e(m) * e(c));
        lemma_mean_term(c, t(i), a(i), em, e(c));
        let (x, y) = (a(i), l(t(i)));
        assert(x * (y - m) == x * y + -m * x) by (nonlinear_arith);
    }
    lemma_sum_order(low, mean, n);
    let g = |i: int| a(i) + (f(i) + -m * a(i));
    lemma_sum_times(em, g, n);
    lemma_sum_same(low, |i: int| em * g(i), n);
    let ma = |i: int| -m * a(i);
    let fm = |i: int| f(i) + ma(i);
    lemma_sum_plus(a, fm, n);
    lemma_sum_same(g, |i: int| a(i) + fm(i), n);
    lemma_sum_plus(f, ma, n);
    lemma_sum_times(-m, a, n);
    assert(-m * 1real == -m) by (nonlinear_arith);
    assert(em * 1real == em) by (nonlinear_arith);
}

proof fn lemma_sum_order(f: spec_fn(int) -> real, g: spec_fn(int) -> real, n: nat)
    requires
        forall|i: int| 0 <= i < n ==> #[trigger] g(i) >= f(i),
    ensures
        sum(f, n) <= sum(g, n),
    decreases n,
{
    if n > 0 {
        lemma_sum_order(f, g, (n - 1) as nat);
        assert(g(n - 1) >= f(n - 1));
    }
}

proof fn lemma_square(p: real, o: real, w: real, z: real)
    ensures
        (p * w + o * z) * (p * w + o * z) == (p * p) * (w * w) + ((p * o) * (w * z) + (p * o) * (w * z)) + (o * o) * (z
            * z),
        (p * w + o * z) * (p * w + o * z) >= 0real,
{
    let (a, b) = (p * w, o * z);
    assert((a + b) * (a + b) == a * a + (a * b + a * b) + b * b) by (nonlinear_arith);
    assert((p * w) * (p * w) == (p * p) * (w * w)) by (nonlinear_arith);
    assert((p * w) * (o * z) == (p * o) * (w * z)) by (nonlinear_arith);
    assert((o * z) * (o * z) == (o * o) * (z * z)) by (nonlinear_arith);
    let c = a + b;
    assert(c * c >= 0real) by (nonlinear_arith);
}

proof fn lemma_factor_sign(q: real, y: real)
    requires
        q > 0real,
        q * y >= 0real,
    ensures
        y >= 0real,
{
    if y < 0real {
        assert(q * y < 0real) by (nonlinear_arith)
            requires
                q > 0real,
                y < 0real,
        ;
    }
}

proof fn lemma_scaled(o: real, z: real, p: real)
    requires
        o >= 0real,
        z <= p,
    ensures
        o * z <= o * p,
{
    assert(o * z <= o * p) by (nonlinear_arith)
        requires
            o >= 0real,
            z <= p,
    ;
}

proof fn lemma_squares_zero(w: spec_fn(int) -> real, m: nat)
    requires
        sum(|j: int| w(j) * w(j), m) <= 0real,
    ensures
        forall|j: int| 0 <= j < m ==> #[trigger] w(j) == 0real,
    decreases m,
{
    let g = |j: int| w(j) * w(j);
    if m > 0 {
        let k = (m - 1) as nat;
        assert forall|j: int| 0 <= j < k implies #[trigger] g(j) >= 0real by {
            let x = w(j);
            assert(x * x >= 0real) by (nonlinear_arith);
        }
        lemma_sum_nonnegative(g, k);
        let x = w(k as int);
        assert(x * x >= 0real) by (nonlinear_arith);
        lemma_squares_zero(w, k);
        if x != 0real {
            assert(x * x > 0real) by (nonlinear_arith)
                requires
                    x != 0real,
            ;
        }
    }
}

/// The inner product of two vectors is not below the negated product of their norms.
proof fn lemma_cauchy(w: spec_fn(int) -> real, z: spec_fn(int) -> real, m: nat, p: real, o: real)
    requires
        p > 0real,
        o >= 0real,
        o * o == sum(|j: int| w(j) * w(j), m),
        sum(|j: int| z(j) * z(j), m) <= p * p,
    ensures
        sum(|j: int| w(j) * z(j), m) >= -(p * o),
{
    let ww = |j: int| w(j) * w(j);
    let zz = |j: int| z(j) * z(j);
    let wz = |j: int| w(j) * z(j);
    if o == 0real {
        assert(0real * 0real == 0real);
        assert(p * 0real == 0real) by (nonlinear_arith);
        lemma_squares_zero(w, m);
        assert forall|j: int| 0 <= j < m implies #[trigger] wz(j) == 0real by {
            assert(w(j) == 0real);
            let y = z(j);
            assert(0real * y == 0real) by (nonlinear_arith);
        }
        lemma_sum_zero(wz, m);
    } else {
        let (p2, q, o2) = (p * p, p * o, o * o);
        let square = |j: int| (p * w(j) + o * z(j)) * (p * w(j) + o * z(j));
        let a = |j: int| p2 * ww(j);
        let b = |j: int| q * wz(j);
        let bb = |j: int| b(j) + b(j);
        let c = |j: int| o2 * zz(j);
        let ab = |j: int| a(j) + bb(j);
        assert forall|j: int| 0 <= j < m implies #[trigger] square(j) == ab(j) + c(j) by {
            lemma_square(p, o, w(j), z(j));
        }
        assert forall|j: int| 0 <= j < m implies #[trigger] square(j) >= 0real by {
            lemma_square(p, o, w(j), z(j));
        }
        lemma_sum_nonnegative(square, m);
        lemma_sum_same(square, |j: int| ab(j) + c(j), m);
        lemma_sum_plus(ab, c, m);
        lemma_sum_plus(a, bb, m);
        lemma_sum_plus(b, b, m);
        lemma_sum_times(p2, ww, m);
        lemma_sum_times(q, wz, m);
        lemma_sum_times(o2, zz, m);
        let s = sum(wz, m);
        assert(o2 >= 0real) by (nonlinear_arith)
            requires
                o2 == o * o,
        ;
        lemma_scaled(o2, sum(zz, m), p2);
        assert((p * p) * (o * o) == (p * o) * (p * o)) by (nonlinear_arith);
        assert(o2 * p2 == p2 * o2) by (nonlinear_arith);
        assert(q > 0real) by (nonlinear_arith)
            requires
                q == p * o,
                p > 0real,
                o > 0real,
        ;
        assert(q * s + q * q >= 0real);
        assert(q * (s + q) == q * s + q * q) by (nonlinear_arith);
        lemma_factor_sign(q, s + q);
    }
}

/// The ratio of base and exponent, `u_i / a_i`.
pub open spec fn ratios(u: spec_fn(int) -> real, a: spec_fn(int) -> real) -> spec_fn(int) -> real {
    |i: int| u(i) * inv(a(i))
}

pub proof fn lemma_ratio(u: real, a: real)
    requires
        u > 0real,
        a > 0real,
    ensures
        u * inv(a) > 0real,
        a * (u * inv(a)) == u,
        inv(a) > 0real,
{
    lemma_inv(a);
    let i = inv(a);
    if i <= 0real {
        assert(i * a <= 0real) by (nonlinear_arith)
            requires
                i <= 0real,
                a > 0real,
        ;
    }
    assert(u * i > 0real) by (nonlinear_arith)
        requires
            u > 0real,
            i > 0real,
    ;
    assert(a * (u * i) == (i * a) * u) by (nonlinear_arith);
    assert(1real * u == u) by (nonlinear_arith);
}

/// The pairing of the bases is at least the product of the two weighted products.
proof fn lemma_pairing_bound(
    e: spec_fn(real) -> real,
    l: spec_fn(real) -> real,
    u: spec_fn(int) -> real,
    x: spec_fn(int) -> real,
    a: spec_fn(int) -> real,
    n: nat,
)
    requires
        exponential(e, l),
        weights(a, n),
        forall|i: int| 0 <= i < n ==> #[trigger] u(i) > 0real,
        forall|i: int| 0 <= i < n ==> #[trigger] x(i) > 0real,
    ensures
        sum(|i: int| u(i) * x(i), n) >= powers(e, l, ratios(u, a), a, n) * powers(e, l, x, a, n),
{
    let q = ratios(u, a);
    let t = |i: int| q(i) * x(i);
    assert forall|i: int| 0 <= i < n implies #[trigger] t(i) > 0real by {
        assert(u(i) > 0real && x(i) > 0real && a(i) > 0real);
        lemma_ratio(u(i), a(i));
        lemma_logarithm(e, l, q(i), x(i));
    }
    weighted_means(e, l, t, a, n);
    let at = |i: int| a(i) * t(i);
    let ux = |i: int| u(i) * x(i);
    assert forall|i: int| 0 <= i < n implies #[trigger] at(i) == ux(i) by {
        assert(u(i) > 0real && a(i) > 0real);
        lemma_ratio(u(i), a(i));
        let (p, r, y) = (a(i), q(i), x(i));
        assert(p * (r * y) == (p * r) * y) by (nonlinear_arith);
    }
    lemma_sum_same(at, ux, n);
    let f = |i: int| a(i) * l(q(i));
    let g = |i: int| a(i) * l(x(i));
    let h = |i: int| a(i) * l(t(i));
    lemma_powers(e, l, q, a, n);
    lemma_powers(e, l, x, a, n);
    lemma_powers(e, l, t, a, n);
    assert forall|i: int| 0 <= i < n implies #[trigger] h(i) == f(i) + g(i) by {
        assert(u(i) > 0real && x(i) > 0real && a(i) > 0real);
        lemma_ratio(u(i), a(i));
        lemma_logarithm(e, l, q(i), x(i));
        let (p, y, z) = (a(i), l(q(i)), l(x(i)));
        assert(p * (y + z) == p * y + p * z) by (nonlinear_arith);
    }
    lemma_sum_same(h, |i: int| f(i) + g(i), n);
    lemma_sum_plus(f, g, n);
    assert(e(sum(f, n) + sum(g, n)) == e(sum(f, n)) * e(sum(g, n)));
}

/// A point of the dual cone pairs with every point of the cone to a number that is not negative.
pub proof fn dual_points_pair_nonnegatively(
    e: spec_fn(real) -> real,
    l: spec_fn(real) -> real,
    u: spec_fn(int) -> real,
    w: spec_fn(int) -> real,
    a: spec_fn(int) -> real,
    n: nat,
    m: nat,
    o: real,
    x: spec_fn(int) -> real,
    z: spec_fn(int) -> real,
)
    requires
        exponential(e, l),
        weights(a, n),
        forall|i: int| 0 <= i < n ==> #[trigger] u(i) > 0real,
        o >= 0real,
        o * o == sum(|j: int| w(j) * w(j), m),
        powers(e, l, ratios(u, a), a, n) >= o,
        in_pow(e, l, a, n, m, x, z),
    ensures
        pairing(u, w, x, z, n, m) >= 0real,
{
    lemma_pairing_bound(e, l, u, x, a, n);
    lemma_powers(e, l, x, a, n);
    let (d, p) = (powers(e, l, ratios(u, a), a, n), powers(e, l, x, a, n));
    lemma_cauchy(w, z, m, p, o);
    lemma_scaled(p, o, d);
    assert(d * p == p * d) by (nonlinear_arith);
}

proof fn lemma_reciprocal(e: spec_fn(real) -> real, l: spec_fn(real) -> real, a: real, u: real)
    requires
        exponential(e, l),
        a > 0real,
        u > 0real,
    ensures
        a * inv(u) > 0real,
        u * (a * inv(u)) == a,
        l(a * inv(u)) == -l(u * inv(a)),
{
    lemma_ratio(u, a);
    lemma_ratio(a, u);
    let (p, q) = (a * inv(u), u * inv(a));
    lemma_logarithm(e, l, p, q);
    assert(p * q == 1real) by {
        let (i, j) = (inv(u), inv(a));
        lemma_inv(u);
        lemma_inv(a);
        assert((a * i) * (u * j) == (i * u) * (j * a)) by (nonlinear_arith);
        assert(1real * 1real == 1real);
    }
    assert(l(e(0real)) == 0real);
}

/// The point of the cone that separates it from a pair outside the dual cone.
proof fn lemma_separating(
    e: spec_fn(real) -> real,
    l: spec_fn(real) -> real,
    u: spec_fn(int) -> real,
    w: spec_fn(int) -> real,
    a: spec_fn(int) -> real,
    n: nat,
    m: nat,
    o: real,
) -> (r: (spec_fn(int) -> real, spec_fn(int) -> real))
    requires
        exponential(e, l),
        weights(a, n),
        forall|i: int| 0 <= i < n ==> #[trigger] u(i) > 0real,
        o >= 0real,
        o * o == sum(|j: int| w(j) * w(j), m),
        powers(e, l, ratios(u, a), a, n) < o,
    ensures
        in_pow(e, l, a, n, m, r.0, r.1),
        pairing(u, w, r.0, r.1, n, m) < 0real,
{
    let q = ratios(u, a);
    let d = powers(e, l, q, a, n);
    lemma_powers(e, l, q, a, n);
    let k = inv(o) * inv(d);
    let x = |i: int| a(i) * inv(u(i));
    let z = |j: int| -k * w(j);
    // The weighted product of the bases is the reciprocal of that of the pair.
    let f = |i: int| a(i) * l(q(i));
    let g = |i: int| a(i) * l(x(i));
    assert forall|i: int| 0 <= i < n implies #[trigger] x(i) > 0real by {
        assert(u(i) > 0real && a(i) > 0real);
        lemma_reciprocal(e, l, a(i), u(i));
    }
    let minus = |i: int| -1real * f(i);
    assert forall|i: int| 0 <= i < n implies #[trigger] g(i) == minus(i) by {
        assert(u(i) > 0real && a(i) > 0real);
        lemma_reciprocal(e, l, a(i), u(i));
        let (p, y) = (a(i), l(q(i)));
        assert(p * (-y) == -1real * (p * y)) by (nonlinear_arith);
    }
    lemma_sum_same(g, minus, n);
    lemma_sum_times(-1real, f, n);
    let s = sum(f, n);
    assert(-1real * s == -s) by (nonlinear_arith);
    lemma_powers(e, l, x, a, n);
    lemma_positive(e, l, s);
    let p = powers(e, l, x, a, n);
    assert(d * p == 1real);
    lemma_inv(d);
    lemma_inv(o);
    let (i, j) = (inv(d), inv(o));
    assert(p * d == d * p) by (nonlinear_arith);
    lemma_cancel(p, i, d);
    // The part behind the bases has the same norm.
    let zz = |t: int| z(t) * z(t);
    let ww = |t: int| w(t) * w(t);
    let kk = k * k;
    assert forall|t: int| 0 <= t < m implies #[trigger] zz(t) == kk * ww(t) by {
        let y = w(t);
        assert((-k * y) * (-k * y) == (k * k) * (y * y)) by (nonlinear_arith);
    }
    lemma_sum_same(zz, |t: int| kk * ww(t), m);
    lemma_sum_times(kk, ww, m);
    assert(((j * i) * (j * i)) * (o * o) == ((j * o) * (j * o)) * (i * i)) by (nonlinear_arith);
    assert(1real * 1real == 1real);
    let ii = i * i;
    assert(1real * ii == ii) by (nonlinear_arith);
    assert(sum(zz, m) == p * p);
    // The pairing is below zero.
    let ux = |t: int| u(t) * x(t);
    assert forall|t: int| 0 <= t < n implies #[trigger] ux(t) == a(t) by {
        assert(u(t) > 0real && a(t) > 0real);
        lemma_reciprocal(e, l, a(t), u(t));
    }
    lemma_sum_same(ux, a, n);
    let wz = |t: int| w(t) * z(t);
    assert forall|t: int| 0 <= t < m implies #[trigger] wz(t) == -k * ww(t) by {
        let y = w(t);
        assert(y * (-k * y) == -k * (y * y)) by (nonlinear_arith);
    }
    lemma_sum_same(wz, |t: int| -k * ww(t), m);
    lemma_sum_times(-k, ww, m);
    assert(-(j * i) * (o * o) == -((j * o) * (i * o))) by (nonlinear_arith);
    let io = i * o;
    assert(1real * io == io) by (nonlinear_arith);
    assert(io > 1real) by {
        assert(i > 0real) by {
            if i <= 0real {
                assert(i * d <= 0real) by (nonlinear_arith)
                    requires
                        i <= 0real,
                        d > 0real,
                ;
            }
        }
        assert(i * d < i * o) by (nonlinear_arith)
            requires
                i > 0real,
                d < o,
        ;
    }
    (x, z)
}

/// The point of the cone that separates it from a pair with a negative base.
proof fn lemma_separating_base(
    e: spec_fn(real) -> real,
    l: spec_fn(real) -> real,
    u: spec_fn(int) -> real,
    w: spec_fn(int) -> real,
    a: spec_fn(int) -> real,
    n: nat,
    m: nat,
    k: int,
) -> (r: (spec_fn(int) -> real, spec_fn(int) -> real))
    requires
        0 <= k < n,
        u(k) < 0real,
    ensures
        in_pow(e, l, a, n, m, r.0, r.1),
        pairing(u, w, r.0, r.1, n, m) < 0real,
{
    let rest = sum(u, n) - u(k);
    let big = 1real + magnitude(rest);
    let i = inv(-u(k));
    lemma_ratio(big, -u(k));
    let t = big * i;
    let x = |j: int|
        if j == k {
            t
        } else {
            1real
        };
    let z = |j: int| 0real;
    let zz = |j: int| z(j) * z(j);
    assert forall|j: int| 0 <= j < m implies #[trigger] zz(j) == 0real by {
        assert(0real * 0real == 0real);
    }
    lemma_sum_zero(zz, m);
    let p = powers(e, l, x, a, n);
    assert(p * p >= 0real) by (nonlinear_arith);
    let wz = |j: int| w(j) * z(j);
    assert forall|j: int| 0 <= j < m implies #[trigger] wz(j) == 0real by {
        let y = w(j);
        assert(y * 0real == 0real) by (nonlinear_arith);
    }
    lemma_sum_zero(wz, m);
    let ux = |j: int| u(j) * x(j);
    let extra = |j: int|
        if j == k {
            u(k) * t - u(k)
        } else {
            0real
        };
    assert forall|j: int| 0 <= j < n implies #[trigger] ux(j) == u(j) + extra(j) by {
        let y = u(j);
        assert(y * 1real == y) by (nonlinear_arith);
    }
    lemma_sum_same(ux, |j: int| u(j) + extra(j), n);
    lemma_sum_plus(u, extra, n);
    lemma_sum_single(extra, n, k);
    let y = u(k);
    assert((-y) * t == -(y * t)) by (nonlinear_arith);
    (x, z)
}

proof fn lemma_least<T: Scalar>(v: spec_fn(T) -> real, s: Seq<T>, k: nat)
    requires
        exact(v),
        exact_order(v),
        k >= 1,
    ensures
        forall|i: int| 0 <= i < k ==> v(least_upto(s, k)) <= v(#[trigger] s[i]),
        exists|i: int| 0 <= i < k && v(least_upto(s, k)) == v(#[trigger] s[i]),
    decreases k,
{
    if k > 1 {
        lemma_least(v, s, (k - 1) as nat);
        let j = choose|i: int| 0 <= i < k - 1 && v(least_upto(s, (k - 1) as nat)) == v(#[trigger] s[i]);
        assert(v(least_upto(s, k)) == v(s[j]) || v(least_upto(s, k)) == v(s[k - 1]));
    } else {
        assert(v(least_upto(s, k)) == v(s[0]));
    }
}

pub proof fn lemma_squares<T: Scalar>(v: spec_fn(T) -> real, s: Seq<T>, n: nat, k: nat)
    requires
        exact(v),
        n <= k,
    ensures
        v(squares_upto(s, n, k)) == sum(|j: int| behind(v, s, n)(j) * behind(v, s, n)(j), (k - n) as nat),
        v(squares_upto(s, n, k)) >= 0real,
    decreases k,
{
    if k > n {
        lemma_squares(v, s, n, (k - 1) as nat);
        let x = v(s[k - 1]);
        assert(x * x >= 0real) by (nonlinear_arith);
    }
}

proof fn lemma_dual_product<T: Scalar>(
    v: spec_fn(T) -> real,
    e: spec_fn(real) -> real,
    l: spec_fn(real) -> real,
    d: Seq<T>,
    alpha: Seq<T>,
    k: nat,
)
    requires
        exact(v),
        exact_powers(v, e, l),
        forall|i: int| 0 <= i < k ==> #[trigger] bases(v, d)(i) > 0real,
        forall|i: int| 0 <= i < k ==> #[trigger] bases(v, alpha)(i) > 0real,
    ensures
        v(dual_product_upto(d, alpha, k)) == powers(e, l, ratios(bases(v, d), bases(v, alpha)), bases(v, alpha), k),
    decreases k,
{
    if k > 0 {
        lemma_dual_product(v, e, l, d, alpha, (k - 1) as nat);
        assert(bases(v, d)(k - 1) > 0real && bases(v, alpha)(k - 1) > 0real);
        lemma_over(v, d[k - 1], alpha[k - 1]);
        lemma_ratio(v(d[k - 1]), v(alpha[k - 1]));
    }
}

/// The margin tells the dual cone: where it is positive, the point pairs with every point of the cone to a
/// number that is not negative; where it is negative, with some point of the cone to a negative one. It holds
/// for every reading of the numbers and every exponential function.
pub open spec fn tells_dual_cone<T: Scalar>(d: Seq<T>, alpha: Seq<T>, margin: T) -> bool {
    forall|v: spec_fn(T) -> real, e: spec_fn(real) -> real, l: spec_fn(real) -> real|
        exact(v) && exact_order(v) && #[trigger] exact_powers(v, e, l) && weights(bases(v, alpha), alpha.len()) ==> {
            let n = alpha.len();
            let m = (d.len() - n) as nat;
            let (u, w, a) = (bases(v, d), behind(v, d, n), bases(v, alpha));
            &&& v(margin) > 0real ==> forall|x: spec_fn(int) -> real, z: spec_fn(int) -> real| #[trigger]
                in_pow(e, l, a, n, m, x, z) ==> pairing(u, w, x, z, n, m) >= 0real
            &&& v(margin) < 0real ==> exists|x: spec_fn(int) -> real, z: spec_fn(int) -> real| #[trigger]
                in_pow(e, l, a, n, m, x, z) && pairing(u, w, x, z, n, m) < 0real
        }
}

/// The dual margin tells the dual of the power cone.
pub proof fn dual_margin_tells_the_dual_cone<T: Scalar>(d: Seq<T>, alpha: Seq<T>)
    requires
        1 <= alpha.len() <= d.len(),
    ensures
        tells_dual_cone(d, alpha, dual_margin_of(d, alpha)),
{
    let n = alpha.len();
    let m = (d.len() - n) as nat;
    let margin = dual_margin_of(d, alpha);
    assert forall|v: spec_fn(T) -> real, e: spec_fn(real) -> real, l: spec_fn(real) -> real|
        exact(v) && exact_order(v) && #[trigger] exact_powers(v, e, l) && weights(
            bases(v, alpha),
            alpha.len(),
        ) implies {
        let (u, w, a) = (bases(v, d), behind(v, d, n), bases(v, alpha));
        &&& v(margin) > 0real ==> forall|x: spec_fn(int) -> real, z: spec_fn(int) -> real| #[trigger]
            in_pow(e, l, a, n, m, x, z) ==> pairing(u, w, x, z, n, m) >= 0real
        &&& v(margin) < 0real ==> exists|x: spec_fn(int) -> real, z: spec_fn(int) -> real| #[trigger]
            in_pow(e, l, a, n, m, x, z) && pairing(u, w, x, z, n, m) < 0real
    } by {
        let (u, w, a) = (bases(v, d), behind(v, d, n), bases(v, alpha));
        lemma_least(v, d, n);
        lemma_squares(v, d, n, d.len());
        let least = v(least_upto(d, n));
        let o = v(squares_upto(d, n, d.len()).sqrt());
        if least > 0real {
            assert forall|i: int| 0 <= i < n implies #[trigger] u(i) > 0real by {
                assert(v(d[i]) >= least);
            }
            lemma_dual_product(v, e, l, d, alpha, n);
            assert(o >= 0real && o * o == sum(|j: int| w(j) * w(j), m));
            if v(margin) > 0real {
                assert forall|x: spec_fn(int) -> real, z: spec_fn(int) -> real| #[trigger]
                    in_pow(e, l, a, n, m, x, z) implies pairing(u, w, x, z, n, m) >= 0real by {
                    dual_points_pair_nonnegatively(e, l, u, w, a, n, m, o, x, z);
                }
            }
            if v(margin) < 0real {
                let (x, z) = lemma_separating(e, l, u, w, a, n, m, o);
                assert(in_pow(e, l, a, n, m, x, z));
            }
        } else if least < 0real {
            let k = choose|i: int| 0 <= i < n && v(least_upto(d, n)) == v(#[trigger] d[i]);
            let (x, z) = lemma_separating_base(e, l, u, w, a, n, m, k);
            assert(in_pow(e, l, a, n, m, x, z));
        }
    }
}

/// The product of the doubled powers is the square of the product of powers.
pub proof fn lemma_product<T: Scalar>(
    v: spec_fn(T) -> real,
    e: spec_fn(real) -> real,
    l: spec_fn(real) -> real,
    s: Seq<T>,
    alpha: Seq<T>,
    k: nat,
)
    requires
        exact(v),
        exact_powers(v, e, l),
        forall|i: int| 0 <= i < k ==> #[trigger] bases(v, s)(i) > 0real,
    ensures
        v(product_upto(s, alpha, k)) == powers(e, l, bases(v, s), bases(v, alpha), k) * powers(
            e,
            l,
            bases(v, s),
            bases(v, alpha),
            k,
        ),
    decreases k,
{
    if k == 0 {
        assert(1real * 1real == 1real);
    } else {
        lemma_product(v, e, l, s, alpha, (k - 1) as nat);
        assert(bases(v, s)(k - 1) > 0real);
        let (a, y) = (v(alpha[k - 1]), l(v(s[k - 1])));
        let h = a * y;
        assert((2real * a) * y == a * y + a * y) by (nonlinear_arith);
        assert(e(h + h) == e(h) * e(h));
        let (p, q) = (powers(e, l, bases(v, s), bases(v, alpha), (k - 1) as nat), e(h));
        assert((p * p) * (q * q) == (p * q) * (p * q)) by (nonlinear_arith);
    }
}

/// What the weighted product of the bases leaves over the norm of what stands behind them, both squared.
pub open spec fn pow_excess<T: Scalar>(
    v: spec_fn(T) -> real,
    e: spec_fn(real) -> real,
    l: spec_fn(real) -> real,
    s: Seq<T>,
    alpha: Seq<T>,
) -> real {
    let n = alpha.len();
    let (p, z) = (powers(e, l, bases(v, s), bases(v, alpha), n), behind(v, s, n));
    p * p - sum(|j: int| z(j) * z(j), (s.len() - n) as nat)
}

/// Every base is above `t`.
pub open spec fn bases_above<T: Scalar>(v: spec_fn(T) -> real, s: Seq<T>, n: nat, t: real) -> bool {
    forall|i: int| 0 <= i < n ==> #[trigger] bases(v, s)(i) > t
}

pub proof fn lemma_phi<T: Scalar>(
    v: spec_fn(T) -> real,
    e: spec_fn(real) -> real,
    l: spec_fn(real) -> real,
    s: Seq<T>,
    alpha: Seq<T>,
)
    requires
        exact(v),
        exact_powers(v, e, l),
        alpha.len() <= s.len(),
        bases_above(v, s, alpha.len(), 0real),
    ensures
        v(phi_of(s, alpha)) == pow_excess(v, e, l, s, alpha),
{
    lemma_product(v, e, l, s, alpha, alpha.len());
    lemma_squares(v, s, alpha.len(), s.len());
}

/// The margin tells the cone: it is positive exactly at the points with positive bases whose weighted
/// product exceeds the norm of what stands behind them, and negative exactly where a base is negative, or
/// where all are positive and their product falls short.
pub open spec fn tells_cone<T: Scalar>(s: Seq<T>, alpha: Seq<T>, margin: T) -> bool {
    forall|v: spec_fn(T) -> real, e: spec_fn(real) -> real, l: spec_fn(real) -> real|
        exact(v) && exact_order(v) && #[trigger] exact_powers(v, e, l) ==> {
            let n = alpha.len();
            &&& v(margin) > 0real <==> bases_above(v, s, n, 0real) && pow_excess(v, e, l, s, alpha) > 0real
            &&& v(margin) < 0real <==> (exists|i: int| 0 <= i < n && #[trigger] bases(v, s)(i) < 0real) || (
            bases_above(v, s, n, 0real) && pow_excess(v, e, l, s, alpha) < 0real)
        }
}

/// The primal margin tells the power cone.
pub proof fn margin_tells_the_cone<T: Scalar>(s: Seq<T>, alpha: Seq<T>)
    requires
        1 <= alpha.len() <= s.len(),
    ensures
        tells_cone(s, alpha, margin_of(s, alpha)),
{
    let n = alpha.len();
    let margin = margin_of(s, alpha);
    assert forall|v: spec_fn(T) -> real, e: spec_fn(real) -> real, l: spec_fn(real) -> real|
        exact(v) && exact_order(v) && #[trigger] exact_powers(v, e, l) implies {
        &&& v(margin) > 0real <==> bases_above(v, s, n, 0real) && pow_excess(v, e, l, s, alpha) > 0real
        &&& v(margin) < 0real <==> (exists|i: int| 0 <= i < n && #[trigger] bases(v, s)(i) < 0real) || (bases_above(
            v,
            s,
            n,
            0real,
        ) && pow_excess(v, e, l, s, alpha) < 0real)
    } by {
        lemma_least(v, s, n);
        let least = v(least_upto(s, n));
        let k = choose|i: int| 0 <= i < n && v(least_upto(s, n)) == v(#[trigger] s[i]);
        assert(bases(v, s)(k) == least);
        assert forall|i: int| 0 <= i < n implies #[trigger] bases(v, s)(i) >= least by {
            assert(v(s[i]) >= least);
        }
        if least > 0real {
            assert(bases_above(v, s, n, 0real));
            lemma_phi(v, e, l, s, alpha);
        }
    }
}

/// The test tells the points whose bases and whose excess are above the tolerance.
pub open spec fn tells_interior<T: Scalar>(s: Seq<T>, alpha: Seq<T>, tol: T, inside: bool) -> bool {
    forall|v: spec_fn(T) -> real, e: spec_fn(real) -> real, l: spec_fn(real) -> real|
        exact(v) && #[trigger] exact_powers(v, e, l) && v(tol) >= 0real ==> (inside <==> bases_above(
            v,
            s,
            alpha.len(),
            v(tol),
        ) && pow_excess(v, e, l, s, alpha) > v(tol))
}

/// The test for the interior tells the interior of the power cone.
pub proof fn interior_test_tells_the_cone<T: Scalar>(s: Seq<T>, alpha: Seq<T>, tol: T)
    requires
        alpha.len() <= s.len(),
    ensures
        tells_interior(s, alpha, tol, interior(s, alpha, tol)),
{
    assert forall|v: spec_fn(T) -> real, e: spec_fn(real) -> real, l: spec_fn(real) -> real|
        exact(v) && #[trigger] exact_powers(v, e, l) && v(tol) >= 0real implies (interior(s, alpha, tol)
        <==> bases_above(v, s, alpha.len(), v(tol)) && pow_excess(v, e, l, s, alpha) > v(tol)) by {
        if interior(s, alpha, tol) {
            assert forall|i: int| 0 <= i < alpha.len() implies #[trigger] bases(v, s)(i) > v(tol) by {
                assert(tol.below(s[i]));
            }
        }
        if bases_above(v, s, alpha.len(), v(tol)) {
            assert forall|i: int| 0 <= i < alpha.len() implies #[trigger] bases(v, s)(i) > 0real by {
                assert(bases(v, s)(i) > v(tol));
            }
            assert(bases_above(v, s, alpha.len(), 0real));
            lemma_phi(v, e, l, s, alpha);
            assert forall|i: int| 0 <= i < alpha.len() implies tol.below(#[trigger] s[i]) by {
                assert(bases(v, s)(i) > v(tol));
            }
        }
    }
}

} // verus!
