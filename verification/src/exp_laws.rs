//! The exponential cone, where the operations of the numbers are exact, exponentials and logarithms among
//! them: the tests tell the cone and its dual, and the barrier is logarithmically homogeneous.
use crate::exact::{exact, exact_order, inv, lemma_cancel, lemma_inv, lemma_over, magnitude};
use crate::exp::{dual_interior, interior, margin_of, psi_of};
use crate::pow_laws::{exact_powers, exponential, lemma_logarithm, lemma_positive, lemma_ratio};
use crate::scalar::Scalar;
use vstd::prelude::*;

verus! {

/// `(x, y, z)` lies in the exponential cone: `y` is positive, and `y exp(x / y)` is at most `z`.
pub open spec fn in_exp(e: spec_fn(real) -> real, x: real, y: real, z: real) -> bool {
    y > 0real && y * e(x * inv(y)) <= z
}

/// `(x, y, z)` lies inside the exponential cone.
pub open spec fn inside_exp(e: spec_fn(real) -> real, x: real, y: real, z: real) -> bool {
    y > 0real && y * e(x * inv(y)) < z
}

/// `y log(z / y) - x`.
pub open spec fn excess(l: spec_fn(real) -> real, x: real, y: real, z: real) -> real {
    y * l(z * inv(y)) - x
}

/// The exponential function grows.
pub proof fn lemma_grows(e: spec_fn(real) -> real, l: spec_fn(real) -> real, a: real, b: real)
    requires
        exponential(e, l),
    ensures
        a < b <==> e(a) < e(b),
        a <= b <==> e(a) <= e(b),
{
    if a < b {
        lemma_step(e, l, a, b);
    } else if b < a {
        lemma_step(e, l, b, a);
    }
}

proof fn lemma_step(e: spec_fn(real) -> real, l: spec_fn(real) -> real, a: real, b: real)
    requires
        exponential(e, l),
        a < b,
    ensures
        e(a) < e(b),
{
    let d = b - a;
    assert(a + d == b);
    assert(e(a + d) == e(a) * e(d));
    lemma_positive(e, l, a);
    assert(e(d) >= 1real + d);
    let (p, q) = (e(a), e(d));
    assert(p * q > p * 1real) by (nonlinear_arith)
        requires
            p > 0real,
            q > 1real,
    ;
    assert(p * 1real == p) by (nonlinear_arith);
}

proof fn lemma_times_order(y: real, a: real, b: real)
    requires
        y > 0real,
    ensures
        a < b <==> y * a < y * b,
        a <= b <==> y * a <= y * b,
{
    if a < b {
        assert(y * a < y * b) by (nonlinear_arith)
            requires
                y > 0real,
                a < b,
        ;
    } else if b < a {
        assert(y * b < y * a) by (nonlinear_arith)
            requires
                y > 0real,
                b < a,
        ;
    }
}

/// The excess is positive exactly inside the cone.
pub proof fn lemma_excess_sign(
    e: spec_fn(real) -> real,
    l: spec_fn(real) -> real,
    x: real,
    y: real,
    z: real,
)
    requires
        exponential(e, l),
        y > 0real,
        z > 0real,
    ensures
        excess(l, x, y, z) > 0real <==> y * e(x * inv(y)) < z,
        excess(l, x, y, z) >= 0real <==> y * e(x * inv(y)) <= z,
{
    lemma_ratio(z, y);
    let (q, r) = (z * inv(y), x * inv(y));
    assert(e(l(q)) == q);
    lemma_grows(e, l, r, l(q));
    // Both sides times y.
    lemma_times_order(y, r, l(q));
    lemma_times_order(y, e(r), q);
    lemma_inv(y);
    let i = inv(y);
    assert(y * (x * i) == (i * y) * x) by (nonlinear_arith);
    assert(1real * x == x) by (nonlinear_arith);
}

pub proof fn lemma_psi<T: Scalar>(v: spec_fn(T) -> real, e: spec_fn(real) -> real, l: spec_fn(real) -> real, s: Seq<T>)
    requires
        exact(v),
        exact_powers(v, e, l),
        v(s[1]) > 0real,
        v(s[2]) > 0real,
    ensures
        v(psi_of(s)) == excess(l, v(s[0]), v(s[1]), v(s[2])),
{
    lemma_over(v, s[2], s[1]);
    lemma_ratio(v(s[2]), v(s[1]));
}

/// A point inside the cone has a positive last entry.
pub proof fn lemma_last_positive(e: spec_fn(real) -> real, l: spec_fn(real) -> real, x: real, y: real, z: real)
    requires
        exponential(e, l),
        in_exp(e, x, y, z),
    ensures
        z > 0real,
{
    lemma_positive(e, l, x * inv(y));
    let p = e(x * inv(y));
    assert(y * p > 0real) by (nonlinear_arith)
        requires
            y > 0real,
            p > 0real,
    ;
}

/// The margin tells the exponential cone: it is positive exactly inside, and negative exactly where `y` or
/// `z` is negative, or where both are positive and `z` falls short of `y exp(x / y)`.
pub open spec fn tells_exp<T: Scalar>(s: Seq<T>, margin: T) -> bool {
    forall|v: spec_fn(T) -> real, e: spec_fn(real) -> real, l: spec_fn(real) -> real|
        exact(v) && exact_order(v) && #[trigger] exact_powers(v, e, l) ==> {
            let (x, y, z) = (v(s[0]), v(s[1]), v(s[2]));
            &&& v(margin) > 0real <==> inside_exp(e, x, y, z)
            &&& v(margin) < 0real <==> y < 0real || z < 0real || (y > 0real && z > 0real && y * e(x * inv(y)) > z)
        }
}

/// The margin tells the cone.
pub proof fn margin_tells_the_exponential_cone<T: Scalar>(s: Seq<T>)
    ensures
        tells_exp(s, margin_of(s)),
{
    let margin = margin_of(s);
    assert forall|v: spec_fn(T) -> real, e: spec_fn(real) -> real, l: spec_fn(real) -> real|
        exact(v) && exact_order(v) && #[trigger] exact_powers(v, e, l) implies {
        let (x, y, z) = (v(s[0]), v(s[1]), v(s[2]));
        &&& v(margin) > 0real <==> inside_exp(e, x, y, z)
        &&& v(margin) < 0real <==> y < 0real || z < 0real || (y > 0real && z > 0real && y * e(x * inv(y)) > z)
    } by {
        let (x, y, z) = (v(s[0]), v(s[1]), v(s[2]));
        if y > 0real && z > 0real {
            lemma_psi(v, e, l, s);
            lemma_excess_sign(e, l, x, y, z);
        } else if inside_exp(e, x, y, z) {
            lemma_last_positive(e, l, x, y, z);
        }
    }
}

/// The test tells the points whose `y`, `z` and excess are above the tolerance; without tolerance, those
/// inside the cone.
pub open spec fn tells_exp_interior<T: Scalar>(s: Seq<T>, tol: T, inside: bool) -> bool {
    forall|v: spec_fn(T) -> real, e: spec_fn(real) -> real, l: spec_fn(real) -> real|
        exact(v) && #[trigger] exact_powers(v, e, l) && v(tol) >= 0real ==> {
            let (x, y, z) = (v(s[0]), v(s[1]), v(s[2]));
            &&& inside <==> y > v(tol) && z > v(tol) && excess(l, x, y, z) > v(tol)
            &&& v(tol) == 0real ==> (inside <==> inside_exp(e, x, y, z))
        }
}

/// The test for the interior tells the interior of the exponential cone.
pub proof fn interior_test_tells_the_exponential_cone<T: Scalar>(s: Seq<T>, tol: T)
    ensures
        tells_exp_interior(s, tol, interior(s, tol)),
{
    assert forall|v: spec_fn(T) -> real, e: spec_fn(real) -> real, l: spec_fn(real) -> real|
        exact(v) && #[trigger] exact_powers(v, e, l) && v(tol) >= 0real implies {
        let (x, y, z) = (v(s[0]), v(s[1]), v(s[2]));
        let inside = interior(s, tol);
        &&& inside <==> y > v(tol) && z > v(tol) && excess(l, x, y, z) > v(tol)
        &&& v(tol) == 0real ==> (inside <==> inside_exp(e, x, y, z))
    } by {
        let (x, y, z) = (v(s[0]), v(s[1]), v(s[2]));
        if y > v(tol) && z > v(tol) {
            lemma_psi(v, e, l, s);
            lemma_excess_sign(e, l, x, y, z);
        } else if v(tol) == 0real && inside_exp(e, x, y, z) {
            lemma_last_positive(e, l, x, y, z);
        }
    }
}

/// The pairing of `(u, v, w)` and `(x, y, z)`.
pub open spec fn pairing3(u: real, v: real, w: real, x: real, y: real, z: real) -> real {
    u * x + v * y + w * z
}

/// `v - u - u log(w / -u)`, what the dual cone asks to be nonnegative.
pub open spec fn dual_excess(l: spec_fn(real) -> real, u: real, v: real, w: real) -> real {
    v - u - u * l(w * inv(-u))
}

/// The test of the dual cone is the sign of its excess.
proof fn lemma_dual_test(e: spec_fn(real) -> real, l: spec_fn(real) -> real, u: real, v: real, w: real)
    requires
        exponential(e, l),
        u < 0real,
        w > 0real,
    ensures
        (-u) * e(v * inv(u)) <= w * e(1real) <==> dual_excess(l, u, v, w) >= 0real,
{
    let p = -u;
    lemma_ratio(w, p);
    let (r, q) = (v * inv(u), w * inv(p));
    // Both sides as exponentials.
    assert(e(l(p)) == p && e(l(w)) == w);
    assert(e(l(p) + r) == e(l(p)) * e(r));
    assert(e(l(w) + 1real) == e(l(w)) * e(1real));
    lemma_grows(e, l, l(p) + r, l(w) + 1real);
    // The logarithm of the ratio.
    lemma_logarithm(e, l, p, q);
    assert(l(w) == l(p) + l(q));
    let a = l(q) + 1real;
    assert(l(p) + r <= l(w) + 1real <==> r <= a);
    lemma_inv(u);
    let i = inv(u);
    lemma_times_order(p, r, a);
    assert((-u) * (v * i) == -((i * u) * v)) by (nonlinear_arith);
    assert(1real * v == v) by (nonlinear_arith);
    let k = l(q);
    assert((-u) * (k + 1real) == -(u * k) - u) by (nonlinear_arith);
}

/// The value of the pairing along the curve, at `y = 1`.
proof fn lemma_curve(e: spec_fn(real) -> real, l: spec_fn(real) -> real, u: real, v: real, w: real, t: real)
    requires
        exponential(e, l),
        u < 0real,
        w > 0real,
    ensures
        u * t + v + w * e(t) >= dual_excess(l, u, v, w),
        t == -l(w * inv(-u)) ==> u * t + v + w * e(t) == dual_excess(l, u, v, w),
{
    let p = -u;
    lemma_ratio(w, p);
    let q = w * inv(p);
    let k = -l(q);
    lemma_positive(e, l, l(q));
    assert(e(l(q)) == q);
    // w e(k) = -u.
    assert(q * e(k) == 1real);
    let ek = e(k);
    lemma_inv(p);
    let i = inv(p);
    assert(p * ((w * i) * ek) == (i * p) * (w * ek)) by (nonlinear_arith);
    assert(p * 1real == p) by (nonlinear_arith);
    let c = w * ek;
    assert(1real * c == c) by (nonlinear_arith);
    assert(w * ek == p);
    let d = t - k;
    assert(k + d == t);
    assert(e(k + d) == e(k) * e(d));
    let ed = e(d);
    assert(w * (ek * ed) == (w * ek) * ed) by (nonlinear_arith);
    assert(ed >= 1real + d);
    lemma_times_order(p, 1real + d, ed);
    assert(p * (1real + d) == -u - u * d) by (nonlinear_arith)
        requires
            p == -u,
    ;
    assert(u * t == u * k + u * d) by (nonlinear_arith)
        requires
            t == k + d,
    ;
    let g = l(q);
    assert(u * (-g) == -(u * g)) by (nonlinear_arith);
    if t == k {
        assert(e(0real) == 1real);
        assert(u * 0real == 0real) by (nonlinear_arith);
    }
}

/// The pairing of a cone point with a dual one, divided by `y`.
proof fn lemma_pairing(
    e: spec_fn(real) -> real,
    l: spec_fn(real) -> real,
    u: real,
    v: real,
    w: real,
    x: real,
    y: real,
    z: real,
)
    requires
        exponential(e, l),
        w >= 0real,
        in_exp(e, x, y, z),
        u * (x * inv(y)) + v + w * e(x * inv(y)) >= 0real,
    ensures
        pairing3(u, v, w, x, y, z) >= 0real,
{
    let i = inv(y);
    let t = x * i;
    let et = e(t);
    lemma_inv(y);
    let a = u * t + v + w * et;
    assert(y * a >= 0real) by (nonlinear_arith)
        requires
            y > 0real,
            a >= 0real,
    ;
    let (b, c) = (u * t, w * et);
    assert(y * (b + v + c) == y * b + v * y + y * c) by (nonlinear_arith);
    assert(y * (u * (x * i)) == u * ((i * y) * x)) by (nonlinear_arith);
    assert(1real * x == x) by (nonlinear_arith);
    assert(y * (w * et) == w * (y * et)) by (nonlinear_arith);
    let f = y * et;
    assert(w * f <= w * z) by (nonlinear_arith)
        requires
            w >= 0real,
            f <= z,
    ;
}

/// The test tells the dual cone: a point that passes it without tolerance pairs with every point of the cone
/// to a number that is not negative, and one that fails it, with `u` negative and `w` positive or with `u`
/// positive, with some point to a negative one.
pub open spec fn tells_dual_exp<T: Scalar>(d: Seq<T>, tol: T, inside: bool) -> bool {
    forall|r: spec_fn(T) -> real, e: spec_fn(real) -> real, l: spec_fn(real) -> real|
        exact(r) && exact_order(r) && #[trigger] exact_powers(r, e, l) && r(tol) == 0real ==> {
            let (u, v, w) = (r(d[0]), r(d[1]), r(d[2]));
            &&& inside ==> forall|x: real, y: real, z: real| #[trigger]
                in_exp(e, x, y, z) ==> pairing3(u, v, w, x, y, z) >= 0real
            &&& !inside && ((u < 0real && w > 0real) || u > 0real || (u < 0real && w <= 0real)) ==> exists|
                x: real,
                y: real,
                z: real,
            | #[trigger] in_exp(e, x, y, z) && pairing3(u, v, w, x, y, z) < 0real
        }
}

/// The test of the dual cone tells the dual of the exponential cone.
pub proof fn dual_test_tells_the_dual_exponential_cone<T: Scalar>(d: Seq<T>, tol: T)
    ensures
        tells_dual_exp(d, tol, dual_interior(d, tol)),
{
    let inside = dual_interior(d, tol);
    assert forall|r: spec_fn(T) -> real, e: spec_fn(real) -> real, l: spec_fn(real) -> real|
        exact(r) && exact_order(r) && #[trigger] exact_powers(r, e, l) && r(tol) == 0real implies {
        let (u, v, w) = (r(d[0]), r(d[1]), r(d[2]));
        &&& inside ==> forall|x: real, y: real, z: real| #[trigger]
            in_exp(e, x, y, z) ==> pairing3(u, v, w, x, y, z) >= 0real
        &&& !inside && ((u < 0real && w > 0real) || u > 0real || (u < 0real && w <= 0real)) ==> exists|
            x: real,
            y: real,
            z: real,
        | #[trigger] in_exp(e, x, y, z) && pairing3(u, v, w, x, y, z) < 0real
    } by {
        let (u, v, w) = (r(d[0]), r(d[1]), r(d[2]));
        lemma_unit(e, l);
        if u < 0real && w > 0real {
            lemma_over(r, d[1], d[0]);
            lemma_dual_test(e, l, u, v, w);
            if inside {
                assert forall|x: real, y: real, z: real| #[trigger] in_exp(e, x, y, z) implies pairing3(
                    u,
                    v,
                    w,
                    x,
                    y,
                    z,
                ) >= 0real by {
                    lemma_curve(e, l, u, v, w, x * inv(y));
                    lemma_pairing(e, l, u, v, w, x, y, z);
                }
            } else {
                let t = -l(w * inv(-u));
                lemma_curve(e, l, u, v, w, t);
                lemma_at_one(e, t, u, v, w);
                assert(in_exp(e, t, 1real, e(t)));
            }
        } else if inside {
            assert(u == 0real && v >= 0real && w > 0real);
            assert forall|x: real, y: real, z: real| #[trigger] in_exp(e, x, y, z) implies pairing3(
                u,
                v,
                w,
                x,
                y,
                z,
            ) >= 0real by {
                lemma_last_positive(e, l, x, y, z);
                assert(0real * x == 0real) by (nonlinear_arith);
                assert(v * y >= 0real) by (nonlinear_arith)
                    requires
                        v >= 0real,
                        y > 0real,
                ;
                assert(w * z >= 0real) by (nonlinear_arith)
                    requires
                        w > 0real,
                        z > 0real,
                ;
            }
        } else if u > 0real {
            // Far to the left of the curve.
            let b = 1real + magnitude(v) + magnitude(w);
            lemma_ratio(b, u);
            let t = -(b * inv(u));
            let q = b * inv(u);
            assert(u * (-q) == -(u * q)) by (nonlinear_arith);
            lemma_at_one(e, t, u, v, w);
            lemma_grows(e, l, t, 0real);
            let y = e(t);
            lemma_positive(e, l, t);
            assert(w * y <= magnitude(w)) by {
                let m = magnitude(w);
                assert(w * y <= m * y) by (nonlinear_arith)
                    requires
                        w <= m,
                        y > 0real,
                ;
                assert(m * y <= m * 1real) by (nonlinear_arith)
                    requires
                        m >= 0real,
                        y <= 1real,
                ;
                assert(m * 1real == m) by (nonlinear_arith);
            }
            assert(in_exp(e, t, 1real, e(t)));
        } else if u < 0real && w <= 0real {
            let b = 1real + magnitude(v);
            lemma_ratio(b, -u);
            let t = b * inv(-u);
            assert((-u) * t == -(u * t)) by (nonlinear_arith);
            lemma_at_one(e, t, u, v, w);
            lemma_positive(e, l, t);
            let y = e(t);
            assert(w * y <= 0real) by (nonlinear_arith)
                requires
                    w <= 0real,
                    y > 0real,
            ;
            assert(in_exp(e, t, 1real, e(t)));
        }
    }
}

proof fn lemma_unit(e: spec_fn(real) -> real, l: spec_fn(real) -> real)
    requires
        exponential(e, l),
    ensures
        inv(1real) == 1real,
{
    lemma_inv(1real);
    let i = inv(1real);
    assert(i * 1real == i) by (nonlinear_arith);
}

/// The point of the curve at `y = 1`.
proof fn lemma_at_one(e: spec_fn(real) -> real, t: real, u: real, v: real, w: real)
    requires
        inv(1real) == 1real,
    ensures
        in_exp(e, t, 1real, e(t)),
        pairing3(u, v, w, t, 1real, e(t)) == u * t + v + w * e(t),
{
    assert(t * 1real == t) by (nonlinear_arith);
    let y = e(t);
    assert(1real * y == y) by (nonlinear_arith);
    assert(v * 1real == v) by (nonlinear_arith);
}

} // verus!
