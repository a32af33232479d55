//! The barriers of the exponential cone and of its dual, where the operations of the numbers are exact: they
//! are logarithmically homogeneous, and so are their gradients.
use crate::exact::{exact, inv, lemma_cancel, lemma_inv, lemma_over};
use crate::exp::{dual_gradient, dual_psi, gradient, psi_of};
use crate::exp_laws::{dual_excess, excess, inside_exp, lemma_excess_sign, lemma_last_positive, lemma_psi};
use crate::pow_laws::{exact_powers, exponential, lemma_logarithm, lemma_ratio};
use crate::scalar::Scalar;
use vstd::prelude::*;

verus! {

/// The excess grows with the point.
proof fn lemma_excess_stretched(l: spec_fn(real) -> real, x: real, y: real, z: real, t: real)
    requires
        y > 0real,
        t > 0real,
    ensures
        excess(l, t * x, t * y, t * z) == t * excess(l, x, y, z),
{
    assert(t * y != 0real) by (nonlinear_arith)
        requires
            t > 0real,
            y > 0real,
    ;
    lemma_inv(y);
    lemma_inv(t * y);
    let (i, j) = (inv(y), inv(t * y));
    assert(((t * z) * j) * (t * y) == (t * z) * (j * (t * y))) by (nonlinear_arith);
    assert((z * i) * (t * y) == (t * z) * (i * y)) by (nonlinear_arith);
    lemma_cancel((t * z) * j, z * i, t * y);
    let q = l(z * i);
    assert((t * y) * q - t * x == t * (y * q - x)) by (nonlinear_arith);
}

/// The barrier `-log(psi) - log(y) - log(z)` at readings.
pub open spec fn barrier_at(l: spec_fn(real) -> real, x: real, y: real, z: real) -> real {
    -l(excess(l, x, y, z)) - l(y) - l(z)
}

/// The barrier is logarithmically homogeneous of degree 3.
pub proof fn exponential_barrier_is_logarithmically_homogeneous(
    e: spec_fn(real) -> real,
    l: spec_fn(real) -> real,
    x: real,
    y: real,
    z: real,
    t: real,
)
    requires
        exponential(e, l),
        inside_exp(e, x, y, z),
        t > 0real,
    ensures
        barrier_at(l, t * x, t * y, t * z) == barrier_at(l, x, y, z) - (l(t) + l(t) + l(t)),
{
    lemma_last_positive(e, l, x, y, z);
    lemma_excess_sign(e, l, x, y, z);
    lemma_excess_stretched(l, x, y, z, t);
    lemma_logarithm(e, l, t, excess(l, x, y, z));
    lemma_logarithm(e, l, t, y);
    lemma_logarithm(e, l, t, z);
}

/// The barrier that is computed is `-log(y log(z / y) - x) - log(y) - log(z)`.
pub open spec fn exp_barrier_tells<T: Scalar>(s: Seq<T>, r: T) -> bool {
    forall|v: spec_fn(T) -> real, e: spec_fn(real) -> real, l: spec_fn(real) -> real|
        exact(v) && #[trigger] exact_powers(v, e, l) && inside_exp(e, v(s[0]), v(s[1]), v(s[2])) ==> v(r)
            == barrier_at(l, v(s[0]), v(s[1]), v(s[2]))
}

/// The barrier that is computed is the barrier.
pub proof fn computed_exp_barrier_tells<T: Scalar>(s: Seq<T>)
    ensures
        exp_barrier_tells(s, psi_of(s).ln().neg().minus(s[1].ln()).minus(s[2].ln())),
{
    let r = psi_of(s).ln().neg().minus(s[1].ln()).minus(s[2].ln());
    assert forall|v: spec_fn(T) -> real, e: spec_fn(real) -> real, l: spec_fn(real) -> real|
        exact(v) && #[trigger] exact_powers(v, e, l) && inside_exp(e, v(s[0]), v(s[1]), v(s[2])) implies v(r)
        == barrier_at(l, v(s[0]), v(s[1]), v(s[2])) by {
        lemma_last_positive(e, l, v(s[0]), v(s[1]), v(s[2]));
        lemma_excess_sign(e, l, v(s[0]), v(s[1]), v(s[2]));
        lemma_psi(v, e, l, s);
    }
}

proof fn lemma_ring(a: real, b: real, c: real)
    ensures
        a * b == b * a,
        (a + b) * c == a * c + b * c,
        (a - b) * c == a * c - b * c,
        (-a) * c == -(a * c),
        a * (-c) == -(a * c),
        (a * b) * c == a * (b * c),
        1real * a == a,
        a * 1real == a,
{
    assert(a * b == b * a) by (nonlinear_arith);
    assert((a + b) * c == a * c + b * c) by (nonlinear_arith);
    assert((a - b) * c == a * c - b * c) by (nonlinear_arith);
    assert((-a) * c == -(a * c)) by (nonlinear_arith);
    assert(a * (-c) == -(a * c)) by (nonlinear_arith);
    assert((a * b) * c == a * (b * c)) by (nonlinear_arith);
    assert(1real * a == a) by (nonlinear_arith);
    assert(a * 1real == a) by (nonlinear_arith);
}

/// The readings of the gradient, with the reciprocals of `psi`, `y` and `z`.
proof fn lemma_gradient<T: Scalar>(
    r: spec_fn(T) -> real,
    e: spec_fn(real) -> real,
    l: spec_fn(real) -> real,
    p: T,
    y: T,
    z: T,
)
    requires
        exact(r),
        exact_powers(r, e, l),
        r(p) > 0real,
        r(y) > 0real,
        r(z) > 0real,
    ensures
        ({
            let g = gradient(p, y, z);
            let (i, j, k) = (inv(r(p)), inv(r(y)), inv(r(z)));
            let a = l(r(z) * j) - 1real;
            &&& r(g[0]) == i
            &&& r(g[1]) == -(a * i) - j
            &&& r(g[2]) == -((r(y) * k) * i) - k
        }),
{
    let one = T::one();
    lemma_over(r, one, p);
    lemma_over(r, one, y);
    lemma_over(r, one, z);
    lemma_over(r, z, y);
    lemma_ratio(r(z), r(y));
    let (i, j, k) = (inv(r(p)), inv(r(y)), inv(r(z)));
    let a = l(r(z) * j) - 1real;
    lemma_over(r, z.over(y).ln().minus(one).neg(), p);
    lemma_over(r, y, z);
    lemma_over(r, y.over(z).neg(), p);
    lemma_ring(i, 0real, 0real);
    lemma_ring(j, 0real, 0real);
    lemma_ring(k, 0real, 0real);
    lemma_ring(a, 0real, i);
    lemma_ring(r(y) * k, 0real, i);
}

/// The gradient pairs with its point to -3, and is what the derivatives of the barrier are, multiplied out.
pub open spec fn exp_gradient_tells<T: Scalar>(s: Seq<T>, g: Seq<T>) -> bool {
    forall|r: spec_fn(T) -> real, e: spec_fn(real) -> real, l: spec_fn(real) -> real|
        exact(r) && #[trigger] exact_powers(r, e, l) && inside_exp(e, r(s[0]), r(s[1]), r(s[2])) ==> {
            let (x, y, z) = (r(s[0]), r(s[1]), r(s[2]));
            let p = excess(l, x, y, z);
            &&& r(g[0]) * x + r(g[1]) * y + r(g[2]) * z == -3real
            &&& r(g[0]) * p == 1real
            &&& (r(g[1]) * y) * p == -((l(z * inv(y)) - 1real) * y) - p
            &&& (r(g[2]) * z) * p == -y - p
        }
}

/// The gradient that is computed is that of the barrier.
pub proof fn computed_exp_gradient_tells<T: Scalar>(s: Seq<T>)
    ensures
        exp_gradient_tells(s, gradient(psi_of(s), s[1], s[2])),
{
    let g = gradient(psi_of(s), s[1], s[2]);
    assert forall|r: spec_fn(T) -> real, e: spec_fn(real) -> real, l: spec_fn(real) -> real|
        exact(r) && #[trigger] exact_powers(r, e, l) && inside_exp(e, r(s[0]), r(s[1]), r(s[2])) implies {
        let (x, y, z) = (r(s[0]), r(s[1]), r(s[2]));
        let p = excess(l, x, y, z);
        &&& r(g[0]) * x + r(g[1]) * y + r(g[2]) * z == -3real
        &&& r(g[0]) * p == 1real
        &&& (r(g[1]) * y) * p == -((l(z * inv(y)) - 1real) * y) - p
        &&& (r(g[2]) * z) * p == -y - p
    } by {
        let (x, y, z) = (r(s[0]), r(s[1]), r(s[2]));
        lemma_last_positive(e, l, x, y, z);
        lemma_excess_sign(e, l, x, y, z);
        lemma_psi(r, e, l, s);
        let p = excess(l, x, y, z);
        lemma_gradient(r, e, l, psi_of(s), s[1], s[2]);
        let (i, j, k) = (inv(p), inv(y), inv(z));
        let q = l(z * j);
        let a = q - 1real;
        lemma_inv(p);
        lemma_inv(y);
        lemma_inv(z);
        let (g1, g2) = (r(g[1]), r(g[2]));
        // g1 y = -(a y) i - 1 and g2 z = -y i - 1.
        assert((-(a * i) - j) * y == -((a * y) * i) - j * y) by (nonlinear_arith);
        assert((-((y * k) * i) - k) * z == -((y * i) * (k * z)) - k * z) by (nonlinear_arith);
        lemma_ring(y * i, 0real, 0real);
        let (b, c) = (a * y, y * i);
        // All together: i (x - a y - y) - 2 = -i p - 2.
        assert(i * x - b * i - y * i == -(i * ((b + y) - x))) by (nonlinear_arith);
        assert((q - 1real) * y + y == y * q) by (nonlinear_arith);
        assert((-(b * i) - 1real) * p == -(b * (i * p)) - p) by (nonlinear_arith);
        assert((-(y * i) - 1real) * p == -(y * (i * p)) - p) by (nonlinear_arith);
        lemma_ring(b, 0real, 0real);
        lemma_ring(y, 0real, 0real);
    }
}

/// The readings of the gradient of the dual barrier.
proof fn lemma_dual_gradient<T: Scalar>(
    r: spec_fn(T) -> real,
    e: spec_fn(real) -> real,
    l: spec_fn(real) -> real,
    d: Seq<T>,
)
    requires
        exact(r),
        exact_powers(r, e, l),
        r(d[0]) < 0real,
        r(d[2]) > 0real,
        dual_excess(l, r(d[0]), r(d[1]), r(d[2])) > 0real,
    ensures
        ({
            let (u, v, w) = (r(d[0]), r(d[1]), r(d[2]));
            let g = dual_gradient(d);
            let (i, j, k) = (inv(dual_excess(l, u, v, w)), inv(u), inv(w));
            let q = l(w * inv(-u));
            &&& r(dual_psi(d)) == dual_excess(l, u, v, w)
            &&& r(d[2].over(d[0].neg()).ln()) == q
            &&& r(g[0]) == q * i - j
            &&& r(g[1]) == -i
            &&& r(g[2]) == (u * k) * i - k
        }),
{
    let (u, v, w) = (r(d[0]), r(d[1]), r(d[2]));
    let one = T::one();
    lemma_over(r, d[2], d[0].neg());
    lemma_ratio(w, -u);
    let q = l(w * inv(-u));
    let ps = dual_psi(d);
    let p = r(ps);
    assert(p == dual_excess(l, u, v, w));
    lemma_over(r, d[2].over(d[0].neg()).ln(), ps);
    lemma_over(r, one, d[0]);
    lemma_over(r, one.neg(), ps);
    lemma_over(r, one, d[2]);
    assert(w * p != 0real) by (nonlinear_arith)
        requires
            w > 0real,
            p > 0real,
    ;
    lemma_over(r, d[0], d[2].times(ps));
    lemma_inv(p);
    lemma_inv(w);
    lemma_inv(w * p);
    let (i, j, k, m) = (inv(p), inv(u), inv(w), inv(w * p));
    lemma_ring(j, 0real, 0real);
    lemma_ring(k, 0real, 0real);
    lemma_ring(i, 0real, 0real);
    assert((-1real) * i == -i) by (nonlinear_arith);
    // The reciprocal of a product.
    assert((k * i) * (w * p) == (k * w) * (i * p)) by (nonlinear_arith);
    assert(1real * 1real == 1real);
    lemma_cancel(m, k * i, w * p);
    assert(u * (k * i) == (u * k) * i) by (nonlinear_arith);
}

/// The gradient of the dual barrier pairs with its point to -3, and is what the derivatives are, multiplied
/// out.
pub open spec fn dual_gradient_tells<T: Scalar>(d: Seq<T>, g: Seq<T>) -> bool {
    forall|r: spec_fn(T) -> real, e: spec_fn(real) -> real, l: spec_fn(real) -> real|
        exact(r) && #[trigger] exact_powers(r, e, l) && r(d[0]) < 0real && r(d[2]) > 0real && dual_excess(
            l,
            r(d[0]),
            r(d[1]),
            r(d[2]),
        ) > 0real ==> {
            let (u, v, w) = (r(d[0]), r(d[1]), r(d[2]));
            let p = dual_excess(l, u, v, w);
            &&& r(g[0]) * u + r(g[1]) * v + r(g[2]) * w == -3real
            &&& (r(g[0]) * u) * p == u * l(w * inv(-u)) - p
            &&& r(g[1]) * p == -1real
            &&& (r(g[2]) * w) * p == u - p
        }
}

/// The gradient that is computed is that of the dual barrier.
pub proof fn computed_dual_gradient_tells<T: Scalar>(d: Seq<T>)
    ensures
        dual_gradient_tells(d, dual_gradient(d)),
{
    let g = dual_gradient(d);
    assert forall|r: spec_fn(T) -> real, e: spec_fn(real) -> real, l: spec_fn(real) -> real|
        exact(r) && #[trigger] exact_powers(r, e, l) && r(d[0]) < 0real && r(d[2]) > 0real && dual_excess(
            l,
            r(d[0]),
            r(d[1]),
            r(d[2]),
        ) > 0real implies {
        let (u, v, w) = (r(d[0]), r(d[1]), r(d[2]));
        let p = dual_excess(l, u, v, w);
        &&& r(g[0]) * u + r(g[1]) * v + r(g[2]) * w == -3real
        &&& (r(g[0]) * u) * p == u * l(w * inv(-u)) - p
        &&& r(g[1]) * p == -1real
        &&& (r(g[2]) * w) * p == u - p
    } by {
        let (u, v, w) = (r(d[0]), r(d[1]), r(d[2]));
        let p = dual_excess(l, u, v, w);
        lemma_dual_gradient(r, e, l, d);
        lemma_inv(p);
        lemma_inv(u);
        lemma_inv(w);
        let (i, j, k) = (inv(p), inv(u), inv(w));
        let q = l(w * inv(-u));
        assert((q * i - j) * u == (u * q) * i - j * u) by (nonlinear_arith);
        assert(((u * k) * i - k) * w == (u * i) * (k * w) - k * w) by (nonlinear_arith);
        lemma_ring(u * i, 0real, 0real);
        assert((-i) * v == -(i * v)) by (nonlinear_arith);
        let b = u * q;
        assert(b * i - i * v + u * i == -(i * (v - u - b))) by (nonlinear_arith);
        assert((b * i - 1real) * p == b * (i * p) - p) by (nonlinear_arith);
        assert((u * i - 1real) * p == u * (i * p) - p) by (nonlinear_arith);
        assert((-i) * p == -(i * p)) by (nonlinear_arith);
        lemma_ring(b, 0real, 0real);
        lemma_ring(u, 0real, 0real);
    }
}

} // verus!
