//! What the numbers say when their operations are exact: they are read as real numbers, and sums of
//! products as sums of real numbers.
use crate::scalar::Scalar;
use crate::vector::{dot_spec, dot_upto, inf_norm_upto};
use vstd::prelude::*;

verus! {

/// The numbers of `T` are read as real numbers by `v`, and the operations are exact: a sum reads as
/// the sum, and so for the other operations and the comparisons.
pub open spec fn exact<T: Scalar>(v: spec_fn(T) -> real) -> bool {
    &&& v(T::zero()) == 0real
    &&& v(T::one()) == 1real
    &&& v(T::decimal(2, 0)) == 2real
    &&& v(T::decimal(5, 1)) * 2real == 1real
    &&& forall|a: T, b: T| v(#[trigger] a.plus(b)) == v(a) + v(b)
    &&& forall|a: T, b: T| v(#[trigger] a.minus(b)) == v(a) - v(b)
    &&& forall|a: T, b: T| v(#[trigger] a.times(b)) == v(a) * v(b)
    &&& forall|a: T, b: T| v(b) != 0real ==> v(#[trigger] a.over(b)) == v(a) / v(b)
    &&& forall|a: T| v(#[trigger] a.neg()) == -v(a)
    &&& forall|a: T| v(a) >= 0real ==> v(#[trigger] a.sqrt()) >= 0real && v(a.sqrt()) * v(a.sqrt()) == v(a)
    &&& forall|a: T, b: T| #[trigger] a.equals(b) <==> v(a) == v(b)
    &&& forall|a: T, b: T| #[trigger] a.below(b) <==> v(a) < v(b)
    &&& forall|a: T, b: T| #[trigger] a.at_most(b) <==> v(a) <= v(b)
}

/// The larger and the smaller of two numbers, and the absolute value, are exact too.
pub open spec fn exact_order<T: Scalar>(v: spec_fn(T) -> real) -> bool {
    &&& forall|a: T, b: T|
        v(#[trigger] a.max(b)) == if v(a) < v(b) {
            v(b)
        } else {
            v(a)
        }
    &&& forall|a: T, b: T|
        v(#[trigger] a.min(b)) == if v(b) < v(a) {
            v(b)
        } else {
            v(a)
        }
    &&& forall|a: T|
        v(#[trigger] a.abs()) == if v(a) < 0real {
            -v(a)
        } else {
            v(a)
        }
}

/// The whole number `k` as a real number.
pub open spec fn whole(k: nat) -> real
    decreases k,
{
    if k == 0 {
        0real
    } else {
        whole((k - 1) as nat) + 1real
    }
}

pub proof fn lemma_whole(k: nat)
    ensures
        whole(k) >= 0real,
        k > 0 ==> whole(k) >= 1real,
    decreases k,
{
    if k > 0 {
        lemma_whole((k - 1) as nat);
    }
}

/// Counts are exact.
pub open spec fn exact_counts<T: Scalar>(v: spec_fn(T) -> real) -> bool {
    forall|k: usize| v(#[trigger] T::from_usize(k)) == whole(k as nat)
}

/// The sum of `f(0)` to `f(n - 1)`.
pub open spec fn sum(f: spec_fn(int) -> real, n: nat) -> real
    decreases n,
{
    if n == 0 {
        0real
    } else {
        sum(f, (n - 1) as nat) + f(n - 1)
    }
}

/// The inner product of two vectors, as a real number.
pub open spec fn product<T>(v: spec_fn(T) -> real, a: Seq<T>, b: Seq<T>) -> real {
    sum(|i: int| v(a[i]) * v(b[i]), a.len())
}

pub proof fn lemma_sum_same(f: spec_fn(int) -> real, g: spec_fn(int) -> real, n: nat)
    requires
        forall|i: int| 0 <= i < n ==> #[trigger] f(i) == g(i),
    ensures
        sum(f, n) == sum(g, n),
    decreases n,
{
    if n > 0 {
        lemma_sum_same(f, g, (n - 1) as nat);
    }
}

pub proof fn lemma_sum_plus(f: spec_fn(int) -> real, g: spec_fn(int) -> real, n: nat)
    ensures
        sum(|i: int| f(i) + g(i), n) == sum(f, n) + sum(g, n),
    decreases n,
{
    if n > 0 {
        lemma_sum_plus(f, g, (n - 1) as nat);
    }
}

pub proof fn lemma_sum_times(c: real, f: spec_fn(int) -> real, n: nat)
    ensures
        sum(|i: int| c * f(i), n) == c * sum(f, n),
    decreases n,
{
    if n > 0 {
        lemma_sum_times(c, f, (n - 1) as nat);
        let (s, t) = (sum(f, (n - 1) as nat), f(n - 1));
        assert(c * (s + t) == c * s + c * t) by (nonlinear_arith);
    } else {
        assert(c * 0real == 0real) by (nonlinear_arith);
    }
}

pub proof fn lemma_sum_zero(f: spec_fn(int) -> real, n: nat)
    requires
        forall|i: int| 0 <= i < n ==> #[trigger] f(i) == 0real,
    ensures
        sum(f, n) == 0real,
    decreases n,
{
    if n > 0 {
        lemma_sum_zero(f, (n - 1) as nat);
    }
}

/// A sum with one term that does not vanish.
pub proof fn lemma_sum_single(f: spec_fn(int) -> real, n: nat, k: int)
    requires
        0 <= k < n,
        forall|i: int| 0 <= i < n && i != k ==> #[trigger] f(i) == 0real,
    ensures
        sum(f, n) == f(k),
    decreases n,
{
    if k == n - 1 {
        lemma_sum_zero(f, (n - 1) as nat);
    } else {
        lemma_sum_single(f, (n - 1) as nat, k);
    }
}

/// A sum may be split in two.
pub proof fn lemma_sum_split(f: spec_fn(int) -> real, n: nat, k: nat)
    ensures
        sum(f, n + k) == sum(f, n) + sum(|j: int| f(n + j), k),
    decreases k,
{
    if k > 0 {
        lemma_sum_split(f, n, (k - 1) as nat);
    }
}

/// A sum of sums may be taken in either order.
pub proof fn lemma_sum_swap(f: spec_fn(int, int) -> real, n: nat, m: nat)
    ensures
        sum(|i: int| sum(|j: int| f(i, j), m), n) == sum(|j: int| sum(|i: int| f(i, j), n), m),
    decreases n,
{
    let rows = |i: int| sum(|j: int| f(i, j), m);
    let cols = |j: int| sum(|i: int| f(i, j), n);
    if n == 0 {
        lemma_sum_zero(cols, m);
    } else {
        let k = (n - 1) as nat;
        lemma_sum_swap(f, k, m);
        let short = |j: int| sum(|i: int| f(i, j), k);
        let last = |j: int| f(k as int, j);
        lemma_sum_plus(short, last, m);
        lemma_sum_same(cols, |j: int| short(j) + last(j), m);
    }
}

/// The terms of a sum are not negative, so neither is the sum.
pub proof fn lemma_sum_nonnegative(f: spec_fn(int) -> real, n: nat)
    requires
        forall|i: int| 0 <= i < n ==> #[trigger] f(i) >= 0real,
    ensures
        sum(f, n) >= 0real,
    decreases n,
{
    if n > 0 {
        lemma_sum_nonnegative(f, (n - 1) as nat);
    }
}

pub proof fn lemma_dot_upto<T: Scalar>(v: spec_fn(T) -> real, a: Seq<T>, b: Seq<T>, k: nat)
    requires
        exact(v),
    ensures
        v(dot_upto(a, b, k)) == sum(|i: int| v(a[i]) * v(b[i]), k),
    decreases k,
{
    if k > 0 {
        lemma_dot_upto(v, a, b, (k - 1) as nat);
    }
}

/// The inner product that is computed is the inner product of the real numbers.
pub proof fn products_are_exact<T: Scalar>(v: spec_fn(T) -> real, a: Seq<T>, b: Seq<T>)
    requires
        exact(v),
    ensures
        v(dot_spec(a, b)) == product(v, a, b),
{
    lemma_dot_upto(v, a, b, a.len());
}

/// The reciprocal of a real number.
pub open spec fn inv(x: real) -> real {
    1real / x
}

/// A number times its reciprocal is 1.
pub proof fn lemma_inv(x: real)
    requires
        x != 0real,
    ensures
        inv(x) * x == 1real,
{
    assert((1real / x) * x == 1real) by (nonlinear_arith)
        requires
            x != 0real,
    ;
}

/// A factor may be cancelled.
pub proof fn lemma_cancel(a: real, b: real, x: real)
    requires
        x != 0real,
        a * x == b * x,
    ensures
        a == b,
{
    lemma_inv(x);
    let i = inv(x);
    assert((a * x) * i == a * (i * x)) by (nonlinear_arith);
    assert((b * x) * i == b * (i * x)) by (nonlinear_arith);
}

/// A quotient reads as the product with the reciprocal.
pub proof fn lemma_over<T: Scalar>(v: spec_fn(T) -> real, a: T, b: T)
    requires
        exact(v),
        v(b) != 0real,
    ensures
        v(a.over(b)) == v(a) * inv(v(b)),
        v(a.over(b)) * v(b) == v(a),
        inv(v(b)) * v(b) == 1real,
{
    let (x, y) = (v(a), v(b));
    lemma_inv(y);
    assert((x / y) * y == x) by (nonlinear_arith)
        requires
            y != 0real,
    ;
    let (q, i) = (x / y, inv(y));
    assert((x * i) * y == x * (i * y)) by (nonlinear_arith);
    lemma_cancel(q, x * i, y);
}

/// The absolute value of a real number.
pub open spec fn magnitude(x: real) -> real {
    if x < 0real {
        -x
    } else {
        x
    }
}

/// The largest magnitude among the first `n` values, and zero where there is none.
pub open spec fn largest(f: spec_fn(int) -> real, n: nat) -> real
    decreases n,
{
    if n == 0 {
        0real
    } else if largest(f, (n - 1) as nat) < magnitude(f(n - 1)) {
        magnitude(f(n - 1))
    } else {
        largest(f, (n - 1) as nat)
    }
}

pub proof fn lemma_largest(f: spec_fn(int) -> real, n: nat, i: int)
    requires
        0 <= i < n,
    ensures
        magnitude(f(i)) <= largest(f, n),
    decreases n,
{
    if i < n - 1 {
        lemma_largest(f, (n - 1) as nat, i);
    }
}

pub proof fn lemma_largest_sign(f: spec_fn(int) -> real, n: nat)
    ensures
        largest(f, n) >= 0real,
    decreases n,
{
    if n > 0 {
        lemma_largest_sign(f, (n - 1) as nat);
    }
}

pub proof fn lemma_largest_same(f: spec_fn(int) -> real, g: spec_fn(int) -> real, n: nat)
    requires
        forall|i: int| 0 <= i < n ==> #[trigger] f(i) == g(i),
    ensures
        largest(f, n) == largest(g, n),
    decreases n,
{
    if n > 0 {
        lemma_largest_same(f, g, (n - 1) as nat);
        assert(f(n - 1) == g(n - 1));
    }
}

/// The norm that is computed is the largest magnitude.
pub proof fn norms_are_exact<T: Scalar>(v: spec_fn(T) -> real, a: Seq<T>, k: nat)
    requires
        exact(v),
        exact_order(v),
    ensures
        v(inf_norm_upto(a, k)) == largest(|i: int| v(a[i]), k),
    decreases k,
{
    if k > 0 {
        norms_are_exact(v, a, (k - 1) as nat);
    }
}

} // verus!
