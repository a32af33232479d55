//! The low-rank solve, where the operations of the numbers are exact: what the capacitance matrix is, and
//! what a step that goes through it solves.
use crate::exact::{
    exact, lemma_over, lemma_sum_same, lemma_sum_single, lemma_sum_swap, lemma_sum_times, products_are_exact, sum,
};
use crate::matrix::DenseMatrix;
use crate::optimum_laws::{across, along, lemma_sum_less, lemma_times_less, less};
use crate::scalar::Scalar;
use crate::woodbury::{capacitance, cross_terms, eq_terms, masked_sum, scaled_factor};
use vstd::prelude::*;

verus! {

/// The unit matrix.
pub open spec fn unit(a: int, c: int) -> real {
    if a == c {
        1real
    } else {
        0real
    }
}

proof fn lemma_scaled_sum(a: real, d: real, b: real, w: real)
    ensures
        a * (d * (b * w)) == w * (a * (d * b)),
{
    let e = d * b;
    assert(d * (b * w) == e * w) by (nonlinear_arith)
        requires
            e == d * b,
    ;
    assert(a * (e * w) == w * (a * e)) by (nonlinear_arith);
}

proof fn lemma_units(x: real)
    ensures
        1real * x == x,
        0real * x == 0real,
        x * 0real == 0real,
{
    assert(1real * x == x) by (nonlinear_arith);
    assert(0real * x == 0real) by (nonlinear_arith);
    assert(x * 0real == 0real) by (nonlinear_arith);
}

proof fn lemma_plus_times(a: real, b: real, x: real)
    ensures
        (a + b) * x == a * x + b * x,
{
    assert((a + b) * x == a * x + b * x) by (nonlinear_arith);
}

proof fn lemma_swap_factors(a: real, b: real)
    ensures
        a * b == b * a,
{
    assert(a * b == b * a) by (nonlinear_arith);
}

proof fn lemma_regroup(a: real, b: real, c: real)
    ensures
        a * (b * c) == (a * b) * c,
{
    assert(a * (b * c) == (a * b) * c) by (nonlinear_arith);
}

/// What row `a` of `V'` gives on `D^-1 V w` is the capacitance's row on `w` less `w`.
proof fn lemma_capacitance_row(
    m: spec_fn(int, int) -> real,
    dinv: spec_fn(int) -> real,
    c: spec_fn(int, int) -> real,
    w: spec_fn(int) -> real,
    a: int,
    n: nat,
    k: nat,
)
    requires
        0 <= a < k,
        forall|e: int| 0 <= e < k ==> #[trigger] c(a, e) == unit(a, e) + sum(|j: int| m(j, a) * (dinv(j) * m(j, e)), n),
    ensures
        sum(|j: int| m(j, a) * (dinv(j) * along(m, w, j, k)), n) == along(c, w, a, k) - w(a),
{
    let term = |j: int, e: int| w(e) * (m(j, a) * (dinv(j) * m(j, e)));
    let lhs = |j: int| m(j, a) * (dinv(j) * along(m, w, j, k));
    let by_row = |j: int| sum(|e: int| term(j, e), k);
    assert forall|j: int| 0 <= j < n implies #[trigger] lhs(j) == by_row(j) by {
        let f = |e: int| m(j, e) * w(e);
        let g = |e: int| dinv(j) * f(e);
        lemma_sum_times(dinv(j), f, k);
        lemma_sum_times(m(j, a), g, k);
        let h = |e: int| m(j, a) * g(e);
        let t = |e: int| term(j, e);
        assert forall|e: int| 0 <= e < k implies #[trigger] h(e) == t(e) by {
            lemma_scaled_sum(m(j, a), dinv(j), m(j, e), w(e));
        }
        lemma_sum_same(h, t, k);
    }
    lemma_sum_same(lhs, by_row, n);
    lemma_sum_swap(term, n, k);
    let by_col = |e: int| sum(|j: int| term(j, e), n);
    let whole = |e: int| c(a, e) * w(e);
    let units = |e: int| unit(a, e) * w(e);
    assert forall|e: int| 0 <= e < k implies #[trigger] by_col(e) == less(whole, units)(e) by {
        let f = |j: int| m(j, a) * (dinv(j) * m(j, e));
        lemma_sum_times(w(e), f, n);
        lemma_sum_same(|j: int| w(e) * f(j), |j: int| term(j, e), n);
        lemma_plus_times(unit(a, e), sum(f, n), w(e));
        lemma_swap_factors(sum(f, n), w(e));
    }
    lemma_sum_same(by_col, less(whole, units), k);
    lemma_sum_less(whole, units, k);
    assert forall|e: int| 0 <= e < k && e != a implies #[trigger] units(e) == 0real by {
        lemma_units(w(e));
    }
    lemma_sum_single(units, k, a);
    lemma_units(w(a));
}

/// The step that goes through the capacitance matrix: where `C w = V' u` with `C = I + V' D^-1 V` and
/// `u = D^-1 b`, the vector `x = u - D^-1 V w` has `V' x = w` and solves `(D + V V') x = b`.
pub proof fn capacitance_step_solves_the_system(
    m: spec_fn(int, int) -> real,
    dinv: spec_fn(int) -> real,
    dd: spec_fn(int) -> real,
    c: spec_fn(int, int) -> real,
    b: spec_fn(int) -> real,
    w: spec_fn(int) -> real,
    x: spec_fn(int) -> real,
    n: nat,
    k: nat,
)
    requires
        forall|j: int| 0 <= j < n ==> dinv(j) * #[trigger] dd(j) == 1real,
        forall|a: int, e: int|
            0 <= a < k && 0 <= e < k ==> #[trigger] c(a, e) == unit(a, e) + sum(
                |j: int| m(j, a) * (dinv(j) * m(j, e)),
                n,
            ),
        forall|a: int|
            0 <= a < k ==> #[trigger] along(c, w, a, k) == across(m, |j: int| dinv(j) * b(j), a, n),
        forall|j: int| 0 <= j < n ==> #[trigger] x(j) == dinv(j) * b(j) - dinv(j) * along(m, w, j, k),
    ensures
        forall|a: int| 0 <= a < k ==> #[trigger] across(m, x, a, n) == w(a),
        forall|j: int| 0 <= j < n ==> dd(j) * #[trigger] x(j) + along(m, w, j, k) == b(j),
{
    let u = |j: int| dinv(j) * b(j);
    assert forall|a: int| 0 <= a < k implies #[trigger] across(m, x, a, n) == w(a) by {
        let f = |j: int| m(j, a) * u(j);
        let g = |j: int| m(j, a) * (dinv(j) * along(m, w, j, k));
        let h = |j: int| m(j, a) * x(j);
        assert forall|j: int| 0 <= j < n implies #[trigger] h(j) == less(f, g)(j) by {
            assert(x(j) == u(j) - dinv(j) * along(m, w, j, k));
            lemma_times_less(m(j, a), u(j), dinv(j) * along(m, w, j, k));
        }
        lemma_sum_same(h, less(f, g), n);
        lemma_sum_less(f, g, n);
        lemma_capacitance_row(m, dinv, c, w, a, n, k);
        assert(along(c, w, a, k) == across(m, u, a, n));
    }
    assert forall|j: int| 0 <= j < n implies dd(j) * #[trigger] x(j) + along(m, w, j, k) == b(j) by {
        let s = along(m, w, j, k);
        let (i, d) = (dinv(j), dd(j));
        assert(i * d == 1real);
        lemma_swap_factors(i, d);
        lemma_times_less(d, i * b(j), i * s);
        lemma_regroup(d, i, b(j));
        lemma_regroup(d, i, s);
        lemma_units(b(j));
        lemma_units(s);
    }
}

/// The masked sum is the sum, where the terms that are left out vanish.
proof fn lemma_masked<T: Scalar>(v: spec_fn(T) -> real, start: T, mask: Seq<T>, terms: Seq<T>, k: nat)
    requires
        exact(v),
        k <= mask.len(),
        k <= terms.len(),
        forall|i: int| 0 <= i < k && v(mask[i]) == 0real ==> v(#[trigger] terms[i]) == 0real,
    ensures
        v(masked_sum(start, mask, terms, k)) == v(start) + sum(|i: int| v(terms[i]), k),
    decreases k,
{
    if k > 0 {
        lemma_masked(v, start, mask, terms, (k - 1) as nat);
        if mask[k - 1].equals(T::zero()) {
            assert(v(terms[k - 1]) == 0real);
        }
    }
}

/// The columns of `V`: those of `L`, and the rows of `A_eq` divided by the root of `delta`.
pub open spec fn joint_factor<T: Scalar>(
    v: spec_fn(T) -> real,
    k: nat,
    lt: Seq<T>,
    a_eq: DenseMatrix<T>,
    root: T,
) -> spec_fn(int, int) -> real {
    |j: int, a: int|
        if a < k {
            v(lt[a * a_eq.ncols as nat + j])
        } else {
            v(a_eq.at(a - k, j)) * v(root)
        }
}

/// `root` is the root of the reciprocal of `delta`.
pub open spec fn roots<T: Scalar>(v: spec_fn(T) -> real, root: T, delta: T) -> bool {
    &&& v(delta) > 0real
    &&& root == T::one().over(delta).sqrt()
}

proof fn lemma_root<T: Scalar>(v: spec_fn(T) -> real, root: T, delta: T)
    requires
        exact(v),
        roots(v, root, delta),
    ensures
        v(root) * v(root) == v(T::one().over(delta)),
        v(T::one().over(delta)) * v(delta) == 1real,
{
    lemma_over(v, T::one(), delta);
    let (d, i) = (v(delta), v(T::one().over(delta)));
    assert(i > 0real) by (nonlinear_arith)
        requires
            i * d == 1real,
            d > 0real,
    ;
}

proof fn lemma_gram_term(a: real, b: real, s: real, d: real)
    requires
        s * s == d,
    ensures
        (a * s) * (b * s) == a * (d * b),
{
    assert((a * s) * (b * s) == a * ((s * s) * b)) by (nonlinear_arith);
}

proof fn lemma_eq_term(a: real, d: real, b: real, r: real)
    ensures
        a * d * b * (r * r) == (a * r) * (d * (b * r)),
        a * d * b * (r * r) == (b * r) * (d * (a * r)),
{
    assert(a * d * b * (r * r) == (a * r) * (d * (b * r))) by (nonlinear_arith);
    assert(a * d * b * (r * r) == (b * r) * (d * (a * r))) by (nonlinear_arith);
}

proof fn lemma_cross_term(l: real, d: real, r: real, a: real)
    ensures
        l * d * r * a == l * (d * (a * r)),
        l * d * r * a == (a * r) * (d * l),
{
    assert(l * d * r * a == l * (d * (a * r))) by (nonlinear_arith);
    assert(l * d * r * a == (a * r) * (d * l)) by (nonlinear_arith);
}

/// The capacitance matrix is `I + V' D^-1 V`.
pub proof fn capacitance_is_the_gram_matrix<T: Scalar>(
    v: spec_fn(T) -> real,
    k: nat,
    lt: Seq<T>,
    a_eq: DenseMatrix<T>,
    dinv: Seq<T>,
    root: T,
    delta: T,
    a: int,
    c: int,
)
    requires
        exact(v),
        roots(v, root, delta),
        a_eq.wf(),
        dinv.len() == a_eq.ncols,
        forall|j: int| 0 <= j < dinv.len() ==> v(#[trigger] dinv[j]) >= 0real,
        0 <= a < k + a_eq.nrows,
        0 <= c < k + a_eq.nrows,
    ensures
        v(capacitance(k, lt, a_eq, dinv, delta)(a, c)) == unit(a, c) + sum(
            |j: int|
                joint_factor(v, k, lt, a_eq, root)(j, a) * (v(dinv[j]) * joint_factor(v, k, lt, a_eq, root)(j, c)),
            a_eq.ncols as nat,
        ),
{
    let n = a_eq.ncols as nat;
    let m = joint_factor(v, k, lt, a_eq, root);
    let goal = |j: int| m(j, a) * (v(dinv[j]) * m(j, c));
    lemma_root(v, root, delta);
    if a < k && c < k {
        let (hi, lo) = if a >= c {
            (a, c)
        } else {
            (c, a)
        };
        let (p, q) = (scaled_factor(lt, dinv, n, hi), scaled_factor(lt, dinv, n, lo));
        products_are_exact(v, p, q);
        let f = |j: int| v(p[j]) * v(q[j]);
        assert forall|j: int| 0 <= j < n implies #[trigger] f(j) == goal(j) by {
            let s = v(dinv[j].sqrt());
            assert(v(dinv[j]) >= 0real);
            lemma_gram_term(m(j, a), m(j, c), s, v(dinv[j]));
            lemma_gram_term(m(j, c), m(j, a), s, v(dinv[j]));
            lemma_swap_factors(m(j, a) * s, m(j, c) * s);
        }
        lemma_sum_same(f, goal, n);
    } else if a >= k && c >= k {
        let (lo, hi) = if a <= c {
            (a - k, c - k)
        } else {
            (c - k, a - k)
        };
        let terms = eq_terms(a_eq, dinv, T::one().over(delta), lo, hi);
        let f = |j: int| v(terms[j]);
        assert forall|j: int| 0 <= j < n implies #[trigger] f(j) == goal(j) by {
            lemma_eq_term(v(a_eq.at(lo, j)), v(dinv[j]), v(a_eq.at(hi, j)), v(root));
        }
        assert forall|j: int| 0 <= j < n && v(a_eq.row(lo)[j]) == 0real implies v(#[trigger] terms[j]) == 0real by {
            assert(a_eq.row(lo)[j] == a_eq.at(lo, j));
            let (d, h, i) = (v(dinv[j]), v(a_eq.at(hi, j)), v(T::one().over(delta)));
            lemma_units(d);
            lemma_units(h);
            lemma_units(i);
        }
        lemma_masked(v, T::zero(), a_eq.row(lo), terms, n);
        lemma_sum_same(f, goal, n);
    } else {
        let (l, r) = if a < k {
            (a, c - k)
        } else {
            (c, a - k)
        };
        let terms = cross_terms(lt, a_eq, dinv, root, l, r);
        let f = |j: int| v(terms[j]);
        assert forall|j: int| 0 <= j < n implies #[trigger] f(j) == goal(j) by {
            lemma_cross_term(v(lt[l * n + j]), v(dinv[j]), v(root), v(a_eq.at(r, j)));
        }
        assert forall|j: int| 0 <= j < n && v(a_eq.row(r)[j]) == 0real implies v(#[trigger] terms[j]) == 0real by {
            assert(a_eq.row(r)[j] == a_eq.at(r, j));
            let p = v(lt[l * n + j].times(dinv[j]).times(root));
            lemma_units(p);
        }
        lemma_masked(v, T::zero(), a_eq.row(r), terms, n);
        lemma_sum_same(f, goal, n);
    }
}

} // verus!
