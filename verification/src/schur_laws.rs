//! Laws of the eliminations, where the operations of the numbers are exact: what remains of a system is
//! its Schur complement.
use crate::condensed::{
    condensed_diag, condensed_dinv, dense_schur, fold_inverses, remaining_base, remaining_entry, rooted, row_scaling,
    sparse_schur, stacked,
};
use crate::cone::Cone;
use crate::exact::{
    exact, inv, lemma_dot_upto, lemma_over, lemma_sum_same, lemma_sum_single, lemma_sum_zero, sum,
};
use crate::lp_simplex::{last_nonzero, lemma_last_nonzero};
use crate::matrix::nonzero_count;
use crate::problem::QpProblem;
use crate::scalar::Scalar;
use crate::vector::dot_spec;
use vstd::prelude::*;

verus! {

/// What unknown `t` takes from the entry of rows `a` and `b` when it is eliminated: the product of the
/// two entries and of the reciprocal `d` of its pivot.
pub open spec fn taken<T>(v: spec_fn(T) -> real, d: T, a: T, b: T) -> real {
    v(d) * v(a) * v(b)
}

/// What all unknowns take from the entry of rows `a` and `b`.
pub open spec fn all_taken<T>(v: spec_fn(T) -> real, dinv: Seq<T>, a: Seq<T>, b: Seq<T>, k: nat) -> real {
    sum(|t: int| taken(v, dinv[t], a[t], b[t]), k)
}

proof fn lemma_taken_zero<T: Scalar>(v: spec_fn(T) -> real, d: T, a: T, b: T)
    requires
        v(a) == 0real || v(b) == 0real,
    ensures
        taken(v, d, a, b) == 0real,
{
    let (x, y, z) = (v(d), v(a), v(b));
    assert(x * 0real == 0real && 0real * z == 0real && (x * y) * 0real == 0real) by (nonlinear_arith);
}

proof fn lemma_sparse_schur<T: Scalar>(
    v: spec_fn(T) -> real,
    base: T,
    a: Seq<T>,
    b: Seq<T>,
    dinv: Seq<T>,
    k: nat,
)
    requires
        exact(v),
    ensures
        v(sparse_schur(base, a, b, dinv, k)) == v(base) - all_taken(v, dinv, a, b, k),
    decreases k,
{
    if k > 0 {
        lemma_sparse_schur(v, base, a, b, dinv, (k - 1) as nat);
        if a[k - 1].equals(T::zero()) || b[k - 1].equals(T::zero()) {
            lemma_taken_zero(v, dinv[k - 1], a[k - 1], b[k - 1]);
        }
    }
}

pub proof fn lemma_no_entry<T: Scalar>(a: Seq<T>, k: nat)
    requires
        nonzero_count(a, k) == 0,
    ensures
        forall|t: int| 0 <= t < k ==> (#[trigger] a[t]).equals(T::zero()),
    decreases k,
{
    if k > 0 {
        lemma_no_entry(a, (k - 1) as nat);
    }
}

pub proof fn lemma_one_entry<T: Scalar>(a: Seq<T>, k: nat)
    requires
        nonzero_count(a, k) == 1,
    ensures
        last_nonzero(a, k) < k,
        forall|t: int| 0 <= t < k && t != last_nonzero(a, k) ==> (#[trigger] a[t]).equals(T::zero()),
    decreases k,
{
    lemma_last_nonzero(a, k);
    if a[k - 1].equals(T::zero()) {
        lemma_one_entry(a, (k - 1) as nat);
    } else {
        lemma_no_entry(a, (k - 1) as nat);
    }
}

proof fn lemma_rooted<T: Scalar>(v: spec_fn(T) -> real, d: T, a: T, b: T)
    requires
        exact(v),
        v(d) >= 0real,
    ensures
        v(d.sqrt().times(a)) * v(d.sqrt().times(b)) == taken(v, d, a, b),
{
    let (r, x, y) = (v(d.sqrt()), v(a), v(b));
    assert((r * x) * (r * y) == (r * r) * x * y) by (nonlinear_arith);
}

proof fn lemma_dense_schur<T: Scalar>(v: spec_fn(T) -> real, base: T, a: Seq<T>, b: Seq<T>, dinv: Seq<T>)
    requires
        exact(v),
        b.len() == a.len(),
        dinv.len() == a.len(),
        forall|t: int| 0 <= t < dinv.len() ==> v(#[trigger] dinv[t]) >= 0real,
    ensures
        v(dense_schur(base, a, b, dinv)) == v(base) - all_taken(v, dinv, a, b, a.len()),
{
    let n = a.len();
    let (ra, rb) = (rooted(a, dinv), rooted(b, dinv));
    let (na, nb) = (nonzero_count(a, n), nonzero_count(b, n));
    let f = |t: int| taken(v, dinv[t], a[t], b[t]);
    assert forall|t: int| 0 <= t < n implies v(#[trigger] ra[t]) * v(rb[t]) == f(t) by {
        lemma_rooted(v, dinv[t], a[t], b[t]);
    }
    if na == 0 {
        lemma_no_entry(a, n);
        assert forall|t: int| 0 <= t < n implies #[trigger] f(t) == 0real by {
            assert(a[t].equals(T::zero()));
            lemma_taken_zero(v, dinv[t], a[t], b[t]);
        }
        lemma_sum_zero(f, n);
    } else if na == 1 {
        lemma_one_entry(a, n);
        let c = last_nonzero(a, n) as int;
        assert forall|t: int| 0 <= t < n && t != c implies #[trigger] f(t) == 0real by {
            assert(a[t].equals(T::zero()));
            lemma_taken_zero(v, dinv[t], a[t], b[t]);
        }
        lemma_sum_single(f, n, c);
        assert(v(ra[c]) * v(rb[c]) == f(c));
    } else if nb == 0 {
        lemma_no_entry(b, n);
        assert forall|t: int| 0 <= t < n implies #[trigger] f(t) == 0real by {
            assert(b[t].equals(T::zero()));
            lemma_taken_zero(v, dinv[t], a[t], b[t]);
        }
        lemma_sum_zero(f, n);
    } else if nb == 1 {
        lemma_one_entry(b, n);
        let c = last_nonzero(b, n) as int;
        assert forall|t: int| 0 <= t < n && t != c implies #[trigger] f(t) == 0real by {
            assert(b[t].equals(T::zero()));
            lemma_taken_zero(v, dinv[t], a[t], b[t]);
        }
        lemma_sum_single(f, n, c);
        assert(v(ra[c]) * v(rb[c]) == f(c));
    } else {
        lemma_dot_upto(v, ra, rb, n);
        let g = |t: int| v(ra[t]) * v(rb[t]);
        assert forall|t: int| 0 <= t < n implies #[trigger] g(t) == f(t) by {
            assert(v(ra[t]) * v(rb[t]) == f(t));
        }
        lemma_sum_same(g, f, n);
        assert(dot_spec(ra, rb) == crate::vector::dot_upto(ra, rb, n));
    }
}

/// What the folded rows add to the pivot of unknown `c`: `a^2 / (eta^2 + delta)` for each row whose
/// entry stands in column `c`.
pub open spec fn pivot_added<T: Scalar>(
    v: spec_fn(T) -> real,
    prob: QpProblem<T>,
    cones: Seq<Cone>,
    blocks: Seq<Vec<T>>,
    delta: T,
    fold_rc: Seq<(usize, usize)>,
    c: int,
) -> spec_fn(int) -> real {
    |i: int|
        if fold_rc[i].1 == c {
            let a = v(prob.a_in.at(fold_rc[i].0 as int, c));
            a * a * inv(v(row_scaling(cones, blocks, fold_rc[i].0 as int)) + v(delta))
        } else {
            0real
        }
}

proof fn lemma_pivot<T: Scalar>(
    v: spec_fn(T) -> real,
    prob: QpProblem<T>,
    cones: Seq<Cone>,
    blocks: Seq<Vec<T>>,
    rho: T,
    delta: T,
    fold_rc: Seq<(usize, usize)>,
    c: int,
    k: nat,
)
    requires
        exact(v),
        k <= fold_rc.len(),
        forall|i: int|
            0 <= i < fold_rc.len() ==> v(row_scaling(cones, blocks, (#[trigger] fold_rc[i]).0 as int)) + v(delta)
                > 0real,
    ensures
        v(condensed_diag(prob, rho, fold_rc, fold_inverses(cones, blocks, delta, fold_rc), c, k)) == v(prob.p.at(c, c))
            + v(rho) + sum(pivot_added(v, prob, cones, blocks, delta, fold_rc, c), k),
    decreases k,
{
    if k > 0 {
        lemma_pivot(v, prob, cones, blocks, rho, delta, fold_rc, c, (k - 1) as nat);
        let row = fold_rc[k - 1].0 as int;
        let e = row_scaling(cones, blocks, row).plus(delta);
        lemma_over(v, T::one(), e);
        assert(1real * inv(v(e)) == inv(v(e))) by (nonlinear_arith);
    }
}

/// The condensed matrix is the Schur complement of the system after the unknowns and the folded rows are
/// eliminated, whichever way it is built: the entry of two rows is their entry before the elimination
/// less `sum_t b_i[t] b_j[t] / D[t]`, where the pivot `D[t]` of unknown `t` is its diagonal entry with
/// what the folded rows add to it.
pub proof fn condensed_is_the_schur_complement<T: Scalar>(
    v: spec_fn(T) -> real,
    prob: QpProblem<T>,
    cones: Seq<Cone>,
    blocks: Seq<Vec<T>>,
    rho: T,
    delta: T,
    fold_rc: Seq<(usize, usize)>,
    kept: Seq<usize>,
    dense: bool,
    i: int,
    j: int,
)
    requires
        exact(v),
        prob.wf(),
        0 <= i < prob.me() + kept.len(),
        0 <= j < prob.me() + kept.len(),
        forall|r: int| 0 <= r < kept.len() ==> (#[trigger] kept[r]) < prob.mi(),
        forall|r: int|
            0 <= r < fold_rc.len() ==> v(row_scaling(cones, blocks, (#[trigger] fold_rc[r]).0 as int)) + v(delta)
                > 0real,
        forall|c: int| 0 <= c < prob.n() ==> v(#[trigger] prob.p.at(c, c)) + v(rho) > 0real,
    ensures
        ({
            let hinv = fold_inverses(cones, blocks, delta, fold_rc);
            let dinv = condensed_dinv(prob, rho, fold_rc, hinv);
            let pivot = |t: int|
                v(prob.p.at(t, t)) + v(rho) + sum(
                    pivot_added(v, prob, cones, blocks, delta, fold_rc, t),
                    fold_rc.len(),
                );
            let entry = remaining_entry(prob, cones, blocks, delta, kept, dinv, dense);
            let (a, b) = (stacked(prob, kept, i), stacked(prob, kept, j));
            &&& forall|t: int| 0 <= t < prob.n() ==> v(#[trigger] dinv[t]) == inv(pivot(t))
            &&& v(entry(i, j)) == v(remaining_base(prob, cones, blocks, delta, kept, i, j)) - sum(
                |t: int| inv(pivot(t)) * v(a[t]) * v(b[t]),
                prob.n(),
            )
        }),
{
    let n = prob.n();
    let hinv = fold_inverses(cones, blocks, delta, fold_rc);
    let dinv = condensed_dinv(prob, rho, fold_rc, hinv);
    let pivot = |t: int|
        v(prob.p.at(t, t)) + v(rho) + sum(pivot_added(v, prob, cones, blocks, delta, fold_rc, t), fold_rc.len());
    let (a, b) = (stacked(prob, kept, i), stacked(prob, kept, j));
    let base = remaining_base(prob, cones, blocks, delta, kept, i, j);
    assert forall|t: int| 0 <= t < n implies v(#[trigger] dinv[t]) == inv(pivot(t)) && v(dinv[t]) >= 0real by {
        let d = condensed_diag(prob, rho, fold_rc, hinv, t, fold_rc.len());
        lemma_pivot(v, prob, cones, blocks, rho, delta, fold_rc, t, fold_rc.len());
        let added = pivot_added(v, prob, cones, blocks, delta, fold_rc, t);
        assert forall|r: int| 0 <= r < fold_rc.len() implies #[trigger] added(r) >= 0real by {
            if fold_rc[r].1 == t {
                let x = v(prob.a_in.at(fold_rc[r].0 as int, t));
                let s = v(row_scaling(cones, blocks, fold_rc[r].0 as int)) + v(delta);
                lemma_positive_inverse(s);
                lemma_square_weighted(x, inv(s));
            }
        }
        crate::exact::lemma_sum_nonnegative(added, fold_rc.len());
        assert(v(prob.p.at(t, t)) + v(rho) > 0real);
        lemma_over(v, T::one(), d);
        lemma_positive_inverse(v(d));
        assert(1real * inv(v(d)) == inv(v(d))) by (nonlinear_arith);
    }
    if dense {
        lemma_dense_schur(v, base, a, b, dinv);
    } else {
        lemma_sparse_schur(v, base, a, b, dinv, n);
    }
    let f = |t: int| taken(v, dinv[t], a[t], b[t]);
    let g = |t: int| inv(pivot(t)) * v(a[t]) * v(b[t]);
    assert forall|t: int| 0 <= t < n implies #[trigger] f(t) == g(t) by {
        assert(v(dinv[t]) == inv(pivot(t)));
    }
    lemma_sum_same(f, g, n);
}

proof fn lemma_positive_inverse(s: real)
    requires
        s > 0real,
    ensures
        inv(s) > 0real,
{
    assert(1real / s > 0real) by (nonlinear_arith)
        requires
            s > 0real,
    ;
}

proof fn lemma_square_weighted(x: real, w: real)
    requires
        w > 0real,
    ensures
        x * x * w >= 0real,
{
    assert(x * x >= 0real) by (nonlinear_arith);
    let y = x * x;
    assert(y * w >= 0real) by (nonlinear_arith)
        requires
            y >= 0real,
            w > 0real,
    ;
}

} // verus!
