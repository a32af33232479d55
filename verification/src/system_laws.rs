//! Laws of the linear systems, where the operations of the numbers are exact: a stored system and a
//! dense one hold the same matrix, and a solve through a permutation solves the system itself.
use crate::exact::{
    exact, inv, lemma_inv, lemma_sum_plus, lemma_sum_same, lemma_sum_single, lemma_sum_split, lemma_sum_swap,
    lemma_sum_times, sum,
};
use crate::fac::{gathered, lemma_surjective, padded, permutation, split_of, Fac, Solved};
use crate::kkt::{augmented_cols, p_col, stores_row};
use crate::matrix::{raw_column, raw_row};
use crate::problem::QpProblem;
use crate::qp_sparse::dense_entry;
use crate::scalar::Scalar;
use crate::sparse::{lemma_nonzeros, nonzeros};
use vstd::prelude::*;

verus! {

/// Row `i` of the matrix times the vector.
pub open spec fn row_times<T>(v: spec_fn(T) -> real, m: spec_fn(int, int) -> real, x: Seq<T>, i: int) -> real {
    sum(|j: int| m(i, j) * v(x[j]), x.len())
}

/// `x` solves the system with the matrix `m` for the right-hand side `b`.
pub open spec fn solves_system<T>(
    v: spec_fn(T) -> real,
    m: spec_fn(int, int) -> real,
    x: Seq<T>,
    b: Seq<T>,
) -> bool {
    &&& x.len() == b.len()
    &&& forall|i: int| 0 <= i < b.len() ==> #[trigger] row_times(v, m, x, i) == v(b[i])
}

/// The matrix with these entries.
pub open spec fn matrix_of<T>(v: spec_fn(T) -> real, entry: spec_fn(int, int) -> T) -> spec_fn(int, int) -> real {
    |i: int, j: int| v(entry(i, j))
}

/// What a column stores in row `i`, and zero where it stores nothing.
pub open spec fn stored<T>(v: spec_fn(T) -> real, col: Seq<(usize, T)>, i: int) -> real {
    if stores_row(col, i) {
        v(col[choose|k: int| 0 <= k < col.len() && (#[trigger] col[k]).0 == i].1)
    } else {
        0real
    }
}

/// The symmetric matrix whose upper triangle is stored by columns.
pub open spec fn stored_matrix<T>(v: spec_fn(T) -> real, cols: Seq<Seq<(usize, T)>>) -> spec_fn(int, int) -> real {
    |i: int, j: int|
        if i <= j {
            stored(v, cols[j], i)
        } else {
            stored(v, cols[i], j)
        }
}

/// Two matrices with the same entries have the same solutions.
pub proof fn lemma_same_solutions<T>(
    v: spec_fn(T) -> real,
    m: spec_fn(int, int) -> real,
    w: spec_fn(int, int) -> real,
    x: Seq<T>,
    b: Seq<T>,
)
    requires
        forall|i: int, j: int| 0 <= i < b.len() && 0 <= j < b.len() ==> #[trigger] m(i, j) == w(i, j),
    ensures
        solves_system(v, m, x, b) == solves_system(v, w, x, b),
{
    if x.len() == b.len() {
        assert forall|i: int|
            #![trigger row_times(v, m, x, i)]
            #![trigger row_times(v, w, x, i)]
            0 <= i < b.len() implies row_times(v, m, x, i) == row_times(v, w, x, i) by {
            let f = |j: int| m(i, j) * v(x[j]);
            let g = |j: int| w(i, j) * v(x[j]);
            assert forall|j: int| 0 <= j < x.len() implies #[trigger] f(j) == g(j) by {
                assert(m(i, j) == w(i, j));
            }
            lemma_sum_same(f, g, x.len());
        }
    }
}

/// The nonzeros of a vector with one entry below them hold the vector, zeros in place of what is not
/// stored.
proof fn lemma_stored_column<T: Scalar>(v: spec_fn(T) -> real, a: Seq<T>, k: nat, d: usize, e: T, i: int)
    requires
        exact(v),
        k <= a.len(),
        k <= d,
        0 <= i <= d,
    ensures
        stored(v, nonzeros(a, k).push((d, e)), i) == (if i == d {
            v(e)
        } else if i < k {
            v(a[i])
        } else {
            0real
        }),
{
    let front = nonzeros(a, k);
    let col = front.push((d, e));
    lemma_nonzeros(a, k);
    if i == d {
        assert(col[front.len() as int].0 == i);
        let at = choose|k: int| 0 <= k < col.len() && (#[trigger] col[k]).0 == i;
        if at < front.len() {
            assert(col[at] == front[at]);
        }
    } else if i < k && !a[i].equals(T::zero()) {
        assert(front.contains((i as usize, a[i])));
        let p = choose|p: int| 0 <= p < front.len() && front[p] == (i as usize, a[i]);
        assert(col[p].0 == i);
        let at = choose|k: int| 0 <= k < col.len() && (#[trigger] col[k]).0 == i;
        assert(col[at] == front[at]);
    } else {
        if stores_row(col, i) {
            let at = choose|k: int| 0 <= k < col.len() && (#[trigger] col[k]).0 == i;
            assert(col[at] == front[at]);
            assert(!front[at].1.equals(T::zero()));
            assert(false);
        }
    }
}

/// The sparse and the dense augmented system of an iteration hold the same matrix, so they have the same
/// solutions: the linear algebra that is chosen does not change the answer. The sparse system takes the
/// regularization and the lift of the unknowns together.
pub proof fn dense_and_sparse_systems_agree<T: Scalar>(
    v: spec_fn(T) -> real,
    prob: QpProblem<T>,
    rho: T,
    lift: T,
    delta: T,
    dz: Seq<T>,
)
    requires
        exact(v),
        prob.wf(),
        dz.len() == prob.mi(),
        prob.n() + prob.me() + prob.mi() <= usize::MAX,
        forall|i: int, j: int|
            0 <= i < prob.n() && 0 <= j < prob.n() ==> v(#[trigger] prob.p.at(i, j)) == v(prob.p.at(j, i)),
    ensures
        ({
            let (n, me, mi) = (prob.n(), prob.me(), prob.mi());
            let cols = augmented_cols(
                prob.p.data@,
                n,
                prob.a_eq.data@,
                me,
                prob.a_in.data@,
                mi,
                rho.plus(lift),
                delta,
                dz,
            );
            let (sparse, dense) = (stored_matrix(v, cols), matrix_of(v, dense_entry(prob, rho, lift, delta, dz)));
            &&& forall|i: int, j: int|
                0 <= i < n + me + mi && 0 <= j < n + me + mi ==> #[trigger] sparse(i, j) == dense(i, j)
            &&& forall|x: Seq<T>, b: Seq<T>|
                b.len() == n + me + mi ==> (#[trigger] solves_system(v, sparse, x, b)) == solves_system(v, dense, x, b)
        }),
{
    let (n, me, mi) = (prob.n(), prob.me(), prob.mi());
    let dim = n + me + mi;
    let cols = augmented_cols(prob.p.data@, n, prob.a_eq.data@, me, prob.a_in.data@, mi, rho.plus(lift), delta, dz);
    let entry = dense_entry(prob, rho, lift, delta, dz);
    let (sparse, dense) = (stored_matrix(v, cols), matrix_of(v, entry));
    assert forall|i: int, j: int| 0 <= i <= j < dim implies #[trigger] stored(v, cols[j], i) == v(entry(i, j)) && v(
        entry(j, i),
    ) == v(entry(i, j)) by {
        if j < n {
            let a = raw_column(prob.p.data@, n, n, j);
            assert(cols[j] == p_col(prob.p.data@, n, j, rho.plus(lift), false));
            assert(cols[j] == nonzeros(a, j as nat).push((j as usize, prob.p.at(j, j).plus(rho.plus(lift)))));
            lemma_stored_column(v, a, j as nat, j as usize, prob.p.at(j, j).plus(rho.plus(lift)), i);
            assert(v(prob.p.at(i, j)) == v(prob.p.at(j, i)));
        } else if j < n + me {
            let a = raw_row(prob.a_eq.data@, n, j - n);
            assert(cols[j] == nonzeros(a, n).push((j as usize, delta.neg())));
            lemma_stored_column(v, a, n, j as usize, delta.neg(), i);
        } else {
            let r = j - n - me;
            let a = raw_row(prob.a_in.data@, n, r);
            assert(cols[j] == nonzeros(a, n).push((j as usize, dz[r].plus(delta).neg())));
            lemma_stored_column(v, a, n, j as usize, dz[r].plus(delta).neg(), i);
        }
    }
    assert forall|i: int, j: int| 0 <= i < dim && 0 <= j < dim implies #[trigger] sparse(i, j) == dense(i, j) by {
        if i <= j {
            assert(stored(v, cols[j], i) == v(entry(i, j)));
        } else {
            assert(stored(v, cols[i], j) == v(entry(j, i)));
        }
    }
    assert forall|x: Seq<T>, b: Seq<T>| b.len() == dim implies (#[trigger] solves_system(v, sparse, x, b))
        == solves_system(v, dense, x, b) by {
        lemma_same_solutions(v, sparse, dense, x, b);
    }
}

/// A sum does not depend on the order of its terms.
pub proof fn lemma_sum_permuted(f: spec_fn(int) -> real, perm: Seq<usize>)
    requires
        permutation(perm),
    ensures
        sum(|k: int| f(perm[k] as int), perm.len()) == sum(f, perm.len()),
{
    let n = perm.len();
    let hit = |j: int, k: int|
        if perm[k] == j {
            f(j)
        } else {
            0real
        };
    let by_index = |j: int| sum(|k: int| hit(j, k), n);
    let by_place = |k: int| sum(|j: int| hit(j, k), n);
    lemma_sum_swap(hit, n, n);
    assert forall|j: int| 0 <= j < n implies #[trigger] by_index(j) == f(j) by {
        lemma_surjective(perm, j);
        let k = choose|k: int| 0 <= k < perm.len() && #[trigger] perm[k] == j;
        let g = |k: int| hit(j, k);
        assert forall|o: int| 0 <= o < n && o != k implies #[trigger] g(o) == 0real by {
            assert(perm[o] != perm[k]);
        }
        lemma_sum_single(g, n, k);
    }
    lemma_sum_same(by_index, f, n);
    let placed = |k: int| f(perm[k] as int);
    assert forall|k: int| 0 <= k < n implies #[trigger] by_place(k) == placed(k) by {
        let g = |j: int| hit(j, k);
        assert(perm[k] < n);
        lemma_sum_single(g, n, perm[k] as int);
    }
    lemma_sum_same(by_place, placed, n);
}

/// The matrix in the order of a permutation.
pub open spec fn reordered(m: spec_fn(int, int) -> real, perm: Seq<usize>) -> spec_fn(int, int) -> real {
    |i: int, j: int| m(perm[i] as int, perm[j] as int)
}

/// A vector solves a system where its permuted entries solve the permuted system: a solve through an
/// order of elimination gives the solution in the original order.
pub proof fn permuted_solution_solves_the_system<T>(
    v: spec_fn(T) -> real,
    m: spec_fn(int, int) -> real,
    perm: Seq<usize>,
    x: Seq<T>,
    b: Seq<T>,
)
    requires
        permutation(perm),
        x.len() == perm.len(),
        b.len() == perm.len(),
        solves_system(v, reordered(m, perm), gathered(perm, x), gathered(perm, b)),
    ensures
        solves_system(v, m, x, b),
{
    let n = perm.len();
    let (px, pb, pm) = (gathered(perm, x), gathered(perm, b), reordered(m, perm));
    assert forall|i: int| 0 <= i < n implies #[trigger] row_times(v, m, x, i) == v(b[i]) by {
        lemma_surjective(perm, i);
        let k = choose|k: int| 0 <= k < perm.len() && #[trigger] perm[k] == i;
        let f = |j: int| m(i, j) * v(x[j]);
        lemma_sum_permuted(f, perm);
        let g = |j: int| pm(k, j) * v(px[j]);
        let h = |j: int| f(perm[j] as int);
        lemma_sum_same(g, h, n);
        assert(row_times(v, pm, px, k) == v(pb[k]));
    }
}

/// The parts of a direction, one after the other.
pub open spec fn joined<T>(d: Solved<T>) -> Seq<T> {
    d.dx@ + d.dy@ + d.dz@
}

/// What is left of the system of `n` unknowns and `k` auxiliary ones, which are not coupled with each
/// other, after those are eliminated.
pub open spec fn eliminated(m: spec_fn(int, int) -> real, n: nat, k: nat) -> spec_fn(int, int) -> real {
    |i: int, j: int| m(i, j) - sum(|a: int| m(i, n + a) * inv(m(n + a, n + a)) * m(n + a, j), k)
}

/// The auxiliary unknowns are not coupled with each other, and their pivots do not vanish.
pub open spec fn uncoupled(m: spec_fn(int, int) -> real, n: nat, k: nat) -> bool {
    &&& forall|a: int, b: int| 0 <= a < k && 0 <= b < k && a != b ==> #[trigger] m(n + a, n + b) == 0real
    &&& forall|a: int| 0 <= a < k ==> #[trigger] m(n + a, n + a) != 0real
}

/// A solution of a system whose right-hand side is zero in its auxiliary rows solves, without the
/// auxiliary entries, what is left of the system after they are eliminated.
pub proof fn auxiliary_unknowns_are_eliminated<T: Scalar>(
    v: spec_fn(T) -> real,
    m: spec_fn(int, int) -> real,
    k: nat,
    w: Seq<T>,
    b: Seq<T>,
)
    requires
        exact(v),
        w.len() == b.len() + k,
        uncoupled(m, b.len(), k),
        solves_system(v, m, w, padded(b, k)),
    ensures
        solves_system(v, eliminated(m, b.len(), k), w.subrange(0, b.len() as int), b),
{
    let n = b.len();
    let x = w.subrange(0, n as int);
    let left = eliminated(m, n, k);
    let full = padded(b, k);
    // The auxiliary entries follow from the others.
    assert forall|a: int| 0 <= a < k implies v(#[trigger] w[n + a]) == -(inv(m(n + a, n + a)) * sum(
        |j: int| m(n + a, j) * v(x[j]),
        n,
    )) by {
        let r = n + a;
        let f = |j: int| m(r, j) * v(w[j]);
        assert(row_times(v, m, w, r) == v(full[r]));
        assert(full[r] == T::zero());
        lemma_sum_split(f, n, k);
        let g = |j: int| f(n + j);
        assert forall|j: int| 0 <= j < k && j != a implies #[trigger] g(j) == 0real by {
            assert(m(n + a, n + j) == 0real);
            lemma_nothing(v(w[n + j]));
        }
        lemma_sum_single(g, k, a);
        let h = |j: int| m(r, j) * v(x[j]);
        lemma_sum_same(f, h, n);
        let (p, y, s) = (m(r, r), v(w[r]), sum(h, n));
        assert(m(n + a, n + a) != 0real);
        assert(s + p * y == 0real);
        lemma_inv(p);
        lemma_isolate(p, y, s);
    }
    assert forall|i: int| 0 <= i < n implies #[trigger] row_times(v, left, x, i) == v(b[i]) by {
        let f = |j: int| m(i, j) * v(w[j]);
        assert(row_times(v, m, w, i) == v(full[i]));
        lemma_sum_split(f, n, k);
        let kept = |j: int| m(i, j) * v(x[j]);
        lemma_sum_same(f, kept, n);
        let aux = |a: int| f(n + a);
        // What the auxiliary entries give, term by term.
        let term = |a: int, j: int| -(m(i, n + a) * inv(m(n + a, n + a)) * m(n + a, j) * v(x[j]));
        let by_aux = |a: int| sum(|j: int| term(a, j), n);
        assert forall|a: int| 0 <= a < k implies #[trigger] aux(a) == by_aux(a) by {
            let h = |j: int| m(n + a, j) * v(x[j]);
            let c = -(m(i, n + a) * inv(m(n + a, n + a)));
            lemma_sum_times(c, h, n);
            let ch = |j: int| c * h(j);
            let tj = |j: int| term(a, j);
            assert forall|j: int| 0 <= j < n implies #[trigger] ch(j) == tj(j) by {
                lemma_product_order(m(i, n + a), inv(m(n + a, n + a)), m(n + a, j), v(x[j]));
            }
            lemma_sum_same(ch, tj, n);
            lemma_product_negated(m(i, n + a), inv(m(n + a, n + a)), sum(h, n));
            assert(v(w[n + a]) == -(inv(m(n + a, n + a)) * sum(h, n)));
        }
        lemma_sum_same(aux, by_aux, k);
        lemma_sum_swap(term, k, n);
        let by_entry = |j: int| sum(|a: int| term(a, j), k);
        let l = |j: int| left(i, j) * v(x[j]);
        assert forall|j: int| 0 <= j < n implies #[trigger] l(j) == kept(j) + by_entry(j) by {
            let e = |a: int| m(i, n + a) * inv(m(n + a, n + a)) * m(n + a, j);
            let y = v(x[j]);
            lemma_sum_times(-y, e, k);
            let ye = |a: int| -y * e(a);
            let ta = |a: int| term(a, j);
            assert forall|a: int| 0 <= a < k implies #[trigger] ye(a) == ta(a) by {
                lemma_negated_order(e(a), y);
            }
            lemma_sum_same(ye, ta, k);
            lemma_difference_times(m(i, j), sum(e, k), y);
        }
        lemma_sum_plus(kept, by_entry, n);
        lemma_sum_same(l, |j: int| kept(j) + by_entry(j), n);
    }
}

proof fn lemma_nothing(y: real)
    ensures
        0real * y == 0real,
{
    assert(0real * y == 0real) by (nonlinear_arith);
}

proof fn lemma_isolate(p: real, y: real, s: real)
    requires
        inv(p) * p == 1real,
        s + p * y == 0real,
    ensures
        y == -(inv(p) * s),
{
    let i = inv(p);
    assert(i * (p * y) == (i * p) * y) by (nonlinear_arith);
    assert(1real * y == y) by (nonlinear_arith);
    let t = p * y;
    assert(i * (-t) == -(i * t)) by (nonlinear_arith);
    assert(s == -t);
}

proof fn lemma_product_order(a: real, b: real, c: real, d: real)
    ensures
        -(a * b) * (c * d) == -(a * b * c * d),
{
    let e = a * b;
    assert(-e * (c * d) == -(e * c * d)) by (nonlinear_arith);
}

proof fn lemma_product_negated(a: real, b: real, s: real)
    ensures
        a * (-(b * s)) == -(a * b) * s,
{
    assert(a * (-(b * s)) == -(a * b) * s) by (nonlinear_arith);
}

proof fn lemma_negated_order(e: real, y: real)
    ensures
        -y * e == -(e * y),
{
    assert(-y * e == -(e * y)) by (nonlinear_arith);
}

proof fn lemma_difference_times(a: real, s: real, y: real)
    ensures
        (a - s) * y == a * y + -y * s,
{
    assert((a - s) * y == a * y + -y * s) by (nonlinear_arith);
}

/// The solve gives solutions of the system with the matrix `m`.
pub open spec fn solves_exactly<T, S: Fn(&[T]) -> Vec<T>>(
    v: spec_fn(T) -> real,
    m: spec_fn(int, int) -> real,
    inner: S,
) -> bool {
    forall|a: &[T], w: Vec<T>| #[trigger] inner.ensures((a,), w) ==> solves_system(v, m, w@, a@)
}

/// A solve inverts the matrix that was factored, whatever was solved before: the direction is the
/// solution of the augmented system `m` for the right-hand side. A sparse factor is one of the matrix in
/// the order of the permutation, and an arrow factor one of a matrix whose auxiliary unknowns are then
/// eliminated.
pub proof fn solve_inverts_the_factored_matrix<T: Scalar, S: Fn(&[T]) -> Vec<T>, G: Fn(&[T]) -> Vec<T>>(
    v: spec_fn(T) -> real,
    m: spec_fn(int, int) -> real,
    fac: Fac<T>,
    prob: QpProblem<T>,
    perm: Seq<usize>,
    rhs: Seq<T>,
    inner: S,
    schur: G,
    out: Solved<T>,
)
    requires
        exact(v),
        fac.fits(prob, perm, rhs.len()),
        fac.solves(prob, perm, rhs, inner, schur, out),
        match fac {
            Fac::Sparse => solves_exactly(v, reordered(m, perm), inner),
            Fac::ArrowSparse { n_aux } => solves_exactly(v, reordered(m, perm), inner) && uncoupled(
                m,
                rhs.len(),
                n_aux as nat,
            ),
            Fac::Dense => solves_exactly(v, m, inner),
            _ => false,
        },
    ensures
        match fac {
            Fac::ArrowSparse { n_aux } => solves_system(v, eliminated(m, rhs.len(), n_aux as nat), joined(out), rhs),
            _ => solves_system(v, m, joined(out), rhs),
        },
{
    let (n, me) = (prob.n(), prob.me());
    match fac {
        Fac::Sparse => {
            let (a, w, x) = choose|a: &[T], w: Vec<T>, x: Seq<T>|
                {
                    &&& a@ == gathered(perm, rhs)
                    &&& #[trigger] inner.ensures((a,), w)
                    &&& #[trigger] gathered(perm, x) == w@
                    &&& x.len() == rhs.len()
                    &&& split_of(x, n, me, (rhs.len() - n - me) as nat, out)
                };
            permuted_solution_solves_the_system(v, m, perm, x, rhs);
            assert(joined(out) =~= x);
        },
        Fac::ArrowSparse { n_aux } => {
            let k = n_aux as nat;
            let (a, w, x) = choose|a: &[T], w: Vec<T>, x: Seq<T>|
                {
                    &&& a@ == gathered(perm, padded(rhs, k))
                    &&& #[trigger] inner.ensures((a,), w)
                    &&& #[trigger] gathered(perm, x) == w@
                    &&& x.len() == rhs.len() + n_aux
                    &&& split_of(x, n, me, prob.mi(), out)
                };
            permuted_solution_solves_the_system(v, m, perm, x, padded(rhs, k));
            auxiliary_unknowns_are_eliminated(v, m, k, x, rhs);
            assert(joined(out) =~= x.subrange(0, rhs.len() as int));
        },
        Fac::Dense => {
            let (a, w) = choose|a: &[T], w: Vec<T>|
                {
                    &&& a@ == rhs
                    &&& #[trigger] inner.ensures((a,), w)
                    &&& split_of(w@, n, me, prob.mi(), out)
                };
            assert(joined(out) =~= w@);
        },
        _ => {},
    }
}

} // verus!
