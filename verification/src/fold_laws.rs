//! The folded rows, where the operations of the numbers are exact: the system without them is the
//! Schur complement of the full one, and what is recovered for them solves their rows.
use crate::cone::Cone;
use crate::condensed::{fold_inverses, fold_list, folds, lemma_lists, row_scaling};
use crate::conic_backends::with_inverses;
use crate::dense_kkt::full_entry;
use crate::exact::{exact, inv, lemma_cancel, lemma_inv, lemma_over, lemma_sum_same, lemma_sum_zero, sum};
use crate::fac::{folded_rx, unfolded};
use crate::folded_kkt::fold_sum;
use crate::kkt_laws::cone_at;
use crate::lp_simplex::last_nonzero;
use crate::problem::QpProblem;
use crate::scalar::Scalar;
use crate::schur_laws::lemma_one_entry;
use crate::system_laws::matrix_of;
use vstd::prelude::*;

verus! {

/// The pivot of folded row `k`, `eta^2 + delta`.
pub open spec fn fold_pivot<T: Scalar>(
    v: spec_fn(T) -> real,
    cones: Seq<Cone>,
    blocks: Seq<Vec<T>>,
    delta: T,
    rows: Seq<(usize, usize)>,
    k: int,
) -> real {
    v(row_scaling(cones, blocks, rows[k].0 as int)) + v(delta)
}

/// The entry of folded row `k` in column `c`.
pub open spec fn fold_entry<T: Scalar>(
    v: spec_fn(T) -> real,
    prob: QpProblem<T>,
    rows: Seq<(usize, usize)>,
    k: int,
    c: int,
) -> real {
    v(prob.a_in.at(rows[k].0 as int, c))
}

/// The rows may be folded: each lies in an orthant and has one entry, in the column that it is listed
/// with; none is listed twice; and no pivot vanishes.
pub open spec fn foldable<T: Scalar>(
    v: spec_fn(T) -> real,
    prob: QpProblem<T>,
    cones: Seq<Cone>,
    blocks: Seq<Vec<T>>,
    delta: T,
    rows: Seq<(usize, usize)>,
) -> bool {
    &&& forall|k: int|
        0 <= k < rows.len() ==> (#[trigger] rows[k]).0 < prob.mi() && rows[k].1 < prob.n()
            && cones[cone_at(cones, rows[k].0 as int)] is NonNeg && fold_pivot(v, cones, blocks, delta, rows, k)
            != 0real
    &&& forall|k: int, c: int|
        0 <= k < rows.len() && 0 <= c < prob.n() && c != rows[k].1 ==> #[trigger] fold_entry(v, prob, rows, k, c)
            == 0real
    &&& forall|i: int, j: int| 0 <= i < j < rows.len() ==> (#[trigger] rows[i]).0 != (#[trigger] rows[j]).0
}

proof fn lemma_fold_columns<T: Scalar>(prob: QpProblem<T>, cones: Seq<Cone>, k: nat)
    requires
        k <= prob.mi() <= usize::MAX,
        prob.n() <= usize::MAX,
    ensures
        forall|i: int|
            0 <= i < fold_list(prob, cones, k).len() ==> (#[trigger] fold_list(prob, cones, k)[i]).1 == last_nonzero(
                prob.a_in.row(fold_list(prob, cones, k)[i].0 as int),
                prob.n(),
            ),
    decreases k,
{
    if k > 0 {
        lemma_fold_columns(prob, cones, (k - 1) as nat);
        let front = fold_list(prob, cones, (k - 1) as nat);
        let list = fold_list(prob, cones, k);
        if folds(prob, cones, k - 1) {
            lemma_one_entry(prob.a_in.row(k - 1), prob.n());
        }
        assert forall|i: int| 0 <= i < list.len() implies (#[trigger] list[i]).1 == last_nonzero(
            prob.a_in.row(list[i].0 as int),
            prob.n(),
        ) by {
            if i < front.len() {
                assert(list[i] == front[i]);
            } else {
                assert((k - 1) as usize as int == k - 1);
            }
        }
    }
}

/// The rows that the engine lists for folding may be folded, wherever no pivot vanishes.
pub proof fn listed_rows_are_foldable<T: Scalar>(
    v: spec_fn(T) -> real,
    prob: QpProblem<T>,
    cones: Seq<Cone>,
    blocks: Seq<Vec<T>>,
    delta: T,
)
    requires
        exact(v),
        prob.wf(),
        forall|k: int|
            0 <= k < fold_list(prob, cones, prob.mi()).len() ==> #[trigger] fold_pivot(
                v,
                cones,
                blocks,
                delta,
                fold_list(prob, cones, prob.mi()),
                k,
            ) != 0real,
    ensures
        foldable(v, prob, cones, blocks, delta, fold_list(prob, cones, prob.mi())),
{
    let rows = fold_list(prob, cones, prob.mi());
    lemma_lists(prob, cones, prob.mi());
    lemma_fold_columns(prob, cones, prob.mi());
    assert forall|k: int| 0 <= k < rows.len() implies (#[trigger] rows[k]).0 < prob.mi() && rows[k].1 < prob.n()
        && cones[cone_at(cones, rows[k].0 as int)] is NonNeg && fold_pivot(v, cones, blocks, delta, rows, k)
        != 0real by {
        assert(folds(prob, cones, rows[k].0 as int));
    }
    assert forall|k: int, c: int| 0 <= k < rows.len() && 0 <= c < prob.n() && c != rows[k].1 implies #[trigger] fold_entry(
        v,
        prob,
        rows,
        k,
        c,
    ) == 0real by {
        let r = rows[k].0 as int;
        assert(folds(prob, cones, r));
        lemma_one_entry(prob.a_in.row(r), prob.n());
        assert(prob.a_in.row(r)[c] == prob.a_in.at(r, c));
        assert(prob.a_in.row(r)[c].equals(T::zero()));
    }
}

proof fn lemma_negated_inverse(p: real)
    requires
        p != 0real,
    ensures
        inv(-p) == -inv(p),
{
    lemma_inv(p);
    lemma_inv(-p);
    let (i, j) = (inv(p), inv(-p));
    assert(j * (-p) == (-j) * p) by (nonlinear_arith);
    lemma_cancel(-j, i, p);
}

proof fn lemma_square(a: real, h: real)
    ensures
        (a * a) * h == -(a * (-h) * a),
{
    assert((a * a) * h == -(a * (-h) * a)) by (nonlinear_arith);
}

proof fn lemma_zero_factor(h: real, b: real)
    ensures
        0real * h * b == 0real,
        b * h * 0real == 0real,
        0real * b == 0real,
{
    assert(0real * h == 0real) by (nonlinear_arith);
    assert(0real * b == 0real) by (nonlinear_arith);
    let t = b * h;
    assert(t * 0real == 0real) by (nonlinear_arith);
}

/// What eliminating folded row `k` takes off the entry of unknowns `i` and `j`.
pub open spec fn fold_taken<T: Scalar>(
    v: spec_fn(T) -> real,
    prob: QpProblem<T>,
    cones: Seq<Cone>,
    blocks: Seq<Vec<T>>,
    delta: T,
    rows: Seq<(usize, usize)>,
    i: int,
    j: int,
) -> spec_fn(int) -> real {
    |k: int|
        fold_entry(v, prob, rows, k, i) * inv(-fold_pivot(v, cones, blocks, delta, rows, k)) * fold_entry(
            v,
            prob,
            rows,
            k,
            j,
        )
}

proof fn lemma_fold_inverse<T: Scalar>(
    v: spec_fn(T) -> real,
    cones: Seq<Cone>,
    blocks: Seq<Vec<T>>,
    delta: T,
    rows: Seq<(usize, usize)>,
    k: int,
)
    requires
        exact(v),
        0 <= k < rows.len(),
        fold_pivot(v, cones, blocks, delta, rows, k) != 0real,
    ensures
        v(fold_inverses(cones, blocks, delta, rows)[k]) == inv(fold_pivot(v, cones, blocks, delta, rows, k)),
        v(fold_inverses(cones, blocks, delta, rows)[k]) * fold_pivot(v, cones, blocks, delta, rows, k) == 1real,
{
    let d = row_scaling(cones, blocks, rows[k].0 as int).plus(delta);
    lemma_over(v, T::one(), d);
    let i = inv(v(d));
    assert(1real * i == i) by (nonlinear_arith);
}

proof fn lemma_fold_sum<T: Scalar>(
    v: spec_fn(T) -> real,
    prob: QpProblem<T>,
    cones: Seq<Cone>,
    blocks: Seq<Vec<T>>,
    delta: T,
    rows: Seq<(usize, usize)>,
    c: int,
    k: nat,
)
    requires
        exact(v),
        foldable(v, prob, cones, blocks, delta, rows),
        0 <= c < prob.n(),
        k <= rows.len(),
    ensures
        v(fold_sum(prob.a_in, rows, fold_inverses(cones, blocks, delta, rows), c, k)) == -sum(
            fold_taken(v, prob, cones, blocks, delta, rows, c, c),
            k,
        ),
    decreases k,
{
    if k > 0 {
        let t = k - 1;
        lemma_fold_sum(v, prob, cones, blocks, delta, rows, c, t as nat);
        let p = fold_pivot(v, cones, blocks, delta, rows, t);
        let a = fold_entry(v, prob, rows, t, c);
        assert(rows[t].1 < prob.n());
        lemma_fold_inverse(v, cones, blocks, delta, rows, t);
        lemma_negated_inverse(p);
        if rows[t].1 == c {
            lemma_square(a, inv(p));
        } else {
            assert(a == 0real);
            lemma_zero_factor(inv(-p), a);
        }
    }
}

/// The folded system is the Schur complement of the full one: between two unknowns, the full entry less
/// what the elimination of the folded rows takes is the entry that the folded system has, which differs
/// from the full one on the diagonal alone. The folded rows are coupled with the unknowns and
/// themselves alone, so every other entry stays.
pub proof fn folded_system_is_the_schur_complement<T: Scalar>(
    v: spec_fn(T) -> real,
    prob: QpProblem<T>,
    cones: Seq<Cone>,
    blocks: Seq<Vec<T>>,
    rho: T,
    delta: T,
    rows: Seq<(usize, usize)>,
    i: int,
    j: int,
)
    requires
        exact(v),
        foldable(v, prob, cones, blocks, delta, rows),
        0 <= i < prob.n(),
        0 <= j < prob.n(),
    ensures
        ({
            let m = matrix_of(v, full_entry(prob, cones, blocks, rho, delta));
            let z = prob.n() + prob.me();
            let hinv = fold_inverses(cones, blocks, delta, rows);
            let taken = sum(
                |k: int|
                    m(i, z + rows[k].0) * inv(m(z + rows[k].0, z + rows[k].0)) * m(z + rows[k].0, j),
                rows.len(),
            );
            &&& i == j ==> m(i, j) - taken == v(
                prob.p.at(i, i).plus(rho).plus(fold_sum(prob.a_in, rows, hinv, i, rows.len())),
            )
            &&& i != j ==> m(i, j) - taken == v(prob.p.at(i, j))
            &&& forall|k: int, e: int|
                0 <= k < rows.len() && prob.n() <= e && e != z + rows[k].0 ==> #[trigger] m(z + rows[k].0, e) == 0real
        }),
{
    let m = matrix_of(v, full_entry(prob, cones, blocks, rho, delta));
    let z = prob.n() + prob.me();
    let f = |k: int| m(i, z + rows[k].0) * inv(m(z + rows[k].0, z + rows[k].0)) * m(z + rows[k].0, j);
    let g = fold_taken(v, prob, cones, blocks, delta, rows, i, j);
    assert forall|k: int| 0 <= k < rows.len() implies #[trigger] f(k) == g(k) by {
        let r = rows[k].0 as int;
        assert(rows[k].1 < prob.n());
        assert(m(z + r, z + r) == -fold_pivot(v, cones, blocks, delta, rows, k));
    }
    lemma_sum_same(f, g, rows.len());
    if i == j {
        lemma_fold_sum(v, prob, cones, blocks, delta, rows, i, rows.len());
    } else {
        assert forall|k: int| 0 <= k < rows.len() implies #[trigger] g(k) == 0real by {
            let h = inv(-fold_pivot(v, cones, blocks, delta, rows, k));
            let (a, b) = (fold_entry(v, prob, rows, k, i), fold_entry(v, prob, rows, k, j));
            if rows[k].1 == i {
                assert(b == 0real);
                lemma_zero_factor(h, a);
            } else {
                assert(a == 0real);
                lemma_zero_factor(h, b);
            }
        }
        lemma_sum_zero(g, rows.len());
    }
    assert forall|k: int, e: int|
        0 <= k < rows.len() && prob.n() <= e && e != z + rows[k].0 implies #[trigger] m(z + rows[k].0, e) == 0real by {
        assert(rows[k].1 < prob.n());
    }
}

proof fn lemma_unfolded<T: Scalar>(
    prob: QpProblem<T>,
    fold: Seq<(usize, usize, T)>,
    dx: Seq<T>,
    rz: Seq<T>,
    dz: Seq<T>,
    k: nat,
)
    requires
        k <= fold.len(),
        forall|i: int| 0 <= i < fold.len() ==> (#[trigger] fold[i]).0 < dz.len(),
        forall|i: int, j: int| 0 <= i < j < fold.len() ==> (#[trigger] fold[i]).0 != (#[trigger] fold[j]).0,
    ensures
        unfolded(prob.a_in, fold, dx, rz, dz, k).len() == dz.len(),
        forall|t: int|
            0 <= t < k ==> unfolded(prob.a_in, fold, dx, rz, dz, k)[(#[trigger] fold[t]).0 as int] == fold[t].2.times(
                prob.a_in.at(fold[t].0 as int, fold[t].1 as int).times(dx[fold[t].1 as int]).minus(
                    rz[fold[t].0 as int],
                ),
            ),
    decreases k,
{
    if k > 0 {
        lemma_unfolded(prob, fold, dx, rz, dz, (k - 1) as nat);
        assert(fold[k - 1].0 < dz.len());
    }
}

proof fn lemma_row_holds(h: real, p: real, t: real, z: real)
    requires
        h * p == 1real,
    ensures
        t - p * (h * (t - z)) == z,
{
    let d = t - z;
    assert(p * (h * d) == (h * p) * d) by (nonlinear_arith);
    assert(1real * d == d) by (nonlinear_arith);
}

proof fn lemma_spread(a: real, h: real, x: real, z: real)
    ensures
        a * (h * (a * x - z)) == (a * a * h) * x - (a * h) * z,
{
    let t = a * x;
    assert(h * (t - z) == h * t - h * z) by (nonlinear_arith);
    let (p, q) = (h * t, h * z);
    assert(a * (p - q) == a * p - a * q) by (nonlinear_arith);
    assert(a * (h * (a * x)) == (a * a * h) * x) by (nonlinear_arith);
    assert(a * (h * z) == (a * h) * z) by (nonlinear_arith);
}

proof fn lemma_plus_times(s: real, t: real, x: real)
    ensures
        (s + t) * x == s * x + t * x,
{
    assert((s + t) * x == s * x + t * x) by (nonlinear_arith);
}

/// What the multipliers of the first `k` folded rows give in the row of unknown `c`.
proof fn lemma_folded_rhs<T: Scalar>(
    v: spec_fn(T) -> real,
    prob: QpProblem<T>,
    cones: Seq<Cone>,
    blocks: Seq<Vec<T>>,
    delta: T,
    rows: Seq<(usize, usize)>,
    dx: Seq<T>,
    rx: Seq<T>,
    rz: Seq<T>,
    dz: Seq<T>,
    c: int,
    k: nat,
)
    requires
        exact(v),
        foldable(v, prob, cones, blocks, delta, rows),
        rx.len() == prob.n(),
        0 <= c < prob.n(),
        k <= rows.len(),
        forall|t: int|
            0 <= t < rows.len() ==> dz[(#[trigger] rows[t]).0 as int] == fold_inverses(
                cones,
                blocks,
                delta,
                rows,
            )[t].times(
                prob.a_in.at(rows[t].0 as int, rows[t].1 as int).times(dx[rows[t].1 as int]).minus(
                    rz[rows[t].0 as int],
                ),
            ),
    ensures
        ({
            let hinv = fold_inverses(cones, blocks, delta, rows);
            let folded = folded_rx(prob.a_in, with_inverses(rows, hinv), rx, rz, k);
            &&& folded.len() == rx.len()
            &&& v(rx[c]) - sum(|t: int| fold_entry(v, prob, rows, t, c) * v(dz[rows[t].0 as int]), k) == v(
                folded[c],
            ) - v(fold_sum(prob.a_in, rows, hinv, c, k)) * v(dx[c])
        }),
    decreases k,
{
    let hinv = fold_inverses(cones, blocks, delta, rows);
    let fold = with_inverses(rows, hinv);
    if k == 0 {
        lemma_zero_factor(0real, v(dx[c]));
    } else {
        let t = k - 1;
        lemma_folded_rhs(v, prob, cones, blocks, delta, rows, dx, rx, rz, dz, c, t as nat);
        let a = fold_entry(v, prob, rows, t, c);
        let h = v(hinv[t]);
        assert(rows[t].1 < prob.n());
        assert(fold[t] == (rows[t].0, rows[t].1, hinv[t]));
        let before = v(fold_sum(prob.a_in, rows, hinv, c, t as nat));
        if rows[t].1 == c {
            let (x, z) = (v(dx[c]), v(rz[rows[t].0 as int]));
            lemma_spread(a, h, x, z);
            lemma_plus_times(before, a * a * h, x);
        } else {
            assert(a == 0real);
            lemma_zero_factor(0real, v(dz[rows[t].0 as int]));
        }
    }
}

/// A direction of the folded system and the multipliers that are recovered for the folded rows solve
/// the full system: each folded row holds, and in the row of every unknown the recovered multipliers
/// give exactly what the folded diagonal and the folded right-hand side stand for.
pub proof fn recovered_multipliers_solve_the_folded_rows<T: Scalar>(
    v: spec_fn(T) -> real,
    prob: QpProblem<T>,
    cones: Seq<Cone>,
    blocks: Seq<Vec<T>>,
    delta: T,
    rows: Seq<(usize, usize)>,
    dx: Seq<T>,
    rx: Seq<T>,
    rz: Seq<T>,
    dz_kept: Seq<T>,
)
    requires
        exact(v),
        foldable(v, prob, cones, blocks, delta, rows),
        rx.len() == prob.n(),
        dz_kept.len() == prob.mi(),
    ensures
        ({
            let hinv = fold_inverses(cones, blocks, delta, rows);
            let fold = with_inverses(rows, hinv);
            let dz = unfolded(prob.a_in, fold, dx, rz, dz_kept, rows.len());
            let folded = folded_rx(prob.a_in, fold, rx, rz, rows.len());
            &&& forall|k: int|
                0 <= k < rows.len() ==> v(prob.a_in.at((#[trigger] rows[k]).0 as int, rows[k].1 as int)) * v(
                    dx[rows[k].1 as int],
                ) - fold_pivot(v, cones, blocks, delta, rows, k) * v(dz[rows[k].0 as int]) == v(rz[rows[k].0 as int])
            &&& forall|c: int|
                0 <= c < prob.n() ==> v(#[trigger] rx[c]) - sum(
                    |t: int| fold_entry(v, prob, rows, t, c) * v(dz[rows[t].0 as int]),
                    rows.len(),
                ) == v(folded[c]) - v(fold_sum(prob.a_in, rows, hinv, c, rows.len())) * v(dx[c])
        }),
{
    let hinv = fold_inverses(cones, blocks, delta, rows);
    let fold = with_inverses(rows, hinv);
    let dz = unfolded(prob.a_in, fold, dx, rz, dz_kept, rows.len());
    let folded = folded_rx(prob.a_in, fold, rx, rz, rows.len());
    assert forall|i: int| 0 <= i < fold.len() implies (#[trigger] fold[i]).0 < dz_kept.len() by {
        assert(rows[i].0 < prob.mi());
    }
    assert forall|i: int, j: int| 0 <= i < j < fold.len() implies (#[trigger] fold[i]).0 != (#[trigger] fold[j]).0 by {
        assert(rows[i].0 != rows[j].0);
    }
    lemma_unfolded(prob, fold, dx, rz, dz_kept, rows.len());
    assert forall|t: int| 0 <= t < rows.len() implies dz[(#[trigger] rows[t]).0 as int] == hinv[t].times(
        prob.a_in.at(rows[t].0 as int, rows[t].1 as int).times(dx[rows[t].1 as int]).minus(rz[rows[t].0 as int]),
    ) by {
        assert(fold[t] == (rows[t].0, rows[t].1, hinv[t]));
    }
    assert forall|k: int| 0 <= k < rows.len() implies v(
        prob.a_in.at((#[trigger] rows[k]).0 as int, rows[k].1 as int),
    ) * v(dx[rows[k].1 as int]) - fold_pivot(v, cones, blocks, delta, rows, k) * v(dz[rows[k].0 as int]) == v(
        rz[rows[k].0 as int],
    ) by {
        lemma_fold_inverse(v, cones, blocks, delta, rows, k);
        let t = v(prob.a_in.at(rows[k].0 as int, rows[k].1 as int)) * v(dx[rows[k].1 as int]);
        lemma_row_holds(v(hinv[k]), fold_pivot(v, cones, blocks, delta, rows, k), t, v(rz[rows[k].0 as int]));
    }
    assert forall|c: int| 0 <= c < prob.n() implies v(#[trigger] rx[c]) - sum(
        |t: int| fold_entry(v, prob, rows, t, c) * v(dz[rows[t].0 as int]),
        rows.len(),
    ) == v(folded[c]) - v(fold_sum(prob.a_in, rows, hinv, c, rows.len())) * v(dx[c]) by {
        lemma_folded_rhs(v, prob, cones, blocks, delta, rows, dx, rx, rz, dz, c, rows.len());
    }
}

} // verus!
