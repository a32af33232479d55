//! Which linear system the orthant engine takes for a problem, what is prepared of it before the first
//! iteration, and the direction that it gives in each.
use crate::fac::permutation;
use crate::kkt::{augmented_cols, augmented_is_upper_triangular, csr_cols, opt_deref};
use crate::lowrank::LowRankDiag;
use crate::lp_simplex::{bound_rows, general_rows, lemma_bound_rows, lemma_general_rows, RowClasses};
use crate::factor::{always_factors_at, factors_at, Method};
use crate::matrix::{diagonal_matrix, zero_matrix, DenseMatrix};
use crate::conic_route::sparse_matrix;
use crate::ordering::{
    has_place, inverts, keeps_places, sort_system, sorted_by, sorting_fits, squared, Sorting,
};
use crate::pc_step::Direction;
use crate::problem::QpProblem;
use crate::qp_blocks::{
    complement_newton, complement_step, low_rank_newton, low_rank_step, range_newton, range_step,
    reduced_newton, reduced_step,
};
use crate::qp_setup::{
    banded_equalities, choose_system, dense_augmented, folds_bounds, is_range_candidate, range_candidate,
    shape_of, sparse_hessian, system_for, takes_bound_folding, QpShape, Settings, System,
};
use crate::qp_sparse::{
    blanked, bound_of_row, bounds_by_row, condensed_cols, condensed_pattern, coupling_at, couplings_stored,
    couplings_written, curvatures_stored, curvatures_written, diagonal_at, diagonal_positions,
    first_augmented, injects, place_of, select_rows, stores_diagonal, unit_folds, write_couplings,
    write_curvatures, AugmentedCache,
};
use crate::qp_systems::{
    augmented_newton, augmented_step, condensed_newton, condensed_step, definite_newton,
    definite_step, factors_pattern, rank_one_newton, rank_one_system, result_fits, same_pattern,
    sparse_augmented_newton, sparse_augmented_step, Moment, Ordered, Setting,
};
use crate::qp_directions::Point;
use crate::range_space::{
    all_placed, ascending, cols_fit, coupled, equality_columns, find_pos, found_maps_fit, greater,
    is_columns_of, lemma_columns_fit, lemma_find, lemma_partner_of, lesser, maps_fit, maps_of, pair_pos,
    pattern_col, placed, plan_complement, range_maps, too_dense, RangeMaps,
};
use crate::scalar::Scalar;
use crate::sparse::{lemma_nonzeros, nonzeros, CscMatrix};
use vstd::prelude::*;

verus! {

/// The factorizations.
pub struct Factors<K, P, S> {
    /// Of a dense matrix by a method, which may fail.
    pub dense: K,
    /// Of a dense matrix, with pivoting.
    pub pivoted: P,
    /// Of a sparse matrix, given by its upper triangle, with a tolerance for its pivots.
    pub sparse: S,
}

/// The factorizations take matrices of every size, and their factors solve systems of that size.
pub open spec fn factors_fit<
    T: Scalar,
    F: Fn(&[T]) -> Vec<T>,
    G: Fn(&[T]) -> Vec<T>,
    K: Fn(&DenseMatrix<T>, Method<T>) -> Option<F>,
    P: Fn(&DenseMatrix<T>) -> F,
    S: Fn(&CscMatrix<T>, T) -> Option<G>,
>(tools: Factors<K, P, S>) -> bool {
    &&& forall|dim: nat| #[trigger] factors_at(tools.dense, dim)
    &&& forall|dim: nat| #[trigger] always_factors_at(tools.pivoted, dim)
    &&& forall|s: CscMatrix<T>| squared(s) ==> #[trigger] factors_pattern(tools.sparse, s)
}

/// What is prepared of the chosen system.
pub enum Plan<T> {
    /// The condensed system of a low-rank Hessian; the bound rows by row.
    LowRank { by_row: Vec<(usize, T)> },
    RankOne,
    /// The sparse condensed system, with the places of its diagonal.
    Condensed { pattern: CscMatrix<T>, perm: Vec<usize>, dpos: Vec<usize> },
    Definite,
    /// The dense augmented system.
    Dense,
    /// The sparse augmented system.
    Sparse { cache: AugmentedCache<T>, pattern: CscMatrix<T>, perm: Vec<usize>, folding: bool },
    Complement,
    /// The sparse complement of the equality rows.
    Range { cols: Vec<Vec<(usize, T)>>, maps: RangeMaps<T>, pattern: CscMatrix<T>, perm: Vec<usize> },
    Reduced,
}

/// The shape of the problem's systems, the complement of the equality rows not yet looked at.
pub open spec fn base_shape<T: Scalar>(prob: QpProblem<T>, set: Settings<T>, low_rank: bool) -> QpShape {
    QpShape {
        n: prob.n() as usize,
        me: prob.me() as usize,
        mi: prob.mi() as usize,
        general: general_rows(prob, prob.mi()).len() as usize,
        p_zero: zero_matrix(prob.p),
        p_diagonal: diagonal_matrix(prob.p),
        p_sparse: sparse_hessian(prob),
        ain_sparse: sparse_matrix(prob.a_in),
        banded: banded_equalities(prob),
        sparse_kkt: set.sparse_kkt,
        low_rank,
        range: false,
    }
}

/// `k` is the pattern of the complement of the equality rows with the coupled pairs `pairs`.
pub open spec fn complement_of<T: Scalar>(me: nat, pairs: Seq<(usize, usize)>, k: CscMatrix<T>) -> bool {
    squared(k) && k.n == me && k.cols() == Seq::new(me, |c: int| pattern_col::<T>(pairs, c))
}

/// `found` is what comes of looking at the complement of the equality rows: where the shape makes it a
/// candidate and it is sparse enough, its order and the places of the contributions to it.
pub open spec fn looked<
    T: Scalar,
    O: Fn(&CscMatrix<T>) -> Vec<usize>,
    R: Fn(&CscMatrix<T>) -> Vec<usize>,
    U: Fn(&CscMatrix<T>, &[usize]) -> CscMatrix<T>,
>(
    prob: QpProblem<T>,
    shape: QpShape,
    sort: Sorting<O, R, U>,
    cols: Seq<Vec<(usize, T)>>,
    found: Option<(RangeMaps<T>, CscMatrix<T>, Vec<usize>)>,
) -> bool {
    if !range_candidate(shape) {
        found is None
    } else {
        is_columns_of(prob.a_eq, cols) && exists|pairs: Seq<(usize, usize)>|
            {
                &&& #[trigger] ascending(pairs)
                &&& forall|p: (usize, usize)| #[trigger] pairs.contains(p) <==> coupled(cols, p)
                &&& if too_dense(prob.me(), pairs.len()) {
                    found is None
                } else {
                    found matches Some(f) && mapped(prob, sort, pairs, cols, f)
                }
            }
    }
}

/// `found` is what comes of placing the contributions to the complement with the coupled pairs `pairs`.
pub open spec fn mapped<
    T: Scalar,
    O: Fn(&CscMatrix<T>) -> Vec<usize>,
    R: Fn(&CscMatrix<T>) -> Vec<usize>,
    U: Fn(&CscMatrix<T>, &[usize]) -> CscMatrix<T>,
>(
    prob: QpProblem<T>,
    sort: Sorting<O, R, U>,
    pairs: Seq<(usize, usize)>,
    cols: Seq<Vec<(usize, T)>>,
    found: (RangeMaps<T>, CscMatrix<T>, Vec<usize>),
) -> bool {
    exists|k: CscMatrix<T>, perm: Vec<usize>, s: CscMatrix<T>, pinv: Seq<usize>|
        {
            &&& complement_of(prob.me(), pairs, k)
            &&& #[trigger] sorted_by(sort.complement, sort.permute, k, perm, s)
            &&& #[trigger] inverts(perm@, pinv)
            &&& all_placed(s, pinv, cols)
            &&& found.1 == s
            &&& found.2 == perm
            &&& maps_of(s, pinv, cols, found.0)
        }
}

/// The sparse condensed system is prepared: its pattern is ordered, the couplings of the equality rows
/// and the Hessian's entries above the diagonal are written, and the diagonal is located.
pub open spec fn condensed_planned<
    T: Scalar,
    O: Fn(&CscMatrix<T>) -> Vec<usize>,
    R: Fn(&CscMatrix<T>) -> Vec<usize>,
    U: Fn(&CscMatrix<T>, &[usize]) -> CscMatrix<T>,
>(
    prob: QpProblem<T>,
    sort: Sorting<O, R, U>,
    pattern: CscMatrix<T>,
    perm: Vec<usize>,
    dpos: Seq<usize>,
) -> bool {
    exists|k: CscMatrix<T>, s: CscMatrix<T>, pinv: Seq<usize>|
        {
            &&& squared(k)
            &&& k.cols() == condensed_cols(prob)
            &&& #[trigger] sorted_by(sort.order, sort.permute, k, perm, s)
            &&& #[trigger] inverts(perm@, pinv)
            &&& same_pattern(s, pattern)
            &&& pattern.nzval@ == curvatures_written(
                prob,
                s,
                pinv,
                couplings_written(prob, s, pinv, s.nzval@, prob.me(), 0),
                prob.n(),
                0,
            )
            &&& dpos == Seq::new(prob.n() + prob.me(), |i: int| diagonal_at(s, pinv, i))
        }
}

/// The problem itself calls for the sparse augmented system: a large sparse linear or separable program
/// without equality rows.
pub open spec fn calls_for_sparse(s: QpShape) -> bool {
    (s.p_zero || s.p_diagonal) && s.mi > 0 && s.ain_sparse && s.n >= 64 && s.me == 0
}

/// `g` holds the general rows of `rows`.
pub open spec fn general_part<T: Scalar>(prob: QpProblem<T>, rows: CscMatrix<T>, g: CscMatrix<T>) -> bool {
    let general = general_rows(prob, prob.mi());
    g.cols() == Seq::new(general.len(), |k: int| rows.col(general[k] as int))
}

/// `k` is the augmented system of the starting point: from the general rows with the bounds folded, from
/// the sparse rows, or from the dense ones.
pub open spec fn is_first_system<T: Scalar>(
    prob: QpProblem<T>,
    shape: QpShape,
    folding: bool,
    rows: Option<CscMatrix<T>>,
    rho: T,
    delta: T,
    dz: Seq<T>,
    k: CscMatrix<T>,
) -> bool {
    let units = bound_rows(prob, prob.mi());
    if folding {
        exists|g: CscMatrix<T>| #[trigger]
            general_part(prob, rows->0, g) && k.cols() == csr_cols(
                prob,
                g,
                rho,
                delta,
                dz,
                unit_folds(units, dz, delta, prob.n()),
            )
    } else if calls_for_sparse(shape) {
        k.cols() == csr_cols(prob, rows->0, rho, delta, dz, Seq::empty())
    } else {
        k.cols() == augmented_cols(
            prob.p.data@,
            prob.n(),
            prob.a_eq.data@,
            prob.me(),
            prob.a_in.data@,
            prob.mi(),
            rho,
            delta,
            dz,
        )
    }
}

/// The inequality rows that the sparse augmented system holds.
pub open spec fn rows_held<T: Scalar>(prob: QpProblem<T>, folding: bool) -> nat {
    if folding {
        general_rows(prob, prob.mi()).len()
    } else {
        prob.mi()
    }
}

/// The sparse augmented system is prepared: that of the starting point is ordered, and its constant parts
/// are kept.
pub open spec fn sparse_planned<
    T: Scalar,
    O: Fn(&CscMatrix<T>) -> Vec<usize>,
    R: Fn(&CscMatrix<T>) -> Vec<usize>,
    U: Fn(&CscMatrix<T>, &[usize]) -> CscMatrix<T>,
>(
    prob: QpProblem<T>,
    shape: QpShape,
    rows: Option<CscMatrix<T>>,
    rho: T,
    delta: T,
    dz: Seq<T>,
    sort: Sorting<O, R, U>,
    cache: AugmentedCache<T>,
    pattern: CscMatrix<T>,
    perm: Vec<usize>,
    folding: bool,
) -> bool {
    exists|k: CscMatrix<T>, pinv: Seq<usize>|
        {
            &&& squared(k)
            &&& is_first_system(prob, shape, folding, rows, rho, delta, dz, k)
            &&& #[trigger] sorted_by(sort.order, sort.permute, k, perm, pattern)
            &&& #[trigger] inverts(perm@, pinv)
            &&& cache.is_of(prob, pattern, pinv, rows_held(prob, folding), delta)
        }
}

/// The bound rows by row.
pub open spec fn bounds_of<T: Scalar>(prob: QpProblem<T>) -> Seq<(usize, T)> {
    let units = bound_rows(prob, prob.mi());
    Seq::new(prob.mi(), |r: int| bound_of_row(units, r, units.len()))
}

/// `plan` prepares the system for the problem's shape. `rho`, `delta` and `dz` are the regularization and
/// the quotients of slacks and multipliers at the starting point.
pub open spec fn planned<
    T: Scalar,
    O: Fn(&CscMatrix<T>) -> Vec<usize>,
    R: Fn(&CscMatrix<T>) -> Vec<usize>,
    U: Fn(&CscMatrix<T>, &[usize]) -> CscMatrix<T>,
>(
    prob: QpProblem<T>,
    set: Settings<T>,
    low_rank: bool,
    rows: Option<CscMatrix<T>>,
    rho: T,
    delta: T,
    dz: Seq<T>,
    sort: Sorting<O, R, U>,
    plan: Plan<T>,
) -> bool {
    let base = base_shape(prob, set, low_rank);
    exists|cols: Seq<Vec<(usize, T)>>, found: Option<(RangeMaps<T>, CscMatrix<T>, Vec<usize>)>|
        {
            let shape = QpShape { range: found is Some, ..base };
            &&& #[trigger] looked(prob, base, sort, cols, found)
            &&& match system_for(shape) {
                System::LowRank => plan matches Plan::LowRank { by_row } && by_row@ == bounds_of(prob),
                System::RankOne => plan is RankOne,
                System::SparseCondensed => plan matches Plan::Condensed { pattern, perm, dpos }
                    && condensed_planned(prob, sort, pattern, perm, dpos@),
                System::Definite => plan is Definite,
                System::Augmented => if dense_augmented(shape) {
                    plan is Dense
                } else {
                    plan matches Plan::Sparse { cache, pattern, perm, folding } && folding == folds_bounds(
                        shape,
                        bound_rows(prob, prob.mi()).len(),
                    ) && sparse_planned(
                        prob,
                        shape,
                        rows,
                        rho,
                        delta,
                        dz,
                        sort,
                        cache,
                        pattern,
                        perm,
                        folding,
                    )
                },
                System::Complement => plan is Complement,
                System::Range => plan matches Plan::Range { cols: c, maps, pattern, perm } && c@ == cols && found
                    == Some((maps, pattern, perm)),
                System::Reduced => plan is Reduced,
            }
        }
}

/// What was prepared has the problem's dimensions.
pub open spec fn plan_fits<T: Scalar>(prob: QpProblem<T>, low: Option<LowRankDiag<T>>, plan: Plan<T>) -> bool {
    let n = prob.n();
    let me = prob.me();
    match plan {
        Plan::LowRank { by_row } => {
            &&& low matches Some(lr) && lr.fits(n)
            &&& by_row@.len() == prob.mi()
            &&& forall|i: int| 0 <= i < prob.mi() ==> (#[trigger] by_row@[i]).0 < n
        },
        Plan::RankOne => general_rows(prob, prob.mi()).len() == 1 && me == 0,
        Plan::Condensed { pattern, perm, dpos } => {
            &&& squared(pattern)
            &&& pattern.n == n + me
            &&& permutation(perm@)
            &&& perm@.len() == n + me
            &&& dpos@.len() == n + me
            &&& forall|i: int| 0 <= i < dpos@.len() ==> (#[trigger] dpos@[i]) < pattern.nzval@.len()
            &&& forall|i: int, j: int| 0 <= i < j < dpos@.len() ==> #[trigger] dpos@[i] != #[trigger] dpos@[j]
        },
        Plan::Sparse { cache, pattern, perm, folding } => {
            &&& squared(pattern)
            &&& pattern.n == n + me + rows_held(prob, folding)
            &&& permutation(perm@)
            &&& perm@.len() == pattern.n
            &&& cache.wf()
            &&& cache.x_dpos@.len() == n
            &&& cache.z_dpos@.len() == rows_held(prob, folding)
            &&& cache.fixed@.len() == pattern.nzval@.len()
        },
        Plan::Range { cols, maps, pattern, perm } => {
            &&& cols@.len() == n
            &&& cols_fit(cols@, me)
            &&& maps_fit(maps, pattern.nzval@.len(), n)
            &&& squared(pattern)
            &&& pattern.n == me
            &&& permutation(perm@)
            &&& perm@.len() == me
        },
        _ => true,
    }
}

/// The squares of the systems' dimensions can be counted.
pub open spec fn systems_fit<T: Scalar>(prob: QpProblem<T>, low: Option<LowRankDiag<T>>) -> bool {
    &&& (prob.n() + prob.me() + prob.mi()) * (prob.n() + prob.me() + prob.mi()) <= usize::MAX
    &&& low matches Some(lr) ==> lr.rank + prob.me() <= usize::MAX && (lr.rank + prob.me()) * (lr.rank + prob.me())
        <= usize::MAX
}

proof fn lemma_condensed_places<T: Scalar>(prob: QpProblem<T>, k: CscMatrix<T>, s: CscMatrix<T>, pinv: Seq<usize>)
    requires
        prob.wf(),
        k.n == prob.n() + prob.me(),
        k.cols() == condensed_cols(prob),
        keeps_places(k, pinv, s),
    ensures
        forall|i: int| 0 <= i < prob.n() + prob.me() ==> #[trigger] stores_diagonal(s, pinv, i),
        couplings_stored(prob, s, pinv),
        curvatures_stored(prob, s, pinv),
{
    let n = prob.n();
    assert forall|i: int, c: int| 0 <= i < c < n && !(#[trigger] prob.p.at(i, c)).equals(
        T::zero(),
    ) implies place_of(s, pinv, i, c) is Some by {
        let col = prob.p.column(c);
        lemma_nonzeros(col, c as nat);
        assert(col[i] == prob.p.at(i, c));
        let entries = nonzeros(col, c as nat);
        assert(entries.contains((i as usize, col[i])));
        let a = choose|a: int| 0 <= a < entries.len() && entries[a] == (i as usize, col[i]);
        assert(k.cols()[c] == blanked(entries).push((c as usize, T::zero())));
        let e = k.cols()[c][a];
        assert(e.0 == i);
        assert(has_place(s, pinv, e.0 as int, c));
    }
    assert forall|i: int| 0 <= i < n + prob.me() implies #[trigger] stores_diagonal(s, pinv, i) by {
        let col = k.cols()[i];
        assert(col.len() > 0);
        let e = k.cols()[i][col.len() - 1];
        assert(e.0 == i);
        assert(has_place(s, pinv, e.0 as int, i));
    }
    assert forall|r: int, i: int|
        0 <= r < prob.me() && 0 <= i < n && !(#[trigger] prob.a_eq.at(r, i)).equals(T::zero()) implies coupling_at(
        s,
        pinv,
        n,
        r,
        i,
    ) is Some by {
        let row = prob.a_eq.row(r);
        lemma_nonzeros(row, n);
        assert(row[i] == prob.a_eq.at(r, i));
        let entries = nonzeros(row, n);
        assert(entries.contains((i as usize, row[i])));
        let a = choose|a: int| 0 <= a < entries.len() && entries[a] == (i as usize, row[i]);
        let col = k.cols()[n + r];
        assert(col == blanked(entries).push(((n + r) as usize, T::zero())));
        let e = k.cols()[n + r][a];
        assert(e.0 == i);
        assert(has_place(s, pinv, e.0 as int, n + r));
    }
}

proof fn lemma_apart<T: Scalar>(s: CscMatrix<T>, pinv: Seq<usize>, dpos: Seq<usize>)
    requires
        s.wf(),
        injects(pinv, s.n as nat),
        forall|i: int| 0 <= i < pinv.len() ==> #[trigger] stores_diagonal(s, pinv, i),
        dpos == Seq::new(pinv.len(), |i: int| diagonal_at(s, pinv, i)),
    ensures
        forall|i: int| 0 <= i < dpos.len() ==> (#[trigger] dpos[i]) < s.nzval@.len(),
        forall|i: int, j: int| 0 <= i < j < dpos.len() ==> #[trigger] dpos[i] != #[trigger] dpos[j],
{
    assert forall|i: int| 0 <= i < dpos.len() implies (#[trigger] dpos[i]) < s.nzval@.len()
        && s.rowval@[dpos[i] as int] == pinv[i] by {
        assert(stores_diagonal(s, pinv, i));
        assert(pinv[i] < s.n);
        lemma_find(s, pinv[i] as int, pinv[i] as int, s.colptr@[pinv[i] as int] as int);
    }
    assert forall|i: int, j: int| 0 <= i < j < dpos.len() implies #[trigger] dpos[i] != #[trigger] dpos[j] by {
        assert(pinv[i] != pinv[j]);
    }
}

/// Every column stores its diagonal entry.
spec fn stores_diagonals<T: Scalar>(k: CscMatrix<T>) -> bool {
    forall|c: int| 0 <= c < k.n ==> has_diagonal(#[trigger] k.cols()[c], c)
}

spec fn has_diagonal<T>(col: Seq<(usize, T)>, c: int) -> bool {
    exists|i: int| 0 <= i < col.len() && (#[trigger] col[i]).0 == c
}

proof fn lemma_kept_diagonals<T: Scalar>(k: CscMatrix<T>, s: CscMatrix<T>, pinv: Seq<usize>)
    requires
        stores_diagonals(k),
        keeps_places(k, pinv, s),
    ensures
        forall|i: int| 0 <= i < k.n ==> #[trigger] stores_diagonal(s, pinv, i),
{
    assert forall|c: int| 0 <= c < k.n implies #[trigger] stores_diagonal(s, pinv, c) by {
        assert(has_diagonal(k.cols()[c], c));
        let i = choose|i: int| 0 <= i < k.cols()[c].len() && (#[trigger] k.cols()[c][i]).0 == c;
        assert(has_place(s, pinv, k.cols()[c][i].0 as int, c));
    }
}

/// Whatever order of elimination is taken, the permuted pattern of the complement has a place for the
/// contribution of every coupled pair of rows and for every diagonal entry.
pub proof fn every_pair_is_placed<T: Scalar>(
    me: nat,
    pairs: Seq<(usize, usize)>,
    cols: Seq<Vec<(usize, T)>>,
    k: CscMatrix<T>,
    s: CscMatrix<T>,
    pinv: Seq<usize>,
)
    requires
        cols_fit(cols, me),
        forall|p: (usize, usize)| #[trigger] pairs.contains(p) <==> coupled(cols, p),
        complement_of(me, pairs, k),
        pinv.len() == me,
        keeps_places(k, pinv, s),
    ensures
        all_placed(s, pinv, cols),
{
    assert forall|r: int| 0 <= r < me implies find_pos(s, (#[trigger] pinv[r]) as int, pinv[r] as int) is Some by {
        assert(k.cols()[r] == pattern_col::<T>(pairs, r));
        assert(k.cols()[r][0].0 == r);
        assert(has_place(s, pinv, k.cols()[r][0].0 as int, r));
    }
    assert forall|j: int| 0 <= j < cols.len() implies placed(s, pinv, (#[trigger] cols[j])@) by {
        let rows = cols[j]@;
        assert forall|i: int| 0 <= i < rows.len() implies pair_pos(
            s,
            pinv,
            (#[trigger] rows[i]).0,
            rows[i].0,
        ) is Some by {
            assert(cols[j]@[i].0 < me);
            let r = rows[i].0 as int;
            assert(find_pos(s, pinv[r] as int, pinv[r] as int) is Some);
        }
        if rows.len() >= 2 {
            assert forall|a: int, b: int|
                #![trigger rows[a], rows[b]]
                0 <= a <= b < rows.len() && rows[a].0 != rows[b].0 implies pair_pos(
                s,
                pinv,
                rows[a].0,
                rows[b].0,
            ) is Some by {
                assert(cols[j]@[a].0 < me && cols[j]@[b].0 < me);
                let p = (lesser(rows[a].0, rows[b].0), greater(rows[a].0, rows[b].0));
                assert(coupled(cols, p));
                assert(pairs.contains(p));
                let at = choose|at: int| 0 <= at < pairs.len() && pairs[at] == p;
                let hi = p.1 as int;
                let i = lemma_partner_of(pairs, hi, pairs.len(), at);
                assert(k.cols()[hi] == pattern_col::<T>(pairs, hi));
                assert(k.cols()[hi][i + 1].0 == p.0);
                assert(has_place(s, pinv, k.cols()[hi][i + 1].0 as int, hi));
            }
        }
    }
}

/// Looks at the complement of the equality rows.
fn look<
    T: Scalar,
    O: Fn(&CscMatrix<T>) -> Vec<usize>,
    R: Fn(&CscMatrix<T>) -> Vec<usize>,
    U: Fn(&CscMatrix<T>, &[usize]) -> CscMatrix<T>,
>(prob: &QpProblem<T>, shape: &QpShape, sort: &Sorting<O, R, U>) -> (r: (
    Vec<Vec<(usize, T)>>,
    Option<(RangeMaps<T>, CscMatrix<T>, Vec<usize>)>,
))
    requires
        prob.wf(),
        shape.n + shape.me + shape.mi < usize::MAX,
        sorting_fits(*sort),
    ensures
        looked(*prob, *shape, *sort, r.0@, r.1),
        r.1 matches Some(f) ==> {
            &&& r.0@.len() == prob.n()
            &&& cols_fit(r.0@, prob.me())
            &&& maps_fit(f.0, f.1.nzval@.len(), prob.n())
            &&& squared(f.1)
            &&& f.1.n == prob.me()
            &&& permutation(f.2@)
            &&& f.2@.len() == prob.me()
        },
{
    if !is_range_candidate(shape) {
        return (Vec::new(), None);
    }
    let me: usize = prob.b_eq.len();
    let cols = equality_columns(&prob.a_eq);
    proof {
        lemma_columns_fit(prob.a_eq, cols@);
    }
    let o = plan_complement(me, &cols);
    let ghost pairs = choose|pairs: Seq<(usize, usize)>|
        {
            &&& #[trigger] ascending(pairs)
            &&& forall|p: (usize, usize)| #[trigger] pairs.contains(p) <==> coupled(cols@, p)
            &&& o is None <==> too_dense(me as nat, pairs.len())
            &&& o matches Some(s) ==> s.wf() && s.m == me && s.n == me && s.cols() == Seq::new(
                me as nat,
                |c: int| pattern_col::<T>(pairs, c),
            )
        };
    match o {
        None => {
            assert(looked(*prob, *shape, *sort, cols@, None));
            (cols, None)
        },
        Some(k) => {
            assert(complement_of(prob.me(), pairs, k));
            let (perm, pinv, s) = sort_system(&sort.complement, &sort.permute, &k);
            proof {
                every_pair_is_placed(prob.me(), pairs, cols@, k, s, pinv@);
            }
            match range_maps(&s, &pinv, &cols) {
                None => {
                    assert(false);
                    (cols, None)
                },
                Some(maps) => {
                    proof {
                        found_maps_fit(s, pinv@, cols@, maps);
                    }
                    let found = (maps, s, perm);
                    assert(mapped(*prob, *sort, pairs, cols@, found));
                    assert(looked(*prob, *shape, *sort, cols@, Some(found)));
                    (cols, Some(found))
                },
            }
        },
    }
}

/// Prepares the sparse condensed system.
fn plan_condensed<
    T: Scalar,
    O: Fn(&CscMatrix<T>) -> Vec<usize>,
    R: Fn(&CscMatrix<T>) -> Vec<usize>,
    U: Fn(&CscMatrix<T>, &[usize]) -> CscMatrix<T>,
>(prob: &QpProblem<T>, sort: &Sorting<O, R, U>) -> (plan: Plan<T>)
    requires
        prob.wf(),
        sorting_fits(*sort),
    ensures
        plan matches Plan::Condensed { pattern, perm, dpos } && condensed_planned(
            *prob,
            *sort,
            pattern,
            perm,
            dpos@,
        ),
        plan_fits(*prob, None, plan),
{
    let dim: usize = prob.q.len() + prob.b_eq.len();
    let k = condensed_pattern(prob);
    let (perm, pinv, s) = sort_system(&sort.order, &sort.permute, &k);
    proof {
        lemma_condensed_places(*prob, k, s, pinv@);
    }
    let written = match write_couplings(prob, &s, &pinv) {
        Some(nz) => write_curvatures(prob, &s, &pinv, nz),
        None => None,
    };
    let located = diagonal_positions(&s, &pinv, 0, dim);
    match (written, located) {
        (Some(nz), Some(dpos)) => {
            proof {
                assert(dpos@ =~= Seq::new(prob.n() + prob.me(), |i: int| diagonal_at(s, pinv@, i)));
                lemma_apart(s, pinv@, dpos@);
            }
            let ghost s0 = s;
            let pattern = CscMatrix { m: s.m, n: s.n, colptr: s.colptr, rowval: s.rowval, nzval: nz };
            assert(same_pattern(s0, pattern));
            assert(condensed_planned(*prob, *sort, pattern, perm, dpos@));
            Plan::Condensed { pattern, perm, dpos }
        },
        _ => {
            assert(false);
            Plan::Reduced
        },
    }
}

/// The augmented system of the starting point stores its diagonal.
proof fn lemma_first_system<T: Scalar>(
    prob: QpProblem<T>,
    shape: QpShape,
    folding: bool,
    rows: Option<CscMatrix<T>>,
    g: CscMatrix<T>,
    rho: T,
    delta: T,
    dz: Seq<T>,
    k: CscMatrix<T>,
)
    requires
        prob.wf(),
        k.n == k.cols().len(),
        k.n <= usize::MAX,
        ({
            ||| k.cols() == csr_cols(prob, g, rho, delta, dz, Seq::empty())
            ||| k.cols() == csr_cols(
                prob,
                g,
                rho,
                delta,
                dz,
                unit_folds(bound_rows(prob, prob.mi()), dz, delta, prob.n()),
            )
            ||| k.cols() == augmented_cols(
                prob.p.data@,
                prob.n(),
                prob.a_eq.data@,
                prob.me(),
                prob.a_in.data@,
                prob.mi(),
                rho,
                delta,
                dz,
            )
        }),
    ensures
        stores_diagonals(k),
{
    let n = prob.n();
    let me = prob.me();
    let cols = k.cols();
    let dense = augmented_cols(
        prob.p.data@,
        n,
        prob.a_eq.data@,
        me,
        prob.a_in.data@,
        prob.mi(),
        rho,
        delta,
        dz,
    );
    assert forall|c: int| 0 <= c < k.n implies has_diagonal(#[trigger] k.cols()[c], c) by {
        if cols == dense {
            augmented_is_upper_triangular(
                prob.p.data@,
                n,
                prob.a_eq.data@,
                me,
                prob.a_in.data@,
                prob.mi(),
                rho,
                delta,
                dz,
            );
            assert(dense[c][dense[c].len() - 1].0 == c);
        } else if c < n {
            assert(cols[c][0].0 == c);
        } else {
            assert(cols[c][cols[c].len() - 1].0 == c);
        }
    }
}

/// Prepares the sparse augmented system.
fn plan_sparse<
    T: Scalar,
    O: Fn(&CscMatrix<T>) -> Vec<usize>,
    R: Fn(&CscMatrix<T>) -> Vec<usize>,
    U: Fn(&CscMatrix<T>, &[usize]) -> CscMatrix<T>,
>(
    prob: &QpProblem<T>,
    shape: &QpShape,
    classes: &RowClasses<T>,
    rows: Option<&CscMatrix<T>>,
    rho: T,
    delta: T,
    dz: &[T],
    sort: &Sorting<O, R, U>,
) -> (plan: Plan<T>)
    requires
        prob.wf(),
        shape.n == prob.n(),
        shape.mi == prob.mi(),
        shape.general == classes.general@.len(),
        classes.singleton@ == bound_rows(*prob, prob.mi()),
        classes.general@ == general_rows(*prob, prob.mi()),
        rows matches Some(c) ==> c.wf() && c.m == prob.n() && c.n == prob.mi(),
        calls_for_sparse(*shape) ==> rows is Some,
        dz@.len() == prob.mi(),
        sorting_fits(*sort),
    ensures
        plan matches Plan::Sparse { cache, pattern, perm, folding } && folding == folds_bounds(
            *shape,
            bound_rows(*prob, prob.mi()).len(),
        ) && sparse_planned(
            *prob,
            *shape,
            opt_deref(rows),
            rho,
            delta,
            dz@,
            *sort,
            cache,
            pattern,
            perm,
            folding,
        ),
        plan_fits(*prob, None, plan),
{
    let n: usize = prob.q.len();
    let me: usize = prob.b_eq.len();
    let folding = takes_bound_folding(shape, classes.singleton.len());
    proof {
        lemma_bound_rows(*prob, prob.mi());
        lemma_general_rows(*prob, prob.mi());
    }
    let none: Option<&CscMatrix<T>> = None;
    let calls = (shape.p_zero || shape.p_diagonal) && shape.mi > 0 && shape.ain_sparse && shape.n >= 64 && shape.me
        == 0;
    let source = if calls {
        rows
    } else {
        none
    };
    let held: usize;
    let k: CscMatrix<T>;
    let ghost mut base: CscMatrix<T> = arbitrary();
    match (folding, source) {
        (true, Some(c)) => {
            let g = select_rows(c, &classes.general);
            held = classes.general.len();
            k = first_augmented(prob, source, Some(&g), &classes.singleton, rho, delta, dz);
            proof {
                base = g;
                assert(general_part(*prob, opt_deref(rows)->0, g));
            }
        },
        _ => {
            held = prob.b_in.len();
            k = first_augmented(prob, source, none, &classes.singleton, rho, delta, dz);
            proof {
                if calls {
                    base = *(rows->0);
                }
            }
        },
    }
    assert(is_first_system(*prob, *shape, folding, opt_deref(rows), rho, delta, dz@, k));
    proof {
        lemma_first_system(*prob, *shape, folding, opt_deref(rows), base, rho, delta, dz@, k);
    }
    let (perm, pinv, s) = sort_system(&sort.order, &sort.permute, &k);
    proof {
        lemma_kept_diagonals(k, s, pinv@);
    }
    match AugmentedCache::from_permuted(prob, &s, &pinv, held, delta) {
        Some(cache) => {
            assert(sparse_planned(
                *prob,
                *shape,
                opt_deref(rows),
                rho,
                delta,
                dz@,
                *sort,
                cache,
                s,
                perm,
                folding,
            ));
            Plan::Sparse { cache, pattern: s, perm, folding }
        },
        None => {
            assert(false);
            Plan::Reduced
        },
    }
}

/// Prepares the system for the problem's shape. `rho`, `delta` and `dz` are the regularization and the
/// quotients of slacks and multipliers at the starting point.
pub fn plan_qp<
    T: Scalar,
    O: Fn(&CscMatrix<T>) -> Vec<usize>,
    R: Fn(&CscMatrix<T>) -> Vec<usize>,
    U: Fn(&CscMatrix<T>, &[usize]) -> CscMatrix<T>,
>(
    prob: &QpProblem<T>,
    set: &Settings<T>,
    classes: &RowClasses<T>,
    low: &Option<LowRankDiag<T>>,
    rows: Option<&CscMatrix<T>>,
    rho: T,
    delta: T,
    dz: &[T],
    sort: &Sorting<O, R, U>,
) -> (plan: Plan<T>)
    requires
        prob.wf(),
        *low matches Some(lr) ==> lr.fits(prob.n()) && prob.n() > 0,
        classes.singleton@ == bound_rows(*prob, prob.mi()),
        classes.general@ == general_rows(*prob, prob.mi()),
        rows matches Some(c) ==> c.wf() && c.m == prob.n() && c.n == prob.mi(),
        calls_for_sparse(base_shape(*prob, *set, *low is Some)) ==> rows is Some,
        dz@.len() == prob.mi(),
        sorting_fits(*sort),
    ensures
        planned(*prob, *set, *low is Some, opt_deref(rows), rho, delta, dz@, *sort, plan),
        plan_fits(*prob, *low, plan),
{
    proof {
        lemma_bound_rows(*prob, prob.mi());
        lemma_general_rows(*prob, prob.mi());
    }
    let mut shape = shape_of(prob, classes.general.len(), set, low.is_some());
    let ghost base = shape;
    assert(base == base_shape(*prob, *set, *low is Some));
    let (cols, found) = look(prob, &shape, sort);
    shape.range = found.is_some();
    assert(shape == (QpShape { range: found is Some, ..base }));
    assert(looked(*prob, base, *sort, cols@, found));
    let (system, dense) = choose_system(&shape);
    let plan = match system {
        System::LowRank => {
            let by_row = bounds_by_row(prob.b_in.len(), &classes.singleton);
            proof {
                lemma_bound_of_row(*prob, classes.singleton@, classes.singleton@.len());
                assert(by_row@ == bounds_of(*prob));
            }
            Plan::LowRank { by_row }
        },
        System::RankOne => Plan::RankOne,
        System::SparseCondensed => plan_condensed(prob, sort),
        System::Definite => Plan::Definite,
        System::Augmented => {
            if dense {
                Plan::Dense
            } else {
                plan_sparse(prob, &shape, classes, rows, rho, delta, dz, sort)
            }
        },
        System::Complement => Plan::Complement,
        System::Range => match found {
            Some((maps, pattern, perm)) => Plan::Range { cols, maps, pattern, perm },
            None => Plan::Reduced,
        },
        System::Reduced => Plan::Reduced,
    };
    plan
}

/// The bound of a row names an unknown.
pub proof fn lemma_bound_of_row<T: Scalar>(prob: QpProblem<T>, units: Seq<(usize, usize, T)>, k: nat)
    requires
        k <= units.len(),
        forall|i: int| 0 <= i < units.len() ==> (#[trigger] units[i]).1 < prob.n(),
    ensures
        forall|r: int| prob.n() > 0 ==> (#[trigger] bound_of_row(units, r, k)).0 < prob.n(),
    decreases k,
{
    if k > 0 {
        lemma_bound_of_row(prob, units, (k - 1) as nat);
        assert forall|r: int| prob.n() > 0 implies (#[trigger] bound_of_row(units, r, k)).0 < prob.n() by {
            assert(units[k - 1].1 < prob.n());
            assert(bound_of_row(units, r, (k - 1) as nat).0 < prob.n());
        }
    }
}

/// `r` is the direction that the prepared system gives.
pub open spec fn plan_directs<
    T: Scalar,
    F: Fn(&[T]) -> Vec<T>,
    G: Fn(&[T]) -> Vec<T>,
    K: Fn(&DenseMatrix<T>, Method<T>) -> Option<F>,
    P: Fn(&DenseMatrix<T>) -> F,
    S: Fn(&CscMatrix<T>, T) -> Option<G>,
>(
    c: Setting<T>,
    t: Moment<T>,
    low: Option<LowRankDiag<T>>,
    plan: Plan<T>,
    tools: Factors<K, P, S>,
    r: Option<(Direction<T>, usize)>,
) -> bool {
    match plan {
        Plan::LowRank { by_row } => r matches Some(d) && low_rank_step(
            c,
            t,
            low->0,
            by_row@,
            tools.dense,
            tools.pivoted,
            d,
        ),
        Plan::RankOne => exists|p: Point<T>| #[trigger]
            t.is_at(p) && t.directed(rank_one_system(c, p, t.rho, t.m.mu), r),
        Plan::Condensed { pattern, perm, dpos } => exists|sys: Ordered<T>|
            *sys.pattern == pattern && sys.perm@ == perm@ && #[trigger] condensed_step(
                c,
                t,
                dpos@,
                sys,
                tools.sparse,
                r,
            ),
        Plan::Definite => definite_step(c, t, tools.dense, tools.pivoted, r),
        Plan::Dense => r matches Some(d) && augmented_step(c, t, tools.dense, tools.pivoted, d),
        Plan::Sparse { cache, pattern, perm, folding } => exists|sys: Ordered<T>|
            *sys.pattern == pattern && sys.perm@ == perm@ && #[trigger] sparse_augmented_step(
                c,
                t,
                cache,
                sys,
                folding,
                tools.sparse,
                r,
            ),
        Plan::Complement => complement_step(c, t, tools.dense, tools.pivoted, r),
        Plan::Range { cols, maps, pattern, perm } => exists|sys: Ordered<T>|
            *sys.pattern == pattern && sys.perm@ == perm@ && #[trigger] range_step(
                c,
                t,
                cols@,
                maps,
                sys,
                tools.sparse,
                r,
            ),
        Plan::Reduced => reduced_step(c, t, tools.dense, tools.pivoted, r),
    }
}

/// The direction that the prepared system gives; none where no factorization succeeds.
pub fn plan_newton<
    T: Scalar,
    F: Fn(&[T]) -> Vec<T>,
    G: Fn(&[T]) -> Vec<T>,
    K: Fn(&DenseMatrix<T>, Method<T>) -> Option<F>,
    P: Fn(&DenseMatrix<T>) -> F,
    S: Fn(&CscMatrix<T>, T) -> Option<G>,
>(
    c: &Setting<T>,
    t: &Moment<T>,
    low: &Option<LowRankDiag<T>>,
    plan: &Plan<T>,
    tools: &Factors<K, P, S>,
) -> (r: Option<(Direction<T>, usize)>)
    requires
        c.wf(),
        t.fits(*c.prob),
        c.general@ == general_rows(*c.prob, c.prob.mi()),
        plan_fits(*c.prob, *low, *plan),
        systems_fit(*c.prob, *low),
        factors_fit(*tools),
    ensures
        plan_directs(*c, *t, *low, *plan, *tools, r),
        result_fits(*c.prob, t.short, r),
{
    let ghost (n, me, mi) = (c.prob.n(), c.prob.me(), c.prob.mi());
    proof {
        lemma_general_rows(*c.prob, mi);
        assert((n + me) * (n + me) <= (n + me + mi) * (n + me + mi)) by (nonlinear_arith);
        assert(me * me <= (n + me + mi) * (n + me + mi)) by (nonlinear_arith);
        assert(factors_at(tools.dense, n));
        assert(factors_at(tools.dense, me));
        assert(factors_at(tools.dense, n + me));
        assert(factors_at(tools.dense, n + me + mi));
        assert(always_factors_at(tools.pivoted, n));
        assert(always_factors_at(tools.pivoted, me));
        assert(always_factors_at(tools.pivoted, n + me));
        assert(always_factors_at(tools.pivoted, n + me + mi));
    }
    match plan {
        Plan::LowRank { by_row } => match low {
            Some(lr) => {
                assert(factors_at(tools.dense, lr.rank as nat + me));
                assert(always_factors_at(tools.pivoted, lr.rank as nat + me));
                Some(low_rank_newton(c, t, lr, by_row, &tools.dense, &tools.pivoted))
            },
            None => None,
        },
        Plan::RankOne => Some(rank_one_newton(c, t)),
        Plan::Condensed { pattern, perm, dpos } => {
            assert(factors_pattern(tools.sparse, *pattern));
            condensed_newton(c, t, dpos, &Ordered { pattern, perm }, &tools.sparse)
        },
        Plan::Definite => definite_newton(c, t, &tools.dense, &tools.pivoted),
        Plan::Dense => Some(augmented_newton(c, t, &tools.dense, &tools.pivoted)),
        Plan::Sparse { cache, pattern, perm, folding } => {
            assert(factors_pattern(tools.sparse, *pattern));
            sparse_augmented_newton(c, t, cache, &Ordered { pattern, perm }, *folding, &tools.sparse)
        },
        Plan::Complement => complement_newton(c, t, &tools.dense, &tools.pivoted),
        Plan::Range { cols, maps, pattern, perm } => {
            assert(factors_pattern(tools.sparse, *pattern));
            range_newton(c, t, cols, maps, &Ordered { pattern, perm }, &tools.sparse)
        },
        Plan::Reduced => reduced_newton(c, t, &tools.dense, &tools.pivoted),
    }
}

} // verus!
