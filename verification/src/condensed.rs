//! The condensed system of a conic program with a diagonal Hessian: the unknowns and the bound
//! rows are eliminated, the equality multipliers and the other rows remain.
use crate::cone::{blocks_tile, lemma_block_bounds, offsets_of, size_upto, total_size, Cone};
use crate::conic_kkt::{blocks_fit, conic_problem};
use crate::kkt_cache::{cone_of_row, in_block};
use crate::kkt_laws::cone_at;
use crate::lp_simplex::{last_nonzero, lemma_last_nonzero};
use crate::matrix::{nonzero_count, DenseMatrix};
use crate::problem::QpProblem;
use crate::scalar::Scalar;
use crate::vector::{dot_spec, dot_upto};
use vstd::prelude::*;

verus! {

/// Row `r` is folded into the unknowns: it lies in an orthant and has a single entry.
pub open spec fn folds<T: Scalar>(prob: QpProblem<T>, cones: Seq<Cone>, r: int) -> bool {
    cones[cone_at(cones, r)] is NonNeg && nonzero_count(prob.a_in.row(r), prob.n()) == 1
}

/// The folded rows among the first `k`, each with the column of its entry.
pub open spec fn fold_list<T: Scalar>(prob: QpProblem<T>, cones: Seq<Cone>, k: nat) -> Seq<(usize, usize)>
    decreases k,
{
    if k == 0 {
        Seq::empty()
    } else {
        let front = fold_list(prob, cones, (k - 1) as nat);
        if folds(prob, cones, k - 1) {
            front.push(((k - 1) as usize, last_nonzero(prob.a_in.row(k - 1), prob.n()) as usize))
        } else {
            front
        }
    }
}

/// The kept rows among the first `k`.
pub open spec fn kept_list<T: Scalar>(prob: QpProblem<T>, cones: Seq<Cone>, k: nat) -> Seq<usize>
    decreases k,
{
    if k == 0 {
        Seq::empty()
    } else {
        let front = kept_list(prob, cones, (k - 1) as nat);
        if folds(prob, cones, k - 1) {
            front
        } else {
            front.push((k - 1) as usize)
        }
    }
}

/// What the two lists hold.
pub proof fn lemma_lists<T: Scalar>(prob: QpProblem<T>, cones: Seq<Cone>, k: nat)
    requires
        k <= prob.mi() <= usize::MAX,
        prob.n() <= usize::MAX,
    ensures
        fold_list(prob, cones, k).len() + kept_list(prob, cones, k).len() == k,
        forall|i: int|
            0 <= i < fold_list(prob, cones, k).len() ==> (#[trigger] fold_list(prob, cones, k)[i]).0 < k
                && fold_list(prob, cones, k)[i].1 < prob.n() && folds(
                prob,
                cones,
                fold_list(prob, cones, k)[i].0 as int,
            ),
        forall|i: int|
            0 <= i < kept_list(prob, cones, k).len() ==> (#[trigger] kept_list(prob, cones, k)[i]) < k
                && !folds(prob, cones, kept_list(prob, cones, k)[i] as int),
        forall|i: int, j: int|
            0 <= i < j < kept_list(prob, cones, k).len() ==> (#[trigger] kept_list(prob, cones, k)[i]) < (
            #[trigger] kept_list(prob, cones, k)[j]),
        forall|i: int, j: int|
            0 <= i < j < fold_list(prob, cones, k).len() ==> (#[trigger] fold_list(prob, cones, k)[i]).0 < (
            #[trigger] fold_list(prob, cones, k)[j]).0,
    decreases k,
{
    if k > 0 {
        lemma_lists(prob, cones, (k - 1) as nat);
        if folds(prob, cones, k - 1) {
            lemma_last_nonzero(prob.a_in.row(k - 1), prob.n());
        }
    }
}

/// Row `i` of the equality rows with the kept rows below them.
pub open spec fn stacked<T: Scalar>(prob: QpProblem<T>, kept: Seq<usize>, i: int) -> Seq<T> {
    if i < prob.me() {
        prob.a_eq.row(i)
    } else {
        prob.a_in.row(kept[i - prob.me()] as int)
    }
}

/// Which rows are folded and which are kept. It depends only on the pattern of the matrices and on
/// the cones, so it is made once for a solve.
pub struct CondensedScratch {
    /// The folded rows with the column of their entry.
    pub fold_rc: Vec<(usize, usize)>,
    /// The kept rows.
    pub kept: Vec<usize>,
}

impl CondensedScratch {
    /// The lists are those of the problem.
    pub open spec fn plans<T: Scalar>(self, prob: QpProblem<T>, cones: Seq<Cone>) -> bool {
        &&& self.fold_rc@ == fold_list(prob, cones, prob.mi())
        &&& self.kept@ == kept_list(prob, cones, prob.mi())
    }

    /// Sorts the rows of the problem.
    pub fn new<T: Scalar>(prob: &QpProblem<T>, cones: &[Cone], offsets: &[usize]) -> (r: CondensedScratch)
        requires
            conic_problem(*prob, cones@),
            offsets_of(cones@, offsets@),
        ensures
            r.plans(*prob, cones@),
    {
        let mi: usize = prob.b_in.len();
        let mut fold_rc: Vec<(usize, usize)> = Vec::new();
        let mut kept: Vec<usize> = Vec::new();
        let mut r: usize = 0;
        while r < mi
            invariant
                conic_problem(*prob, cones@),
                offsets_of(cones@, offsets@),
                mi == prob.mi(),
                r <= mi,
                fold_rc@ == fold_list(*prob, cones@, r as nat),
                kept@ == kept_list(*prob, cones@, r as nat),
            decreases mi - r,
        {
            let k: usize = cone_of_row(cones, offsets, r);
            proof {
                lemma_cone_at(cones@, k as int, r as int);
            }
            let orthant = matches!(cones[k], Cone::NonNeg(_));
            let (nz, col) = count_and_column(&prob.a_in, r);
            if orthant && nz == 1 {
                fold_rc.push((r, col));
            } else {
                kept.push(r);
            }
            r += 1;
        }
        CondensedScratch { fold_rc, kept }
    }
}

/// The number of entries of a row that are not zero, and the column of the last of them.
fn count_and_column<T: Scalar>(a: &DenseMatrix<T>, r: usize) -> (out: (usize, usize))
    requires
        a.wf(),
        r < a.nrows,
    ensures
        out.0 == nonzero_count(a.row(r as int), a.ncols as nat),
        out.1 == last_nonzero(a.row(r as int), a.ncols as nat),
{
    let mut nz: usize = 0;
    let mut col: usize = 0;
    let mut j: usize = 0;
    while j < a.ncols
        invariant
            a.wf(),
            r < a.nrows,
            j <= a.ncols,
            nz <= j,
            nz == nonzero_count(a.row(r as int), j as nat),
            col == last_nonzero(a.row(r as int), j as nat),
        decreases a.ncols - j,
    {
        if !a.get(r, j).equals(T::zero()) {
            nz += 1;
            col = j;
        }
        j += 1;
    }
    (nz, col)
}

/// The cone whose block holds a row is the one that holds it.
pub proof fn lemma_cone_at(cones: Seq<Cone>, k: int, r: int)
    requires
        0 <= k < cones.len(),
        in_block(cones, k, r),
    ensures
        cone_at(cones, r) == k,
        0 <= r < total_size(cones),
{
    lemma_block_bounds(cones, k);
    blocks_tile(cones, r as nat);
    let c = cone_at(cones, r);
    assert(in_block(cones, c, r));
    assert(size_upto(cones, c as nat) <= r);
    assert(size_upto(cones, k as nat) <= r);
}

/// The scaling `eta^2` of row `r` of an orthant.
pub open spec fn row_scaling<T: Scalar>(cones: Seq<Cone>, blocks: Seq<Vec<T>>, r: int) -> T {
    let k = cone_at(cones, r);
    blocks[k]@[r - size_upto(cones, k as nat)]
}

/// `1 / (eta^2 + delta)` for every folded row.
pub open spec fn fold_inverses<T: Scalar>(
    cones: Seq<Cone>,
    blocks: Seq<Vec<T>>,
    delta: T,
    fold_rc: Seq<(usize, usize)>,
) -> Seq<T> {
    Seq::new(
        fold_rc.len(),
        |i: int| T::one().over(row_scaling(cones, blocks, fold_rc[i].0 as int).plus(delta)),
    )
}

/// The diagonal of the unknowns' block, with the first `k` folded rows added.
pub open spec fn condensed_diag<T: Scalar>(
    prob: QpProblem<T>,
    rho: T,
    fold_rc: Seq<(usize, usize)>,
    hinv: Seq<T>,
    c: int,
    k: nat,
) -> T
    decreases k,
{
    if k == 0 {
        prob.p.at(c, c).plus(rho)
    } else {
        let front = condensed_diag(prob, rho, fold_rc, hinv, c, (k - 1) as nat);
        let (row, col) = fold_rc[k - 1];
        if col == c {
            let a = prob.a_in.at(row as int, c);
            front.plus(a.times(a).times(hinv[k - 1]))
        } else {
            front
        }
    }
}

/// The inverse diagonal of the unknowns' block.
pub open spec fn condensed_dinv<T: Scalar>(
    prob: QpProblem<T>,
    rho: T,
    fold_rc: Seq<(usize, usize)>,
    hinv: Seq<T>,
) -> Seq<T> {
    Seq::new(
        prob.n(),
        |c: int| T::one().over(condensed_diag(prob, rho, fold_rc, hinv, c, fold_rc.len())),
    )
}

/// The entry of the remaining system before the unknowns are eliminated: `-delta` on the diagonal
/// of the equality rows, and the entries of the cones' blocks between the kept rows.
pub open spec fn remaining_base<T: Scalar>(
    prob: QpProblem<T>,
    cones: Seq<Cone>,
    blocks: Seq<Vec<T>>,
    delta: T,
    kept: Seq<usize>,
    i: int,
    j: int,
) -> T {
    let me = prob.me() as int;
    if i < me || j < me {
        if i == j {
            delta.neg()
        } else {
            T::zero()
        }
    } else {
        let r = kept[i - me] as int;
        let c = kept[j - me] as int;
        let k = cone_at(cones, c);
        let off = size_upto(cones, k as nat);
        if cone_at(cones, r) != k {
            T::zero()
        } else if cones[k] is NonNeg {
            if r == c {
                row_scaling(cones, blocks, r).plus(delta).neg()
            } else {
                T::zero()
            }
        } else {
            let h = blocks[k]@[(r - off) * cones[k].size() + (c - off)];
            h.plus(
                if r == c {
                    delta
                } else {
                    T::zero()
                },
            ).neg()
        }
    }
}

/// The entry after the unknowns are eliminated through the entries that are not zero, over the
/// first `k` unknowns.
pub open spec fn sparse_schur<T: Scalar>(
    base: T,
    a: Seq<T>,
    b: Seq<T>,
    dinv: Seq<T>,
    k: nat,
) -> T
    decreases k,
{
    if k == 0 {
        base
    } else {
        let front = sparse_schur(base, a, b, dinv, (k - 1) as nat);
        if a[k - 1].equals(T::zero()) || b[k - 1].equals(T::zero()) {
            front
        } else {
            front.minus(dinv[k - 1].times(a[k - 1]).times(b[k - 1]))
        }
    }
}

/// A stacked row scaled by the roots of the inverse diagonal.
pub open spec fn rooted<T: Scalar>(row: Seq<T>, dinv: Seq<T>) -> Seq<T> {
    Seq::new(row.len(), |k: int| dinv[k].sqrt().times(row[k]))
}

/// The entry after the unknowns are eliminated through products of scaled rows: a full product
/// where both rows are general, a single one where either has a single entry. An empty row is
/// left alone.
pub open spec fn dense_schur<T: Scalar>(base: T, a: Seq<T>, b: Seq<T>, dinv: Seq<T>) -> T {
    let n = a.len();
    let ra = rooted(a, dinv);
    let rb = rooted(b, dinv);
    let na = nonzero_count(a, n);
    let nb = nonzero_count(b, n);
    if na == 1 {
        let c = last_nonzero(a, n) as int;
        base.minus(ra[c].times(rb[c]))
    } else if na > 1 && nb > 1 {
        base.minus(dot_spec(ra, rb))
    } else if na > 1 && nb == 1 {
        let c = last_nonzero(b, n) as int;
        base.minus(ra[c].times(rb[c]))
    } else {
        base
    }
}

/// The entry of the remaining system.
pub open spec fn remaining_entry<T: Scalar>(
    prob: QpProblem<T>,
    cones: Seq<Cone>,
    blocks: Seq<Vec<T>>,
    delta: T,
    kept: Seq<usize>,
    dinv: Seq<T>,
    dense: bool,
) -> spec_fn(int, int) -> T {
    |i: int, j: int|
        {
            let base = remaining_base(prob, cones, blocks, delta, kept, i, j);
            let a = stacked(prob, kept, i);
            let b = stacked(prob, kept, j);
            if dense {
                dense_schur(base, a, b, dinv)
            } else {
                sparse_schur(base, a, b, dinv, prob.n())
            }
        }
}

/// The remaining system with what recovers the eliminated unknowns.
pub struct Condensed<T> {
    /// The remaining system.
    pub r: DenseMatrix<T>,
    /// The inverse diagonal of the unknowns' block.
    pub dinv: Vec<T>,
    /// `1 / (eta^2 + delta)` for every folded row.
    pub fold_hinv: Vec<T>,
}

/// The scaling of row `r`, which lies in an orthant.
fn scaling_of_row<T: Scalar>(cones: &[Cone], offsets: &[usize], blocks: &[Vec<T>], r: usize) -> (h: T)
    requires
        offsets_of(cones@, offsets@),
        blocks_fit(cones@, blocks@),
        r < total_size(cones@),
        cones@[cone_at(cones@, r as int)] is NonNeg,
    ensures
        h == row_scaling(cones@, blocks@, r as int),
{
    let k: usize = cone_of_row(cones, offsets, r);
    proof {
        lemma_cone_at(cones@, k as int, r as int);
    }
    blocks[k][r - offsets[k]]
}

/// `1 / (eta^2 + delta)` for every folded row.
pub fn fold_inverses_of<T: Scalar>(
    cones: &[Cone],
    offsets: &[usize],
    blocks: &[Vec<T>],
    delta: T,
    fold_rc: &[(usize, usize)],
) -> (h: Vec<T>)
    requires
        offsets_of(cones@, offsets@),
        blocks_fit(cones@, blocks@),
        forall|i: int|
            0 <= i < fold_rc@.len() ==> (#[trigger] fold_rc@[i]).0 < total_size(cones@) && cones@[cone_at(
                cones@,
                fold_rc@[i].0 as int,
            )] is NonNeg,
    ensures
        h@ == fold_inverses(cones@, blocks@, delta, fold_rc@),
{
    let mut h: Vec<T> = Vec::with_capacity(fold_rc.len());
    let mut i: usize = 0;
    while i < fold_rc.len()
        invariant
            offsets_of(cones@, offsets@),
            blocks_fit(cones@, blocks@),
            forall|i: int|
                0 <= i < fold_rc@.len() ==> (#[trigger] fold_rc@[i]).0 < total_size(cones@)
                    && cones@[cone_at(cones@, fold_rc@[i].0 as int)] is NonNeg,
            i <= fold_rc@.len(),
            h@ =~= fold_inverses(cones@, blocks@, delta, fold_rc@).subrange(0, i as int),
        decreases fold_rc@.len() - i,
    {
        let row: usize = fold_rc[i].0;
        assert(fold_rc@[i as int].0 < total_size(cones@));
        h.push(T::one().over(scaling_of_row(cones, offsets, blocks, row).plus(delta)));
        i += 1;
    }
    assert(h@ =~= fold_inverses(cones@, blocks@, delta, fold_rc@));
    h
}

fn invert_diagonal<T: Scalar>(prob: &QpProblem<T>, rho: T, fold_rc: &[(usize, usize)], hinv: &[T]) -> (d: Vec<
    T,
>)
    requires
        prob.wf(),
        hinv@.len() == fold_rc@.len(),
        forall|i: int|
            0 <= i < fold_rc@.len() ==> (#[trigger] fold_rc@[i]).0 < prob.mi() && fold_rc@[i].1 < prob.n(),
    ensures
        d@ == condensed_dinv(*prob, rho, fold_rc@, hinv@),
{
    let n: usize = prob.q.len();
    let mut diag: Vec<T> = Vec::with_capacity(n);
    let mut i: usize = 0;
    while i < n
        invariant
            prob.wf(),
            n == prob.n(),
            i <= n,
            diag@.len() == i,
            forall|c: int|
                0 <= c < i ==> #[trigger] diag@[c] == condensed_diag(*prob, rho, fold_rc@, hinv@, c, 0),
        decreases n - i,
    {
        diag.push(prob.p.get(i, i).plus(rho));
        i += 1;
    }
    let mut k: usize = 0;
    while k < fold_rc.len()
        invariant
            prob.wf(),
            n == prob.n(),
            hinv@.len() == fold_rc@.len(),
            forall|i: int|
                0 <= i < fold_rc@.len() ==> (#[trigger] fold_rc@[i]).0 < prob.mi() && fold_rc@[i].1
                    < prob.n(),
            k <= fold_rc@.len(),
            diag@.len() == n,
            forall|c: int|
                0 <= c < n ==> #[trigger] diag@[c] == condensed_diag(
                    *prob,
                    rho,
                    fold_rc@,
                    hinv@,
                    c,
                    k as nat,
                ),
        decreases fold_rc@.len() - k,
    {
        let (row, col) = fold_rc[k];
        assert(fold_rc@[k as int].0 < prob.mi());
        let a = prob.a_in.get(row, col);
        let sum = diag[col].plus(a.times(a).times(hinv[k]));
        diag[col] = sum;
        k += 1;
    }
    let mut d: Vec<T> = Vec::with_capacity(n);
    i = 0;
    while i < n
        invariant
            n == prob.n(),
            i <= n,
            diag@.len() == n,
            forall|c: int|
                0 <= c < n ==> #[trigger] diag@[c] == condensed_diag(
                    *prob,
                    rho,
                    fold_rc@,
                    hinv@,
                    c,
                    fold_rc@.len(),
                ),
            d@ =~= condensed_dinv(*prob, rho, fold_rc@, hinv@).subrange(0, i as int),
        decreases n - i,
    {
        d.push(T::one().over(diag[i]));
        i += 1;
    }
    assert(d@ =~= condensed_dinv(*prob, rho, fold_rc@, hinv@));
    d
}

/// The entry of a stacked row in column `k`.
fn stacked_at<T: Scalar>(prob: &QpProblem<T>, kept: &[usize], i: usize, k: usize) -> (v: T)
    requires
        prob.wf(),
        i < prob.me() + kept@.len(),
        forall|a: int| 0 <= a < kept@.len() ==> (#[trigger] kept@[a]) < prob.mi(),
        k < prob.n(),
    ensures
        v == stacked(*prob, kept@, i as int)[k as int],
        stacked(*prob, kept@, i as int).len() == prob.n(),
{
    let me: usize = prob.b_eq.len();
    if i < me {
        prob.a_eq.get(i, k)
    } else {
        prob.a_in.get(kept[i - me], k)
    }
}

/// The entry before the unknowns are eliminated.
fn base_of<T: Scalar>(
    prob: &QpProblem<T>,
    cones: &[Cone],
    offsets: &[usize],
    blocks: &[Vec<T>],
    delta: T,
    kept: &[usize],
    i: usize,
    j: usize,
) -> (v: T)
    requires
        conic_problem(*prob, cones@),
        offsets_of(cones@, offsets@),
        blocks_fit(cones@, blocks@),
        i < prob.me() + kept@.len(),
        j < prob.me() + kept@.len(),
        forall|a: int| 0 <= a < kept@.len() ==> (#[trigger] kept@[a]) < prob.mi(),
    ensures
        v == remaining_base(*prob, cones@, blocks@, delta, kept@, i as int, j as int),
{
    let me: usize = prob.b_eq.len();
    if i < me || j < me {
        if i == j {
            return delta.neg();
        }
        return T::zero();
    }
    let r: usize = kept[i - me];
    let c: usize = kept[j - me];
    let kr: usize = cone_of_row(cones, offsets, r);
    let k: usize = cone_of_row(cones, offsets, c);
    proof {
        lemma_cone_at(cones@, kr as int, r as int);
        lemma_cone_at(cones@, k as int, c as int);
        lemma_block_bounds(cones@, k as int);
    }
    if kr != k {
        return T::zero();
    }
    let off: usize = offsets[k];
    match cones[k] {
        Cone::NonNeg(_) => {
            if r == c {
                blocks[k][r - off].plus(delta).neg()
            } else {
                T::zero()
            }
        },
        _ => {
            let d: usize = cones[k].dim();
            let h = crate::matrix::raw_get(&blocks[k], d, d, r - off, c - off);
            let extra = if r == c {
                delta
            } else {
                T::zero()
            };
            h.plus(extra).neg()
        },
    }
}

fn sparse_entry<T: Scalar>(prob: &QpProblem<T>, kept: &[usize], dinv: &[T], base: T, i: usize, j: usize) -> (v: T)
    requires
        prob.wf(),
        i < prob.me() + kept@.len(),
        j < prob.me() + kept@.len(),
        forall|a: int| 0 <= a < kept@.len() ==> (#[trigger] kept@[a]) < prob.mi(),
        dinv@.len() == prob.n(),
    ensures
        v == sparse_schur(
            base,
            stacked(*prob, kept@, i as int),
            stacked(*prob, kept@, j as int),
            dinv@,
            prob.n(),
        ),
{
    let n: usize = prob.q.len();
    let mut acc = base;
    let mut k: usize = 0;
    while k < n
        invariant
            prob.wf(),
            n == prob.n(),
            i < prob.me() + kept@.len(),
            j < prob.me() + kept@.len(),
            forall|a: int| 0 <= a < kept@.len() ==> (#[trigger] kept@[a]) < prob.mi(),
            dinv@.len() == n,
            k <= n,
            acc == sparse_schur(
                base,
                stacked(*prob, kept@, i as int),
                stacked(*prob, kept@, j as int),
                dinv@,
                k as nat,
            ),
        decreases n - k,
    {
        let vi = stacked_at(prob, kept, i, k);
        let vj = stacked_at(prob, kept, j, k);
        if !vi.equals(T::zero()) && !vj.equals(T::zero()) {
            acc = acc.minus(dinv[k].times(vi).times(vj));
        }
        k += 1;
    }
    acc
}

/// The number of entries of a stacked row, and the column of the last.
fn stacked_shape<T: Scalar>(prob: &QpProblem<T>, kept: &[usize], i: usize) -> (out: (usize, usize))
    requires
        prob.wf(),
        i < prob.me() + kept@.len(),
        forall|a: int| 0 <= a < kept@.len() ==> (#[trigger] kept@[a]) < prob.mi(),
    ensures
        out.0 == nonzero_count(stacked(*prob, kept@, i as int), prob.n()),
        out.1 == last_nonzero(stacked(*prob, kept@, i as int), prob.n()),
{
    let me: usize = prob.b_eq.len();
    if i < me {
        count_and_column(&prob.a_eq, i)
    } else {
        count_and_column(&prob.a_in, kept[i - me])
    }
}

fn dense_entry<T: Scalar>(prob: &QpProblem<T>, kept: &[usize], dinv: &[T], base: T, i: usize, j: usize) -> (v: T)
    requires
        prob.wf(),
        i < prob.me() + kept@.len(),
        j < prob.me() + kept@.len(),
        forall|a: int| 0 <= a < kept@.len() ==> (#[trigger] kept@[a]) < prob.mi(),
        dinv@.len() == prob.n(),
    ensures
        v == dense_schur(
            base,
            stacked(*prob, kept@, i as int),
            stacked(*prob, kept@, j as int),
            dinv@,
        ),
{
    let n: usize = prob.q.len();
    let ghost a = stacked(*prob, kept@, i as int);
    let ghost b = stacked(*prob, kept@, j as int);
    let (na, ca) = stacked_shape(prob, kept, i);
    let (nb, cb) = stacked_shape(prob, kept, j);
    proof {
        assert(a.len() == n && b.len() == n);
        if na > 0 {
            lemma_last_nonzero(a, n as nat);
        }
        if nb > 0 {
            lemma_last_nonzero(b, n as nat);
        }
    }
    if na == 1 || (na > 1 && nb == 1) {
        let c: usize = if na == 1 {
            ca
        } else {
            cb
        };
        let root = dinv[c].sqrt();
        let x = root.times(stacked_at(prob, kept, i, c));
        let y = root.times(stacked_at(prob, kept, j, c));
        return base.minus(x.times(y));
    }
    if na > 1 && nb > 1 {
        let ghost ra = rooted(a, dinv@);
        let ghost rb = rooted(b, dinv@);
        let mut acc = T::zero();
        let mut k: usize = 0;
        while k < n
            invariant
                prob.wf(),
                n == prob.n(),
                i < prob.me() + kept@.len(),
                j < prob.me() + kept@.len(),
                forall|a: int| 0 <= a < kept@.len() ==> (#[trigger] kept@[a]) < prob.mi(),
                dinv@.len() == n,
                a == stacked(*prob, kept@, i as int),
                b == stacked(*prob, kept@, j as int),
                a.len() == n,
                b.len() == n,
                ra == rooted(a, dinv@),
                rb == rooted(b, dinv@),
                k <= n,
                acc == dot_upto(ra, rb, k as nat),
            decreases n - k,
        {
            let root = dinv[k].sqrt();
            let x = root.times(stacked_at(prob, kept, i, k));
            let y = root.times(stacked_at(prob, kept, j, k));
            acc = acc.plus(x.times(y));
            k += 1;
        }
        return base.minus(acc);
    }
    base
}

/// The condensed system for one iteration. `dense_schur` tells whether the unknowns are eliminated
/// through products of whole rows or through the entries that are not zero.
pub fn build_condensed_into<T: Scalar>(
    prob: &QpProblem<T>,
    cones: &[Cone],
    offsets: &[usize],
    blocks: &[Vec<T>],
    rho: T,
    delta: T,
    dense_schur: bool,
    sc: &CondensedScratch,
) -> (out: Condensed<T>)
    requires
        conic_problem(*prob, cones@),
        offsets_of(cones@, offsets@),
        blocks_fit(cones@, blocks@),
        sc.plans(*prob, cones@),
        (prob.me() + sc.kept@.len()) * (prob.me() + sc.kept@.len()) <= usize::MAX,
    ensures
        out.fold_hinv@ == fold_inverses(cones@, blocks@, delta, sc.fold_rc@),
        out.dinv@ == condensed_dinv(*prob, rho, sc.fold_rc@, out.fold_hinv@),
        out.r.sized(prob.me() + sc.kept@.len(), prob.me() + sc.kept@.len()),
        out.r.entries_are(
            remaining_entry(*prob, cones@, blocks@, delta, sc.kept@, out.dinv@, dense_schur),
        ),
{
    let me: usize = prob.b_eq.len();
    proof {
        lemma_lists(*prob, cones@, prob.mi());
    }
    let fold_hinv = fold_inverses_of(cones, offsets, blocks, delta, &sc.fold_rc);
    let dinv = invert_diagonal(prob, rho, &sc.fold_rc, &fold_hinv);
    let rdim: usize = me + sc.kept.len();
    let ghost f = remaining_entry(*prob, cones@, blocks@, delta, sc.kept@, dinv@, dense_schur);
    let mut r: DenseMatrix<T> = DenseMatrix::zeros(rdim, rdim);
    let mut i: usize = 0;
    while i < rdim
        invariant
            conic_problem(*prob, cones@),
            offsets_of(cones@, offsets@),
            blocks_fit(cones@, blocks@),
            forall|a: int| 0 <= a < sc.kept@.len() ==> (#[trigger] sc.kept@[a]) < prob.mi(),
            dinv@.len() == prob.n(),
            rdim == prob.me() + sc.kept@.len(),
            f == remaining_entry(*prob, cones@, blocks@, delta, sc.kept@, dinv@, dense_schur),
            i <= rdim,
            r.sized(rdim as nat, rdim as nat),
            forall|a: int, b: int| 0 <= a < i && 0 <= b < rdim ==> #[trigger] r.at(a, b) == f(a, b),
        decreases rdim - i,
    {
        let mut j: usize = 0;
        while j < rdim
            invariant
                conic_problem(*prob, cones@),
                offsets_of(cones@, offsets@),
                blocks_fit(cones@, blocks@),
                forall|a: int| 0 <= a < sc.kept@.len() ==> (#[trigger] sc.kept@[a]) < prob.mi(),
                dinv@.len() == prob.n(),
                rdim == prob.me() + sc.kept@.len(),
                f == remaining_entry(*prob, cones@, blocks@, delta, sc.kept@, dinv@, dense_schur),
                i < rdim,
                j <= rdim,
                r.sized(rdim as nat, rdim as nat),
                forall|a: int, b: int|
                    0 <= a < rdim && 0 <= b < rdim && (a < i || (a == i && b < j)) ==> #[trigger] r.at(a, b)
                        == f(a, b),
            decreases rdim - j,
        {
            let base = base_of(prob, cones, offsets, blocks, delta, &sc.kept, i, j);
            let v = if dense_schur {
                dense_entry(prob, &sc.kept, &dinv, base, i, j)
            } else {
                sparse_entry(prob, &sc.kept, &dinv, base, i, j)
            };
            r.set(i, j, v);
            j += 1;
        }
        i += 1;
    }
    Condensed { r, dinv, fold_hinv }
}

} // verus!
