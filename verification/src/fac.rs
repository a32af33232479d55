//! The solve against a factored conic system: what is handed to the triangular solves of each
//! backend, and what becomes of their result.
use crate::matrix::{matvec_spec, matvec_t_spec, DenseMatrix};
use crate::problem::QpProblem;
use crate::scalar::Scalar;
use crate::solve::solves_at;
use crate::vector::{constant, copied, filled, negated, negated_of, slice_of};
use vstd::prelude::*;

verus! {

/// The permutation names every index below its length once.
pub open spec fn permutation(perm: Seq<usize>) -> bool {
    &&& forall|k: int| 0 <= k < perm.len() ==> (#[trigger] perm[k]) < perm.len()
    &&& forall|a: int, b: int| 0 <= a < b < perm.len() ==> #[trigger] perm[a] != #[trigger] perm[b]
}

/// The vector in permuted order.
pub open spec fn gathered<T>(perm: Seq<usize>, v: Seq<T>) -> Seq<T> {
    Seq::new(perm.len(), |k: int| v[perm[k] as int])
}

/// The vector in permuted order.
pub fn gather<T: Copy>(perm: &[usize], v: &[T]) -> (r: Vec<T>)
    requires
        forall|k: int| 0 <= k < perm@.len() ==> (#[trigger] perm@[k]) < v@.len(),
    ensures
        r@ == gathered(perm@, v@),
{
    let mut r: Vec<T> = Vec::with_capacity(perm.len());
    let mut k: usize = 0;
    while k < perm.len()
        invariant
            forall|k: int| 0 <= k < perm@.len() ==> (#[trigger] perm@[k]) < v@.len(),
            k <= perm@.len(),
            r@ =~= gathered(perm@, v@).subrange(0, k as int),
        decreases perm@.len() - k,
    {
        r.push(v[perm[k]]);
        k += 1;
    }
    assert(r@ =~= gathered(perm@, v@));
    r
}

/// The vector whose permuted order is `v`.
pub fn scatter<T: Scalar>(perm: &[usize], v: &[T]) -> (r: Vec<T>)
    requires
        permutation(perm@),
        v@.len() == perm@.len(),
    ensures
        r@.len() == v@.len(),
        gathered(perm@, r@) == v@,
{
    let dim: usize = perm.len();
    let mut r: Vec<T> = filled(T::zero(), dim);
    let mut k: usize = 0;
    while k < dim
        invariant
            permutation(perm@),
            v@.len() == perm@.len() == dim,
            r@.len() == dim,
            k <= dim,
            forall|a: int| 0 <= a < k ==> r@[#[trigger] perm@[a] as int] == v@[a],
        decreases dim - k,
    {
        let at: usize = perm[k];
        r[at] = v[k];
        assert forall|a: int| 0 <= a < k + 1 implies r@[#[trigger] perm@[a] as int] == v@[a] by {
            if a < k {
                assert(perm@[a] != perm@[k as int]);
            }
        }
        k += 1;
    }
    assert(gathered(perm@, r@) =~= v@);
    r
}

/// Two vectors with the same permuted order are the same: a scattered solution is determined by
/// what was scattered.
pub proof fn gathering_is_injective<T>(perm: Seq<usize>, v: Seq<T>, w: Seq<T>)
    requires
        permutation(perm),
        v.len() == perm.len(),
        w.len() == perm.len(),
        gathered(perm, v) == gathered(perm, w),
    ensures
        v == w,
{
    assert forall|i: int| 0 <= i < v.len() implies v[i] == w[i] by {
        lemma_surjective(perm, i);
        let k = choose|k: int| 0 <= k < perm.len() && #[trigger] perm[k] == i;
        assert(gathered(perm, v)[k] == v[i]);
        assert(gathered(perm, w)[k] == w[i]);
    }
    assert(v =~= w);
}

/// The indices that a permutation names, as a set of its length.
proof fn lemma_image_size(perm: Seq<usize>, k: nat)
    requires
        permutation(perm),
        k <= perm.len(),
    ensures
        image(perm, k).finite(),
        image(perm, k).len() == k,
        forall|i: int| #[trigger] image(perm, k).contains(i) <==> exists|a: int|
            0 <= a < k && #[trigger] perm[a] == i,
    decreases k,
{
    if k > 0 {
        lemma_image_size(perm, (k - 1) as nat);
        let front = image(perm, (k - 1) as nat);
        let e = perm[k - 1] as int;
        if front.contains(e) {
            let a = choose|a: int| 0 <= a < k - 1 && #[trigger] perm[a] == e;
            assert(perm[a] != perm[k - 1]);
        }
        assert forall|i: int| #[trigger] image(perm, k).contains(i) <==> exists|a: int|
            0 <= a < k && #[trigger] perm[a] == i by {
            if i == e {
                assert(perm[k - 1] == i);
            } else if front.contains(i) {
                let a = choose|a: int| 0 <= a < k - 1 && #[trigger] perm[a] == i;
                assert(perm[a] == i);
            }
        }
    }
}

/// The first `k` indices that a permutation names.
spec fn image(perm: Seq<usize>, k: nat) -> Set<int>
    decreases k,
{
    if k == 0 {
        Set::empty()
    } else {
        image(perm, (k - 1) as nat).insert(perm[k - 1] as int)
    }
}

/// A permutation names every index.
pub proof fn lemma_surjective(perm: Seq<usize>, i: int)
    requires
        permutation(perm),
        0 <= i < perm.len(),
    ensures
        exists|k: int| 0 <= k < perm.len() && #[trigger] perm[k] == i,
{
    let all = vstd::set_lib::set_int_range(0, perm.len() as int);
    let img = image(perm, perm.len());
    lemma_image_size(perm, perm.len());
    vstd::set_lib::lemma_int_range(0, perm.len() as int);
    assert(img.subset_of(all)) by {
        assert forall|j: int| img.contains(j) implies all.contains(j) by {
            let a = choose|a: int| 0 <= a < perm.len() && #[trigger] perm[a] == j;
            assert(perm[a] < perm.len());
        }
    }
    vstd::set_lib::lemma_subset_equality(img, all);
    assert(all.contains(i));
}

/// A direction in the unknowns, the equality multipliers and the inequality multipliers.
pub struct Solved<T> {
    pub dx: Vec<T>,
    pub dy: Vec<T>,
    pub dz: Vec<T>,
}

/// The three parts are consecutive in `v`.
pub open spec fn split_of<T>(v: Seq<T>, n: nat, me: nat, mi: nat, out: Solved<T>) -> bool {
    &&& out.dx@ == v.subrange(0, n as int)
    &&& out.dy@ == v.subrange(n as int, (n + me) as int)
    &&& out.dz@ == v.subrange((n + me) as int, (n + me + mi) as int)
}

/// Splits a vector into the parts of a direction.
pub fn split<T: Copy>(v: &[T], n: usize, me: usize, mi: usize) -> (r: Solved<T>)
    requires
        n + me + mi <= v@.len(),
    ensures
        split_of(v@, n as nat, me as nat, mi as nat, r),
{
    let len: usize = v.len();
    Solved {
        dx: slice_of(v, 0, n),
        dy: slice_of(v, n, n + me),
        dz: slice_of(v, n + me, n + me + mi),
    }
}

/// The right-hand side of the unknowns after the first `k` folded rows are added to it:
/// `a / (eta^2 + delta) * rz` in the column of each.
pub open spec fn folded_rx<T: Scalar>(
    a_in: DenseMatrix<T>,
    fold: Seq<(usize, usize, T)>,
    rx: Seq<T>,
    rz: Seq<T>,
    k: nat,
) -> Seq<T>
    decreases k,
{
    if k == 0 {
        rx
    } else {
        let front = folded_rx(a_in, fold, rx, rz, (k - 1) as nat);
        let (row, col, hinv) = fold[k - 1];
        front.update(
            col as int,
            front[col as int].plus(
                a_in.at(row as int, col as int).times(hinv).times(rz[row as int]),
            ),
        )
    }
}

/// `a b`, entry by entry.
pub open spec fn entrywise<T: Scalar>(a: Seq<T>, b: Seq<T>) -> Seq<T> {
    Seq::new(a.len(), |i: int| a[i].times(b[i]))
}

fn entrywise_of<T: Scalar>(a: &[T], b: &[T]) -> (r: Vec<T>)
    requires
        a@.len() == b@.len(),
    ensures
        r@ == entrywise(a@, b@),
{
    let mut r: Vec<T> = Vec::with_capacity(a.len());
    let mut i: usize = 0;
    while i < a.len()
        invariant
            i <= a@.len() == b@.len(),
            r@ =~= entrywise(a@, b@).subrange(0, i as int),
        decreases a@.len() - i,
    {
        r.push(a[i].times(b[i]));
        i += 1;
    }
    assert(r@ =~= entrywise(a@, b@));
    r
}

/// The right-hand side of the remaining system: `ry - A_eq D^-1 rx` and, for the kept rows,
/// `rz - A_in D^-1 rx`.
pub open spec fn remaining_rhs<T: Scalar>(
    prob: QpProblem<T>,
    kept: Seq<usize>,
    dx0: Seq<T>,
    ry: Seq<T>,
    rz: Seq<T>,
) -> Seq<T> {
    let me = prob.me();
    Seq::new(
        me + kept.len(),
        |i: int|
            if i < me {
                ry[i].minus(matvec_spec(prob.a_eq, dx0)[i])
            } else {
                let row = kept[i - me] as int;
                rz[row].minus(matvec_spec(prob.a_in, dx0)[row])
            },
    )
}

/// `base` with `vals[i]` written at `at[i]`, for the first `k`.
pub open spec fn written<T>(base: Seq<T>, at: Seq<usize>, vals: Seq<T>, k: nat) -> Seq<T>
    decreases k,
{
    if k == 0 {
        base
    } else {
        written(base, at, vals, (k - 1) as nat).update(at[k - 1] as int, vals[k - 1])
    }
}

/// `D^-1 (rx - A_eq' dy - A_in' dz)`.
pub open spec fn back_substituted<T: Scalar>(
    prob: QpProblem<T>,
    dinv: Seq<T>,
    rx: Seq<T>,
    dy: Seq<T>,
    dz: Seq<T>,
) -> Seq<T> {
    let aty = matvec_t_spec(prob.a_eq, dy);
    let atz = matvec_t_spec(prob.a_in, dz);
    Seq::new(prob.n(), |i: int| dinv[i].times(rx[i].minus(aty[i]).minus(atz[i])))
}

/// The multipliers after those of the first `k` folded rows are recovered:
/// `(a dx - rz) / (eta^2 + delta)`.
pub open spec fn unfolded<T: Scalar>(
    a_in: DenseMatrix<T>,
    fold: Seq<(usize, usize, T)>,
    dx: Seq<T>,
    rz: Seq<T>,
    dz: Seq<T>,
    k: nat,
) -> Seq<T>
    decreases k,
{
    if k == 0 {
        dz
    } else {
        let (row, col, hinv) = fold[k - 1];
        unfolded(a_in, fold, dx, rz, dz, (k - 1) as nat).update(
            row as int,
            hinv.times(
                a_in.at(row as int, col as int).times(dx[col as int]).minus(rz[row as int]),
            ),
        )
    }
}

/// The direction from the solution `syz` of the remaining system.
pub open spec fn condensed_direction<T: Scalar>(
    prob: QpProblem<T>,
    dinv: Seq<T>,
    fold: Seq<(usize, usize, T)>,
    kept: Seq<usize>,
    rhs: Seq<T>,
    syz: Seq<T>,
    out: Solved<T>,
) -> bool {
    let n = prob.n();
    let me = prob.me();
    let mi = prob.mi();
    let rx = rhs.subrange(0, n as int);
    let rz = rhs.subrange((n + me) as int, (n + me + mi) as int);
    let rxp = folded_rx(prob.a_in, fold, rx, rz, fold.len());
    let dzk = written(
        constant(T::zero(), mi),
        kept,
        syz.subrange(me as int, (me + kept.len()) as int),
        kept.len(),
    );
    let dy = syz.subrange(0, me as int);
    let dx = back_substituted(prob, dinv, rxp, dy, dzk);
    out.dx@ == dx && out.dy@ == dy && out.dz@ == unfolded(prob.a_in, fold, dx, rz, dzk, fold.len())
}

/// What is handed to the solve of the remaining system.
pub open spec fn condensed_rhs<T: Scalar>(
    prob: QpProblem<T>,
    dinv: Seq<T>,
    fold: Seq<(usize, usize, T)>,
    kept: Seq<usize>,
    rhs: Seq<T>,
) -> Seq<T> {
    let n = prob.n();
    let me = prob.me();
    let mi = prob.mi();
    let rx = rhs.subrange(0, n as int);
    let ry = rhs.subrange(n as int, (n + me) as int);
    let rz = rhs.subrange((n + me) as int, (n + me + mi) as int);
    let rxp = folded_rx(prob.a_in, fold, rx, rz, fold.len());
    remaining_rhs(prob, kept, entrywise(dinv, rxp), ry, rz)
}

/// The folded and the kept rows are rows of the problem.
pub open spec fn condensed_fits<T: Scalar>(
    prob: QpProblem<T>,
    dinv: Seq<T>,
    fold: Seq<(usize, usize, T)>,
    kept: Seq<usize>,
) -> bool {
    &&& dinv.len() == prob.n()
    &&& prob.me() + kept.len() <= usize::MAX
    &&& forall|i: int| 0 <= i < fold.len() ==> (#[trigger] fold[i]).0 < prob.mi() && fold[i].1 < prob.n()
    &&& forall|i: int| 0 <= i < kept.len() ==> (#[trigger] kept[i]) < prob.mi()
}

fn fold_rx<T: Scalar>(a_in: &DenseMatrix<T>, fold: &[(usize, usize, T)], rx: Vec<T>, rz: &[T]) -> (r: Vec<T>)
    requires
        a_in.wf(),
        rx@.len() == a_in.ncols,
        rz@.len() == a_in.nrows,
        forall|i: int|
            0 <= i < fold@.len() ==> (#[trigger] fold@[i]).0 < a_in.nrows && fold@[i].1 < a_in.ncols,
    ensures
        r@ == folded_rx(*a_in, fold@, rx@, rz@, fold@.len()),
        r@.len() == rx@.len(),
{
    let mut r = rx;
    let mut k: usize = 0;
    while k < fold.len()
        invariant
            a_in.wf(),
            rx@.len() == a_in.ncols,
            rz@.len() == a_in.nrows,
            forall|i: int|
                0 <= i < fold@.len() ==> (#[trigger] fold@[i]).0 < a_in.nrows && fold@[i].1 < a_in.ncols,
            k <= fold@.len(),
            r@.len() == rx@.len(),
            r@ == folded_rx(*a_in, fold@, rx@, rz@, k as nat),
        decreases fold@.len() - k,
    {
        let (row, col, hinv) = fold[k];
        assert(fold@[k as int].0 < a_in.nrows);
        let v = r[col].plus(a_in.get(row, col).times(hinv).times(rz[row]));
        r[col] = v;
        k += 1;
    }
    r
}

fn unfold<T: Scalar>(a_in: &DenseMatrix<T>, fold: &[(usize, usize, T)], dx: &[T], rz: &[T], dz: Vec<T>) -> (r: Vec<
    T,
>)
    requires
        a_in.wf(),
        dx@.len() == a_in.ncols,
        rz@.len() == a_in.nrows,
        dz@.len() == a_in.nrows,
        forall|i: int|
            0 <= i < fold@.len() ==> (#[trigger] fold@[i]).0 < a_in.nrows && fold@[i].1 < a_in.ncols,
    ensures
        r@ == unfolded(*a_in, fold@, dx@, rz@, dz@, fold@.len()),
        r@.len() == dz@.len(),
{
    let mut r = dz;
    let mut k: usize = 0;
    while k < fold.len()
        invariant
            a_in.wf(),
            dx@.len() == a_in.ncols,
            rz@.len() == a_in.nrows,
            dz@.len() == a_in.nrows,
            forall|i: int|
                0 <= i < fold@.len() ==> (#[trigger] fold@[i]).0 < a_in.nrows && fold@[i].1 < a_in.ncols,
            k <= fold@.len(),
            r@.len() == dz@.len(),
            r@ == unfolded(*a_in, fold@, dx@, rz@, dz@, k as nat),
        decreases fold@.len() - k,
    {
        let (row, col, hinv) = fold[k];
        assert(fold@[k as int].0 < a_in.nrows);
        r[row] = hinv.times(a_in.get(row, col).times(dx[col]).minus(rz[row]));
        k += 1;
    }
    r
}

/// The right-hand side of the remaining system.
pub fn condensed_rhs_of<T: Scalar>(
    prob: &QpProblem<T>,
    dinv: &[T],
    fold: &[(usize, usize, T)],
    kept: &[usize],
    rhs: &[T],
) -> (r: Vec<T>)
    requires
        prob.wf(),
        condensed_fits(*prob, dinv@, fold@, kept@),
        rhs@.len() == prob.n() + prob.me() + prob.mi(),
    ensures
        r@ == condensed_rhs(*prob, dinv@, fold@, kept@, rhs@),
{
    let n: usize = prob.q.len();
    let me: usize = prob.b_eq.len();
    let mi: usize = prob.b_in.len();
    let rx = slice_of(rhs, 0, n);
    let ry = slice_of(rhs, n, n + me);
    let rz = slice_of(rhs, n + me, n + me + mi);
    let rxp = fold_rx(&prob.a_in, fold, rx, &rz);
    let dx0 = entrywise_of(dinv, &rxp);
    let aeq = prob.a_eq.matvec(&dx0);
    let ain = prob.a_in.matvec(&dx0);
    let ghost all = remaining_rhs(*prob, kept@, dx0@, ry@, rz@);
    let mut r: Vec<T> = Vec::with_capacity(me + kept.len());
    let mut i: usize = 0;
    while i < me
        invariant
            prob.wf(),
            me == prob.me(),
            ry@.len() == me,
            aeq@ == matvec_spec(prob.a_eq, dx0@),
            all == remaining_rhs(*prob, kept@, dx0@, ry@, rz@),
            i <= me,
            r@ =~= all.subrange(0, i as int),
        decreases me - i,
    {
        r.push(ry[i].minus(aeq[i]));
        i += 1;
    }
    let mut k: usize = 0;
    while k < kept.len()
        invariant
            prob.wf(),
            me == prob.me(),
            mi == prob.mi(),
            rz@.len() == mi,
            forall|i: int| 0 <= i < kept@.len() ==> (#[trigger] kept@[i]) < mi,
            ain@ == matvec_spec(prob.a_in, dx0@),
            all == remaining_rhs(*prob, kept@, dx0@, ry@, rz@),
            k <= kept@.len(),
            r@ =~= all.subrange(0, me + k),
        decreases kept@.len() - k,
    {
        let row: usize = kept[k];
        r.push(rz[row].minus(ain[row]));
        k += 1;
    }
    assert(r@ =~= all);
    r
}

/// Writes the kept multipliers into a vector of zeros.
fn write_kept<T: Scalar>(mi: usize, kept: &[usize], vals: &[T]) -> (r: Vec<T>)
    requires
        vals@.len() == kept@.len(),
        forall|i: int| 0 <= i < kept@.len() ==> (#[trigger] kept@[i]) < mi,
    ensures
        r@ == written(constant(T::zero(), mi as nat), kept@, vals@, kept@.len()),
        r@.len() == mi,
{
    let mut r: Vec<T> = filled(T::zero(), mi);
    let mut k: usize = 0;
    while k < kept.len()
        invariant
            vals@.len() == kept@.len(),
            forall|i: int| 0 <= i < kept@.len() ==> (#[trigger] kept@[i]) < mi,
            k <= kept@.len(),
            r@.len() == mi,
            r@ == written(constant(T::zero(), mi as nat), kept@, vals@, k as nat),
        decreases kept@.len() - k,
    {
        let at: usize = kept[k];
        r[at] = vals[k];
        k += 1;
    }
    r
}

/// The direction from the solution of the remaining system.
pub fn condensed_recover<T: Scalar>(
    prob: &QpProblem<T>,
    dinv: &[T],
    fold: &[(usize, usize, T)],
    kept: &[usize],
    rhs: &[T],
    syz: &[T],
) -> (out: Solved<T>)
    requires
        prob.wf(),
        condensed_fits(*prob, dinv@, fold@, kept@),
        rhs@.len() == prob.n() + prob.me() + prob.mi(),
        syz@.len() == prob.me() + kept@.len(),
    ensures
        condensed_direction(*prob, dinv@, fold@, kept@, rhs@, syz@, out),
        out.dz@.len() == prob.mi(),
{
    let n: usize = prob.q.len();
    let me: usize = prob.b_eq.len();
    let mi: usize = prob.b_in.len();
    let rx = slice_of(rhs, 0, n);
    let rz = slice_of(rhs, n + me, n + me + mi);
    let rxp = fold_rx(&prob.a_in, fold, rx, &rz);
    let dy = slice_of(syz, 0, me);
    let tail = slice_of(syz, me, me + kept.len());
    let dzk = write_kept(mi, kept, &tail);
    let aty = prob.a_eq.matvec_t(&dy);
    let atz = prob.a_in.matvec_t(&dzk);
    let ghost all = back_substituted(*prob, dinv@, rxp@, dy@, dzk@);
    let mut dx: Vec<T> = Vec::with_capacity(n);
    let mut i: usize = 0;
    while i < n
        invariant
            prob.wf(),
            n == prob.n(),
            dinv@.len() == n,
            rxp@.len() == n,
            aty@ == matvec_t_spec(prob.a_eq, dy@),
            atz@ == matvec_t_spec(prob.a_in, dzk@),
            all == back_substituted(*prob, dinv@, rxp@, dy@, dzk@),
            i <= n,
            dx@ =~= all.subrange(0, i as int),
        decreases n - i,
    {
        dx.push(dinv[i].times(rxp[i].minus(aty[i]).minus(atz[i])));
        i += 1;
    }
    assert(dx@ =~= all);
    let dz = unfold(&prob.a_in, fold, &dx, &rz, dzk);
    Solved { dx, dy, dz }
}

/// How a factored system is solved.
pub enum Fac<T> {
    /// A sparse factor of the permuted augmented system.
    Sparse,
    /// A sparse factor of the permuted arrow system, with this many auxiliary columns.
    ArrowSparse { n_aux: usize },
    /// A dense factor of the augmented system.
    Dense,
    /// A factor of the remaining system, or of its negation where that is positive definite.
    Condensed { negated: bool, dinv: Vec<T>, fold: Vec<(usize, usize, T)>, kept: Vec<usize> },
    /// The Kronecker structure of a single semidefinite cone, with a factor of the equality part
    /// where it has one.
    Kronecker { factored: bool, gzy: Vec<Vec<T>>, inv_rho: T, dinv: Vec<T> },
}

/// `rz + D^-1 rx`, the right-hand side of the Kronecker solve.
pub open spec fn kron_rz<T: Scalar>(rz: Seq<T>, dx0: Seq<T>) -> Seq<T> {
    Seq::new(rz.len(), |i: int| rz[i].plus(dx0[i]))
}

/// `ry - A_eq D^-1 rx - A_eq g / rho`, the right-hand side of the equality part.
pub open spec fn kron_ry<T: Scalar>(
    prob: QpProblem<T>,
    inv_rho: T,
    ry: Seq<T>,
    dx0: Seq<T>,
    g: Seq<T>,
) -> Seq<T> {
    Seq::new(
        prob.me(),
        |i: int|
            ry[i].minus(matvec_spec(prob.a_eq, dx0)[i]).minus(
                inv_rho.times(matvec_spec(prob.a_eq, g)[i]),
            ),
    )
}

/// `g` less the first `k` columns of `gzy` times `dy`, in entry `r`.
pub open spec fn kron_dz_at<T: Scalar>(gzy: Seq<Vec<T>>, g: Seq<T>, dy: Seq<T>, r: int, k: nat) -> T
    decreases k,
{
    if k == 0 {
        g[r]
    } else {
        kron_dz_at(gzy, g, dy, r, (k - 1) as nat).minus(gzy[k - 1]@[r].times(dy[k - 1]))
    }
}

/// The inequality multipliers of the Kronecker solve.
pub open spec fn kron_dz<T: Scalar>(gzy: Seq<Vec<T>>, g: Seq<T>, dy: Seq<T>) -> Seq<T> {
    Seq::new(g.len(), |r: int| kron_dz_at(gzy, g, dy, r, gzy.len()))
}

/// `D^-1 (rx - A_eq' dy + dz)`.
pub open spec fn kron_dx<T: Scalar>(prob: QpProblem<T>, dinv: Seq<T>, rx: Seq<T>, dy: Seq<T>, dz: Seq<T>) -> Seq<
    T,
> {
    let aty = matvec_t_spec(prob.a_eq, dy);
    Seq::new(prob.n(), |i: int| dinv[i].times(rx[i].minus(aty[i]).plus(dz[i])))
}

/// The right-hand side padded with zeros for the auxiliary columns.
pub open spec fn padded<T: Scalar>(v: Seq<T>, n_aux: nat) -> Seq<T> {
    v + constant(T::zero(), n_aux)
}

impl<T: Scalar> Fac<T> {
    /// The parts of the factorization have the sizes of the problem.
    pub open spec fn fits(self, prob: QpProblem<T>, perm: Seq<usize>, len: nat) -> bool {
        let dim = prob.n() + prob.me() + prob.mi();
        match self {
            Fac::Sparse => permutation(perm) && perm.len() == len && prob.n() + prob.me() <= len,
            Fac::ArrowSparse { n_aux } => permutation(perm) && perm.len() == len + n_aux && len == dim,
            Fac::Dense => len == dim,
            Fac::Condensed { negated, dinv, fold, kept } => len == dim && condensed_fits(
                prob,
                dinv@,
                fold@,
                kept@,
            ),
            Fac::Kronecker { factored, gzy, inv_rho, dinv } => {
                &&& len == dim
                &&& prob.mi() == prob.n()
                &&& dinv@.len() == prob.n()
                &&& gzy@.len() == prob.me()
                &&& forall|j: int| 0 <= j < gzy@.len() ==> (#[trigger] gzy@[j])@.len() == prob.mi()
            },
        }
    }

    /// The dimension of what the triangular solves take, for a right-hand side of length `len`.
    pub open spec fn inner_dim(self, prob: QpProblem<T>, len: nat) -> nat {
        match self {
            Fac::Sparse => len,
            Fac::ArrowSparse { n_aux } => len + n_aux as nat,
            Fac::Dense => len,
            Fac::Condensed { negated, dinv, fold, kept } => prob.me() + kept@.len(),
            Fac::Kronecker { factored, gzy, inv_rho, dinv } => prob.mi(),
        }
    }

    /// `out` solves for the right-hand side `rhs`: it is made of what `inner`, the triangular
    /// solves of the backend, returns for the right-hand side that the backend takes, and for the
    /// Kronecker structure also of what `schur` returns for the equality part.
    pub open spec fn solves<S: Fn(&[T]) -> Vec<T>, G: Fn(&[T]) -> Vec<T>>(
        self,
        prob: QpProblem<T>,
        perm: Seq<usize>,
        rhs: Seq<T>,
        inner: S,
        schur: G,
        out: Solved<T>,
    ) -> bool {
        let n = prob.n();
        let me = prob.me();
        match self {
            Fac::Sparse => exists|a: &[T], v: Vec<T>, w: Seq<T>|
                {
                    &&& a@ == gathered(perm, rhs)
                    &&& #[trigger] inner.ensures((a,), v)
                    &&& #[trigger] gathered(perm, w) == v@
                    &&& w.len() == rhs.len()
                    &&& split_of(w, n, me, (rhs.len() - n - me) as nat, out)
                },
            Fac::ArrowSparse { n_aux } => exists|a: &[T], v: Vec<T>, w: Seq<T>|
                {
                    &&& a@ == gathered(perm, padded(rhs, n_aux as nat))
                    &&& #[trigger] inner.ensures((a,), v)
                    &&& #[trigger] gathered(perm, w) == v@
                    &&& w.len() == rhs.len() + n_aux
                    &&& split_of(w, n, me, prob.mi(), out)
                },
            Fac::Dense => exists|a: &[T], v: Vec<T>|
                {
                    &&& a@ == rhs
                    &&& #[trigger] inner.ensures((a,), v)
                    &&& split_of(v@, n, me, prob.mi(), out)
                },
            Fac::Condensed { negated: neg, dinv, fold, kept } => exists|a: &[T], v: Vec<T>|
                {
                    let rr = condensed_rhs(prob, dinv@, fold@, kept@, rhs);
                    &&& a@ == (if neg {
                        negated(rr)
                    } else {
                        rr
                    })
                    &&& #[trigger] inner.ensures((a,), v)
                    &&& condensed_direction(prob, dinv@, fold@, kept@, rhs, v@, out)
                },
            Fac::Kronecker { factored, gzy, inv_rho, dinv } => exists|a: &[T], v: Vec<T>|
                {
                    let rx = rhs.subrange(0, n as int);
                    let ry = rhs.subrange(n as int, (n + me) as int);
                    let rz = rhs.subrange((n + me) as int, (n + me + n) as int);
                    let dx0 = entrywise(dinv@, rx);
                    let g = negated(v@);
                    &&& a@ == kron_rz(rz, dx0)
                    &&& #[trigger] inner.ensures((a,), v)
                    &&& if me > 0 && factored {
                        exists|b: &[T], y: Vec<T>|
                            b@ == kron_ry(prob, inv_rho, ry, dx0, g) && #[trigger] schur.ensures((b,), y)
                                && out.dy@ == y@
                    } else {
                        out.dy@ == constant(T::zero(), me)
                    }
                    &&& out.dz@ == kron_dz(gzy@, g, out.dy@)
                    &&& out.dx@ == kron_dx(prob, dinv@, rx, out.dy@, out.dz@)
                },
        }
    }

    /// Solves for a right-hand side in the unknowns, the equality multipliers and the inequality
    /// multipliers. `inner` is the solve against the factor, and `schur` that against the factor
    /// of the equality part of the Kronecker structure.
    pub fn solve_into<S: Fn(&[T]) -> Vec<T>, G: Fn(&[T]) -> Vec<T>>(
        &self,
        prob: &QpProblem<T>,
        perm: &[usize],
        rhs: &[T],
        inner: &S,
        schur: &G,
    ) -> (out: Solved<T>)
        requires
            prob.wf(),
            self.fits(*prob, perm@, rhs@.len()),
            solves_at(*inner, self.inner_dim(*prob, rhs@.len())),
            self is Kronecker && prob.me() > 0 ==> solves_at(*schur, prob.me()),
        ensures
            self.solves(*prob, perm@, rhs@, *inner, *schur, out),
            out.dx@.len() == prob.n(),
            out.dy@.len() == prob.me(),
            out.dz@.len() == rhs@.len() - prob.n() - prob.me(),
    {
        let n: usize = prob.q.len();
        let me: usize = prob.b_eq.len();
        let mi: usize = prob.b_in.len();
        let len: usize = rhs.len();
        match self {
            Fac::Sparse => {
                let p = gather(perm, rhs);
                let a: &[T] = p.as_slice();
                let v = inner(a);
                let w = scatter(perm, &v);
                assert(inner.ensures((a,), v));
                split(&w, n, me, len - n - me)
            },
            Fac::ArrowSparse { n_aux } => {
                let mut full = copied(rhs);
                let mut k: usize = 0;
                while k < *n_aux
                    invariant
                        k <= *n_aux,
                        full@ =~= padded(rhs@, k as nat),
                    decreases *n_aux - k,
                {
                    full.push(T::zero());
                    k += 1;
                }
                let p = gather(perm, &full);
                let a: &[T] = p.as_slice();
                let v = inner(a);
                let w = scatter(perm, &v);
                assert(inner.ensures((a,), v));
                split(&w, n, me, mi)
            },
            Fac::Dense => {
                let v = inner(rhs);
                assert(inner.ensures((rhs,), v));
                split(&v, n, me, mi)
            },
            Fac::Condensed { negated: neg, dinv, fold, kept } => {
                let rr = condensed_rhs_of(prob, dinv, fold, kept, rhs);
                let handed = if *neg {
                    negated_of(&rr)
                } else {
                    rr
                };
                let a: &[T] = handed.as_slice();
                let v = inner(a);
                assert(inner.ensures((a,), v));
                condensed_recover(prob, dinv, fold, kept, rhs, &v)
            },
            Fac::Kronecker { factored, gzy, inv_rho, dinv } => {
                let rx = slice_of(rhs, 0, n);
                let ry = slice_of(rhs, n, n + me);
                let rz = slice_of(rhs, n + me, n + me + n);
                let dx0 = entrywise_of(dinv, &rx);
                let kz = kron_rz_of(&rz, &dx0);
                let a: &[T] = kz.as_slice();
                let v = inner(a);
                let g = negated_of(&v);
                let dy: Vec<T>;
                if me > 0 && *factored {
                    let ky = kron_ry_of(prob, *inv_rho, &ry, &dx0, &g);
                    let b: &[T] = ky.as_slice();
                    dy = schur(b);
                    assert(schur.ensures((b,), dy));
                } else {
                    dy = filled(T::zero(), me);
                }
                let dz = kron_dz_of(gzy, &g, &dy);
                let dx = kron_dx_of(prob, dinv, &rx, &dy, &dz);
                assert(inner.ensures((a,), v));
                Solved { dx, dy, dz }
            },
        }
    }
}

fn kron_rz_of<T: Scalar>(rz: &[T], dx0: &[T]) -> (r: Vec<T>)
    requires
        rz@.len() == dx0@.len(),
    ensures
        r@ == kron_rz(rz@, dx0@),
{
    let mut r: Vec<T> = Vec::with_capacity(rz.len());
    let mut i: usize = 0;
    while i < rz.len()
        invariant
            i <= rz@.len() == dx0@.len(),
            r@ =~= kron_rz(rz@, dx0@).subrange(0, i as int),
        decreases rz@.len() - i,
    {
        r.push(rz[i].plus(dx0[i]));
        i += 1;
    }
    assert(r@ =~= kron_rz(rz@, dx0@));
    r
}

fn kron_ry_of<T: Scalar>(prob: &QpProblem<T>, inv_rho: T, ry: &[T], dx0: &[T], g: &[T]) -> (r: Vec<T>)
    requires
        prob.wf(),
        ry@.len() == prob.me(),
        dx0@.len() == prob.n(),
        g@.len() == prob.n(),
    ensures
        r@ == kron_ry(*prob, inv_rho, ry@, dx0@, g@),
{
    let me: usize = prob.b_eq.len();
    let a0 = prob.a_eq.matvec(dx0);
    let ag = prob.a_eq.matvec(g);
    let ghost all = kron_ry(*prob, inv_rho, ry@, dx0@, g@);
    let mut r: Vec<T> = Vec::with_capacity(me);
    let mut i: usize = 0;
    while i < me
        invariant
            prob.wf(),
            me == prob.me(),
            ry@.len() == me,
            a0@ == matvec_spec(prob.a_eq, dx0@),
            ag@ == matvec_spec(prob.a_eq, g@),
            all == kron_ry(*prob, inv_rho, ry@, dx0@, g@),
            i <= me,
            r@ =~= all.subrange(0, i as int),
        decreases me - i,
    {
        r.push(ry[i].minus(a0[i]).minus(inv_rho.times(ag[i])));
        i += 1;
    }
    assert(r@ =~= all);
    r
}

fn kron_dz_of<T: Scalar>(gzy: &[Vec<T>], g: &[T], dy: &[T]) -> (r: Vec<T>)
    requires
        dy@.len() == gzy@.len(),
        forall|j: int| 0 <= j < gzy@.len() ==> (#[trigger] gzy@[j])@.len() == g@.len(),
    ensures
        r@ == kron_dz(gzy@, g@, dy@),
{
    let ghost all = kron_dz(gzy@, g@, dy@);
    let mut r: Vec<T> = Vec::with_capacity(g.len());
    let mut i: usize = 0;
    while i < g.len()
        invariant
            dy@.len() == gzy@.len(),
            forall|j: int| 0 <= j < gzy@.len() ==> (#[trigger] gzy@[j])@.len() == g@.len(),
            all == kron_dz(gzy@, g@, dy@),
            i <= g@.len(),
            r@ =~= all.subrange(0, i as int),
        decreases g@.len() - i,
    {
        let mut acc = g[i];
        let mut k: usize = 0;
        while k < gzy.len()
            invariant
                dy@.len() == gzy@.len(),
                forall|j: int| 0 <= j < gzy@.len() ==> (#[trigger] gzy@[j])@.len() == g@.len(),
                i < g@.len(),
                k <= gzy@.len(),
                acc == kron_dz_at(gzy@, g@, dy@, i as int, k as nat),
            decreases gzy@.len() - k,
        {
            acc = acc.minus(gzy[k][i].times(dy[k]));
            k += 1;
        }
        r.push(acc);
        i += 1;
    }
    assert(r@ =~= all);
    r
}

fn kron_dx_of<T: Scalar>(prob: &QpProblem<T>, dinv: &[T], rx: &[T], dy: &[T], dz: &[T]) -> (r: Vec<T>)
    requires
        prob.wf(),
        dinv@.len() == prob.n(),
        rx@.len() == prob.n(),
        dy@.len() == prob.me(),
        dz@.len() == prob.n(),
    ensures
        r@ == kron_dx(*prob, dinv@, rx@, dy@, dz@),
{
    let n: usize = prob.q.len();
    let aty = prob.a_eq.matvec_t(dy);
    let ghost all = kron_dx(*prob, dinv@, rx@, dy@, dz@);
    let mut r: Vec<T> = Vec::with_capacity(n);
    let mut i: usize = 0;
    while i < n
        invariant
            prob.wf(),
            n == prob.n(),
            dinv@.len() == n,
            rx@.len() == n,
            dz@.len() == n,
            aty@ == matvec_t_spec(prob.a_eq, dy@),
            all == kron_dx(*prob, dinv@, rx@, dy@, dz@),
            i <= n,
            r@ =~= all.subrange(0, i as int),
        decreases n - i,
    {
        r.push(dinv[i].times(rx[i].minus(aty[i]).plus(dz[i])));
        i += 1;
    }
    assert(r@ =~= all);
    r
}

} // verus!
