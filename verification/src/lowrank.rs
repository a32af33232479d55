//! Quadratic programs whose Hessian is a low-rank matrix plus a diagonal, rewritten as conic
//! programs with a small second-order cone.
use crate::cone::Cone;
use crate::lr_cache::{detect_cached, hash_of, hash_p, search_tolerance, structure_for, Searches, SearchesView};
use crate::matrix::{matvec_spec, nonzero_count, DenseMatrix};
use crate::problem::{QpProblem, QpSolution, Status};
use crate::scalar::Scalar;
use crate::vector::{copied, dot, dot_spec, dot_upto, filled, slice_of};
use vstd::prelude::*;

verus! {

/// `P = L L' + diag(d)` up to a relative error off the diagonal.
pub struct LowRankDiag<T> {
    pub l: DenseMatrix<T>,
    pub d: Vec<T>,
    pub rank: usize,
    pub offdiag_rel: T,
}

impl<T: Scalar> LowRankDiag<T> {
    /// The parts have the sizes of a decomposition of a matrix of order `n`.
    pub open spec fn fits(self, n: nat) -> bool {
        self.l.sized(n, self.rank as nat) && self.d@.len() == n
    }

    /// Whether the parts have the sizes of a decomposition of a matrix of order `n`.
    pub fn has_order(&self, n: usize) -> (r: bool)
        ensures
            r == self.fits(n as nat),
    {
        if self.l.nrows != n || self.l.ncols != self.rank || self.d.len() != n {
            return false;
        }
        let len: usize = self.l.data.len();
        match n.checked_mul(self.rank) {
            Some(k) => len == k,
            None => false,
        }
    }

    /// The decomposition is genuine and its rank a clear gain: positive, at most an eighth of
    /// the order, with a relative error of at most `1e-9`.
    pub open spec fn genuine(self, n: nat) -> bool {
        self.rank != 0 && self.rank <= n / 8 && !T::decimal(1, 9).below(self.offdiag_rel)
    }
}

/// The number of nonzero entries in the first `j` columns of row `i`, and in the part below the
/// diagonal of the rows before it.
pub open spec fn lower_nonzeros<T: Scalar>(p: DenseMatrix<T>, i: nat, j: nat) -> nat
    decreases i, j,
{
    if j > 0 {
        lower_nonzeros(p, i, (j - 1) as nat) + if p.at(i as int, j - 1).equals(T::zero()) {
            0nat
        } else {
            1nat
        }
    } else if i > 0 {
        lower_nonzeros(p, (i - 1) as nat, (i - 1) as nat)
    } else {
        0
    }
}

/// The number of entries below the diagonal of a matrix of order `n`.
pub open spec fn pair_count(n: nat) -> nat {
    (n * (n - 1) / 2) as nat
}

/// The entries below the diagonal before row `i`, and `j` of row `i`, are no more than there are.
proof fn lemma_lower_nonzeros<T: Scalar>(p: DenseMatrix<T>, i: nat, j: nat)
    ensures
        2 * lower_nonzeros(p, i, j) <= i * (i - 1) + 2 * j,
    decreases i, j,
{
    if j > 0 {
        lemma_lower_nonzeros(p, i, (j - 1) as nat);
    } else if i > 0 {
        lemma_lower_nonzeros(p, (i - 1) as nat, (i - 1) as nat);
        let h = (i - 1) as nat;
        assert(h * (h - 1) + 2 * h == i * (i - 1)) by (nonlinear_arith)
            requires
                i == h + 1,
        ;
    } else {
        assert(i * (i - 1) == 0) by (nonlinear_arith)
            requires
                i == 0,
        ;
    }
}

/// The number of nonzero entries below the diagonal.
pub fn count_lower<T: Scalar>(p: &DenseMatrix<T>) -> (r: usize)
    requires
        p.wf(),
        p.nrows == p.ncols,
    ensures
        r == lower_nonzeros(*p, p.nrows as nat, 0),
{
    let n: usize = p.nrows;
    let total: usize = p.data.len();
    let mut count: usize = 0;
    let mut i: usize = 0;
    while i < n
        invariant
            p.wf(),
            n == p.nrows == p.ncols,
            total == n * n,
            i <= n,
            count == lower_nonzeros(*p, i as nat, 0),
        decreases n - i,
    {
        let mut j: usize = 0;
        while j < i
            invariant
                p.wf(),
                n == p.nrows == p.ncols,
                total == n * n,
                i < n,
                j <= i,
                count == lower_nonzeros(*p, i as nat, j as nat),
            decreases i - j,
        {
            proof {
                lemma_lower_nonzeros(*p, i as nat, j as nat);
                assert(i * (i - 1) + 2 * j < 2 * (n * n)) by (nonlinear_arith)
                    requires
                        0 <= j < i < n,
                ;
            }
            if !p.get(i, j).equals(T::zero()) {
                count += 1;
            }
            j += 1;
        }
        i += 1;
    }
    count
}

/// Where the low-rank structure of a problem is to be looked for.
#[derive(Clone, Copy, Debug, PartialEq, Eq, Structural)]
pub enum LowRankSource {
    /// Nowhere: the problem is too small, or its Hessian too sparse.
    Nowhere,
    /// In the dense equality rows of a problem whose Hessian is sparse off the diagonal.
    Equalities,
    /// In the Hessian itself.
    Hessian,
}

/// Where the low-rank structure is to be looked for: nowhere below 32 unknowns; in the Hessian if
/// at least half of its entries off the diagonal are nonzero; else in the equality rows, if there
/// are at least 64 of them.
pub open spec fn source_of<T: Scalar>(prob: QpProblem<T>) -> LowRankSource {
    let nz = lower_nonzeros(prob.p, prob.n(), 0);
    if prob.n() < 32 {
        LowRankSource::Nowhere
    } else if 2 * nz < pair_count(prob.n()) {
        if prob.me() >= 64 {
            LowRankSource::Equalities
        } else {
            LowRankSource::Nowhere
        }
    } else {
        LowRankSource::Hessian
    }
}

/// Where the low-rank structure of the problem is to be looked for.
pub fn lowrank_source<T: Scalar>(prob: &QpProblem<T>) -> (r: LowRankSource)
    requires
        prob.wf(),
    ensures
        r == source_of(*prob),
{
    let n: usize = prob.q.len();
    if n < 32 {
        return LowRankSource::Nowhere;
    }
    let nz: usize = count_lower(&prob.p);
    let total: usize = prob.p.data.len();
    proof {
        lemma_lower_nonzeros(prob.p, n as nat, 0);
        assert(n * (n - 1) <= n * n) by (nonlinear_arith)
            requires
                n >= 1,
        ;
        assert(n * (n - 1) >= 0) by (nonlinear_arith)
            requires
                n >= 1,
        ;
    }
    let pairs: usize = n * (n - 1) / 2;
    if (nz as u128) * 2 < pairs as u128 {
        if prob.b_eq.len() >= 64 {
            LowRankSource::Equalities
        } else {
            LowRankSource::Nowhere
        }
    } else {
        LowRankSource::Hessian
    }
}

/// The largest rank that is looked for: an eighth of the order, at least 4, and less than the order.
pub open spec fn rank_cap_of(n: nat) -> nat {
    let a = if n / 8 < 4 {
        4
    } else {
        n / 8
    };
    let b = if n == 0 {
        0
    } else {
        (n - 1) as nat
    };
    if a < b {
        a
    } else {
        b
    }
}

/// The number of factors that a search may return: an eighth of the order, at least 4, and less
/// than the order.
pub fn rank_cap(n: usize) -> (r: usize)
    ensures
        r == rank_cap_of(n as nat),
{
    let a: usize = if n / 8 < 4 {
        4
    } else {
        n / 8
    };
    let b: usize = if n == 0 {
        0
    } else {
        n - 1
    };
    if a < b {
        a
    } else {
        b
    }
}

/// Row `r` of the equality matrix is dense enough to be a factor: at least 32 entries, and more
/// than an eighth of the unknowns.
pub open spec fn factor_row<T: Scalar>(prob: QpProblem<T>, r: int) -> bool {
    let nz = nonzero_count(prob.a_eq.row(r), prob.n());
    nz >= 32 && nz > prob.n() / 8
}

/// The factor rows among the first `k` equality rows.
pub open spec fn factor_rows<T: Scalar>(prob: QpProblem<T>, k: nat) -> Seq<usize>
    decreases k,
{
    if k == 0 {
        Seq::empty()
    } else {
        let front = factor_rows(prob, (k - 1) as nat);
        if factor_row(prob, k - 1) {
            front.push((k - 1) as usize)
        } else {
            front
        }
    }
}

proof fn lemma_factor_rows<T: Scalar>(prob: QpProblem<T>, k: nat)
    requires
        k <= prob.me() <= usize::MAX,
    ensures
        factor_rows(prob, k).len() <= k,
        forall|i: int| 0 <= i < factor_rows(prob, k).len() ==> (#[trigger] factor_rows(prob, k)[i]) < k,
    decreases k,
{
    if k > 0 {
        lemma_factor_rows(prob, (k - 1) as nat);
    }
}

/// The number of nonzero entries of row `r`.
pub fn row_nonzeros<T: Scalar>(a: &DenseMatrix<T>, r: usize) -> (nz: usize)
    requires
        a.wf(),
        r < a.nrows,
    ensures
        nz == nonzero_count(a.row(r as int), a.ncols as nat),
{
    let mut nz: usize = 0;
    let mut j: usize = 0;
    while j < a.ncols
        invariant
            a.wf(),
            r < a.nrows,
            j <= a.ncols,
            nz <= j,
            nz == nonzero_count(a.row(r as int), j as nat),
        decreases a.ncols - j,
    {
        if !a.get(r, j).equals(T::zero()) {
            nz += 1;
        }
        j += 1;
    }
    nz
}

/// A zero of either sign as zero, anything else as it is.
pub open spec fn plain_zero<T: Scalar>(v: T) -> T {
    if v.equals(T::zero()) {
        T::zero()
    } else {
        v
    }
}

/// The largest absolute entry on the diagonal, over the first `k`.
pub open spec fn diagonal_scale<T: Scalar>(p: DenseMatrix<T>, k: nat) -> T
    decreases k,
{
    if k == 0 {
        T::zero()
    } else {
        diagonal_scale(p, (k - 1) as nat).max(p.at(k - 1, k - 1).abs())
    }
}

/// The largest error `|P - L L'|` below the diagonal, over the first `j` columns of row `i` and
/// the rows before it.
pub open spec fn worst_error<T: Scalar>(p: DenseMatrix<T>, l: DenseMatrix<T>, i: nat, j: nat) -> T
    decreases i, j,
{
    if j > 0 {
        worst_error(p, l, i, (j - 1) as nat).max(
            p.at(i as int, j - 1).minus(dot_spec(l.row(i as int), l.row(j - 1))).abs(),
        )
    } else if i > 0 {
        worst_error(p, l, (i - 1) as nat, (i - 1) as nat)
    } else {
        T::zero()
    }
}

/// The decomposition `L L' + diag(d)` of the Hessian that the factor rows of the equality matrix give:
/// they are the columns of `L`, and `d` is what they leave of the diagonal. The error off the diagonal is
/// measured, not presumed.
pub open spec fn is_equality_factor<T: Scalar>(prob: QpProblem<T>, lr: LowRankDiag<T>) -> bool {
    let rows = factor_rows(prob, prob.me());
    &&& lr.rank == rows.len()
    &&& lr.fits(prob.n())
    &&& forall|i: int, k: int|
        0 <= i < prob.n() && 0 <= k < rows.len() ==> #[trigger] lr.l.at(i, k) == plain_zero(
            prob.a_eq.at(rows[k] as int, i),
        )
    &&& lr.d@ == Seq::new(prob.n(), |i: int| prob.p.at(i, i).minus(dot_spec(lr.l.row(i), lr.l.row(i))))
    &&& lr.offdiag_rel == worst_error(prob.p, lr.l, prob.n(), 0).over(
        diagonal_scale(prob.p, prob.n()).max(T::one()),
    )
}

/// The inner product of two rows.
fn row_product<T: Scalar>(l: &DenseMatrix<T>, i: usize, j: usize) -> (r: T)
    requires
        l.wf(),
        i < l.nrows,
        j < l.nrows,
    ensures
        r == dot_spec(l.row(i as int), l.row(j as int)),
{
    let mut acc = T::zero();
    let mut t: usize = 0;
    while t < l.ncols
        invariant
            l.wf(),
            i < l.nrows,
            j < l.nrows,
            t <= l.ncols,
            acc == dot_upto(l.row(i as int), l.row(j as int), t as nat),
        decreases l.ncols - t,
    {
        acc = acc.plus(l.get(i, t).times(l.get(j, t)));
        t += 1;
    }
    acc
}

/// The largest error of the decomposition below the diagonal.
fn measure_error<T: Scalar>(p: &DenseMatrix<T>, l: &DenseMatrix<T>) -> (r: T)
    requires
        p.wf(),
        p.nrows == p.ncols,
        l.wf(),
        l.nrows == p.nrows,
    ensures
        r == worst_error(*p, *l, p.nrows as nat, 0),
{
    let n: usize = p.nrows;
    let mut worst = T::zero();
    let mut i: usize = 0;
    while i < n
        invariant
            p.wf(),
            n == p.nrows == p.ncols == l.nrows,
            l.wf(),
            i <= n,
            worst == worst_error(*p, *l, i as nat, 0),
        decreases n - i,
    {
        let mut j: usize = 0;
        while j < i
            invariant
                p.wf(),
                n == p.nrows == p.ncols == l.nrows,
                l.wf(),
                i < n,
                j <= i,
                worst == worst_error(*p, *l, i as nat, j as nat),
            decreases i - j,
        {
            worst = worst.max(p.get(i, j).minus(row_product(l, i, j)).abs());
            j += 1;
        }
        i += 1;
    }
    worst
}

/// The decomposition that the dense equality rows give; none where there is no such row.
pub fn equality_factor<T: Scalar>(prob: &QpProblem<T>) -> (r: Option<LowRankDiag<T>>)
    requires
        prob.wf(),
        prob.n() * prob.me() <= usize::MAX,
    ensures
        r is None <==> factor_rows(*prob, prob.me()).len() == 0,
        r matches Some(lr) ==> is_equality_factor(*prob, lr),
{
    let n: usize = prob.q.len();
    let me: usize = prob.b_eq.len();
    let mut rows: Vec<usize> = Vec::new();
    let mut r: usize = 0;
    while r < me
        invariant
            prob.wf(),
            n == prob.n(),
            me == prob.me(),
            r <= me,
            rows@ == factor_rows(*prob, r as nat),
        decreases me - r,
    {
        let nz: usize = row_nonzeros(&prob.a_eq, r);
        if nz >= 32 && nz > n / 8 {
            rows.push(r);
        }
        r += 1;
    }
    proof {
        lemma_factor_rows(*prob, me as nat);
    }
    let rk: usize = rows.len();
    if rk == 0 {
        return None;
    }
    proof {
        assert(n * rk <= n * me) by (nonlinear_arith)
            requires
                rk <= me,
                n >= 0,
        ;
    }
    let mut l: DenseMatrix<T> = DenseMatrix::zeros(n, rk);
    let mut k: usize = 0;
    while k < rk
        invariant
            prob.wf(),
            n == prob.n(),
            me == prob.me(),
            rk == rows@.len(),
            rows@ == factor_rows(*prob, me as nat),
            forall|i: int| 0 <= i < rk ==> (#[trigger] rows@[i]) < me,
            k <= rk,
            l.sized(n as nat, rk as nat),
            forall|i: int, c: int|
                0 <= i < n && 0 <= c < rk ==> #[trigger] l.at(i, c) == (if c < k {
                    plain_zero(prob.a_eq.at(rows@[c] as int, i))
                } else {
                    T::zero()
                }),
        decreases rk - k,
    {
        let row: usize = rows[k];
        let mut i: usize = 0;
        while i < n
            invariant
                prob.wf(),
                n == prob.n(),
                me == prob.me(),
                rk == rows@.len(),
                k < rk,
                row == rows@[k as int],
                row < me,
                i <= n,
                l.sized(n as nat, rk as nat),
                forall|a: int, c: int|
                    0 <= a < n && 0 <= c < rk ==> #[trigger] l.at(a, c) == (if c < k || (c == k && a
                        < i) {
                        plain_zero(prob.a_eq.at(rows@[c] as int, a))
                    } else {
                        T::zero()
                    }),
            decreases n - i,
        {
            let v = prob.a_eq.get(row, i);
            if !v.equals(T::zero()) {
                l.set(i, k, v);
            }
            i += 1;
        }
        k += 1;
    }
    let mut d: Vec<T> = Vec::with_capacity(n);
    let mut scale = T::zero();
    let mut i: usize = 0;
    while i < n
        invariant
            prob.wf(),
            n == prob.n(),
            i <= n,
            l.sized(n as nat, rk as nat),
            d@ =~= Seq::new(i as nat, |a: int| prob.p.at(a, a).minus(dot_spec(l.row(a), l.row(a)))),
            scale == diagonal_scale(prob.p, i as nat),
        decreases n - i,
    {
        let v = prob.p.get(i, i);
        d.push(v.minus(row_product(&l, i, i)));
        scale = scale.max(v.abs());
        i += 1;
    }
    let offdiag_rel = measure_error(&prob.p, &l).over(scale.max(T::one()));
    Some(LowRankDiag { l, d, rank: rk, offdiag_rel })
}

/// Whether the decomposition is genuine and its rank a clear gain.
pub fn is_genuine<T: Scalar>(lr: &LowRankDiag<T>, n: usize) -> (r: bool)
    ensures
        r == lr.genuine(n as nat),
{
    lr.rank != 0 && lr.rank <= n / 8 && !T::decimal(1, 9).below(lr.offdiag_rel)
}

/// The conic program over `(x, t, u)` with `u = L' x` and `t >= |u|^2 / 2`: minimize
/// `q'x + sum d_j x_j^2 / 2 + t`. The first `rank` equality rows say `L' x - u = 0`, and the last
/// `rank + 2` slacks `(t + 1, sqrt(2) u, t - 1)` lie in a second-order cone.
pub open spec fn is_reformulation<T: Scalar>(prob: QpProblem<T>, lr: LowRankDiag<T>, out: QpProblem<T>) -> bool {
    let n = prob.n();
    let me = prob.me();
    let mi = prob.mi();
    let r = lr.rank as nat;
    let nt = n + 1 + r;
    &&& out.n() == nt
    &&& out.me() == r + me
    &&& out.mi() == mi + r + 2
    &&& out.p.sized(nt, nt)
    &&& out.a_eq.sized(r + me, nt)
    &&& out.a_in.sized(mi + r + 2, nt)
    &&& out.a_eq_csr is None
    &&& out.a_in_csr is None
    &&& out.q@ == prob.q@ + seq![T::one()] + Seq::new(r, |i: int| T::zero())
    &&& out.b_eq@ == Seq::new(r, |i: int| T::zero()) + prob.b_eq@
    &&& out.b_in@ == prob.b_in@ + seq![T::one()] + Seq::new(r, |i: int| T::zero()) + seq![
        T::one().neg(),
    ]
    &&& out.p.entries_are(reform_p(lr, n))
    &&& out.a_eq.entries_are(reform_eq(prob, lr))
    &&& out.a_in.entries_are(reform_in(prob, lr))
}

/// The Hessian of the reformulation: the diagonal of the unknowns.
pub open spec fn reform_p<T: Scalar>(lr: LowRankDiag<T>, n: nat) -> spec_fn(int, int) -> T {
    |i: int, j: int|
        if i == j && i < n {
            lr.d@[i]
        } else {
            T::zero()
        }
}

/// The equality matrix of the reformulation.
pub open spec fn reform_eq<T: Scalar>(prob: QpProblem<T>, lr: LowRankDiag<T>) -> spec_fn(int, int) -> T {
    |i: int, j: int|
        if i < lr.rank {
            if j < prob.n() {
                lr.l.at(j, i)
            } else if j == prob.n() + 1 + i {
                T::one().neg()
            } else {
                T::zero()
            }
        } else if j < prob.n() {
            prob.a_eq.at(i - lr.rank, j)
        } else {
            T::zero()
        }
}

/// The inequality matrix of the reformulation.
pub open spec fn reform_in<T: Scalar>(prob: QpProblem<T>, lr: LowRankDiag<T>) -> spec_fn(int, int) -> T {
    |i: int, j: int|
        if i < prob.mi() {
            if j < prob.n() {
                prob.a_in.at(i, j)
            } else {
                T::zero()
            }
        } else if i == prob.mi() || i == prob.mi() + 1 + lr.rank {
            if j == prob.n() {
                T::one().neg()
            } else {
                T::zero()
            }
        } else if j == prob.n() + (i - prob.mi()) {
            T::decimal(2, 0).sqrt().neg()
        } else {
            T::zero()
        }
}

/// The reformulation can be indexed.
pub open spec fn reform_fits<T: Scalar>(prob: QpProblem<T>, lr: LowRankDiag<T>) -> bool {
    let nt = prob.n() + 1 + lr.rank;
    &&& nt * nt <= usize::MAX
    &&& (lr.rank + prob.me()) * nt <= usize::MAX
    &&& (prob.mi() + lr.rank + 2) * nt <= usize::MAX
    &&& lr.rank + prob.me() <= usize::MAX
    &&& prob.mi() + lr.rank + 2 <= usize::MAX
    &&& nt <= usize::MAX
}

/// A reformulation of any genuine rank can be indexed.
pub open spec fn reform_sizes<T: Scalar>(prob: QpProblem<T>) -> bool {
    let r = prob.n() / 8;
    let nt = prob.n() + 1 + r;
    &&& nt * nt <= usize::MAX
    &&& (r + prob.me()) * nt <= usize::MAX
    &&& (prob.mi() + r + 2) * nt <= usize::MAX
}

proof fn lemma_reform_fits<T: Scalar>(prob: QpProblem<T>, lr: LowRankDiag<T>)
    requires
        reform_sizes(prob),
        lr.genuine(prob.n()),
    ensures
        reform_fits(prob, lr),
{
    let r = prob.n() / 8;
    let nt = prob.n() + 1 + r;
    let k = prob.n() + 1 + lr.rank;
    assert(k * k <= nt * nt) by (nonlinear_arith)
        requires
            0 <= k <= nt,
    ;
    let a = r + prob.me();
    let b = lr.rank + prob.me();
    assert(b * k <= a * nt) by (nonlinear_arith)
        requires
            0 <= k <= nt,
            0 <= b <= a,
    ;
    let c = prob.mi() + r + 2;
    let d = prob.mi() + lr.rank + 2;
    assert(d * k <= c * nt) by (nonlinear_arith)
        requires
            0 <= k <= nt,
            0 <= d <= c,
    ;
    assert(b <= b * k && d <= d * k && k <= k * k) by (nonlinear_arith)
        requires
            k >= 1,
            b >= 0,
            d >= 0,
    ;
}

fn reform_hessian<T: Scalar>(lr: &LowRankDiag<T>, n: usize, nt: usize) -> (p: DenseMatrix<T>)
    requires
        lr.fits(n as nat),
        n <= nt,
        nt * nt <= usize::MAX,
    ensures
        p.sized(nt as nat, nt as nat),
        p.entries_are(reform_p(*lr, n as nat)),
{
    let mut p: DenseMatrix<T> = DenseMatrix::zeros(nt, nt);
    let mut i: usize = 0;
    while i < n
        invariant
            lr.fits(n as nat),
            i <= n <= nt,
            p.sized(nt as nat, nt as nat),
            forall|a: int, b: int|
                0 <= a < nt && 0 <= b < nt ==> #[trigger] p.at(a, b) == (if a == b && a < i {
                    lr.d@[a]
                } else {
                    T::zero()
                }),
        decreases n - i,
    {
        p.set(i, i, lr.d[i]);
        i += 1;
    }
    p
}

fn reform_equalities<T: Scalar>(prob: &QpProblem<T>, lr: &LowRankDiag<T>, nt: usize, met: usize) -> (a:
    DenseMatrix<T>)
    requires
        prob.wf(),
        lr.fits(prob.n()),
        nt == prob.n() + 1 + lr.rank,
        met == lr.rank + prob.me(),
        met * nt <= usize::MAX,
    ensures
        a.sized(met as nat, nt as nat),
        a.entries_are(reform_eq(*prob, *lr)),
{
    let n: usize = prob.q.len();
    let me: usize = prob.b_eq.len();
    let r: usize = lr.rank;
    let ghost f = reform_eq(*prob, *lr);
    let mut a: DenseMatrix<T> = DenseMatrix::zeros(met, nt);
    let mut t: usize = 0;
    while t < r
        invariant
            prob.wf(),
            lr.fits(prob.n()),
            n == prob.n(),
            r == lr.rank,
            nt == n + 1 + r,
            met == r + prob.me(),
            t <= r,
            f == reform_eq(*prob, *lr),
            a.sized(met as nat, nt as nat),
            forall|i: int, j: int|
                0 <= i < met && 0 <= j < nt ==> #[trigger] a.at(i, j) == (if i < t {
                    f(i, j)
                } else {
                    T::zero()
                }),
        decreases r - t,
    {
        let mut i: usize = 0;
        while i < n
            invariant
                prob.wf(),
                lr.fits(prob.n()),
                n == prob.n(),
                r == lr.rank,
                nt == n + 1 + r,
                met == r + prob.me(),
                t < r,
                i <= n,
                f == reform_eq(*prob, *lr),
                a.sized(met as nat, nt as nat),
                forall|k: int, j: int|
                    0 <= k < met && 0 <= j < nt ==> #[trigger] a.at(k, j) == (if k < t || (k == t && j
                        < i) {
                        f(k, j)
                    } else {
                        T::zero()
                    }),
            decreases n - i,
        {
            a.set(t, i, lr.l.get(i, t));
            i += 1;
        }
        a.set(t, n + 1 + t, T::one().neg());
        t += 1;
    }
    let mut k: usize = 0;
    while k < me
        invariant
            prob.wf(),
            lr.fits(prob.n()),
            n == prob.n(),
            me == prob.me(),
            r == lr.rank,
            nt == n + 1 + r,
            met == r + me,
            k <= me,
            f == reform_eq(*prob, *lr),
            a.sized(met as nat, nt as nat),
            forall|i: int, j: int|
                0 <= i < met && 0 <= j < nt ==> #[trigger] a.at(i, j) == (if i < r + k {
                    f(i, j)
                } else {
                    T::zero()
                }),
        decreases me - k,
    {
        let mut i: usize = 0;
        while i < n
            invariant
                prob.wf(),
                n == prob.n(),
                me == prob.me(),
                r == lr.rank,
                nt == n + 1 + r,
                met == r + me,
                k < me,
                i <= n,
                f == reform_eq(*prob, *lr),
                a.sized(met as nat, nt as nat),
                forall|b: int, j: int|
                    0 <= b < met && 0 <= j < nt ==> #[trigger] a.at(b, j) == (if b < r + k || (b == r + k
                        && j < i) {
                        f(b, j)
                    } else {
                        T::zero()
                    }),
            decreases n - i,
        {
            a.set(r + k, i, prob.a_eq.get(k, i));
            i += 1;
        }
        k += 1;
    }
    a
}

fn reform_inequalities<T: Scalar>(prob: &QpProblem<T>, lr: &LowRankDiag<T>, nt: usize, mit: usize) -> (a:
    DenseMatrix<T>)
    requires
        prob.wf(),
        lr.fits(prob.n()),
        nt == prob.n() + 1 + lr.rank,
        mit == prob.mi() + lr.rank + 2,
        mit * nt <= usize::MAX,
    ensures
        a.sized(mit as nat, nt as nat),
        a.entries_are(reform_in(*prob, *lr)),
{
    let n: usize = prob.q.len();
    let mi: usize = prob.b_in.len();
    let r: usize = lr.rank;
    let ghost f = reform_in(*prob, *lr);
    let mut a: DenseMatrix<T> = DenseMatrix::zeros(mit, nt);
    let mut k: usize = 0;
    while k < mi
        invariant
            prob.wf(),
            n == prob.n(),
            mi == prob.mi(),
            r == lr.rank,
            nt == n + 1 + r,
            mit == mi + r + 2,
            k <= mi,
            f == reform_in(*prob, *lr),
            a.sized(mit as nat, nt as nat),
            forall|i: int, j: int|
                0 <= i < mit && 0 <= j < nt ==> #[trigger] a.at(i, j) == (if i < k {
                    f(i, j)
                } else {
                    T::zero()
                }),
        decreases mi - k,
    {
        let mut i: usize = 0;
        while i < n
            invariant
                prob.wf(),
                n == prob.n(),
                mi == prob.mi(),
                r == lr.rank,
                nt == n + 1 + r,
                mit == mi + r + 2,
                k < mi,
                i <= n,
                f == reform_in(*prob, *lr),
                a.sized(mit as nat, nt as nat),
                forall|b: int, j: int|
                    0 <= b < mit && 0 <= j < nt ==> #[trigger] a.at(b, j) == (if b < k || (b == k && j
                        < i) {
                        f(b, j)
                    } else {
                        T::zero()
                    }),
            decreases n - i,
        {
            a.set(k, i, prob.a_in.get(k, i));
            i += 1;
        }
        k += 1;
    }
    let sqrt2 = T::decimal(2, 0).sqrt();
    a.set(mi, n, T::one().neg());
    let mut j: usize = 0;
    while j < r
        invariant
            prob.wf(),
            n == prob.n(),
            mi == prob.mi(),
            r == lr.rank,
            nt == n + 1 + r,
            mit == mi + r + 2,
            sqrt2 == T::decimal(2, 0).sqrt(),
            j <= r,
            f == reform_in(*prob, *lr),
            a.sized(mit as nat, nt as nat),
            forall|b: int, c: int|
                0 <= b < mit && 0 <= c < nt ==> #[trigger] a.at(b, c) == (if b < mi + 1 + j {
                    f(b, c)
                } else {
                    T::zero()
                }),
        decreases r - j,
    {
        a.set(mi + 1 + j, n + 1 + j, sqrt2.neg());
        j += 1;
    }
    a.set(mi + 1 + r, n, T::one().neg());
    a
}

/// `a` followed by `one`, `zeros` zeros and, where `last` is given, by it.
fn framed<T: Scalar>(a: &[T], zeros: usize, last: Option<T>) -> (r: Vec<T>)
    ensures
        r@ == a@ + seq![T::one()] + Seq::new(zeros as nat, |i: int| T::zero()) + (match last {
            Some(v) => seq![v],
            None => Seq::empty(),
        }),
{
    let mut r = copied(a);
    r.push(T::one());
    let ghost head = r@;
    let mut i: usize = 0;
    while i < zeros
        invariant
            i <= zeros,
            r@ =~= head + Seq::new(i as nat, |i: int| T::zero()),
        decreases zeros - i,
    {
        r.push(T::zero());
        i += 1;
    }
    if let Some(v) = last {
        r.push(v);
    }
    assert(r@ =~= a@ + seq![T::one()] + Seq::new(zeros as nat, |i: int| T::zero()) + (match last {
        Some(v) => seq![v],
        None => Seq::empty(),
    }));
    r
}

/// The conic program that stands for the problem, and its cones: an orthant for the original
/// inequality rows and one second-order cone.
pub fn reformulate<T: Scalar>(prob: &QpProblem<T>, lr: &LowRankDiag<T>) -> (r: (
    QpProblem<T>,
    Vec<Cone>,
))
    requires
        prob.wf(),
        lr.fits(prob.n()),
        reform_fits(*prob, *lr),
    ensures
        is_reformulation(*prob, *lr, r.0),
        r.1@ == seq![
            Cone::NonNeg(prob.mi() as usize),
            Cone::Soc((lr.rank + 2) as usize),
        ],
{
    let n: usize = prob.q.len();
    let me: usize = prob.b_eq.len();
    let mi: usize = prob.b_in.len();
    let rank: usize = lr.rank;
    let nt: usize = n + 1 + rank;
    let met: usize = rank + me;
    let mit: usize = mi + rank + 2;
    let p = reform_hessian(lr, n, nt);
    let a_eq = reform_equalities(prob, lr, nt, met);
    let a_in = reform_inequalities(prob, lr, nt, mit);
    let q = framed(&prob.q, rank, None);
    let b_in = framed(&prob.b_in, rank, Some(T::one().neg()));
    let mut b_eq: Vec<T> = filled(T::zero(), rank);
    let mut k: usize = 0;
    while k < me
        invariant
            me == prob.me(),
            k <= me,
            b_eq@ =~= Seq::new(rank as nat, |i: int| T::zero()) + prob.b_eq@.subrange(0, k as int),
        decreases me - k,
    {
        b_eq.push(prob.b_eq[k]);
        k += 1;
    }
    assert(prob.b_eq@.subrange(0, me as int) =~= prob.b_eq@);
    let mut cones: Vec<Cone> = Vec::new();
    cones.push(Cone::NonNeg(mi));
    cones.push(Cone::Soc(rank + 2));
    assert(cones@ =~= seq![Cone::NonNeg(prob.mi() as usize), Cone::Soc((lr.rank + 2) as usize)]);
    let out = QpProblem { p, q, a_eq, b_eq, a_in, b_in, a_eq_csr: None, a_in_csr: None };
    assert(out.q@ =~= prob.q@ + seq![T::one()] + Seq::new(rank as nat, |i: int| T::zero()));
    assert(out.b_eq@ =~= Seq::new(rank as nat, |i: int| T::zero()) + prob.b_eq@);
    (out, cones)
}

/// The status carries a solution.
pub open spec fn solution_found(status: Status) -> bool {
    status == Status::Solved || status == Status::SolvedInaccurate
}

/// The objective `x'Px / 2 + q'x`.
pub open spec fn objective<T: Scalar>(prob: QpProblem<T>, x: Seq<T>) -> T {
    T::decimal(5, 1).times(dot_spec(x, matvec_spec(prob.p, x))).plus(dot_spec(prob.q@, x))
}

/// The objective `x'Px / 2 + q'x`.
pub fn objective_at<T: Scalar>(prob: &QpProblem<T>, x: &[T]) -> (r: T)
    requires
        prob.wf(),
        x@.len() == prob.n(),
    ensures
        r == objective(*prob, x@),
{
    let px = prob.p.matvec(x);
    T::decimal(5, 1).times(dot(x, &px)).plus(dot(&prob.q, x))
}

/// The solution of the reformulation fits it.
pub open spec fn reform_solution<T: Scalar>(prob: QpProblem<T>, rank: nat, sol: QpSolution<T>) -> bool {
    &&& sol.x@.len() == prob.n() + 1 + rank
    &&& sol.y@.len() == rank + prob.me()
    &&& sol.s@.len() == prob.mi() + rank + 2
    &&& sol.z@.len() == sol.s@.len()
}

/// The solution of the original problem from that of the reformulation: the unknowns without `t`
/// and `u`, the multipliers without those of `L' x = u` and of the second-order cone, and the
/// objective in original units. None where the reformulation found no solution.
pub open spec fn restored<T: Scalar>(prob: QpProblem<T>, rank: nat, sol: QpSolution<T>) -> Option<
    (Status, Seq<T>, Seq<T>, Seq<T>, Seq<T>, T, usize),
> {
    let x = sol.x@.subrange(0, prob.n() as int);
    if solution_found(sol.status) {
        Some(
            (
                sol.status,
                x,
                sol.y@.subrange(rank as int, (rank + prob.me()) as int),
                sol.s@.subrange(0, prob.mi() as int),
                sol.z@.subrange(0, prob.mi() as int),
                objective(prob, x),
                sol.iters,
            ),
        )
    } else {
        None
    }
}

/// Maps the solution of the reformulation back to the original problem.
pub fn restore<T: Scalar>(prob: &QpProblem<T>, rank: usize, sol: &QpSolution<T>) -> (r: Option<
    QpSolution<T>,
>)
    requires
        prob.wf(),
        reform_solution(*prob, rank as nat, *sol),
    ensures
        r is Some == restored(*prob, rank as nat, *sol) is Some,
        r matches Some(out) ==> out.parts() == restored(*prob, rank as nat, *sol)->0 && out.plain(),
{
    if !(sol.status == Status::Solved || sol.status == Status::SolvedInaccurate) {
        return None;
    }
    let n: usize = prob.q.len();
    let me: usize = prob.b_eq.len();
    let mi: usize = prob.b_in.len();
    let y_len: usize = sol.y.len();
    let x = slice_of(&sol.x, 0, n);
    let y = slice_of(&sol.y, rank, rank + me);
    let s = slice_of(&sol.s, 0, mi);
    let z = slice_of(&sol.z, 0, mi);
    let obj = objective_at(prob, &x);
    Some(QpSolution::new(sol.status, x, y, s, z, obj, sol.iters))
}

/// The iteration cap of the reformulated solve: at least 500.
pub open spec fn reform_cap(max_iters: usize) -> usize {
    if max_iters < 500 {
        500
    } else {
        max_iters
    }
}

/// The iteration cap of the reformulated solve: at least 500.
pub fn reform_iterations(max_iters: usize) -> (r: usize)
    ensures
        r == reform_cap(max_iters),
{
    if max_iters < 500 {
        500
    } else {
        max_iters
    }
}

/// The cones of the reformulation: the nonnegative orthant of the inequality rows, and the second-order
/// cone of the low-rank part.
pub open spec fn reform_cones<T: Scalar>(prob: QpProblem<T>, lr: LowRankDiag<T>) -> Seq<Cone> {
    seq![Cone::NonNeg(prob.mi() as usize), Cone::Soc((lr.rank + 2) as usize)]
}

/// What the conic engine may give: for a problem, its cones and an iteration cap, a solution.
pub type Solves<T> = spec_fn(QpProblem<T>, Seq<Cone>, usize, QpSolution<T>) -> bool;

/// `sol` is what the conic engine may give for the problem.
pub open spec fn solved_as<T>(
    solves: Solves<T>,
    p: QpProblem<T>,
    cones: Seq<Cone>,
    cap: usize,
    sol: QpSolution<T>,
) -> bool {
    solves(p, cones, cap, sol)
}

/// `out` is what becomes of the decomposition `lr`: nothing where it is not genuine, else what the
/// solution of the reformulation restores to.
pub open spec fn routed<T: Scalar>(
    prob: QpProblem<T>,
    lr: LowRankDiag<T>,
    max_iters: usize,
    solves: Solves<T>,
    out: Option<QpSolution<T>>,
) -> bool {
    if !lr.genuine(prob.n()) {
        out is None
    } else {
        exists|p: QpProblem<T>, sol: QpSolution<T>|
            {
                &&& is_reformulation(prob, lr, p)
                &&& #[trigger] solved_as(solves, p, reform_cones(prob, lr), reform_cap(max_iters), sol)
                &&& out is Some == restored(prob, lr.rank as nat, sol) is Some
                &&& out matches Some(o) ==> o.parts() == restored(prob, lr.rank as nat, sol)->0
                    && o.plain()
            }
    }
}

/// `r` is what the low-rank structure of the problem gives, where `before` is known of such structures and
/// `after` is known then: nothing where the problem has none, else what becomes of the structure, which
/// comes from the equality rows or from the Hessian.
pub open spec fn lowrank_route<T: Scalar, D: Fn(&DenseMatrix<T>, T, usize) -> Option<LowRankDiag<T>>>(
    prob: QpProblem<T>,
    max_iters: usize,
    before: SearchesView<T>,
    detect: D,
    solves: Solves<T>,
    after: SearchesView<T>,
    r: Option<QpSolution<T>>,
) -> bool {
    match source_of(prob) {
        LowRankSource::Nowhere => r is None && after == before,
        LowRankSource::Equalities => {
            &&& after == before
            &&& if factor_rows(prob, prob.me()).len() == 0 {
                r is None
            } else {
                exists|lr: LowRankDiag<T>|
                    is_equality_factor(prob, lr) && #[trigger] routed(prob, lr, max_iters, solves, r)
            }
        },
        LowRankSource::Hessian => exists|found: Option<LowRankDiag<T>>|
            {
                &&& #[trigger] structure_for(
                    prob.p,
                    hash_of(prob.p),
                    rank_cap_of(prob.n()) as usize,
                    before,
                    detect,
                    after,
                    found,
                )
                &&& match found {
                    Some(lr) => routed(prob, lr, max_iters, solves, r),
                    None => r is None,
                }
            },
    }
}

/// The search takes the Hessian, and what it finds has the Hessian's order.
pub open spec fn detects<T: Scalar, D: Fn(&DenseMatrix<T>, T, usize) -> Option<LowRankDiag<T>>>(
    prob: QpProblem<T>,
    detect: D,
) -> bool {
    &&& source_of(prob) is Hessian ==> detect.requires((&prob.p, search_tolerance(), rank_cap_of(prob.n()) as usize))
    &&& forall|lr: LowRankDiag<T>| #[trigger]
        detect.ensures((&prob.p, search_tolerance(), rank_cap_of(prob.n()) as usize), Some(lr)) ==> lr.fits(prob.n())
}

/// Solves a quadratic program whose Hessian is low-rank plus diagonal through the conic program
/// that stands for it, which `solve` solves under an iteration cap.
pub(crate) fn solve_reformed<
    T: Scalar,
    D: Fn(&DenseMatrix<T>, T, usize) -> Option<LowRankDiag<T>>,
    S: Fn(&QpProblem<T>, &[Cone], usize) -> QpSolution<T>,
>(
    prob: &QpProblem<T>,
    max_iters: usize,
    known: &mut Searches<T>,
    detect: &D,
    solve: &S,
    Ghost(solves): Ghost<Solves<T>>,
) -> (r: Option<QpSolution<T>>)
    requires
        prob.wf(),
        prob.n() * prob.me() <= usize::MAX,
        detects(*prob, *detect),
        reform_sizes(*prob),
        forall|p: &QpProblem<T>, c: &[Cone], cap: usize, lr: LowRankDiag<T>|
            #![trigger solve.requires((p, c, cap)), is_reformulation(*prob, lr, *p)]
            is_reformulation(*prob, lr, *p) && lr.genuine(prob.n()) && c@ == reform_cones(*prob, lr)
                ==> solve.requires((p, c, cap)),
        forall|p: &QpProblem<T>, c: &[Cone], cap: usize, sol: QpSolution<T>| #[trigger]
            solve.ensures((p, c, cap), sol) ==> sol.sized(p.n(), p.me(), p.mi()) && solved_as(
                solves,
                *p,
                c@,
                cap,
                sol,
            ),
    ensures
        lowrank_route(*prob, max_iters, old(known)@, *detect, solves, final(known)@, r),
{
    let n: usize = prob.q.len();
    let lr: LowRankDiag<T>;
    match lowrank_source(prob) {
        LowRankSource::Nowhere => {
            return None;
        },
        LowRankSource::Equalities => {
            match equality_factor(prob) {
                None => {
                    return None;
                },
                Some(found) => {
                    lr = found;
                },
            }
        },
        LowRankSource::Hessian => {
            let p: &DenseMatrix<T> = &prob.p;
            let cap: usize = rank_cap(n);
            let found = detect_cached(p, hash_p(p), cap, known, detect);
            match found {
                None => {
                    return None;
                },
                Some(found) => {
                    lr = found;
                },
            }
        },
    }
    if !is_genuine(&lr, n) {
        assert(routed(*prob, lr, max_iters, solves, None));
        return None;
    }
    proof {
        lemma_reform_fits(*prob, lr);
    }
    let (reformed, cones) = reformulate(prob, &lr);
    let p: &QpProblem<T> = &reformed;
    let c: &[Cone] = cones.as_slice();
    assert(c@ =~= reform_cones(*prob, lr));
    let sol = solve(p, c, reform_iterations(max_iters));
    assert(solved_as(solves, reformed, reform_cones(*prob, lr), reform_cap(max_iters), sol));
    let out = restore(prob, lr.rank, &sol);
    assert(routed(*prob, lr, max_iters, solves, out));
    out
}

} // verus!
