//! Sparse linear programs through a dual simplex method: rows with one entry become bounds, every
//! other row gets a slack variable, and the multipliers are recovered and checked.
use crate::matrix::{nonzero_count, DenseMatrix};
use crate::problem::{QpProblem, QpSolution, Status};
use crate::scalar::Scalar;
use crate::simplex_laws::{boxed_program_has_the_same_points, boxes, recovered_point_is_feasible, recovers_point};
use crate::vector::{copied, filled, inf_norm, inf_norm_spec, slice_of};
use vstd::prelude::*;

verus! {

/// The number of nonzero entries of inequality row `r`.
pub open spec fn entries_in<T: Scalar>(prob: QpProblem<T>, r: int) -> nat {
    nonzero_count(prob.a_in.row(r), prob.n())
}

/// The last column among the first `k` with a nonzero entry in the row, and 0 where there is none.
pub open spec fn last_nonzero<T: Scalar>(row: Seq<T>, k: nat) -> nat
    decreases k,
{
    if k == 0 {
        0
    } else if row[k - 1].equals(T::zero()) {
        last_nonzero(row, (k - 1) as nat)
    } else {
        (k - 1) as nat
    }
}

/// The column of the entry of a row with a single one.
pub open spec fn bound_col<T: Scalar>(prob: QpProblem<T>, r: int) -> int {
    last_nonzero(prob.a_in.row(r), prob.n()) as int
}

/// The entry of a row with a single one.
pub open spec fn bound_val<T: Scalar>(prob: QpProblem<T>, r: int) -> T {
    prob.a_in.at(r, bound_col(prob, r))
}

pub proof fn lemma_last_nonzero<T: Scalar>(row: Seq<T>, k: nat)
    requires
        nonzero_count(row, k) > 0,
    ensures
        last_nonzero(row, k) < k,
        !row[last_nonzero(row, k) as int].equals(T::zero()),
    decreases k,
{
    if k > 0 && row[k - 1].equals(T::zero()) {
        lemma_last_nonzero(row, (k - 1) as nat);
    }
}

/// The rows with a single entry among the first `k`, each with its column and its entry.
pub open spec fn bound_rows<T: Scalar>(prob: QpProblem<T>, k: nat) -> Seq<(usize, usize, T)>
    decreases k,
{
    if k == 0 {
        Seq::empty()
    } else {
        let front = bound_rows(prob, (k - 1) as nat);
        if entries_in(prob, k - 1) == 1 {
            front.push(
                (
                    (k - 1) as usize,
                    bound_col(prob, k - 1) as usize,
                    bound_val(prob, k - 1),
                ),
            )
        } else {
            front
        }
    }
}

/// The rows with more than one entry among the first `k`.
pub open spec fn general_rows<T: Scalar>(prob: QpProblem<T>, k: nat) -> Seq<usize>
    decreases k,
{
    if k == 0 {
        Seq::empty()
    } else {
        let front = general_rows(prob, (k - 1) as nat);
        if entries_in(prob, k - 1) > 1 {
            front.push((k - 1) as usize)
        } else {
            front
        }
    }
}

/// Row `r`, where it is general, stands behind those before it.
pub proof fn lemma_general_rows<T: Scalar>(prob: QpProblem<T>, k: nat)
    requires
        k <= usize::MAX,
    ensures
        general_rows(prob, k).len() <= k,
        forall|i: int|
            0 <= i < general_rows(prob, k).len() ==> {
                let r = #[trigger] general_rows(prob, k)[i];
                r < k && entries_in(prob, r as int) > 1 && general_rows(prob, r as nat).len() == i
            },
        forall|r: int|
            0 <= r < k && #[trigger] entries_in(prob, r) > 1 ==> general_rows(prob, r as nat).len()
                < general_rows(prob, k).len() && general_rows(prob, k)[general_rows(
                prob,
                r as nat,
            ).len() as int] == r,
    decreases k,
{
    if k > 0 {
        lemma_general_rows(prob, (k - 1) as nat);
        let front = general_rows(prob, (k - 1) as nat);
        let all = general_rows(prob, k);
        assert forall|r: int| 0 <= r < k && #[trigger] entries_in(prob, r) > 1 implies general_rows(
            prob,
            r as nat,
        ).len() < all.len() && all[general_rows(prob, r as nat).len() as int] == r by {
            if r < k - 1 {
                assert(front[general_rows(prob, r as nat).len() as int] == r);
            }
        }
    }
}

/// What is recorded of a row with a single entry.
pub proof fn lemma_bound_rows<T: Scalar>(prob: QpProblem<T>, k: nat)
    requires
        prob.wf(),
        k <= prob.mi(),
    ensures
        bound_rows(prob, k).len() <= k,
        forall|i: int|
            0 <= i < bound_rows(prob, k).len() ==> {
                let e = #[trigger] bound_rows(prob, k)[i];
                &&& e.0 < k
                &&& e.1 < prob.n()
                &&& entries_in(prob, e.0 as int) == 1
                &&& e.1 == bound_col(prob, e.0 as int)
                &&& e.2 == bound_val(prob, e.0 as int)
            },
        forall|r: int|
            0 <= r < k && #[trigger] entries_in(prob, r) == 1 ==> exists|i: int|
                0 <= i < bound_rows(prob, k).len() && (#[trigger] bound_rows(prob, k)[i]).0 == r,
        forall|i: int, j: int|
            0 <= i < j < bound_rows(prob, k).len() ==> (#[trigger] bound_rows(prob, k)[i]).0 < (
            #[trigger] bound_rows(prob, k)[j]).0,
    decreases k,
{
    if k > 0 {
        lemma_bound_rows(prob, (k - 1) as nat);
        let front = bound_rows(prob, (k - 1) as nat);
        let all = bound_rows(prob, k);
        if entries_in(prob, k - 1) == 1 {
            lemma_last_nonzero(prob.a_in.row(k - 1), prob.n());
        }
        assert forall|r: int| 0 <= r < k && #[trigger] entries_in(prob, r) == 1 implies exists|i: int|
            0 <= i < all.len() && (#[trigger] all[i]).0 == r by {
            if r < k - 1 {
                let i = choose|i: int| 0 <= i < front.len() && (#[trigger] front[i]).0 == r;
                assert(all[i].0 == r);
            } else {
                assert(all[all.len() - 1].0 == r);
            }
        }
    }
}

/// The rows of the inequality matrix, told apart by the number of their entries.
pub struct RowClasses<T> {
    /// Rows with a single entry, with its column and value.
    pub singleton: Vec<(usize, usize, T)>,
    /// Rows with more than one entry.
    pub general: Vec<usize>,
}

/// Tells the inequality rows apart by the number of their entries.
pub fn classify_rows<T: Scalar>(prob: &QpProblem<T>) -> (r: RowClasses<T>)
    requires
        prob.wf(),
    ensures
        r.singleton@ == bound_rows(*prob, prob.mi()),
        r.general@ == general_rows(*prob, prob.mi()),
{
    let n: usize = prob.q.len();
    let mi: usize = prob.b_in.len();
    let mut singleton: Vec<(usize, usize, T)> = Vec::new();
    let mut general: Vec<usize> = Vec::new();
    let mut r: usize = 0;
    while r < mi
        invariant
            prob.wf(),
            n == prob.n(),
            mi == prob.mi(),
            r <= mi,
            singleton@ == bound_rows(*prob, r as nat),
            general@ == general_rows(*prob, r as nat),
        decreases mi - r,
    {
        let ghost row = prob.a_in.row(r as int);
        let mut nz: usize = 0;
        let mut col: usize = 0;
        let mut j: usize = 0;
        while j < n
            invariant
                prob.wf(),
                n == prob.n(),
                mi == prob.mi(),
                r < mi,
                row == prob.a_in.row(r as int),
                j <= n,
                nz <= j,
                nz == nonzero_count(row, j as nat),
                col == last_nonzero(row, j as nat),
            decreases n - j,
        {
            let v = prob.a_in.get(r, j);
            if !v.equals(T::zero()) {
                nz += 1;
                col = j;
            }
            j += 1;
        }
        if nz == 1 {
            proof {
                lemma_last_nonzero(row, n as nat);
            }
            let val = prob.a_in.get(r, col);
            singleton.push((r, col, val));
        } else if nz > 1 {
            general.push(r);
        }
        r += 1;
    }
    RowClasses { singleton, general }
}

/// The bound that stands for no bound.
pub open spec fn unbounded<T: Scalar>() -> T {
    T::decimal(10000000000, 0).times(T::decimal(10000000000, 0))
}

/// The upper bound of unknown `c` from the first `k` bound rows: the least quotient of a
/// right-hand side by a positive entry.
pub open spec fn upper_bound<T: Scalar>(prob: QpProblem<T>, rows: Seq<(usize, usize, T)>, c: int, k: nat) -> T
    decreases k,
{
    if k == 0 {
        unbounded()
    } else {
        let front = upper_bound(prob, rows, c, (k - 1) as nat);
        let (r, col, val) = rows[k - 1];
        if col == c && T::zero().below(val) {
            front.min(prob.b_in@[r as int].over(val))
        } else {
            front
        }
    }
}

/// The lower bound of unknown `c` from the first `k` bound rows: the largest quotient of a
/// right-hand side by an entry that is not positive.
pub open spec fn lower_bound<T: Scalar>(prob: QpProblem<T>, rows: Seq<(usize, usize, T)>, c: int, k: nat) -> T
    decreases k,
{
    if k == 0 {
        unbounded::<T>().neg()
    } else {
        let front = lower_bound(prob, rows, c, (k - 1) as nat);
        let (r, col, val) = rows[k - 1];
        if col == c && !T::zero().below(val) {
            front.max(prob.b_in@[r as int].over(val))
        } else {
            front
        }
    }
}

/// The bound that stands for no bound.
fn no_bound<T: Scalar>() -> (r: T)
    ensures
        r == unbounded::<T>(),
{
    T::decimal(10000000000, 0).times(T::decimal(10000000000, 0))
}

/// The bounds that the rows with a single entry put on each unknown: first the lower, then the
/// upper ones.
pub fn fold_bounds<T: Scalar>(prob: &QpProblem<T>, rows: &[(usize, usize, T)]) -> (r: (Vec<T>, Vec<T>))
    requires
        prob.wf(),
        forall|i: int|
            0 <= i < rows@.len() ==> (#[trigger] rows@[i]).0 < prob.mi() && rows@[i].1 < prob.n(),
    ensures
        r.0@ == Seq::new(prob.n(), |c: int| lower_bound(*prob, rows@, c, rows@.len())),
        r.1@ == Seq::new(prob.n(), |c: int| upper_bound(*prob, rows@, c, rows@.len())),
{
    let n: usize = prob.q.len();
    let huge: T = no_bound();
    let mut lb: Vec<T> = filled(huge.neg(), n);
    let mut ub: Vec<T> = filled(huge, n);
    let mut i: usize = 0;
    while i < rows.len()
        invariant
            prob.wf(),
            n == prob.n(),
            forall|i: int|
                0 <= i < rows@.len() ==> (#[trigger] rows@[i]).0 < prob.mi() && rows@[i].1 < prob.n(),
            i <= rows@.len(),
            lb@.len() == n,
            ub@.len() == n,
            forall|c: int| 0 <= c < n ==> #[trigger] lb@[c] == lower_bound(*prob, rows@, c, i as nat),
            forall|c: int| 0 <= c < n ==> #[trigger] ub@[c] == upper_bound(*prob, rows@, c, i as nat),
        decreases rows@.len() - i,
    {
        let (r, col, val) = rows[i];
        assert(rows@[i as int].0 < prob.mi());
        let rhs = prob.b_in[r].over(val);
        if T::zero().below(val) {
            let v = ub[col].min(rhs);
            ub[col] = v;
        } else {
            let v = lb[col].max(rhs);
            lb[col] = v;
        }
        i += 1;
    }
    assert(lb@ =~= Seq::new(n as nat, |c: int| lower_bound(*prob, rows@, c, rows@.len())));
    assert(ub@ =~= Seq::new(n as nat, |c: int| upper_bound(*prob, rows@, c, rows@.len())));
    (lb, ub)
}

/// A linear program over boxed variables: minimize `c'x` subject to `A x = b` and
/// `lower <= x <= upper`, with the slacks of the general rows behind the unknowns.
pub struct BoxLp<T> {
    pub c: Vec<T>,
    pub a: DenseMatrix<T>,
    pub b: Vec<T>,
    pub lower: Vec<T>,
    pub upper: Vec<T>,
}

/// The entry of the extended constraint matrix: the general row, then its slack.
pub open spec fn extended_entry<T: Scalar>(prob: QpProblem<T>) -> spec_fn(int, int) -> T {
    |i: int, j: int|
        if j < prob.n() {
            prob.a_in.at(general_rows(prob, prob.mi())[i] as int, j)
        } else if j == prob.n() + i {
            T::one()
        } else {
            T::zero()
        }
}

/// `lp` is the boxed program of the problem.
pub open spec fn is_box_lp<T: Scalar>(prob: QpProblem<T>, lp: BoxLp<T>) -> bool {
    let n = prob.n();
    let general = general_rows(prob, prob.mi());
    let bounds = bound_rows(prob, prob.mi());
    let m = general.len();
    &&& lp.c@ == prob.q@ + Seq::new(m, |i: int| T::zero())
    &&& lp.a.sized(m, n + m)
    &&& lp.a.entries_are(extended_entry(prob))
    &&& lp.b@ == Seq::new(m, |i: int| prob.b_in@[general[i] as int])
    &&& lp.lower@ == Seq::new(n, |c: int| lower_bound(prob, bounds, c, bounds.len())) + Seq::new(
        m,
        |i: int| T::zero(),
    )
    &&& lp.upper@ == Seq::new(n, |c: int| upper_bound(prob, bounds, c, bounds.len())) + Seq::new(
        m,
        |i: int| unbounded(),
    )
}

/// The boxed program of the problem.
pub fn box_lp<T: Scalar>(prob: &QpProblem<T>, classes: &RowClasses<T>) -> (lp: BoxLp<T>)
    requires
        prob.wf(),
        classes.singleton@ == bound_rows(*prob, prob.mi()),
        classes.general@ == general_rows(*prob, prob.mi()),
        prob.mi() * (prob.n() + prob.mi()) <= usize::MAX,
    ensures
        is_box_lp(*prob, lp),
        boxes(*prob, lp),
{
    let n: usize = prob.q.len();
    let mi: usize = prob.b_in.len();
    let general = &classes.general;
    let m: usize = general.len();
    proof {
        lemma_general_rows(*prob, mi as nat);
        lemma_bound_rows(*prob, mi as nat);
        assert(m * (n + m) <= mi * (n + mi)) by (nonlinear_arith)
            requires
                0 <= m <= mi,
                0 <= n,
        ;
    }
    let total: usize = n + m;
    let (mut lower, mut upper) = fold_bounds(prob, &classes.singleton);
    let mut c = copied(&prob.q);
    let ghost lo = lower@;
    let ghost up = upper@;
    let huge: T = no_bound();
    let mut a: DenseMatrix<T> = DenseMatrix::zeros(m, total);
    let mut b: Vec<T> = Vec::with_capacity(m);
    let ghost f = extended_entry(*prob);
    let mut k: usize = 0;
    while k < m
        invariant
            prob.wf(),
            n == prob.n(),
            mi == prob.mi(),
            general@ == general_rows(*prob, prob.mi()),
            m == general@.len(),
            total == n + m,
            huge == unbounded::<T>(),
            forall|i: int| 0 <= i < m ==> (#[trigger] general@[i]) < mi,
            f == extended_entry(*prob),
            k <= m,
            a.sized(m as nat, total as nat),
            forall|i: int, j: int|
                0 <= i < m && 0 <= j < total ==> #[trigger] a.at(i, j) == (if i < k {
                    f(i, j)
                } else {
                    T::zero()
                }),
            b@ =~= Seq::new(k as nat, |i: int| prob.b_in@[general@[i] as int]),
            c@ =~= prob.q@ + Seq::new(k as nat, |i: int| T::zero()),
            lower@ =~= lo + Seq::new(k as nat, |i: int| T::zero()),
            upper@ =~= up + Seq::new(k as nat, |i: int| unbounded::<T>()),
        decreases m - k,
    {
        let row: usize = general[k];
        let mut j: usize = 0;
        while j < n
            invariant
                prob.wf(),
                n == prob.n(),
                mi == prob.mi(),
                general@ == general_rows(*prob, prob.mi()),
                m == general@.len(),
                total == n + m,
                k < m,
                row == general@[k as int],
                row < mi,
                f == extended_entry(*prob),
                j <= n,
                a.sized(m as nat, total as nat),
                forall|i: int, e: int|
                    0 <= i < m && 0 <= e < total ==> #[trigger] a.at(i, e) == (if i < k || (i == k && e
                        < j) {
                        f(i, e)
                    } else {
                        T::zero()
                    }),
            decreases n - j,
        {
            a.set(k, j, prob.a_in.get(row, j));
            j += 1;
        }
        a.set(k, n + k, T::one());
        b.push(prob.b_in[row]);
        c.push(T::zero());
        lower.push(T::zero());
        upper.push(huge);
        k += 1;
    }
    let lp = BoxLp { c, a, b, lower, upper };
    proof {
        boxed_program_has_the_same_points(*prob, lp);
    }
    lp
}

/// What the simplex method found at the optimum: the variables, the row multipliers, the
/// objective and the number of pivots.
pub struct Vertex<T> {
    pub x: Vec<T>,
    pub pi: Vec<T>,
    pub obj: T,
    pub iters: usize,
}

/// The slack of row `r`: from the bound for a row with a single entry, from the slack variable
/// for a general row, and the right-hand side for an empty row.
pub open spec fn slack_of<T: Scalar>(prob: QpProblem<T>, x: Seq<T>, r: int) -> T {
    if entries_in(prob, r) == 1 {
        prob.b_in@[r].minus(bound_val(prob, r).times(x[bound_col(prob, r)]))
    } else if entries_in(prob, r) > 1 {
        x[(prob.n() + general_rows(prob, r as nat).len()) as int]
    } else {
        prob.b_in@[r]
    }
}

/// The slacks of all rows.
pub open spec fn slacks<T: Scalar>(prob: QpProblem<T>, x: Seq<T>) -> Seq<T> {
    Seq::new(prob.mi(), |r: int| slack_of(prob, x, r))
}

/// The price of unknown `j` over the first `k` general rows.
pub open spec fn price_upto<T: Scalar>(prob: QpProblem<T>, pi: Seq<T>, j: int, k: nat) -> T
    decreases k,
{
    if k == 0 {
        T::zero()
    } else {
        let front = price_upto(prob, pi, j, (k - 1) as nat);
        let a = prob.a_in.at(general_rows(prob, prob.mi())[k - 1] as int, j);
        if a.equals(T::zero()) {
            front
        } else {
            front.plus(pi[k - 1].times(a))
        }
    }
}

/// The reduced cost of unknown `j`.
pub open spec fn reduced_cost<T: Scalar>(prob: QpProblem<T>, pi: Seq<T>, j: int) -> T {
    prob.q@[j].minus(price_upto(prob, pi, j, general_rows(prob, prob.mi()).len()))
}

/// The tolerance on slacks.
pub open spec fn slack_tolerance<T: Scalar>(prob: QpProblem<T>) -> T {
    T::decimal(1, 8).times(T::one().plus(inf_norm_spec(prob.b_in@)))
}

/// Row `r` is a tight bound on unknown `j`.
pub open spec fn tight<T: Scalar>(prob: QpProblem<T>, x: Seq<T>, j: int, r: int) -> bool {
    &&& entries_in(prob, r) == 1
    &&& bound_col(prob, r) == j
    &&& slack_of(prob, x, r).abs().at_most(slack_tolerance(prob))
}

/// The number of tight bounds on unknown `j` among the first `k` rows.
pub open spec fn tight_count<T: Scalar>(prob: QpProblem<T>, x: Seq<T>, j: int, k: nat) -> nat
    decreases k,
{
    if k == 0 {
        0
    } else {
        tight_count(prob, x, j, (k - 1) as nat) + if tight(prob, x, j, k - 1) {
            1nat
        } else {
            0nat
        }
    }
}

/// The multiplier of row `r`: the negated row multiplier for a general row; for a tight bound its
/// even share of the reduced cost; zero for any other row.
pub open spec fn multiplier_of<T: Scalar>(prob: QpProblem<T>, x: Seq<T>, pi: Seq<T>, r: int) -> T {
    let j = bound_col(prob, r);
    if entries_in(prob, r) > 1 {
        pi[general_rows(prob, r as nat).len() as int].neg()
    } else if tight(prob, x, j, r) {
        reduced_cost(prob, pi, j).neg().over(
            bound_val(prob, r).times(T::from_usize(tight_count(prob, x, j, prob.mi()) as usize)),
        )
    } else {
        T::zero()
    }
}

/// The multipliers of all rows.
pub open spec fn multipliers<T: Scalar>(prob: QpProblem<T>, x: Seq<T>, pi: Seq<T>) -> Seq<T> {
    Seq::new(prob.mi(), |r: int| multiplier_of(prob, x, pi, r))
}

proof fn lemma_tight_count<T: Scalar>(prob: QpProblem<T>, x: Seq<T>, j: int, k: nat)
    ensures
        tight_count(prob, x, j, k) <= k,
    decreases k,
{
    if k > 0 {
        lemma_tight_count(prob, x, j, (k - 1) as nat);
    }
}

/// The slacks that the vertex gives.
pub fn recover_slacks<T: Scalar>(prob: &QpProblem<T>, classes: &RowClasses<T>, x: &[T]) -> (s: Vec<T>)
    requires
        prob.wf(),
        classes.singleton@ == bound_rows(*prob, prob.mi()),
        classes.general@ == general_rows(*prob, prob.mi()),
        x@.len() == prob.n() + classes.general@.len(),
    ensures
        s@ == slacks(*prob, x@),
{
    let n: usize = prob.q.len();
    let mi: usize = prob.b_in.len();
    let total: usize = x.len();
    proof {
        lemma_general_rows(*prob, mi as nat);
        lemma_bound_rows(*prob, mi as nat);
    }
    let mut s: Vec<T> = copied(&prob.b_in);
    let mut i: usize = 0;
    while i < classes.singleton.len()
        invariant
            prob.wf(),
            n == prob.n(),
            mi == prob.mi(),
            classes.singleton@ == bound_rows(*prob, prob.mi()),
            x@.len() == prob.n() + classes.general@.len(),
            i <= classes.singleton@.len(),
            s@.len() == mi,
            forall|r: int|
                0 <= r < mi ==> #[trigger] s@[r] == (if exists|k: int|
                    0 <= k < i && (#[trigger] classes.singleton@[k]).0 == r {
                    slack_of(*prob, x@, r)
                } else {
                    prob.b_in@[r]
                }),
        decreases classes.singleton@.len() - i,
    {
        let (r, col, val) = classes.singleton[i];
        proof {
            lemma_bound_rows(*prob, mi as nat);
            assert(classes.singleton@[i as int].0 < mi);
        }
        let ghost before = s@;
        s[r] = prob.b_in[r].minus(val.times(x[col]));
        proof {
            assert forall|q: int| 0 <= q < mi implies #[trigger] s@[q] == (if exists|k: int|
                0 <= k < i + 1 && (#[trigger] classes.singleton@[k]).0 == q {
                slack_of(*prob, x@, q)
            } else {
                prob.b_in@[q]
            }) by {
                if q == r {
                    assert(classes.singleton@[i as int].0 == q);
                } else {
                    assert(s@[q] == before[q]);
                }
            }
        }
        i += 1;
    }
    let ghost folded = s@;
    let mut k: usize = 0;
    while k < classes.general.len()
        invariant
            prob.wf(),
            n == prob.n(),
            mi == prob.mi(),
            total == x@.len(),
            classes.general@ == general_rows(*prob, prob.mi()),
            x@.len() == prob.n() + classes.general@.len(),
            k <= classes.general@.len(),
            s@.len() == mi == folded.len(),
            forall|r: int|
                0 <= r < mi ==> #[trigger] s@[r] == (if exists|e: int|
                    0 <= e < k && (#[trigger] classes.general@[e]) == r {
                    slack_of(*prob, x@, r)
                } else {
                    folded[r]
                }),
        decreases classes.general@.len() - k,
    {
        let row: usize = classes.general[k];
        proof {
            lemma_general_rows(*prob, mi as nat);
            assert(general_rows(*prob, mi as nat)[k as int] < mi);
        }
        let ghost before = s@;
        s[row] = x[n + k];
        proof {
            assert forall|q: int| 0 <= q < mi implies #[trigger] s@[q] == (if exists|e: int|
                0 <= e < k + 1 && (#[trigger] classes.general@[e]) == q {
                slack_of(*prob, x@, q)
            } else {
                folded[q]
            }) by {
                if q == row {
                    assert(classes.general@[k as int] == q);
                } else {
                    assert(s@[q] == before[q]);
                }
            }
        }
        k += 1;
    }
    proof {
        lemma_general_rows(*prob, mi as nat);
        lemma_bound_rows(*prob, mi as nat);
        assert forall|r: int| 0 <= r < mi implies s@[r] == slack_of(*prob, x@, r) by {
            if entries_in(*prob, r) > 1 {
                let e = general_rows(*prob, r as nat).len() as int;
                assert(classes.general@[e] == r);
            } else if entries_in(*prob, r) == 1 {
                let i = choose|i: int|
                    0 <= i < bound_rows(*prob, mi as nat).len() && (#[trigger] bound_rows(
                        *prob,
                        mi as nat,
                    )[i]).0 == r;
                assert(classes.singleton@[i].0 == r);
                if exists|e: int|
                    0 <= e < classes.general@.len() && (#[trigger] classes.general@[e]) == r {
                    let e = choose|e: int|
                        0 <= e < classes.general@.len() && (#[trigger] classes.general@[e]) == r;
                    assert(entries_in(*prob, general_rows(*prob, mi as nat)[e] as int) > 1);
                }
            }
        }
        assert(s@ =~= slacks(*prob, x@));
    }
    s
}

/// The reduced cost of unknown `j`.
fn reduced_cost_of<T: Scalar>(prob: &QpProblem<T>, general: &[usize], pi: &[T], j: usize) -> (r: T)
    requires
        prob.wf(),
        general@ == general_rows(*prob, prob.mi()),
        pi@.len() == general@.len(),
        j < prob.n(),
    ensures
        r == reduced_cost(*prob, pi@, j as int),
{
    let mut acc = T::zero();
    let mut k: usize = 0;
    while k < general.len()
        invariant
            prob.wf(),
            general@ == general_rows(*prob, prob.mi()),
            pi@.len() == general@.len(),
            j < prob.n(),
            k <= general@.len(),
            acc == price_upto(*prob, pi@, j as int, k as nat),
        decreases general@.len() - k,
    {
        proof {
            lemma_general_rows(*prob, prob.mi());
            assert(general_rows(*prob, prob.mi())[k as int] < prob.mi());
        }
        let a = prob.a_in.get(general[k], j);
        if !a.equals(T::zero()) {
            acc = acc.plus(pi[k].times(a));
        }
        k += 1;
    }
    prob.q[j].minus(acc)
}

/// The number of tight bounds on each unknown.
fn count_tight<T: Scalar>(prob: &QpProblem<T>, classes: &RowClasses<T>, s: &[T], Ghost(x): Ghost<Seq<T>>) -> (c:
    Vec<usize>)
    requires
        prob.wf(),
        classes.singleton@ == bound_rows(*prob, prob.mi()),
        s@ == slacks(*prob, x),
    ensures
        c@ == Seq::new(prob.n(), |j: int| tight_count(*prob, x, j, prob.mi()) as usize),
{
    let n: usize = prob.q.len();
    let mi: usize = prob.b_in.len();
    let tol = T::decimal(1, 8).times(T::one().plus(inf_norm(&prob.b_in)));
    let mut count: Vec<usize> = filled(0usize, n);
    let mut i: usize = 0;
    let mut r: usize = 0;
    while r < mi
        invariant
            prob.wf(),
            n == prob.n(),
            mi == prob.mi(),
            classes.singleton@ == bound_rows(*prob, prob.mi()),
            s@ == slacks(*prob, x),
            tol == slack_tolerance(*prob),
            r <= mi,
            i == bound_rows(*prob, r as nat).len(),
            i <= classes.singleton@.len(),
            bound_rows(*prob, r as nat) == classes.singleton@.subrange(0, i as int),
            count@.len() == n,
            forall|j: int| 0 <= j < n ==> #[trigger] count@[j] == tight_count(*prob, x, j, r as nat),
        decreases mi - r,
    {
        proof {
            lemma_bound_rows(*prob, r as nat);
            lemma_bound_rows(*prob, (r + 1) as nat);
            lemma_bound_rows(*prob, mi as nat);
            lemma_prefix(*prob, (r + 1) as nat, mi as nat);
        }
        if i < classes.singleton.len() && classes.singleton[i].0 == r {
            let col: usize = classes.singleton[i].1;
            proof {
                let e = bound_rows(*prob, mi as nat)[i as int];
                assert(entries_in(*prob, r as int) == 1);
                lemma_tight_count(*prob, x, col as int, r as nat);
            }
            if s[r].abs().at_most(tol) {
                let v: usize = count[col] + 1;
                count[col] = v;
            }
            i += 1;
        } else {
            proof {
                if entries_in(*prob, r as int) == 1 {
                    let all = bound_rows(*prob, (r + 1) as nat);
                    assert(all[i as int].0 == r);
                    assert(classes.singleton@.subrange(0, all.len() as int)[i as int] == all[i as int]);
                }
            }
        }
        r += 1;
    }
    proof {
        assert forall|j: int| 0 <= j < n implies tight_count(*prob, x, j, mi as nat) <= usize::MAX by {
            lemma_tight_count(*prob, x, j, mi as nat);
        }
        assert(count@ =~= Seq::new(prob.n(), |j: int| tight_count(*prob, x, j, prob.mi()) as usize));
    }
    count
}

/// The bound rows among the first `a` rows stand in front of those among the first `b`.
proof fn lemma_prefix<T: Scalar>(prob: QpProblem<T>, a: nat, b: nat)
    requires
        a <= b,
    ensures
        bound_rows(prob, a).len() <= bound_rows(prob, b).len(),
        bound_rows(prob, a) == bound_rows(prob, b).subrange(0, bound_rows(prob, a).len() as int),
    decreases b,
{
    let front = bound_rows(prob, a);
    if a < b {
        lemma_prefix(prob, a, (b - 1) as nat);
        let mid = bound_rows(prob, (b - 1) as nat);
        assert(bound_rows(prob, b).subrange(0, front.len() as int) =~= mid.subrange(
            0,
            front.len() as int,
        ));
    } else {
        assert(front.subrange(0, front.len() as int) =~= front);
    }
}

/// The multipliers that the vertex gives.
pub fn recover_multipliers<T: Scalar>(
    prob: &QpProblem<T>,
    classes: &RowClasses<T>,
    x: &[T],
    s: &[T],
    pi: &[T],
) -> (z: Vec<T>)
    requires
        prob.wf(),
        classes.singleton@ == bound_rows(*prob, prob.mi()),
        classes.general@ == general_rows(*prob, prob.mi()),
        x@.len() == prob.n() + classes.general@.len(),
        pi@.len() == classes.general@.len(),
        s@ == slacks(*prob, x@),
    ensures
        z@ == multipliers(*prob, x@, pi@),
{
    let mi: usize = prob.b_in.len();
    let tol = T::decimal(1, 8).times(T::one().plus(inf_norm(&prob.b_in)));
    let counts = count_tight(prob, classes, s, Ghost(x@));
    let mut z: Vec<T> = Vec::with_capacity(mi);
    let mut i: usize = 0;
    let mut k: usize = 0;
    let mut r: usize = 0;
    while r < mi
        invariant
            prob.wf(),
            mi == prob.mi(),
            classes.singleton@ == bound_rows(*prob, prob.mi()),
            classes.general@ == general_rows(*prob, prob.mi()),
            pi@.len() == classes.general@.len(),
            s@ == slacks(*prob, x@),
            tol == slack_tolerance(*prob),
            counts@ == Seq::new(prob.n(), |j: int| tight_count(*prob, x@, j, prob.mi()) as usize),
            r <= mi,
            i == bound_rows(*prob, r as nat).len(),
            i <= classes.singleton@.len(),
            k == general_rows(*prob, r as nat).len(),
            k <= classes.general@.len(),
            z@.len() == r,
            forall|q: int| 0 <= q < r ==> #[trigger] z@[q] == multiplier_of(*prob, x@, pi@, q),
        decreases mi - r,
    {
        proof {
            lemma_bound_rows(*prob, mi as nat);
            lemma_bound_rows(*prob, (r + 1) as nat);
            lemma_prefix(*prob, r as nat, mi as nat);
            lemma_prefix(*prob, (r + 1) as nat, mi as nat);
            lemma_general_rows(*prob, mi as nat);
            let e = entries_in(*prob, r as int);
            if e > 1 {
                assert(classes.general@[k as int] == r);
            }
            if e == 1 {
                let all = bound_rows(*prob, (r + 1) as nat);
                assert(all[i as int].0 == r);
                assert(classes.singleton@.subrange(0, all.len() as int)[i as int] == all[i as int]);
            }
        }
        if k < classes.general.len() && classes.general[k] == r {
            proof {
                assert(entries_in(*prob, general_rows(*prob, mi as nat)[k as int] as int) > 1);
            }
            z.push(pi[k].neg());
            k += 1;
        } else if i < classes.singleton.len() && classes.singleton[i].0 == r {
            let (row, j, val) = classes.singleton[i];
            proof {
                let e = bound_rows(*prob, mi as nat)[i as int];
                assert(entries_in(*prob, r as int) == 1);
            }
            if s[r].abs().at_most(tol) {
                let share = T::from_usize(counts[j]);
                let cost = reduced_cost_of(prob, &classes.general, pi, j);
                z.push(cost.neg().over(val.times(share)));
            } else {
                z.push(T::zero());
            }
            i += 1;
        } else {
            z.push(T::zero());
        }
        r += 1;
    }
    assert(z@ =~= multipliers(*prob, x@, pi@));
    z
}

/// `q + A'z` in coordinate `j`, over the first `k` rows.
pub open spec fn stationarity_upto<T: Scalar>(prob: QpProblem<T>, z: Seq<T>, j: int, k: nat) -> T
    decreases k,
{
    if k == 0 {
        prob.q@[j]
    } else {
        let front = stationarity_upto(prob, z, j, (k - 1) as nat);
        let a = prob.a_in.at(k - 1, j);
        if a.equals(T::zero()) {
            front
        } else {
            front.plus(a.times(z[k - 1]))
        }
    }
}

/// `|A|'|z|` in coordinate `j`, over the first `k` rows.
pub open spec fn dual_scale_upto<T: Scalar>(prob: QpProblem<T>, z: Seq<T>, j: int, k: nat) -> T
    decreases k,
{
    if k == 0 {
        T::zero()
    } else {
        let front = dual_scale_upto(prob, z, j, (k - 1) as nat);
        let a = prob.a_in.at(k - 1, j);
        if a.equals(T::zero()) {
            front
        } else {
            front.plus(a.abs().times(z[k - 1].abs()))
        }
    }
}

/// The stationarity residual of unknown `j` is within its tolerance.
pub open spec fn stationary_at<T: Scalar>(prob: QpProblem<T>, z: Seq<T>, j: int) -> bool {
    let tol = T::decimal(1, 6).times(
        T::one().plus(inf_norm_spec(prob.q@)).plus(dual_scale_upto(prob, z, j, prob.mi())),
    );
    !tol.below(stationarity_upto(prob, z, j, prob.mi()).abs())
}

/// The tolerance on multipliers.
pub open spec fn multiplier_tolerance<T: Scalar>(z: Seq<T>) -> T {
    T::decimal(1, 6).times(T::one().plus(inf_norm_spec(z)))
}

/// Slack and multiplier of row `r` are complementary, and the multiplier is not negative, up to
/// the tolerances.
pub open spec fn complementary_at<T: Scalar>(prob: QpProblem<T>, s: Seq<T>, z: Seq<T>, r: int) -> bool {
    let z_tol = multiplier_tolerance(z);
    &&& !z[r].below(z_tol.neg())
    &&& !(slack_tolerance(prob).below(s[r]) && z_tol.below(z[r].abs()))
}

/// The recovered multipliers are consistent with the problem.
pub open spec fn consistent<T: Scalar>(prob: QpProblem<T>, s: Seq<T>, z: Seq<T>) -> bool {
    &&& forall|j: int| 0 <= j < prob.n() ==> #[trigger] stationary_at(prob, z, j)
    &&& forall|r: int| 0 <= r < prob.mi() ==> #[trigger] complementary_at(prob, s, z, r)
}

/// Whether the recovered multipliers are stationary, of the right sign and complementary to the
/// slacks, up to the tolerances.
pub fn is_consistent<T: Scalar>(prob: &QpProblem<T>, s: &[T], z: &[T]) -> (ok: bool)
    requires
        prob.wf(),
        s@.len() == prob.mi(),
        z@.len() == prob.mi(),
    ensures
        ok == consistent(*prob, s@, z@),
{
    let n: usize = prob.q.len();
    let mi: usize = prob.b_in.len();
    let one = T::one();
    let q_scale = inf_norm(&prob.q);
    let mut j: usize = 0;
    while j < n
        invariant
            prob.wf(),
            n == prob.n(),
            mi == prob.mi(),
            z@.len() == mi,
            one == T::one(),
            q_scale == inf_norm_spec(prob.q@),
            j <= n,
            forall|k: int| 0 <= k < j ==> #[trigger] stationary_at(*prob, z@, k),
        decreases n - j,
    {
        let mut rd = prob.q[j];
        let mut scale = T::zero();
        let mut r: usize = 0;
        while r < mi
            invariant
                prob.wf(),
                n == prob.n(),
                mi == prob.mi(),
                z@.len() == mi,
                j < n,
                r <= mi,
                rd == stationarity_upto(*prob, z@, j as int, r as nat),
                scale == dual_scale_upto(*prob, z@, j as int, r as nat),
            decreases mi - r,
        {
            let a = prob.a_in.get(r, j);
            if !a.equals(T::zero()) {
                rd = rd.plus(a.times(z[r]));
                scale = scale.plus(a.abs().times(z[r].abs()));
            }
            r += 1;
        }
        let tol = T::decimal(1, 6).times(one.plus(q_scale).plus(scale));
        if tol.below(rd.abs()) {
            assert(!stationary_at(*prob, z@, j as int));
            return false;
        }
        j += 1;
    }
    let z_tol = T::decimal(1, 6).times(one.plus(inf_norm(z)));
    let s_tol = T::decimal(1, 8).times(one.plus(inf_norm(&prob.b_in)));
    let mut r: usize = 0;
    while r < mi
        invariant
            mi == prob.mi(),
            s@.len() == mi,
            z@.len() == mi,
            z_tol == multiplier_tolerance(z@),
            s_tol == slack_tolerance(*prob),
            r <= mi,
            forall|k: int| 0 <= k < r ==> #[trigger] complementary_at(*prob, s@, z@, k),
        decreases mi - r,
    {
        if z[r].below(z_tol.neg()) || (s_tol.below(s[r]) && z_tol.below(z[r].abs())) {
            assert(!complementary_at(*prob, s@, z@, r as int));
            return false;
        }
        r += 1;
    }
    true
}

/// No empty row is violated: its right-hand side is not negative.
pub open spec fn empty_rows_hold<T: Scalar>(prob: QpProblem<T>) -> bool {
    forall|r: int| 0 <= r < prob.mi() && #[trigger] entries_in(prob, r) == 0 ==> !prob.b_in@[r].below(T::zero())
}

/// Whether no empty row is violated.
pub fn allow_empty_rows<T: Scalar>(prob: &QpProblem<T>) -> (ok: bool)
    requires
        prob.wf(),
    ensures
        ok == empty_rows_hold(*prob),
{
    let n: usize = prob.q.len();
    let mi: usize = prob.b_in.len();
    let mut r: usize = 0;
    while r < mi
        invariant
            prob.wf(),
            n == prob.n(),
            mi == prob.mi(),
            r <= mi,
            forall|k: int|
                0 <= k < r && #[trigger] entries_in(*prob, k) == 0 ==> !prob.b_in@[k].below(T::zero()),
        decreases mi - r,
    {
        if prob.b_in[r].below(T::zero()) {
            let ghost row = prob.a_in.row(r as int);
            let mut nz: usize = 0;
            let mut j: usize = 0;
            while j < n
                invariant
                    prob.wf(),
                    n == prob.n(),
                    mi == prob.mi(),
                    r < mi,
                    row == prob.a_in.row(r as int),
                    j <= n,
                    nz <= j,
                    nz == nonzero_count(row, j as nat),
                decreases n - j,
            {
                if !prob.a_in.get(r, j).equals(T::zero()) {
                    nz += 1;
                }
                j += 1;
            }
            if nz == 0 {
                assert(entries_in(*prob, r as int) == 0);
                return false;
            }
        }
        r += 1;
    }
    true
}

/// The solution at a vertex, where no empty row is violated and its multipliers are consistent with the
/// problem.
pub open spec fn vertex_solution<T: Scalar>(prob: QpProblem<T>, v: Vertex<T>) -> Option<
    (Status, Seq<T>, Seq<T>, Seq<T>, Seq<T>, T, usize),
> {
    let s = slacks(prob, v.x@);
    let z = multipliers(prob, v.x@, v.pi@);
    if empty_rows_hold(prob) && consistent(prob, s, z) {
        Some(
            (
                Status::Solved,
                v.x@.subrange(0, prob.n() as int),
                Seq::empty(),
                s,
                z,
                v.obj,
                v.iters,
            ),
        )
    } else {
        None
    }
}

/// The solution at an optimal vertex. None where an empty row is violated, or where the recovered
/// multipliers contradict the problem, so that no wrong multiplier is ever reported.
pub fn recover_solution<T: Scalar>(prob: &QpProblem<T>, classes: &RowClasses<T>, v: &Vertex<T>) -> (r: Option<
    QpSolution<T>,
>)
    requires
        prob.wf(),
        classes.singleton@ == bound_rows(*prob, prob.mi()),
        classes.general@ == general_rows(*prob, prob.mi()),
        v.x@.len() == prob.n() + classes.general@.len(),
        v.pi@.len() == classes.general@.len(),
    ensures
        r is Some == vertex_solution(*prob, *v) is Some,
        r matches Some(sol) ==> sol.parts() == vertex_solution(*prob, *v)->0 && sol.plain() && recovers_point(
            *prob,
            *v,
            sol,
        ),
{
    let n: usize = prob.q.len();
    let s = recover_slacks(prob, classes, &v.x);
    let z = recover_multipliers(prob, classes, &v.x, &s, &v.pi);
    if !allow_empty_rows(prob) || !is_consistent(prob, &s, &z) {
        return None;
    }
    let x = slice_of(&v.x, 0, n);
    let y: Vec<T> = Vec::new();
    assert(y@ =~= Seq::<T>::empty());
    let r = QpSolution::new(Status::Solved, x, y, s, z, v.obj, v.iters);
    proof {
        recovered_point_is_feasible(*prob, *v, r);
    }
    Some(r)
}

/// `r` is what the simplex route gives: nothing without general rows, without a vertex or where the
/// multipliers that the vertex gives are not consistent, and the solution at the vertex else.
pub open spec fn simplex_route<T: Scalar, S: Fn(&BoxLp<T>) -> Option<Vertex<T>>>(
    prob: QpProblem<T>,
    simplex: S,
    r: Option<QpSolution<T>>,
) -> bool {
    if general_rows(prob, prob.mi()).len() == 0 {
        r is None
    } else {
        exists|lp: &BoxLp<T>, v: Option<Vertex<T>>|
            {
                &&& is_box_lp(prob, *lp)
                &&& #[trigger] simplex.ensures((lp,), v)
                &&& match v {
                    None => r is None,
                    Some(v) => {
                        &&& r is Some == vertex_solution(prob, v) is Some
                        &&& r matches Some(sol) ==> sol.parts() == vertex_solution(prob, v)->0
                            && sol.plain()
                    },
                }
            }
    }
}

/// A sparse linear program through the dual simplex method `simplex`, which returns the optimal
/// vertex of a boxed program, if it reaches one. None where no row has more than one entry, where
/// no optimum is reached, or where the recovered multipliers contradict the problem.
pub fn try_sparse_lp_dual_simplex<T: Scalar, S: Fn(&BoxLp<T>) -> Option<Vertex<T>>>(
    prob: &QpProblem<T>,
    simplex: &S,
) -> (r: Option<QpSolution<T>>)
    requires
        prob.wf(),
        prob.mi() * (prob.n() + prob.mi()) <= usize::MAX,
        forall|lp: &BoxLp<T>| is_box_lp(*prob, *lp) ==> #[trigger] simplex.requires((lp,)),
        forall|lp: &BoxLp<T>, v: Vertex<T>|
            is_box_lp(*prob, *lp) && #[trigger] simplex.ensures((lp,), Some(v)) ==> v.x@.len()
                == lp.c@.len() && v.pi@.len() == lp.b@.len(),
    ensures
        simplex_route(*prob, *simplex, r),
{
    let classes = classify_rows(prob);
    if classes.general.len() == 0 {
        return None;
    }
    let lp = box_lp(prob, &classes);
    let arg: &BoxLp<T> = &lp;
    match simplex(arg) {
        None => None,
        Some(v) => recover_solution(prob, &classes, &v),
    }
}

/// Whatever the simplex method reports, a solution that is returned has passed the check of its
/// multipliers: stationarity, sign and complementarity hold up to the tolerances, and no empty row is
/// violated.
pub proof fn reported_multipliers_are_consistent<T: Scalar>(prob: QpProblem<T>, v: Vertex<T>)
    requires
        vertex_solution(prob, v) is Some,
    ensures
        ({
            let (status, x, y, s, z, obj, iters) = vertex_solution(prob, v)->0;
            status == Status::Solved && consistent(prob, s, z) && empty_rows_hold(prob)
        }),
{
}

/// A solution that the simplex route gives has passed the check of its multipliers, and no empty row is
/// violated.
pub proof fn simplex_solution_is_tested<T: Scalar, S: Fn(&BoxLp<T>) -> Option<Vertex<T>>>(
    prob: QpProblem<T>,
    simplex: S,
    sol: QpSolution<T>,
)
    requires
        simplex_route(prob, simplex, Some(sol)),
    ensures
        sol.status == Status::Solved,
        consistent(prob, sol.s@, sol.z@),
        empty_rows_hold(prob),
{
}

} // verus!
