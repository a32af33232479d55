//! Iterative refinement of a direction against the system without its regularization, and the
//! solve through a complement of the equality rows.
use crate::lowrank::LowRankDiag;
use crate::matrix::{matvec_spec, DenseMatrix};
use crate::pc_step::{sums, sums_of};
use crate::problem::QpProblem;
use crate::qp_loop::{low_rank_product, low_rank_times};
use crate::qp_matrices::{eq_row_product, eq_row_times};
use crate::scalar::Scalar;
use crate::solve::{computes, gives_solutions, yields};
use crate::vector::{inf_norm, inf_norm_spec, slice_of};
use vstd::prelude::*;

verus! {

/// A new residual norm ends the refinement: it does not fall, or by less than a tenth.
pub open spec fn no_gain<T: Scalar>(norm: T, new: T) -> bool {
    norm.at_most(new) || T::decimal(9, 1).times(norm).below(new)
}

/// `out` is what at most `left` rounds of refinement make of the direction `d`. A round corrects
/// the residual, and is accepted as long as the residual falls by a tenth.
pub open spec fn refines<T: Scalar>(
    residual: spec_fn(Seq<T>) -> Seq<T>,
    solves: spec_fn(Seq<T>, Seq<T>) -> bool,
    level: T,
    d: Seq<T>,
    left: nat,
    out: Seq<T>,
) -> bool
    decreases left,
{
    let norm = inf_norm_spec(residual(d));
    if left == 0 || norm.at_most(level) {
        out == d
    } else {
        exists|c: Seq<T>| #[trigger]
            yields(solves, residual(d), c) && (if no_gain(norm, inf_norm_spec(residual(sums(d, c)))) {
                out == d
            } else {
                refines(residual, solves, level, sums(d, c), (left - 1) as nat, out)
            })
    }
}

/// The most rounds of refinement.
pub const ROUNDS: usize = 8;

/// Refines a direction: `resid` is its residual in the system without regularization, `solve` the
/// solve against the factored system, and `level` the residual that is small enough.
pub(crate) fn refine<T: Scalar, R: Fn(&[T]) -> Vec<T>, S: Fn(&[T]) -> Vec<T>>(
    d: Vec<T>,
    level: T,
    resid: &R,
    solve: &S,
    Ghost(residual): Ghost<spec_fn(Seq<T>) -> Seq<T>>,
    Ghost(solves): Ghost<spec_fn(Seq<T>, Seq<T>) -> bool>,
) -> (out: Vec<T>)
    requires
        computes(*resid, residual, d@.len()),
        gives_solutions(*solve, solves, d@.len()),
    ensures
        out@.len() == d@.len(),
        refines(residual, solves, level, d@, ROUNDS as nat, out@),
{
    let ghost d0 = d@;
    let mut r = resid(d.as_slice());
    let mut cur = d;
    let mut left: usize = ROUNDS;
    let mut going = true;
    // Whatever the remaining rounds make of the present direction, all the rounds make of the
    // first one.
    while going && left > 0
        invariant
            d0.len() == cur@.len(),
            r@ == residual(cur@),
            r@.len() == cur@.len(),
            left <= ROUNDS,
            computes(*resid, residual, d0.len()),
            gives_solutions(*solve, solves, d0.len()),
            going ==> forall|out: Seq<T>|
                refines(residual, solves, level, cur@, left as nat, out) ==> #[trigger] refines(
                    residual,
                    solves,
                    level,
                    d0,
                    ROUNDS as nat,
                    out,
                ),
            !going ==> refines(residual, solves, level, d0, ROUNDS as nat, cur@),
        decreases left + (if going { 1int } else { 0int }),
    {
        let norm = inf_norm(&r);
        if norm.at_most(level) {
            going = false;
            assert(refines(residual, solves, level, cur@, left as nat, cur@));
        } else {
            let c = solve(r.as_slice());
            assert(yields(solves, r@, c@));
            let next = sums_of(&cur, &c);
            let r2 = resid(next.as_slice());
            let new = inf_norm(&r2);
            if norm.at_most(new) || T::decimal(9, 1).times(norm).below(new) {
                going = false;
                assert(refines(residual, solves, level, cur@, left as nat, cur@));
            } else {
                proof {
                    assert forall|out: Seq<T>|
                        refines(residual, solves, level, next@, (left - 1) as nat, out) implies
                    #[trigger] refines(residual, solves, level, d0, ROUNDS as nat, out) by {
                        assert(refines(residual, solves, level, cur@, left as nat, out));
                    }
                }
                cur = next;
                r = r2;
                left -= 1;
            }
        }
    }
    proof {
        if going {
            assert(refines(residual, solves, level, cur@, 0, cur@));
        }
    }
    cur
}

/// Refinement never trades a direction for a worse one: what it returns is the direction itself, or
/// one whose residual fell by a tenth from that of another.
pub proof fn refinement_only_improves<T: Scalar>(
    residual: spec_fn(Seq<T>) -> Seq<T>,
    solves: spec_fn(Seq<T>, Seq<T>) -> bool,
    level: T,
    d: Seq<T>,
    left: nat,
    out: Seq<T>,
)
    requires
        refines(residual, solves, level, d, left, out),
    ensures
        out == d || exists|prev: Seq<T>|
            !#[trigger] no_gain(inf_norm_spec(residual(prev)), inf_norm_spec(residual(out))),
    decreases left,
{
    let norm = inf_norm_spec(residual(d));
    if left > 0 && !norm.at_most(level) {
        let c = choose|c: Seq<T>| #[trigger]
            yields(solves, residual(d), c) && (if no_gain(norm, inf_norm_spec(residual(sums(d, c)))) {
                out == d
            } else {
                refines(residual, solves, level, sums(d, c), (left - 1) as nat, out)
            });
        if !no_gain(norm, inf_norm_spec(residual(sums(d, c)))) {
            refinement_only_improves(residual, solves, level, sums(d, c), (left - 1) as nat, out);
        }
    }
}

/// `out` is what at most `left` rounds of eager refinement make of the direction `d`, whose last
/// residual norm was `norm`. A round adds a correction as long as the residual falls by a tenth.
pub open spec fn refines_eagerly<T: Scalar>(
    residual: spec_fn(Seq<T>) -> Seq<T>,
    solves: spec_fn(Seq<T>, Seq<T>) -> bool,
    level: T,
    d: Seq<T>,
    norm: T,
    left: nat,
    out: Seq<T>,
) -> bool
    decreases left,
{
    let new = inf_norm_spec(residual(d));
    if left == 0 || new.at_most(level) || no_gain(norm, new) {
        out == d
    } else {
        exists|c: Seq<T>| #[trigger]
            yields(solves, residual(d), c) && refines_eagerly(
                residual,
                solves,
                level,
                sums(d, c),
                new,
                (left - 1) as nat,
                out,
            )
    }
}

/// Refines a direction eagerly, as the low-rank system does.
pub(crate) fn refine_eagerly<T: Scalar, R: Fn(&[T]) -> Vec<T>, S: Fn(&[T]) -> Vec<T>>(
    d: Vec<T>,
    level: T,
    resid: &R,
    solve: &S,
    Ghost(residual): Ghost<spec_fn(Seq<T>) -> Seq<T>>,
    Ghost(solves): Ghost<spec_fn(Seq<T>, Seq<T>) -> bool>,
) -> (out: Vec<T>)
    requires
        computes(*resid, residual, d@.len()),
        gives_solutions(*solve, solves, d@.len()),
    ensures
        out@.len() == d@.len(),
        refines_eagerly(residual, solves, level, d@, T::infinity(), ROUNDS as nat, out@),
{
    let ghost d0 = d@;
    let ghost first = T::infinity();
    let mut cur = d;
    let mut norm = T::infinity();
    let mut left: usize = ROUNDS;
    let mut going = true;
    while going && left > 0
        invariant
            d0.len() == cur@.len(),
            left <= ROUNDS,
            computes(*resid, residual, d0.len()),
            gives_solutions(*solve, solves, d0.len()),
            going ==> forall|out: Seq<T>|
                refines_eagerly(residual, solves, level, cur@, norm, left as nat, out)
                    ==> #[trigger] refines_eagerly(
                    residual,
                    solves,
                    level,
                    d0,
                    first,
                    ROUNDS as nat,
                    out,
                ),
            !going ==> refines_eagerly(residual, solves, level, d0, first, ROUNDS as nat, cur@),
        decreases left + (if going { 1int } else { 0int }),
    {
        let r = resid(cur.as_slice());
        let new = inf_norm(&r);
        if new.at_most(level) || norm.at_most(new) || T::decimal(9, 1).times(norm).below(new) {
            going = false;
            assert(refines_eagerly(residual, solves, level, cur@, norm, left as nat, cur@));
        } else {
            let c = solve(r.as_slice());
            assert(yields(solves, r@, c@));
            let next = sums_of(&cur, &c);
            proof {
                assert forall|out: Seq<T>|
                    refines_eagerly(residual, solves, level, next@, new, (left - 1) as nat, out) implies
                #[trigger] refines_eagerly(residual, solves, level, d0, first, ROUNDS as nat, out) by {
                    assert(refines_eagerly(residual, solves, level, cur@, norm, left as nat, out));
                }
            }
            cur = next;
            norm = new;
            left -= 1;
        }
    }
    proof {
        if going {
            assert(refines_eagerly(residual, solves, level, cur@, norm, 0, cur@));
        }
    }
    cur
}

/// The residual of the reduced system without its regularization.
pub open spec fn reduced_residual<T: Scalar>(
    m: DenseMatrix<T>,
    n: nat,
    rhs: Seq<T>,
    reg_primal: T,
    reg_dual: T,
    d: Seq<T>,
) -> Seq<T> {
    let md = matvec_spec(m, d);
    Seq::new(
        d.len(),
        |i: int|
            rhs[i].minus(md[i]).plus(
                if i < n {
                    reg_primal.times(d[i])
                } else {
                    reg_dual.neg().times(d[i])
                },
            ),
    )
}

/// The residual of the reduced system without its regularization.
pub fn reduced_residual_of<T: Scalar>(
    m: &DenseMatrix<T>,
    n: usize,
    rhs: &[T],
    reg_primal: T,
    reg_dual: T,
    d: &[T],
) -> (r: Vec<T>)
    requires
        m.sized(d@.len(), d@.len()),
        rhs@.len() == d@.len(),
    ensures
        r@ == reduced_residual(*m, n as nat, rhs@, reg_primal, reg_dual, d@),
{
    let md = m.matvec(d);
    let ghost all = reduced_residual(*m, n as nat, rhs@, reg_primal, reg_dual, d@);
    let mut r: Vec<T> = Vec::with_capacity(d.len());
    let mut i: usize = 0;
    while i < d.len()
        invariant
            m.sized(d@.len(), d@.len()),
            rhs@.len() == d@.len(),
            md@ == matvec_spec(*m, d@),
            all == reduced_residual(*m, n as nat, rhs@, reg_primal, reg_dual, d@),
            i <= d@.len(),
            r@ =~= all.subrange(0, i as int),
        decreases d@.len() - i,
    {
        let t = if i < n {
            reg_primal.times(d[i])
        } else {
            reg_dual.neg().times(d[i])
        };
        r.push(rhs[i].minus(md[i]).plus(t));
        i += 1;
    }
    assert(r@ =~= all);
    r
}

/// `start - sum A_eq[r][k] dy[r]` over the first `m` equality rows with a step, through the entries
/// that are not zero.
pub open spec fn pulled<T: Scalar>(a_eq: DenseMatrix<T>, dy: Seq<T>, skip: bool, start: T, k: int, m: nat) -> T
    decreases m,
{
    if m == 0 {
        start
    } else {
        let front = pulled(a_eq, dy, skip, start, k, (m - 1) as nat);
        let a = a_eq.at(m - 1, k);
        if a.equals(T::zero()) || (skip && dy[m - 1].equals(T::zero())) {
            front
        } else {
            front.minus(a.times(dy[m - 1]))
        }
    }
}

/// `start - sum A_eq[r][k] dy[r]` over the equality rows.
fn pull<T: Scalar>(a_eq: &DenseMatrix<T>, dy: &[T], skip: bool, start: T, k: usize) -> (r: T)
    requires
        a_eq.wf(),
        dy@.len() == a_eq.nrows,
        k < a_eq.ncols,
    ensures
        r == pulled(*a_eq, dy@, skip, start, k as int, a_eq.nrows as nat),
{
    let mut acc = start;
    let mut m: usize = 0;
    while m < a_eq.nrows
        invariant
            a_eq.wf(),
            dy@.len() == a_eq.nrows,
            k < a_eq.ncols,
            m <= a_eq.nrows,
            acc == pulled(*a_eq, dy@, skip, start, k as int, m as nat),
        decreases a_eq.nrows - m,
    {
        let a = a_eq.get(m, k);
        if !(a.equals(T::zero()) || (skip && dy[m].equals(T::zero()))) {
            acc = acc.minus(a.times(dy[m]));
        }
        m += 1;
    }
    acc
}

/// The residual of the block system `[H, A_eq'; A_eq, 0]`, where `h` carries the regularization
/// `reg` on its diagonal.
pub open spec fn block_residual<T: Scalar>(
    prob: QpProblem<T>,
    h: DenseMatrix<T>,
    reg: T,
    rhs: Seq<T>,
    d: Seq<T>,
) -> Seq<T> {
    let n = prob.n();
    let dx = d.subrange(0, n as int);
    let dy = d.subrange(n as int, (n + prob.me()) as int);
    let hdx = matvec_spec(h, dx);
    Seq::new(
        n + prob.me(),
        |i: int|
            if i < n {
                pulled(prob.a_eq, dy, true, T::zero(), i, prob.me()).plus(
                    rhs[i].minus(hdx[i]).plus(reg.times(dx[i])),
                )
            } else {
                rhs[i].minus(eq_row_times(prob.a_eq, dx, i - n))
            },
    )
}

/// The residual of the block system.
pub fn block_residual_of<T: Scalar>(prob: &QpProblem<T>, h: &DenseMatrix<T>, reg: T, rhs: &[T], d: &[T]) -> (r:
    Vec<T>)
    requires
        prob.wf(),
        h.sized(prob.n(), prob.n()),
        rhs@.len() == prob.n() + prob.me(),
        d@.len() == rhs@.len(),
    ensures
        r@ == block_residual(*prob, *h, reg, rhs@, d@),
{
    let n: usize = prob.q.len();
    let me: usize = prob.b_eq.len();
    let dx = crate::vector::slice_of(d, 0, n);
    let dy = crate::vector::slice_of(d, n, n + me);
    let hdx = h.matvec(&dx);
    let ghost all = block_residual(*prob, *h, reg, rhs@, d@);
    let mut r: Vec<T> = Vec::with_capacity(n + me);
    let mut i: usize = 0;
    while i < n + me
        invariant
            prob.wf(),
            n == prob.n(),
            me == prob.me(),
            h.sized(n as nat, n as nat),
            rhs@.len() == n + me,
            dx@ == d@.subrange(0, n as int),
            dy@ == d@.subrange(n as int, n + me),
            dx@.len() == n,
            dy@.len() == me,
            hdx@ == matvec_spec(*h, dx@),
            all == block_residual(*prob, *h, reg, rhs@, d@),
            i <= n + me,
            r@ =~= all.subrange(0, i as int),
        decreases n + me - i,
    {
        let v = if i < n {
            pull(&prob.a_eq, &dy, true, T::zero(), i).plus(
                rhs[i].minus(hdx[i]).plus(reg.times(dx[i])),
            )
        } else {
            rhs[i].minus(eq_row_product(&prob.a_eq, &dx, i - n))
        };
        r.push(v);
        i += 1;
    }
    assert(r@ =~= all);
    r
}

/// The residual of the low-rank block system, where `fold` is what the bound rows add to the
/// diagonal.
pub open spec fn low_rank_residual<T: Scalar>(
    prob: QpProblem<T>,
    lr: LowRankDiag<T>,
    fold: Seq<T>,
    rhs: Seq<T>,
    d: Seq<T>,
) -> Seq<T> {
    let n = prob.n();
    let dx = d.subrange(0, n as int);
    let dy = d.subrange(n as int, (n + prob.me()) as int);
    let px = low_rank_times(lr, dx);
    Seq::new(
        n + prob.me(),
        |i: int|
            if i < n {
                pulled(
                    prob.a_eq,
                    dy,
                    false,
                    rhs[i].minus(px[i].plus(fold[i].times(dx[i]))),
                    i,
                    prob.me(),
                )
            } else {
                rhs[i].minus(eq_row_times(prob.a_eq, dx, i - n))
            },
    )
}

/// The residual of the low-rank block system.
pub fn low_rank_residual_of<T: Scalar>(
    prob: &QpProblem<T>,
    lr: &LowRankDiag<T>,
    fold: &[T],
    rhs: &[T],
    d: &[T],
) -> (r: Vec<T>)
    requires
        prob.wf(),
        lr.fits(prob.n()),
        fold@.len() == prob.n(),
        rhs@.len() == prob.n() + prob.me(),
        d@.len() == rhs@.len(),
    ensures
        r@ == low_rank_residual(*prob, *lr, fold@, rhs@, d@),
{
    let n: usize = prob.q.len();
    let me: usize = prob.b_eq.len();
    let dx = crate::vector::slice_of(d, 0, n);
    let dy = crate::vector::slice_of(d, n, n + me);
    let px = low_rank_product(lr, &dx);
    let ghost all = low_rank_residual(*prob, *lr, fold@, rhs@, d@);
    let mut r: Vec<T> = Vec::with_capacity(n + me);
    let mut i: usize = 0;
    while i < n + me
        invariant
            prob.wf(),
            n == prob.n(),
            me == prob.me(),
            lr.fits(n as nat),
            fold@.len() == n,
            rhs@.len() == n + me,
            dx@ == d@.subrange(0, n as int),
            dy@ == d@.subrange(n as int, n + me),
            dx@.len() == n,
            dy@.len() == me,
            px@ == low_rank_times(*lr, dx@),
            all == low_rank_residual(*prob, *lr, fold@, rhs@, d@),
            i <= n + me,
            r@ =~= all.subrange(0, i as int),
        decreases n + me - i,
    {
        let v = if i < n {
            pull(&prob.a_eq, &dy, false, rhs[i].minus(px[i].plus(fold[i].times(dx[i]))), i)
        } else {
            rhs[i].minus(eq_row_product(&prob.a_eq, &dx, i - n))
        };
        r.push(v);
        i += 1;
    }
    assert(r@ =~= all);
    r
}

/// `A_eq x - rhs_y`.
pub open spec fn complement_rhs<T: Scalar>(a_eq: DenseMatrix<T>, xt: Seq<T>, rhs_y: Seq<T>) -> Seq<T> {
    Seq::new(a_eq.nrows as nat, |r: int| eq_row_times(a_eq, xt, r).minus(rhs_y[r]))
}

/// `x - sum X_j dy_j` in coordinate `i`, over the first `k` equality rows with a step.
pub open spec fn complement_dx<T: Scalar>(x: Seq<T>, cols: Seq<Vec<T>>, dy: Seq<T>, i: int, k: nat) -> T
    decreases k,
{
    if k == 0 {
        x[i]
    } else {
        let front = complement_dx(x, cols, dy, i, (k - 1) as nat);
        if dy[k - 1].equals(T::zero()) {
            front
        } else {
            front.minus(cols[k - 1]@[i].times(dy[k - 1]))
        }
    }
}

/// `out` solves the block system: `x = H^-1 rhs_x` from `h_solve`, `dy` from `s_solve` for
/// `A_eq x - rhs_y`, and `dx = x - H^-1 A_eq' dy`.
pub open spec fn complement_solved<T: Scalar>(
    a_eq: DenseMatrix<T>,
    cols: Seq<Vec<T>>,
    h_solves: spec_fn(Seq<T>, Seq<T>) -> bool,
    s_solves: spec_fn(Seq<T>, Seq<T>) -> bool,
) -> spec_fn(Seq<T>, Seq<T>) -> bool {
    let n = a_eq.ncols as int;
    |rhs: Seq<T>, out: Seq<T>|
        exists|x: Seq<T>, y: Seq<T>|
            {
                &&& #[trigger] yields(h_solves, rhs.subrange(0, n), x)
                &&& #[trigger] yields(
                    s_solves,
                    complement_rhs(a_eq, x, rhs.subrange(n, n + a_eq.nrows)),
                    y,
                )
                &&& out == Seq::new(n as nat, |i: int| complement_dx(x, cols, y, i, cols.len())) + y
            }
}

/// Solves the block system through the complement of the equality rows. `cols[j]` is the solution
/// of the unknowns' block for equality row `j`.
pub(crate) fn solve_complement<T: Scalar, H: Fn(&[T]) -> Vec<T>, S: Fn(&[T]) -> Vec<T>>(
    a_eq: &DenseMatrix<T>,
    cols: &[Vec<T>],
    rhs: &[T],
    h_solve: &H,
    s_solve: &S,
    Ghost(h_solves): Ghost<spec_fn(Seq<T>, Seq<T>) -> bool>,
    Ghost(s_solves): Ghost<spec_fn(Seq<T>, Seq<T>) -> bool>,
) -> (out: Vec<T>)
    requires
        a_eq.wf(),
        rhs@.len() == a_eq.ncols + a_eq.nrows,
        cols@.len() == a_eq.nrows,
        forall|j: int| 0 <= j < cols@.len() ==> (#[trigger] cols@[j])@.len() == a_eq.ncols,
        gives_solutions(*h_solve, h_solves, a_eq.ncols as nat),
        gives_solutions(*s_solve, s_solves, a_eq.nrows as nat),
    ensures
        yields(complement_solved(*a_eq, cols@, h_solves, s_solves), rhs@, out@),
        out@.len() == rhs@.len(),
{
    let n: usize = a_eq.ncols;
    let me: usize = a_eq.nrows;
    let rhs_x = slice_of(rhs, 0, n);
    let rhs_y = slice_of(rhs, n, rhs.len());
    let x = h_solve(rhs_x.as_slice());
    let mut yt: Vec<T> = Vec::with_capacity(me);
    let mut r: usize = 0;
    while r < me
        invariant
            a_eq.sized(rhs_y@.len(), rhs_x@.len()),
            me == rhs_y@.len(),
            x@.len() == rhs_x@.len(),
            r <= me,
            yt@ =~= complement_rhs(*a_eq, x@, rhs_y@).subrange(0, r as int),
        decreases me - r,
    {
        yt.push(eq_row_product(a_eq, &x, r).minus(rhs_y[r]));
        r += 1;
    }
    assert(yt@ =~= complement_rhs(*a_eq, x@, rhs_y@));
    let b: &[T] = yt.as_slice();
    let y = s_solve(b);
    let ghost all = Seq::new(n as nat, |i: int| complement_dx(x@, cols@, y@, i, cols@.len()));
    let mut dx: Vec<T> = Vec::with_capacity(n);
    let mut i: usize = 0;
    while i < n
        invariant
            n == rhs_x@.len(),
            x@.len() == n,
            y@.len() == cols@.len(),
            forall|j: int| 0 <= j < cols@.len() ==> (#[trigger] cols@[j])@.len() == n,
            all == Seq::new(n as nat, |i: int| complement_dx(x@, cols@, y@, i, cols@.len())),
            i <= n,
            dx@ =~= all.subrange(0, i as int),
        decreases n - i,
    {
        let mut acc = x[i];
        let mut k: usize = 0;
        while k < cols.len()
            invariant
                x@.len() == n,
                y@.len() == cols@.len(),
                forall|j: int| 0 <= j < cols@.len() ==> (#[trigger] cols@[j])@.len() == n,
                i < n,
                k <= cols@.len(),
                acc == complement_dx(x@, cols@, y@, i as int, k as nat),
            decreases cols@.len() - k,
        {
            if !y[k].equals(T::zero()) {
                acc = acc.minus(cols[k][i].times(y[k]));
            }
            k += 1;
        }
        dx.push(acc);
        i += 1;
    }
    assert(dx@ =~= all);
    let ghost whole = dx@ + y@;
    assert(yields(h_solves, rhs@.subrange(0, n as int), x@));
    assert(yields(s_solves, complement_rhs(*a_eq, x@, rhs@.subrange(n as int, n + me)), y@));
    let mut rest = y;
    dx.append(&mut rest);
    assert(dx@ =~= whole);
    dx
}

} // verus!
