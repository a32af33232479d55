//! The Newton directions of the orthant engine, from the right-hand side of a linear system to the
//! steps of slacks and multipliers.
use crate::kkt::opt_deref;
use crate::pc_step::{Direction, DirectionView};
use crate::problem::QpProblem;
use crate::products::{form_fits, times, times_spec, times_t, times_t_spec, Form};
use crate::qp_loop::{bounds_product, bounds_t_product, bounds_t_times, bounds_times};
use crate::qp_matrices::{rows_fit, units_added};
use crate::scalar::Scalar;
use crate::solve::{gives_solutions, yields};
use crate::sparse::CscMatrix;
use crate::vector::{constant, dot, dot_spec, filled, negated, negated_of, slice_of};
use vstd::prelude::*;

verus! {

/// `a / b`, entry by entry.
pub open spec fn quotients<T: Scalar>(a: Seq<T>, b: Seq<T>) -> Seq<T> {
    Seq::new(a.len(), |i: int| a[i].over(b[i]))
}

/// `a / b`, entry by entry.
pub fn quotients_of<T: Scalar>(a: &[T], b: &[T]) -> (r: Vec<T>)
    requires
        a@.len() == b@.len(),
    ensures
        r@ == quotients(a@, b@),
{
    let mut r: Vec<T> = Vec::with_capacity(a.len());
    let mut i: usize = 0;
    while i < a.len()
        invariant
            i <= a@.len() == b@.len(),
            r@ =~= quotients(a@, b@).subrange(0, i as int),
        decreases a@.len() - i,
    {
        r.push(a[i].over(b[i]));
        i += 1;
    }
    assert(r@ =~= quotients(a@, b@));
    r
}

/// The iterate, its residuals and what is derived of them for one iteration.
pub struct Point<T> {
    pub s: Vec<T>,
    pub z: Vec<T>,
    /// `z / s`.
    pub zs: Vec<T>,
    pub r_d: Vec<T>,
    pub r_b: Vec<T>,
    pub r_h: Vec<T>,
}

impl<T: Scalar> Point<T> {
    /// The point has the problem's dimensions.
    pub open spec fn fits(self, prob: QpProblem<T>) -> bool {
        &&& self.s@.len() == prob.mi()
        &&& self.z@.len() == prob.mi()
        &&& self.zs@ == quotients(self.z@, self.s@)
        &&& self.r_d@.len() == prob.n()
        &&& self.r_b@.len() == prob.me()
        &&& self.r_h@.len() == prob.mi()
    }
}

/// The complementarity term of one row: `zs r_h - r_comp / s`; a corrector leaves the residual out.
/// The quotient is taken directly or through the reciprocal.
pub open spec fn slack_term<T: Scalar>(p: Point<T>, r_comp: Seq<T>, direct: bool, corrector: bool, i: int) -> T {
    let over_s = |v: T|
        if direct {
            v.over(p.s@[i])
        } else {
            v.times(T::one().over(p.s@[i]))
        };
    if corrector {
        over_s(r_comp[i].neg())
    } else {
        p.zs@[i].times(p.r_h@[i]).minus(over_s(r_comp[i]))
    }
}

/// The complementarity terms of all rows.
pub open spec fn slack_terms<T: Scalar>(p: Point<T>, r_comp: Seq<T>, direct: bool, corrector: bool) -> Seq<T> {
    Seq::new(p.s@.len(), |i: int| slack_term(p, r_comp, direct, corrector, i))
}

/// The complementarity terms of all rows.
pub fn slack_terms_of<T: Scalar>(p: &Point<T>, r_comp: &[T], direct: bool, corrector: bool) -> (r: Vec<T>)
    requires
        p.zs@.len() == p.s@.len(),
        p.r_h@.len() == p.s@.len(),
        r_comp@.len() == p.s@.len(),
    ensures
        r@ == slack_terms(*p, r_comp@, direct, corrector),
{
    let mut r: Vec<T> = Vec::with_capacity(p.s.len());
    let mut i: usize = 0;
    while i < p.s.len()
        invariant
            p.zs@.len() == p.s@.len(),
            p.r_h@.len() == p.s@.len(),
            r_comp@.len() == p.s@.len(),
            i <= p.s@.len(),
            r@ =~= slack_terms(*p, r_comp@, direct, corrector).subrange(0, i as int),
        decreases p.s@.len() - i,
    {
        let base = if corrector {
            r_comp[i].neg()
        } else {
            r_comp[i]
        };
        let q = if direct {
            base.over(p.s[i])
        } else {
            base.times(T::one().over(p.s[i]))
        };
        let v = if corrector {
            q
        } else {
            p.zs[i].times(p.r_h[i]).minus(q)
        };
        assert(v == slack_terms(*p, r_comp@, direct, corrector)[i as int]);
        r.push(v);
        i += 1;
    }
    assert(r@ =~= slack_terms(*p, r_comp@, direct, corrector));
    r
}

/// How the residual and the coupling are combined in the unknowns' right-hand side.
#[derive(Clone, Copy, Debug, PartialEq, Eq, Structural)]
pub enum Combine {
    /// `-r_d - A' v`.
    Separate,
    /// `-(r_d + A' v)`.
    Joint,
}

/// The unknowns' right-hand side; a corrector leaves the residual out.
pub open spec fn unknown_rhs<T: Scalar>(p: Point<T>, at: Seq<T>, how: Combine, corrector: bool) -> Seq<T> {
    Seq::new(
        p.r_d@.len(),
        |i: int|
            if corrector {
                at[i].neg()
            } else if how == Combine::Separate {
                p.r_d@[i].neg().minus(at[i])
            } else {
                p.r_d@[i].plus(at[i]).neg()
            },
    )
}

/// The equality multipliers' right-hand side; zero for a corrector.
pub open spec fn equality_rhs<T: Scalar>(p: Point<T>, corrector: bool) -> Seq<T> {
    if corrector {
        constant(T::zero(), p.r_b@.len())
    } else {
        negated(p.r_b@)
    }
}

fn unknown_rhs_of<T: Scalar>(p: &Point<T>, at: &[T], how: Combine, corrector: bool) -> (r: Vec<T>)
    requires
        at@.len() == p.r_d@.len(),
    ensures
        r@ == unknown_rhs(*p, at@, how, corrector),
{
    let mut r: Vec<T> = Vec::with_capacity(at.len());
    let mut i: usize = 0;
    while i < at.len()
        invariant
            i <= at@.len() == p.r_d@.len(),
            r@ =~= unknown_rhs(*p, at@, how, corrector).subrange(0, i as int),
        decreases at@.len() - i,
    {
        let v = if corrector {
            at[i].neg()
        } else if how == Combine::Separate {
            p.r_d[i].neg().minus(at[i])
        } else {
            p.r_d[i].plus(at[i]).neg()
        };
        r.push(v);
        i += 1;
    }
    assert(r@ =~= unknown_rhs(*p, at@, how, corrector));
    r
}

fn equality_rhs_of<T: Scalar>(p: &Point<T>, corrector: bool) -> (r: Vec<T>)
    ensures
        r@ == equality_rhs(*p, corrector),
{
    if corrector {
        filled(T::zero(), p.r_b.len())
    } else {
        negated_of(&p.r_b)
    }
}

/// The step of the multipliers: the complementarity term and `zs A_in dx`.
pub open spec fn multiplier_step<T: Scalar>(p: Point<T>, v: Seq<T>, adx: Seq<T>) -> Seq<T> {
    Seq::new(v.len(), |i: int| v[i].plus(p.zs@[i].times(adx[i])))
}

/// The step of the slacks: `-r_h - A_in dx`; a corrector leaves the residual out.
pub open spec fn slack_step<T: Scalar>(p: Point<T>, adx: Seq<T>, corrector: bool) -> Seq<T> {
    Seq::new(
        adx.len(),
        |i: int|
            if corrector {
                adx[i].neg()
            } else {
                p.r_h@[i].neg().minus(adx[i])
            },
    )
}

fn slack_and_multiplier<T: Scalar>(p: &Point<T>, v: &[T], adx: &[T], corrector: bool) -> (r: (Vec<T>, Vec<T>))
    requires
        v@.len() == adx@.len(),
        p.zs@.len() == adx@.len(),
        p.r_h@.len() == adx@.len(),
    ensures
        r.0@ == slack_step(*p, adx@, corrector),
        r.1@ == multiplier_step(*p, v@, adx@),
{
    let mut ds: Vec<T> = Vec::with_capacity(v.len());
    let mut dz: Vec<T> = Vec::with_capacity(v.len());
    let mut i: usize = 0;
    while i < v.len()
        invariant
            i <= v@.len() == adx@.len(),
            p.zs@.len() == adx@.len(),
            p.r_h@.len() == adx@.len(),
            ds@ =~= slack_step(*p, adx@, corrector).subrange(0, i as int),
            dz@ =~= multiplier_step(*p, v@, adx@).subrange(0, i as int),
        decreases v@.len() - i,
    {
        dz.push(v[i].plus(p.zs[i].times(adx[i])));
        let e = if corrector {
            adx[i].neg()
        } else {
            p.r_h[i].neg().minus(adx[i])
        };
        ds.push(e);
        i += 1;
    }
    assert(ds@ =~= slack_step(*p, adx@, corrector));
    assert(dz@ =~= multiplier_step(*p, v@, adx@));
    (ds, dz)
}

/// `out` is the direction for the complementarity `r_comp`, with the steps of unknowns and equality
/// multipliers, stacked, from a system that `solves` describes.
pub open spec fn eliminated<T: Scalar>(
    prob: QpProblem<T>,
    ain: Form,
    csr: Option<CscMatrix<T>>,
    p: Point<T>,
    r_comp: Seq<T>,
    direct: bool,
    how: Combine,
    corrector: bool,
    solves: spec_fn(Seq<T>, Seq<T>) -> bool,
    out: DirectionView<T>,
) -> bool {
    let v = slack_terms(p, r_comp, direct, corrector);
    let at = times_t_spec(ain, csr, prob.a_in, v);
    exists|xy: Seq<T>|
        {
            let dx = xy.subrange(0, prob.n() as int);
            &&& #[trigger] yields(
                solves,
                unknown_rhs(p, at, how, corrector) + equality_rhs(p, corrector),
                xy,
            )
            &&& out.x == dx
            &&& out.y == xy.subrange(prob.n() as int, (prob.n() + prob.me()) as int)
            &&& out.s == slack_step(p, times_spec(ain, csr, prob.a_in, dx), corrector)
            &&& out.z == multiplier_step(p, v, times_spec(ain, csr, prob.a_in, dx))
        }
}

/// The direction for the complementarity `r_comp` after slacks and multipliers are eliminated.
/// `solve` solves for the unknowns and the equality multipliers.
pub(crate) fn eliminate<T: Scalar, S: Fn(&[T]) -> Vec<T>>(
    prob: &QpProblem<T>,
    ain: Form,
    csr: Option<&CscMatrix<T>>,
    p: &Point<T>,
    r_comp: &[T],
    direct: bool,
    how: Combine,
    corrector: bool,
    solve: &S,
    Ghost(solves): Ghost<spec_fn(Seq<T>, Seq<T>) -> bool>,
) -> (out: Direction<T>)
    requires
        prob.wf(),
        form_fits(ain, opt_deref(csr), prob.a_in),
        p.fits(*prob),
        r_comp@.len() == prob.mi(),
        forall|a: &[T]| a@.len() == prob.n() + prob.me() ==> #[trigger] solve.requires((a,)),
        forall|a: &[T], v: Vec<T>|
            a@.len() == prob.n() + prob.me() && #[trigger] solve.ensures((a,), v) ==> v@.len() == a@.len()
                && yields(solves, a@, v@),
    ensures
        eliminated(
            *prob,
            ain,
            opt_deref(csr),
            *p,
            r_comp@,
            direct,
            how,
            corrector,
            solves,
            out@,
        ),
        out@.sized(prob.n(), prob.me(), prob.mi()),
{
    let n: usize = prob.q.len();
    let me: usize = prob.b_eq.len();
    let v = slack_terms_of(p, r_comp, direct, corrector);
    let at = times_t(ain, csr, &prob.a_in, &v);
    let mut rhs = unknown_rhs_of(p, &at, how, corrector);
    let mut ry = equality_rhs_of(p, corrector);
    let ghost whole = rhs@ + ry@;
    rhs.append(&mut ry);
    let a: &[T] = rhs.as_slice();
    assert(a@ =~= whole);
    let xy = solve(a);
    assert(yields(solves, a@, xy@));
    let dx = slice_of(&xy, 0, n);
    let dy = slice_of(&xy, n, n + me);
    let adx = times(ain, csr, &prob.a_in, &dx);
    let (ds, dz) = slack_and_multiplier(p, &v, &adx, corrector);
    Direction { x: dx, y: dy, s: ds, z: dz }
}

/// `out` is the direction of a problem whose rows have at most one entry each, with the steps of
/// unknowns and equality multipliers, stacked, from a system that `solves` describes.
pub open spec fn bounds_eliminated<T: Scalar>(
    prob: QpProblem<T>,
    col_ineq: Seq<(usize, T)>,
    p: Point<T>,
    r_comp: Seq<T>,
    corrector: bool,
    solves: spec_fn(Seq<T>, Seq<T>) -> bool,
    out: DirectionView<T>,
) -> bool {
    let v = slack_terms(p, r_comp, false, corrector);
    let at = bounds_t_times(col_ineq, v, prob.n(), col_ineq.len());
    exists|xy: Seq<T>|
        {
            let dx = xy.subrange(0, prob.n() as int);
            &&& #[trigger] yields(
                solves,
                unknown_rhs(p, at, Combine::Separate, corrector) + equality_rhs(p, corrector),
                xy,
            )
            &&& out.x == dx
            &&& out.y == xy.subrange(prob.n() as int, (prob.n() + prob.me()) as int)
            &&& out.s == slack_step(p, bounds_times(col_ineq, dx), corrector)
            &&& out.z == multiplier_step(p, v, bounds_times(col_ineq, dx))
        }
}

/// The direction of a problem whose rows have at most one entry each, given by `col_ineq`; `solve`
/// solves for the unknowns and the equality multipliers.
pub(crate) fn eliminate_bounds<T: Scalar, S: Fn(&[T]) -> Vec<T>>(
    prob: &QpProblem<T>,
    col_ineq: &[(usize, T)],
    p: &Point<T>,
    r_comp: &[T],
    corrector: bool,
    solve: &S,
    Ghost(solves): Ghost<spec_fn(Seq<T>, Seq<T>) -> bool>,
) -> (out: Direction<T>)
    requires
        prob.wf(),
        p.fits(*prob),
        r_comp@.len() == prob.mi(),
        col_ineq@.len() == prob.mi(),
        forall|r: int| 0 <= r < prob.mi() ==> (#[trigger] col_ineq@[r]).0 < prob.n(),
        gives_solutions(*solve, solves, prob.n() + prob.me()),
    ensures
        bounds_eliminated(*prob, col_ineq@, *p, r_comp@, corrector, solves, out@),
        out@.sized(prob.n(), prob.me(), prob.mi()),
{
    let n: usize = prob.q.len();
    let me: usize = prob.b_eq.len();
    let v = slack_terms_of(p, r_comp, false, corrector);
    let at = bounds_t_product(col_ineq, &v, n);
    let mut rhs = unknown_rhs_of(p, &at, Combine::Separate, corrector);
    let mut ry = equality_rhs_of(p, corrector);
    let ghost whole = rhs@ + ry@;
    rhs.append(&mut ry);
    let a: &[T] = rhs.as_slice();
    assert(a@ =~= whole);
    let xy = solve(a);
    assert(yields(solves, a@, xy@));
    let dx = slice_of(&xy, 0, n);
    let dy = slice_of(&xy, n, n + me);
    let adx = bounds_product(col_ineq, &dx);
    let (ds, dz) = slack_and_multiplier(p, &v, &adx, corrector);
    Direction { x: dx, y: dy, s: ds, z: dz }
}

/// The weight of row `r` in the right-hand side of the definite system.
pub open spec fn definite_weight<T: Scalar>(p: Point<T>, r_comp: Seq<T>, corrector: bool, r: int) -> T {
    let z_inv = T::one().over(p.z@[r]);
    if corrector {
        p.zs@[r].neg().times(r_comp[r]).times(z_inv)
    } else {
        p.zs@[r].times(p.r_h@[r].minus(r_comp[r].times(z_inv)))
    }
}

/// The right-hand side of the definite system in coordinate `j`, after the first `k` rows.
pub open spec fn definite_rhs_at<T: Scalar>(
    prob: QpProblem<T>,
    p: Point<T>,
    r_comp: Seq<T>,
    corrector: bool,
    j: int,
    k: nat,
) -> T
    decreases k,
{
    if k == 0 {
        if corrector {
            T::zero()
        } else {
            p.r_d@[j].neg()
        }
    } else {
        let front = definite_rhs_at(prob, p, r_comp, corrector, j, (k - 1) as nat);
        let a = prob.a_in.at(k - 1, j);
        if a.equals(T::zero()) {
            front
        } else {
            front.minus(a.times(definite_weight(p, r_comp, corrector, k - 1)))
        }
    }
}

/// The right-hand side of the definite system.
pub open spec fn definite_rhs<T: Scalar>(prob: QpProblem<T>, p: Point<T>, r_comp: Seq<T>, corrector: bool) -> Seq<
    T,
> {
    Seq::new(prob.n(), |j: int| definite_rhs_at(prob, p, r_comp, corrector, j, prob.mi()))
}

/// The step of the multiplier of row `r` for the step `dx` of the unknowns.
pub open spec fn definite_dz<T: Scalar>(
    prob: QpProblem<T>,
    p: Point<T>,
    r_comp: Seq<T>,
    corrector: bool,
    dx: Seq<T>,
    r: int,
) -> T {
    let ax = dot_spec(prob.a_in.row(r), dx);
    let rc = r_comp[r].times(T::one().over(p.z@[r]));
    if corrector {
        p.zs@[r].times(ax.minus(rc))
    } else {
        p.zs@[r].times(ax.plus(p.r_h@[r]).minus(rc))
    }
}

/// The step of a slack for the step of its multiplier: `-r_comp / z - s / z dz`.
pub open spec fn paired_ds<T: Scalar>(p: Point<T>, r_comp: Seq<T>, dz: Seq<T>, r: int) -> T {
    let z_inv = T::one().over(p.z@[r]);
    r_comp[r].neg().times(z_inv).minus(p.s@[r].times(z_inv).times(dz[r]))
}

/// The steps of the slacks for those of the multipliers.
pub fn paired_slacks<T: Scalar>(p: &Point<T>, r_comp: &[T], dz: &[T]) -> (r: Vec<T>)
    requires
        p.s@.len() == dz@.len(),
        p.z@.len() == dz@.len(),
        r_comp@.len() == dz@.len(),
    ensures
        r@ == Seq::new(dz@.len(), |i: int| paired_ds(*p, r_comp@, dz@, i)),
{
    let mut r: Vec<T> = Vec::with_capacity(dz.len());
    let mut i: usize = 0;
    while i < dz.len()
        invariant
            i <= dz@.len(),
            p.s@.len() == dz@.len(),
            p.z@.len() == dz@.len(),
            r_comp@.len() == dz@.len(),
            r@ =~= Seq::new(i as nat, |i: int| paired_ds(*p, r_comp@, dz@, i)),
        decreases dz@.len() - i,
    {
        let z_inv = T::one().over(p.z[i]);
        r.push(r_comp[i].neg().times(z_inv).minus(p.s[i].times(z_inv).times(dz[i])));
        i += 1;
    }
    r
}

/// `out` is the direction of the definite system.
pub open spec fn definite<T: Scalar>(
    prob: QpProblem<T>,
    p: Point<T>,
    r_comp: Seq<T>,
    corrector: bool,
    solves: spec_fn(Seq<T>, Seq<T>) -> bool,
    out: DirectionView<T>,
) -> bool {
    exists|dx: Seq<T>|
        {
            &&& #[trigger] yields(solves, definite_rhs(prob, p, r_comp, corrector), dx)
            &&& out.x == dx
            &&& out.y == constant(T::zero(), prob.me())
            &&& out.z == Seq::new(prob.mi(), |r: int| definite_dz(prob, p, r_comp, corrector, dx, r))
            &&& out.s == Seq::new(prob.mi(), |r: int| paired_ds(p, r_comp, out.z, r))
        }
}

/// The direction of the definite system, which `solve` solves.
pub(crate) fn definite_direction<T: Scalar, S: Fn(&[T]) -> Vec<T>>(
    prob: &QpProblem<T>,
    p: &Point<T>,
    r_comp: &[T],
    corrector: bool,
    solve: &S,
    Ghost(solves): Ghost<spec_fn(Seq<T>, Seq<T>) -> bool>,
) -> (out: Direction<T>)
    requires
        prob.wf(),
        p.fits(*prob),
        r_comp@.len() == prob.mi(),
        forall|a: &[T]| a@.len() == prob.n() ==> #[trigger] solve.requires((a,)),
        forall|a: &[T], x: Vec<T>|
            a@.len() == prob.n() && #[trigger] solve.ensures((a,), x) ==> x@.len() == a@.len() && yields(
                solves,
                a@,
                x@,
            ),
    ensures
        definite(*prob, *p, r_comp@, corrector, solves, out@),
        out@.sized(prob.n(), prob.me(), prob.mi()),
{
    let n: usize = prob.q.len();
    let me: usize = prob.b_eq.len();
    let mi: usize = prob.b_in.len();
    let mut rhs: Vec<T> = Vec::with_capacity(n);
    let mut j: usize = 0;
    while j < n
        invariant
            prob.wf(),
            n == prob.n(),
            mi == prob.mi(),
            p.fits(*prob),
            r_comp@.len() == mi,
            j <= n,
            rhs@ =~= definite_rhs(*prob, *p, r_comp@, corrector).subrange(0, j as int),
        decreases n - j,
    {
        let mut acc = if corrector {
            T::zero()
        } else {
            p.r_d[j].neg()
        };
        let mut r: usize = 0;
        while r < mi
            invariant
                prob.wf(),
                n == prob.n(),
                mi == prob.mi(),
                p.fits(*prob),
                r_comp@.len() == mi,
                j < n,
                r <= mi,
                acc == definite_rhs_at(*prob, *p, r_comp@, corrector, j as int, r as nat),
            decreases mi - r,
        {
            let a = prob.a_in.get(r, j);
            if !a.equals(T::zero()) {
                let z_inv = T::one().over(p.z[r]);
                let w = if corrector {
                    p.zs[r].neg().times(r_comp[r]).times(z_inv)
                } else {
                    p.zs[r].times(p.r_h[r].minus(r_comp[r].times(z_inv)))
                };
                acc = acc.minus(a.times(w));
            }
            r += 1;
        }
        rhs.push(acc);
        j += 1;
    }
    assert(rhs@ =~= definite_rhs(*prob, *p, r_comp@, corrector));
    let a: &[T] = rhs.as_slice();
    let dx = solve(a);
    assert(yields(solves, a@, dx@));
    let mut dz: Vec<T> = Vec::with_capacity(mi);
    let mut r: usize = 0;
    while r < mi
        invariant
            prob.wf(),
            n == prob.n(),
            mi == prob.mi(),
            p.fits(*prob),
            r_comp@.len() == mi,
            dx@.len() == n,
            r <= mi,
            dz@ =~= Seq::new(r as nat, |r: int| definite_dz(*prob, *p, r_comp@, corrector, dx@, r)),
        decreases mi - r,
    {
        let ax = prob.a_in.row_dot(r, &dx);
        let rc = r_comp[r].times(T::one().over(p.z[r]));
        let v = if corrector {
            p.zs[r].times(ax.minus(rc))
        } else {
            p.zs[r].times(ax.plus(p.r_h[r]).minus(rc))
        };
        dz.push(v);
        r += 1;
    }
    let ds = paired_slacks(p, r_comp, &dz);
    Direction { x: dx, y: filled(T::zero(), me), s: ds, z: dz }
}

/// The right-hand side of row `r` of the augmented system: `-r_h + r_comp / z`; a corrector leaves
/// the residual out.
pub open spec fn augmented_rz<T: Scalar>(p: Point<T>, r_comp: Seq<T>, corrector: bool, r: int) -> T {
    let rc = r_comp[r].times(T::one().over(p.z@[r]));
    if corrector {
        rc
    } else {
        p.r_h@[r].neg().plus(rc)
    }
}

/// The unknowns' right-hand side of the augmented system, after the first `k` folded bound rows
/// are added.
pub open spec fn augmented_rx<T: Scalar>(
    p: Point<T>,
    units: Seq<(usize, usize, T)>,
    delta: T,
    r_comp: Seq<T>,
    corrector: bool,
    c: int,
    k: nat,
) -> T
    decreases k,
{
    if k == 0 {
        if corrector {
            T::zero()
        } else {
            p.r_d@[c].neg()
        }
    } else {
        let front = augmented_rx(p, units, delta, r_comp, corrector, c, (k - 1) as nat);
        let (r, col, v) = units[k - 1];
        if col == c {
            let rz = augmented_rz(p, r_comp, corrector, r as int);
            let hinv = T::one().over(p.s@[r as int].over(p.z@[r as int]).plus(delta));
            front.plus(v.times(rz).times(hinv))
        } else {
            front
        }
    }
}

/// The right-hand side of the augmented system: unknowns, equality multipliers, then the rows that
/// are not folded.
pub open spec fn augmented_rhs<T: Scalar>(
    p: Point<T>,
    units: Seq<(usize, usize, T)>,
    rows: Seq<usize>,
    delta: T,
    r_comp: Seq<T>,
    corrector: bool,
) -> Seq<T> {
    Seq::new(
        p.r_d@.len(),
        |c: int| augmented_rx(p, units, delta, r_comp, corrector, c, units.len()),
    ) + equality_rhs(p, corrector) + Seq::new(
        rows.len(),
        |i: int| augmented_rz(p, r_comp, corrector, rows[i] as int),
    )
}

/// The step of the multiplier of a folded bound row.
pub open spec fn folded_step<T: Scalar>(
    p: Point<T>,
    delta: T,
    r_comp: Seq<T>,
    corrector: bool,
    dx: Seq<T>,
    unit: (usize, usize, T),
) -> T {
    let r = unit.0 as int;
    let hinv = T::one().over(p.s@[r].over(p.z@[r]).plus(delta));
    hinv.times(unit.2.times(dx[unit.1 as int]).minus(augmented_rz(p, r_comp, corrector, r)))
}

/// `base` with the steps of the first `k` folded bound rows written over it.
pub open spec fn folded_steps<T: Scalar>(
    p: Point<T>,
    units: Seq<(usize, usize, T)>,
    delta: T,
    r_comp: Seq<T>,
    corrector: bool,
    dx: Seq<T>,
    base: Seq<T>,
    k: nat,
) -> Seq<T>
    decreases k,
{
    if k == 0 {
        base
    } else {
        folded_steps(p, units, delta, r_comp, corrector, dx, base, (k - 1) as nat).update(
            units[k - 1].0 as int,
            folded_step(p, delta, r_comp, corrector, dx, units[k - 1]),
        )
    }
}

/// `out` is the direction of the augmented system.
pub open spec fn augmented<T: Scalar>(
    prob: QpProblem<T>,
    p: Point<T>,
    units: Seq<(usize, usize, T)>,
    rows: Seq<usize>,
    delta: T,
    r_comp: Seq<T>,
    corrector: bool,
    solves: spec_fn(Seq<T>, Seq<T>) -> bool,
    out: DirectionView<T>,
) -> bool {
    let n = prob.n() as int;
    let me = prob.me() as int;
    exists|sol: Seq<T>|
        {
            &&& #[trigger] yields(solves, augmented_rhs(p, units, rows, delta, r_comp, corrector), sol)
            &&& out.x == sol.subrange(0, n)
            &&& out.y == sol.subrange(n, n + me)
            &&& out.z == folded_steps(
                p,
                units,
                delta,
                r_comp,
                corrector,
                out.x,
                crate::fac::written(
                    constant(T::zero(), prob.mi()),
                    rows,
                    sol.subrange(n + me, n + me + rows.len()),
                    rows.len(),
                ),
                units.len(),
            )
            &&& out.s == Seq::new(prob.mi(), |r: int| paired_ds(p, r_comp, out.z, r))
        }
}

/// The direction of the augmented system, which `solve` solves. `rows` are the inequality rows of
/// the system, and `units` the bound rows that are folded out of it.
pub(crate) fn augmented_direction<T: Scalar, S: Fn(&[T]) -> Vec<T>>(
    prob: &QpProblem<T>,
    p: &Point<T>,
    units: &[(usize, usize, T)],
    rows: &[usize],
    delta: T,
    r_comp: &[T],
    corrector: bool,
    solve: &S,
    Ghost(solves): Ghost<spec_fn(Seq<T>, Seq<T>) -> bool>,
) -> (out: Direction<T>)
    requires
        prob.wf(),
        p.fits(*prob),
        rows_fit(*prob, units@, rows@),
        rows@.len() <= prob.mi(),
        r_comp@.len() == prob.mi(),
        forall|a: &[T]|
            a@.len() == prob.n() + prob.me() + rows@.len() ==> #[trigger] solve.requires((a,)),
        forall|a: &[T], x: Vec<T>|
            a@.len() == prob.n() + prob.me() + rows@.len() && #[trigger] solve.ensures((a,), x) ==> x@.len()
                == a@.len() && yields(
                solves,
                a@,
                x@,
            ),
    ensures
        augmented(*prob, *p, units@, rows@, delta, r_comp@, corrector, solves, out@),
        out@.sized(prob.n(), prob.me(), prob.mi()),
{
    let n: usize = prob.q.len();
    let me: usize = prob.b_eq.len();
    let mi: usize = prob.b_in.len();
    let ghost all = augmented_rhs(*p, units@, rows@, delta, r_comp@, corrector);
    let mut rhs: Vec<T> = Vec::with_capacity(n + me + rows.len());
    let mut c: usize = 0;
    while c < n
        invariant
            prob.wf(),
            n == prob.n(),
            mi == prob.mi(),
            p.fits(*prob),
            rows_fit(*prob, units@, rows@),
            r_comp@.len() == mi,
            all == augmented_rhs(*p, units@, rows@, delta, r_comp@, corrector),
            c <= n,
            rhs@ =~= all.subrange(0, c as int),
        decreases n - c,
    {
        let mut acc = if corrector {
            T::zero()
        } else {
            p.r_d[c].neg()
        };
        let mut k: usize = 0;
        while k < units.len()
            invariant
                n == prob.n(),
                mi == prob.mi(),
                p.fits(*prob),
                rows_fit(*prob, units@, rows@),
                r_comp@.len() == mi,
                c < n,
                k <= units@.len(),
                acc == augmented_rx(*p, units@, delta, r_comp@, corrector, c as int, k as nat),
            decreases units@.len() - k,
        {
            let (r, col, v) = units[k];
            assert(units@[k as int].0 < mi);
            if col == c {
                let rz = row_rhs(p, r_comp, corrector, r);
                let hinv = T::one().over(p.s[r].over(p.z[r]).plus(delta));
                acc = acc.plus(v.times(rz).times(hinv));
            }
            k += 1;
        }
        rhs.push(acc);
        c += 1;
    }
    let ry = equality_rhs_of(p, corrector);
    let mut i: usize = 0;
    while i < me
        invariant
            n == prob.n(),
            me == prob.me(),
            p.fits(*prob),
            ry@ == equality_rhs(*p, corrector),
            ry@.len() == me,
            all == augmented_rhs(*p, units@, rows@, delta, r_comp@, corrector),
            i <= me,
            rhs@ =~= all.subrange(0, n + i),
        decreases me - i,
    {
        rhs.push(ry[i]);
        i += 1;
    }
    i = 0;
    while i < rows.len()
        invariant
            n == prob.n(),
            me == prob.me(),
            mi == prob.mi(),
            p.fits(*prob),
            ry@ == equality_rhs(*p, corrector),
            ry@.len() == me,
            rows_fit(*prob, units@, rows@),
            r_comp@.len() == mi,
            all == augmented_rhs(*p, units@, rows@, delta, r_comp@, corrector),
            i <= rows@.len(),
            rhs@ =~= all.subrange(0, n + me + i),
        decreases rows@.len() - i,
    {
        rhs.push(row_rhs(p, r_comp, corrector, rows[i]));
        i += 1;
    }
    assert(rhs@ =~= all);
    let a: &[T] = rhs.as_slice();
    let sol = solve(a);
    assert(yields(solves, a@, sol@));
    let dx = slice_of(&sol, 0, n);
    let dy = slice_of(&sol, n, n + me);
    let tail = slice_of(&sol, n + me, n + me + rows.len());
    let mut dz: Vec<T> = filled(T::zero(), mi);
    i = 0;
    while i < rows.len()
        invariant
            mi == prob.mi(),
            rows_fit(*prob, units@, rows@),
            tail@.len() == rows@.len(),
            i <= rows@.len(),
            dz@.len() == mi,
            dz@ == crate::fac::written(constant(T::zero(), mi as nat), rows@, tail@, i as nat),
        decreases rows@.len() - i,
    {
        let at: usize = rows[i];
        dz[at] = tail[i];
        i += 1;
    }
    let ghost base = dz@;
    let mut k: usize = 0;
    while k < units.len()
        invariant
            n == prob.n(),
            mi == prob.mi(),
            p.fits(*prob),
            rows_fit(*prob, units@, rows@),
            r_comp@.len() == mi,
            dx@.len() == n,
            k <= units@.len(),
            dz@.len() == mi,
            dz@ == folded_steps(*p, units@, delta, r_comp@, corrector, dx@, base, k as nat),
        decreases units@.len() - k,
    {
        let (r, col, v) = units[k];
        assert(units@[k as int].0 < mi);
        let hinv = T::one().over(p.s[r].over(p.z[r]).plus(delta));
        let rz = row_rhs(p, r_comp, corrector, r);
        dz[r] = hinv.times(v.times(dx[col]).minus(rz));
        k += 1;
    }
    let ds = paired_slacks(p, r_comp, &dz);
    Direction { x: dx, y: dy, s: ds, z: dz }
}

fn row_rhs<T: Scalar>(p: &Point<T>, r_comp: &[T], corrector: bool, r: usize) -> (v: T)
    requires
        r < p.z@.len(),
        p.r_h@.len() == p.z@.len(),
        r_comp@.len() == p.z@.len(),
    ensures
        v == augmented_rz(*p, r_comp@, corrector, r as int),
{
    let rc = r_comp[r].times(T::one().over(p.z[r]));
    if corrector {
        rc
    } else {
        p.r_h[r].neg().plus(rc)
    }
}

/// `s / (z + delta s)`, the inverse weight of a bound row in the sparse condensed system.
pub open spec fn bound_inverse<T: Scalar>(p: Point<T>, delta: T, r: int) -> T {
    p.s@[r].over(p.z@[r].plus(delta.times(p.s@[r])))
}

/// The unknowns' right-hand side of the sparse condensed system, after the first `k` bound rows.
pub open spec fn sparse_rx<T: Scalar>(
    p: Point<T>,
    units: Seq<(usize, usize, T)>,
    delta: T,
    r_comp: Seq<T>,
    corrector: bool,
    c: int,
    k: nat,
) -> T
    decreases k,
{
    if k == 0 {
        if corrector {
            T::zero()
        } else {
            p.r_d@[c].neg()
        }
    } else {
        let front = sparse_rx(p, units, delta, r_comp, corrector, c, (k - 1) as nat);
        let (r, col, v) = units[k - 1];
        if col == c {
            front.plus(v.times(bound_inverse(p, delta, r as int)).times(r_comp[r as int]))
        } else {
            front
        }
    }
}

/// The right-hand side of the sparse condensed system.
pub open spec fn sparse_rhs<T: Scalar>(
    p: Point<T>,
    units: Seq<(usize, usize, T)>,
    delta: T,
    r_comp: Seq<T>,
    corrector: bool,
) -> Seq<T> {
    Seq::new(
        p.r_d@.len(),
        |c: int| sparse_rx(p, units, delta, r_comp, corrector, c, units.len()),
    ) + equality_rhs(p, corrector)
}

/// Steps of slacks and multipliers of the first `k` bound rows, written over zeros.
pub open spec fn sparse_steps<T: Scalar>(
    p: Point<T>,
    units: Seq<(usize, usize, T)>,
    delta: T,
    r_comp: Seq<T>,
    corrector: bool,
    dx: Seq<T>,
    k: nat,
) -> (Seq<T>, Seq<T>)
    decreases k,
{
    if k == 0 {
        (constant(T::zero(), p.s@.len()), constant(T::zero(), p.s@.len()))
    } else {
        let (ds, dz) = sparse_steps(p, units, delta, r_comp, corrector, dx, (k - 1) as nat);
        let (r, c, v) = units[k - 1];
        let adx = v.times(dx[c as int]);
        (
            ds.update(
                r as int,
                if corrector {
                    v.neg().times(dx[c as int])
                } else {
                    p.r_h@[r as int].neg().minus(adx)
                },
            ),
            dz.update(
                r as int,
                bound_inverse(p, delta, r as int).times(adx.minus(r_comp[r as int])),
            ),
        )
    }
}

/// `out` is the direction of the sparse condensed system.
pub open spec fn sparse_condensed<T: Scalar>(
    prob: QpProblem<T>,
    p: Point<T>,
    units: Seq<(usize, usize, T)>,
    delta: T,
    r_comp: Seq<T>,
    corrector: bool,
    solves: spec_fn(Seq<T>, Seq<T>) -> bool,
    out: DirectionView<T>,
) -> bool {
    let n = prob.n() as int;
    let me = prob.me() as int;
    exists|sol: Seq<T>|
        {
            &&& #[trigger] yields(solves, sparse_rhs(p, units, delta, r_comp, corrector), sol)
            &&& out.x == sol.subrange(0, n)
            &&& out.y == sol.subrange(n, n + me)
            &&& (out.s, out.z) == sparse_steps(p, units, delta, r_comp, corrector, out.x, units.len())
        }
}

/// The direction of the sparse condensed system of a problem whose rows are bounds; `solve` solves
/// the system.
pub(crate) fn sparse_direction<T: Scalar, S: Fn(&[T]) -> Vec<T>>(
    prob: &QpProblem<T>,
    p: &Point<T>,
    units: &[(usize, usize, T)],
    delta: T,
    r_comp: &[T],
    corrector: bool,
    solve: &S,
    Ghost(solves): Ghost<spec_fn(Seq<T>, Seq<T>) -> bool>,
) -> (out: Direction<T>)
    requires
        prob.wf(),
        p.fits(*prob),
        rows_fit(*prob, units@, Seq::empty()),
        r_comp@.len() == prob.mi(),
        forall|a: &[T]| a@.len() == prob.n() + prob.me() ==> #[trigger] solve.requires((a,)),
        forall|a: &[T], x: Vec<T>|
            a@.len() == prob.n() + prob.me() && #[trigger] solve.ensures((a,), x) ==> x@.len() == a@.len() && yields(
                solves,
                a@,
                x@,
            ),
    ensures
        sparse_condensed(*prob, *p, units@, delta, r_comp@, corrector, solves, out@),
        out@.sized(prob.n(), prob.me(), prob.mi()),
{
    let n: usize = prob.q.len();
    let me: usize = prob.b_eq.len();
    let mi: usize = prob.b_in.len();
    let ghost all = sparse_rhs(*p, units@, delta, r_comp@, corrector);
    let mut rhs: Vec<T> = Vec::with_capacity(n + me);
    let mut c: usize = 0;
    while c < n
        invariant
            n == prob.n(),
            mi == prob.mi(),
            p.fits(*prob),
            rows_fit(*prob, units@, Seq::empty()),
            r_comp@.len() == mi,
            all == sparse_rhs(*p, units@, delta, r_comp@, corrector),
            c <= n,
            rhs@ =~= all.subrange(0, c as int),
        decreases n - c,
    {
        let mut acc = if corrector {
            T::zero()
        } else {
            p.r_d[c].neg()
        };
        let mut k: usize = 0;
        while k < units.len()
            invariant
                n == prob.n(),
                mi == prob.mi(),
                p.fits(*prob),
                rows_fit(*prob, units@, Seq::empty()),
                r_comp@.len() == mi,
                c < n,
                k <= units@.len(),
                acc == sparse_rx(*p, units@, delta, r_comp@, corrector, c as int, k as nat),
            decreases units@.len() - k,
        {
            let (r, col, v) = units[k];
            assert(units@[k as int].0 < mi);
            if col == c {
                let hinv = p.s[r].over(p.z[r].plus(delta.times(p.s[r])));
                acc = acc.plus(v.times(hinv).times(r_comp[r]));
            }
            k += 1;
        }
        rhs.push(acc);
        c += 1;
    }
    let ry = equality_rhs_of(p, corrector);
    let mut i: usize = 0;
    while i < me
        invariant
            n == prob.n(),
            me == prob.me(),
            p.fits(*prob),
            ry@ == equality_rhs(*p, corrector),
            ry@.len() == me,
            all == sparse_rhs(*p, units@, delta, r_comp@, corrector),
            i <= me,
            rhs@ =~= all.subrange(0, n + i),
        decreases me - i,
    {
        rhs.push(ry[i]);
        i += 1;
    }
    assert(rhs@ =~= all);
    let a: &[T] = rhs.as_slice();
    let sol = solve(a);
    assert(yields(solves, a@, sol@));
    let dx = slice_of(&sol, 0, n);
    let dy = slice_of(&sol, n, n + me);
    let mut ds: Vec<T> = filled(T::zero(), mi);
    let mut dz: Vec<T> = filled(T::zero(), mi);
    let mut k: usize = 0;
    while k < units.len()
        invariant
            n == prob.n(),
            mi == prob.mi(),
            p.fits(*prob),
            rows_fit(*prob, units@, Seq::empty()),
            r_comp@.len() == mi,
            dx@.len() == n,
            k <= units@.len(),
            ds@.len() == mi,
            dz@.len() == mi,
            (ds@, dz@) == sparse_steps(*p, units@, delta, r_comp@, corrector, dx@, k as nat),
        decreases units@.len() - k,
    {
        let (r, c, v) = units[k];
        assert(units@[k as int].0 < mi);
        let hinv = p.s[r].over(p.z[r].plus(delta.times(p.s[r])));
        let adx = v.times(dx[c]);
        ds[r] = if corrector {
            v.neg().times(dx[c])
        } else {
            p.r_h[r].neg().minus(adx)
        };
        dz[r] = hinv.times(adx.minus(r_comp[r]));
        k += 1;
    }
    Direction { x: dx, y: dy, s: ds, z: dz }
}

/// The inverse diagonal of a problem with one general row: `P + rho I`, the square of the gap and the
/// bound rows.
pub open spec fn rank_one_dinv<T: Scalar>(
    prob: QpProblem<T>,
    p: Point<T>,
    units: Seq<(usize, usize, T)>,
    rho: T,
    mu: T,
) -> Seq<T> {
    Seq::new(
        prob.n(),
        |j: int|
            T::one().over(
                units_added(
                    units,
                    p.zs@,
                    prob.p.at(j, j).plus(rho).plus(mu.times(mu)),
                    j,
                    units.len(),
                ),
            ),
    )
}

/// The unknowns' right-hand side after the first `k` bound rows, then the general row.
pub open spec fn rank_one_rx<T: Scalar>(
    prob: QpProblem<T>,
    p: Point<T>,
    units: Seq<(usize, usize, T)>,
    v: Seq<T>,
    corrector: bool,
    j: int,
    k: nat,
) -> T
    decreases k,
{
    if k == 0 {
        if corrector {
            T::zero()
        } else {
            p.r_d@[j].neg()
        }
    } else {
        let front = rank_one_rx(prob, p, units, v, corrector, j, (k - 1) as nat);
        let (r, c, a) = units[k - 1];
        if c == j {
            front.minus(a.times(v[r as int]))
        } else {
            front
        }
    }
}

/// `a b`, entry by entry.
pub open spec fn scaled_by_row<T: Scalar>(a: Seq<T>, b: Seq<T>) -> Seq<T> {
    Seq::new(a.len(), |j: int| a[j].times(b[j]))
}

/// The step of the unknowns of a problem with one general row `g`, by the formula for a diagonal
/// plus a rank-one matrix.
pub open spec fn rank_one_dx<T: Scalar>(
    prob: QpProblem<T>,
    p: Point<T>,
    units: Seq<(usize, usize, T)>,
    gr: int,
    dinv: Seq<T>,
    v: Seq<T>,
    corrector: bool,
) -> Seq<T> {
    let g = prob.a_in.row(gr);
    let dg = scaled_by_row(dinv, g);
    let denom = T::one().plus(p.zs@[gr].times(dot_spec(g, dg)));
    let rhs = Seq::new(
        prob.n(),
        |j: int|
            rank_one_rx(prob, p, units, v, corrector, j, units.len()).minus(g[j].times(v[gr])),
    );
    let u = scaled_by_row(dinv, rhs);
    let inner = p.zs@[gr].times(dot_spec(g, u)).over(denom);
    Seq::new(prob.n(), |j: int| u[j].minus(inner.times(dg[j])))
}

/// Steps of slacks and multipliers of the first `k` bound rows of a problem with one general row,
/// written over zeros.
pub open spec fn rank_one_steps<T: Scalar>(
    p: Point<T>,
    units: Seq<(usize, usize, T)>,
    v: Seq<T>,
    corrector: bool,
    dx: Seq<T>,
    k: nat,
) -> (Seq<T>, Seq<T>)
    decreases k,
{
    if k == 0 {
        (constant(T::zero(), p.s@.len()), constant(T::zero(), p.s@.len()))
    } else {
        let (ds, dz) = rank_one_steps(p, units, v, corrector, dx, (k - 1) as nat);
        let (r, c, a) = units[k - 1];
        let adx = a.times(dx[c as int]);
        (
            ds.update(r as int, one_slack(p, adx, corrector, r as int)),
            dz.update(r as int, v[r as int].plus(p.zs@[r as int].times(adx))),
        )
    }
}

/// The step of the slack of row `r`.
pub open spec fn one_slack<T: Scalar>(p: Point<T>, adx: T, corrector: bool, r: int) -> T {
    if corrector {
        adx.neg()
    } else {
        p.r_h@[r].neg().minus(adx)
    }
}

/// `out` is the direction of a problem with one general row `gr` and no equality rows.
pub open spec fn rank_one<T: Scalar>(
    prob: QpProblem<T>,
    p: Point<T>,
    units: Seq<(usize, usize, T)>,
    gr: int,
    rho: T,
    mu: T,
    r_comp: Seq<T>,
    corrector: bool,
    out: DirectionView<T>,
) -> bool {
    let v = slack_terms(p, r_comp, false, corrector);
    let dx = rank_one_dx(prob, p, units, gr, rank_one_dinv(prob, p, units, rho, mu), v, corrector);
    let (ds, dz) = rank_one_steps(p, units, v, corrector, dx, units.len());
    let gdx = dot_spec(prob.a_in.row(gr), dx);
    &&& out.x == dx
    &&& out.y == Seq::<T>::empty()
    &&& out.s == ds.update(gr, one_slack(p, gdx, corrector, gr))
    &&& out.z == dz.update(gr, v[gr].plus(p.zs@[gr].times(gdx)))
}

/// The direction of a problem with one general row `gr` and no equality rows, in closed form.
pub(crate) fn rank_one_direction<T: Scalar>(
    prob: &QpProblem<T>,
    p: &Point<T>,
    units: &[(usize, usize, T)],
    gr: usize,
    rho: T,
    mu: T,
    r_comp: &[T],
    corrector: bool,
) -> (out: Direction<T>)
    requires
        prob.wf(),
        p.fits(*prob),
        rows_fit(*prob, units@, Seq::empty()),
        gr < prob.mi(),
        r_comp@.len() == prob.mi(),
    ensures
        rank_one(*prob, *p, units@, gr as int, rho, mu, r_comp@, corrector, out@),
        out@.sized(prob.n(), 0, prob.mi()),
{
    let n: usize = prob.q.len();
    let mi: usize = prob.b_in.len();
    let v = slack_terms_of(p, r_comp, false, corrector);
    let ghost g = prob.a_in.row(gr as int);
    let ghost dinv_spec = rank_one_dinv(*prob, *p, units@, rho, mu);
    let mut row: Vec<T> = Vec::with_capacity(n);
    let mut dinv: Vec<T> = Vec::with_capacity(n);
    let mut dg: Vec<T> = Vec::with_capacity(n);
    let mut rhs: Vec<T> = Vec::with_capacity(n);
    let mut u: Vec<T> = Vec::with_capacity(n);
    let ghost rhs_spec = Seq::new(
        prob.n(),
        |j: int|
            rank_one_rx(*prob, *p, units@, v@, corrector, j, units@.len()).minus(
                g[j].times(v@[gr as int]),
            ),
    );
    let mut j: usize = 0;
    while j < n
        invariant
            prob.wf(),
            n == prob.n(),
            mi == prob.mi(),
            p.fits(*prob),
            rows_fit(*prob, units@, Seq::empty()),
            gr < mi,
            v@.len() == mi,
            g == prob.a_in.row(gr as int),
            dinv_spec == rank_one_dinv(*prob, *p, units@, rho, mu),
            rhs_spec == Seq::new(
                prob.n(),
                |j: int|
                    rank_one_rx(*prob, *p, units@, v@, corrector, j, units@.len()).minus(
                        g[j].times(v@[gr as int]),
                    ),
            ),
            j <= n,
            row@ =~= g.subrange(0, j as int),
            dinv@ =~= dinv_spec.subrange(0, j as int),
            dg@ =~= scaled_by_row(dinv_spec, g).subrange(0, j as int),
            rhs@ =~= rhs_spec.subrange(0, j as int),
            u@ =~= scaled_by_row(dinv_spec, rhs_spec).subrange(0, j as int),
        decreases n - j,
    {
        let gj = prob.a_in.get(gr, j);
        let mut d = prob.p.get(j, j).plus(rho).plus(mu.times(mu));
        let ghost d0 = d;
        let mut acc = if corrector {
            T::zero()
        } else {
            p.r_d[j].neg()
        };
        let mut k: usize = 0;
        while k < units.len()
            invariant
                n == prob.n(),
                mi == prob.mi(),
                p.fits(*prob),
                rows_fit(*prob, units@, Seq::empty()),
                v@.len() == mi,
                j < n,
                k <= units@.len(),
                d == units_added(units@, p.zs@, d0, j as int, k as nat),
                acc == rank_one_rx(*prob, *p, units@, v@, corrector, j as int, k as nat),
            decreases units@.len() - k,
        {
            let (r, c, a) = units[k];
            assert(units@[k as int].0 < mi);
            if c == j {
                d = d.plus(p.zs[r].times(a).times(a));
                acc = acc.minus(a.times(v[r]));
            }
            k += 1;
        }
        let di = T::one().over(d);
        let rj = acc.minus(gj.times(v[gr]));
        assert(di == dinv_spec[j as int]);
        assert(gj == g[j as int]);
        assert(rj == rhs_spec[j as int]);
        row.push(gj);
        dinv.push(di);
        dg.push(di.times(gj));
        rhs.push(rj);
        u.push(di.times(rj));
        j += 1;
    }
    assert(row@ =~= g);
    assert(dg@ =~= scaled_by_row(dinv_spec, g));
    assert(rhs@ =~= rhs_spec);
    assert(u@ =~= scaled_by_row(dinv_spec, rhs_spec));
    let denom = T::one().plus(p.zs[gr].times(dot(&row, &dg)));
    let inner = p.zs[gr].times(dot(&row, &u)).over(denom);
    let ghost dx_spec = rank_one_dx(*prob, *p, units@, gr as int, dinv_spec, v@, corrector);
    let mut dx: Vec<T> = Vec::with_capacity(n);
    j = 0;
    while j < n
        invariant
            n == prob.n(),
            u@.len() == n,
            dg@.len() == n,
            dx_spec == Seq::new(prob.n(), |j: int| u@[j].minus(inner.times(dg@[j]))),
            j <= n,
            dx@ =~= dx_spec.subrange(0, j as int),
        decreases n - j,
    {
        dx.push(u[j].minus(inner.times(dg[j])));
        j += 1;
    }
    assert(dx@ =~= dx_spec);
    let mut ds: Vec<T> = filled(T::zero(), mi);
    let mut dz: Vec<T> = filled(T::zero(), mi);
    let mut k: usize = 0;
    while k < units.len()
        invariant
            n == prob.n(),
            mi == prob.mi(),
            p.fits(*prob),
            rows_fit(*prob, units@, Seq::empty()),
            v@.len() == mi,
            dx@.len() == n,
            k <= units@.len(),
            ds@.len() == mi,
            dz@.len() == mi,
            (ds@, dz@) == rank_one_steps(*p, units@, v@, corrector, dx@, k as nat),
        decreases units@.len() - k,
    {
        let (r, c, a) = units[k];
        assert(units@[k as int].0 < mi);
        let adx = a.times(dx[c]);
        ds[r] = if corrector {
            adx.neg()
        } else {
            p.r_h[r].neg().minus(adx)
        };
        dz[r] = v[r].plus(p.zs[r].times(adx));
        k += 1;
    }
    let gdx = dot(&row, &dx);
    dz[gr] = v[gr].plus(p.zs[gr].times(gdx));
    ds[gr] = if corrector {
        gdx.neg()
    } else {
        p.r_h[gr].neg().minus(gdx)
    };
    let y: Vec<T> = Vec::new();
    assert(y@ =~= Seq::<T>::empty());
    Direction { x: dx, y, s: ds, z: dz }
}

} // verus!
