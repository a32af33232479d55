//! The exponential cone, the closure of `{ (x, y, z) : y exp(x / y) <= z, y > 0 }`, with the
//! barrier `-log(psi) - log(y) - log(z)` for `psi = y log(z / y) - x`.
use crate::cone::Side;
use crate::exp_laws::{
    dual_test_tells_the_dual_exponential_cone, interior_test_tells_the_exponential_cone,
    margin_tells_the_exponential_cone, tells_dual_exp, tells_exp, tells_exp_interior,
};
use crate::scalar::Scalar;
use vstd::prelude::*;

verus! {

/// `y log(z / y) - x`: the primal cone is where it, `y` and `z` are positive.
pub open spec fn psi_of<T: Scalar>(s: Seq<T>) -> T {
    s[1].times(s[2].over(s[1]).ln()).minus(s[0])
}

/// `y log(z / y) - x` at the point `s = (x, y, z)`.
pub fn psi<T: Scalar>(s: &[T]) -> (r: T)
    requires
        s@.len() >= 3,
    ensures
        r == psi_of(s@),
{
    s[1].times(s[2].over(s[1]).ln()).minus(s[0])
}

/// The margin in the primal cone: the least of `psi`, `y` and `z`, and of `y` and `z` alone where
/// one of them is not positive.
pub open spec fn margin_of<T: Scalar>(s: Seq<T>) -> T {
    if s[1].at_most(T::zero()) || s[2].at_most(T::zero()) {
        s[1].min(s[2])
    } else {
        psi_of(s).min(s[1]).min(s[2])
    }
}

/// The margin in the primal cone.
pub fn margin<T: Scalar>(s: &[T]) -> (r: T)
    requires
        s@.len() >= 3,
    ensures
        r == margin_of(s@),
        tells_exp(s@, r),
{
    proof {
        margin_tells_the_exponential_cone(s@);
    }
    let y = s[1];
    let z = s[2];
    if y.at_most(T::zero()) || z.at_most(T::zero()) {
        return y.min(z);
    }
    psi(s).min(y).min(z)
}

/// The point lies in the primal cone by more than `tol`.
pub open spec fn interior<T: Scalar>(s: Seq<T>, tol: T) -> bool {
    tol.below(s[1]) && tol.below(s[2]) && tol.below(psi_of(s))
}

/// Whether the point lies in the primal cone by more than `tol`.
pub fn in_cone<T: Scalar>(s: &[T], tol: T) -> (r: bool)
    requires
        s@.len() >= 3,
    ensures
        r == interior(s@, tol),
        tells_exp_interior(s@, tol, r),
{
    proof {
        interior_test_tells_the_exponential_cone(s@, tol);
    }
    tol.below(s[1]) && tol.below(s[2]) && tol.below(psi(s))
}

/// The point `(u, v, w)` lies in the dual cone up to `tol`: `w e >= -u exp(v / u)` where `u` is
/// negative and `w` positive, and `v` and `w` nonnegative where `u` vanishes.
pub open spec fn dual_interior<T: Scalar>(d: Seq<T>, tol: T) -> bool {
    let (u, v, w) = (d[0], d[1], d[2]);
    if u.below(tol.neg()) && tol.below(w) {
        u.neg().times(v.over(u).exp()).minus(tol).at_most(w.times(T::one().exp()))
    } else {
        u.abs().at_most(tol) && tol.neg().at_most(v) && tol.neg().below(w)
    }
}

/// Whether the point lies in the dual cone up to `tol`.
pub fn in_dual_cone<T: Scalar>(d: &[T], tol: T) -> (r: bool)
    requires
        d@.len() >= 3,
    ensures
        r == dual_interior(d@, tol),
        tells_dual_exp(d@, tol, r),
{
    proof {
        dual_test_tells_the_dual_exponential_cone(d@, tol);
    }
    let u = d[0];
    let v = d[1];
    let w = d[2];
    if u.below(tol.neg()) && tol.below(w) {
        let e = T::one().exp();
        return u.neg().times(v.over(u).exp()).minus(tol).at_most(w.times(e));
    }
    u.abs().at_most(tol) && tol.neg().at_most(v) && tol.neg().below(w)
}

/// `k` Newton steps for `u + log u = c` from `u`.
pub open spec fn newton_upper<T: Scalar>(u: T, c: T, k: nat) -> T
    decreases k,
{
    if k == 0 {
        u
    } else {
        let v = newton_upper(u, c, (k - 1) as nat);
        v.minus(v.plus(v.ln()).minus(c).over(T::one().plus(T::one().over(v))))
    }
}

/// The positive root of `u + log u = c`, by eight Newton steps from an asymptotic guess; none
/// where the guess underflows.
pub open spec fn upper_root<T: Scalar>(c: T) -> Option<T> {
    let guess = if T::one().below(c) {
        c.minus(c.ln())
    } else {
        c.exp()
    };
    if guess.equals(T::zero()) {
        None
    } else {
        Some(newton_upper(guess, c, 8))
    }
}

/// The principal Lambert root of `u + log u = c`, in the logarithmic form that never forms the
/// argument itself. None where the root underflows.
pub fn w0_positive<T: Scalar>(c: T) -> (r: Option<T>)
    ensures
        r == upper_root(c),
{
    let one = T::one();
    let guess = if one.below(c) {
        c.minus(c.ln())
    } else {
        c.exp()
    };
    if guess.equals(T::zero()) {
        return None;
    }
    let mut u = guess;
    let mut k: usize = 0;
    while k < 8
        invariant
            k <= 8,
            one == T::one(),
            u == newton_upper(guess, c, k as nat),
        decreases 8 - k,
    {
        let f = u.plus(u.ln()).minus(c);
        u = u.minus(f.over(one.plus(one.over(u))));
        k += 1;
    }
    Some(u)
}

/// `k` Newton steps for `log v - v = c` from `v`.
pub open spec fn newton_lower<T: Scalar>(v: T, c: T, k: nat) -> T
    decreases k,
{
    if k == 0 {
        v
    } else {
        let w = newton_lower(v, c, (k - 1) as nat);
        w.minus(w.ln().minus(w).minus(c).over(T::one().over(w).minus(T::one())))
    }
}

/// Eight Newton steps for `log v - v = c`.
pub fn newton_eight<T: Scalar>(guess: T, c: T) -> (r: T)
    ensures
        r == newton_lower(guess, c, 8),
{
    let one = T::one();
    let mut v = guess;
    let mut k: usize = 0;
    while k < 8
        invariant
            k <= 8,
            one == T::one(),
            v == newton_lower(guess, c, k as nat),
        decreases 8 - k,
    {
        let f = v.ln().minus(v).minus(c);
        v = v.minus(f.over(one.over(v).minus(one)));
        k += 1;
    }
    v
}

/// The distance from the branch point, `sqrt(2 (-1 - c))`.
pub open spec fn branch_distance<T: Scalar>(c: T) -> T {
    T::decimal(2, 0).times(T::one().neg().minus(c)).sqrt()
}

/// The series at the branch point, `1 - p + p^2 / 3 - 11 p^3 / 72`.
pub open spec fn series_below<T: Scalar>(p: T) -> T {
    let third = T::one().over(T::decimal(3, 0));
    let last = T::decimal(11, 0).over(T::decimal(72, 0));
    T::one().minus(p).plus(p.times(p).times(third)).minus(p.times(p).times(p).times(last))
}

/// The series at the branch point, `1 + p + p^2 / 3 + 11 p^3 / 72`.
pub open spec fn series_above<T: Scalar>(p: T) -> T {
    let third = T::one().over(T::decimal(3, 0));
    let last = T::decimal(11, 0).over(T::decimal(72, 0));
    T::one().plus(p).plus(p.times(p).times(third)).plus(p.times(p).times(p).times(last))
}

/// The roots of `log v - v = c`, negated, on the principal and on the lower branch. A root that
/// underflows or is not finite is negative zero; at the branch point both are -1.
pub open spec fn lower_roots<T: Scalar>(c: T) -> (T, T) {
    let one = T::one();
    let p = branch_distance(c);
    let near = p.below(T::decimal(35, 2));
    let principal = if near {
        newton_lower(series_below(p), c, 8).neg()
    } else if T::zero().below(c.exp()) {
        newton_lower(c.exp(), c, 8).neg()
    } else {
        T::zero().neg()
    };
    let guess = if near {
        series_above(p)
    } else if c.below(T::decimal(2, 0).neg()) {
        c.neg()
    } else {
        T::decimal(15, 1)
    };
    let lower = newton_lower(guess, c, 8).neg();
    if c.equals(one.neg()) {
        (one.neg(), one.neg())
    } else if lower.is_finite() {
        (principal, lower)
    } else {
        (principal, T::zero().neg())
    }
}

/// The Lambert roots for a negative argument whose logarithm `c` is at most -1: first that of the
/// principal branch, then that of the lower one.
pub fn w_negative_roots<T: Scalar>(c: T) -> (r: (T, T))
    ensures
        r == lower_roots(c),
{
    let one = T::one();
    let zero = T::zero();
    let two = T::decimal(2, 0);
    let third = one.over(T::decimal(3, 0));
    let last = T::decimal(11, 0).over(T::decimal(72, 0));
    if c.equals(one.neg()) {
        return (one.neg(), one.neg());
    }
    let p = two.times(one.neg().minus(c)).sqrt();
    let near = p.below(T::decimal(35, 2));
    let mut w0 = zero.neg();
    if near {
        let guess = one.minus(p).plus(p.times(p).times(third)).minus(
            p.times(p).times(p).times(last),
        );
        w0 = newton_eight(guess, c).neg();
    } else {
        let guess = c.exp();
        if zero.below(guess) {
            w0 = newton_eight(guess, c).neg();
        }
    }
    let guess = if near {
        one.plus(p).plus(p.times(p).times(third)).plus(p.times(p).times(p).times(last))
    } else if c.below(two.neg()) {
        c.neg()
    } else {
        T::decimal(15, 1)
    };
    let mut wm1 = newton_eight(guess, c).neg();
    if !wm1.is_finite() {
        wm1 = zero.neg();
    }
    (w0, wm1)
}

/// `v` kept if it is positive, and finite where `finite` asks for it.
pub open spec fn kept_ratio<T: Scalar>(v: T, finite: bool) -> Seq<T> {
    if T::zero().below(v) && (finite ==> v.is_finite()) {
        seq![v]
    } else {
        Seq::empty()
    }
}

/// The ratios `t = z / y` at which the ray `s + a ds` meets the curved boundary: the positive
/// roots of `P + Q t + R log t = 0` with `P = z dx - x dz`, `Q = x dy - y dx` and
/// `R = y dz - z dy`.
pub open spec fn crossing_ratios<T: Scalar>(s: Seq<T>, ds: Seq<T>) -> Seq<T> {
    let zero = T::zero();
    let p = s[2].times(ds[0]).minus(s[0].times(ds[2]));
    let q = s[0].times(ds[1]).minus(s[1].times(ds[0]));
    let r = s[1].times(ds[2]).minus(s[2].times(ds[1]));
    let slope = q.over(r);
    let c = slope.abs().ln().minus(p.over(r));
    if !q.equals(zero) && !r.equals(zero) {
        if !c.is_finite() {
            Seq::empty()
        } else if zero.below(q.times(r)) {
            match upper_root(c) {
                Some(u) => kept_ratio(u.over(slope), false),
                None => Seq::empty(),
            }
        } else if c.at_most(T::one().neg()) {
            let (a, b) = lower_roots(c);
            kept_ratio(a.over(slope), false) + kept_ratio(b.over(slope), false)
        } else {
            Seq::empty()
        }
    } else if q.equals(zero) && !r.equals(zero) {
        kept_ratio(p.neg().over(r).exp(), true)
    } else if !q.equals(zero) {
        kept_ratio(p.neg().over(q), true)
    } else {
        Seq::empty()
    }
}

/// The step at which the ray has the ratio `t`, from the better conditioned of the two crossing
/// conditions; none where both are degenerate.
pub open spec fn step_at<T: Scalar>(s: Seq<T>, ds: Seq<T>, t: T) -> Option<T> {
    let zero = T::zero();
    let lt = t.ln();
    let a1 = s[2].minus(t.times(s[1]));
    let d1 = t.times(ds[1]).minus(ds[2]);
    let a2 = s[0].minus(s[1].times(lt));
    let d2 = ds[1].times(lt).minus(ds[0]);
    if d1.equals(zero) {
        if d2.equals(zero) {
            None
        } else {
            Some(a2.over(d2))
        }
    } else if d2.equals(zero) || d2.abs().at_most(d1.abs()) {
        Some(a1.over(d1))
    } else {
        Some(a2.over(d2))
    }
}

/// The cap on a step: a ray that reaches it counts as unbounded.
pub open spec fn step_cap<T: Scalar>() -> T {
    T::decimal(10000000000, 0)
}

/// The least admissible step among the first `k` crossings, starting from the cap.
pub open spec fn curved_step<T: Scalar>(s: Seq<T>, ds: Seq<T>, ts: Seq<T>, k: nat) -> T
    decreases k,
{
    if k == 0 {
        step_cap()
    } else {
        let best = curved_step(s, ds, ts, (k - 1) as nat);
        match step_at(s, ds, ts[k - 1]) {
            Some(a) => if T::zero().below(a) && a.below(step_cap()) && T::zero().below(
                s[1].plus(a.times(ds[1])),
            ) && T::zero().below(s[2].plus(a.times(ds[2]))) {
                best.min(a)
            } else {
                best
            },
            None => best,
        }
    }
}

/// The step after the face where one coordinate vanishes is taken into account.
pub open spec fn face_step<T: Scalar>(best: T, v: T, dv: T) -> T {
    let a = v.neg().over(dv);
    if dv.below(T::zero()) && T::zero().below(a) {
        best.min(a)
    } else {
        best
    }
}

/// The point `s + f t ds` on the ray.
pub open spec fn probe<T: Scalar>(s: Seq<T>, ds: Seq<T>, f: T, t: T) -> Seq<T> {
    seq![
        s[0].plus(f.times(t).times(ds[0])),
        s[1].plus(f.times(t).times(ds[1])),
        s[2].plus(f.times(t).times(ds[2])),
    ]
}

/// The least candidate step along the ray, before it is validated.
pub open spec fn candidate_step<T: Scalar>(s: Seq<T>, ds: Seq<T>, edge_z: bool) -> T {
    let ts = crossing_ratios(s, ds);
    let curved = curved_step(s, ds, ts, ts.len());
    let faced = face_step(curved, s[1], ds[1]);
    if edge_z {
        face_step(faced, s[2], ds[2])
    } else {
        faced
    }
}

/// The closed-form step: the candidate, where the margin is positive at 0.99 of it and not
/// positive at 1.01 of it; the cap, where the ray is still inside at 0.99 of the cap; else none.
pub open spec fn closed_step<T: Scalar>(s: Seq<T>, ds: Seq<T>, edge_z: bool) -> Option<T> {
    let best = candidate_step(s, ds, edge_z);
    let zero = T::zero();
    let f99 = T::decimal(99, 2);
    let f101 = T::decimal(101, 2);
    if step_cap::<T>().at_most(best) {
        if zero.below(margin_of(probe(s, ds, f99, step_cap()))) {
            Some(step_cap())
        } else {
            None
        }
    } else if zero.below(margin_of(probe(s, ds, f99, best))) && margin_of(
        probe(s, ds, f101, best),
    ).at_most(zero) {
        Some(best)
    } else {
        None
    }
}

/// The margin at the point `s + f t ds`.
fn margin_on_ray<T: Scalar>(s: &[T], ds: &[T], f: T, t: T) -> (r: T)
    requires
        s@.len() >= 3,
        ds@.len() >= 3,
    ensures
        r == margin_of(probe(s@, ds@, f, t)),
{
    let p = [
        s[0].plus(f.times(t).times(ds[0])),
        s[1].plus(f.times(t).times(ds[1])),
        s[2].plus(f.times(t).times(ds[2])),
    ];
    assert(p@ =~= probe(s@, ds@, f, t));
    margin(&p)
}

/// The positive ratios at which the ray meets the curved boundary.
pub fn boundary_ratios<T: Scalar>(s: &[T], ds: &[T]) -> (ts: Vec<T>)
    requires
        s@.len() >= 3,
        ds@.len() >= 3,
    ensures
        ts@ == crossing_ratios(s@, ds@),
{
    let zero = T::zero();
    let p = s[2].times(ds[0]).minus(s[0].times(ds[2]));
    let q = s[0].times(ds[1]).minus(s[1].times(ds[0]));
    let r = s[1].times(ds[2]).minus(s[2].times(ds[1]));
    let mut ts: Vec<T> = Vec::with_capacity(2);
    if !q.equals(zero) && !r.equals(zero) {
        let slope = q.over(r);
        let c = slope.abs().ln().minus(p.over(r));
        if c.is_finite() {
            if zero.below(q.times(r)) {
                if let Some(u) = w0_positive(c) {
                    let t = u.over(slope);
                    if zero.below(t) {
                        ts.push(t);
                    }
                }
            } else if c.at_most(T::one().neg()) {
                let (u0, um1) = w_negative_roots(c);
                let t0 = u0.over(slope);
                if zero.below(t0) {
                    ts.push(t0);
                }
                let t1 = um1.over(slope);
                if zero.below(t1) {
                    ts.push(t1);
                }
            }
        }
    } else if q.equals(zero) && !r.equals(zero) {
        let t = p.neg().over(r).exp();
        if zero.below(t) && t.is_finite() {
            ts.push(t);
        }
    } else if !q.equals(zero) {
        let t = p.neg().over(q);
        if zero.below(t) && t.is_finite() {
            ts.push(t);
        }
    }
    assert(ts@ =~= crossing_ratios(s@, ds@));
    ts
}

/// The step at which the ray has the ratio `t`.
pub fn step_at_ratio<T: Scalar>(s: &[T], ds: &[T], t: T) -> (r: Option<T>)
    requires
        s@.len() >= 3,
        ds@.len() >= 3,
    ensures
        r == step_at(s@, ds@, t),
{
    let zero = T::zero();
    let lt = t.ln();
    let a1 = s[2].minus(t.times(s[1]));
    let d1 = t.times(ds[1]).minus(ds[2]);
    let a2 = s[0].minus(s[1].times(lt));
    let d2 = ds[1].times(lt).minus(ds[0]);
    if d1.equals(zero) {
        if d2.equals(zero) {
            None
        } else {
            Some(a2.over(d2))
        }
    } else if d2.equals(zero) || d2.abs().at_most(d1.abs()) {
        Some(a1.over(d1))
    } else {
        Some(a2.over(d2))
    }
}

/// The closed-form step from the interior point `s` along `ds` to the boundary of the cone;
/// `edge_z` says whether the face `z = 0` belongs to the boundary. None where the closed form
/// does not validate itself.
pub fn step_closed<T: Scalar>(s: &[T], ds: &[T], edge_z: bool) -> (r: Option<T>)
    requires
        s@.len() >= 3,
        ds@.len() >= 3,
    ensures
        r == closed_step(s@, ds@, edge_z),
{
    let zero = T::zero();
    let big = T::decimal(10000000000, 0);
    let mut best = big;
    let ts = boundary_ratios(s, ds);
    let mut k: usize = 0;
    while k < ts.len()
        invariant
            s@.len() >= 3,
            ds@.len() >= 3,
            zero == T::zero(),
            big == step_cap::<T>(),
            k <= ts@.len(),
            best == curved_step(s@, ds@, ts@, k as nat),
        decreases ts@.len() - k,
    {
        if let Some(a) = step_at_ratio(s, ds, ts[k]) {
            if zero.below(a) && a.below(big) {
                let ya = s[1].plus(a.times(ds[1]));
                let za = s[2].plus(a.times(ds[2]));
                if zero.below(ya) && zero.below(za) {
                    best = best.min(a);
                }
            }
        }
        k += 1;
    }
    if ds[1].below(zero) {
        let a = s[1].neg().over(ds[1]);
        if zero.below(a) {
            best = best.min(a);
        }
    }
    if edge_z && ds[2].below(zero) {
        let a = s[2].neg().over(ds[2]);
        if zero.below(a) {
            best = best.min(a);
        }
    }
    assert(best == candidate_step(s@, ds@, edge_z));
    let f99 = T::decimal(99, 2);
    let f101 = T::decimal(101, 2);
    if big.at_most(best) {
        if zero.below(margin_on_ray(s, ds, f99, big)) {
            return Some(big);
        }
        return None;
    }
    if zero.below(margin_on_ray(s, ds, f99, best)) && margin_on_ray(s, ds, f101, best).at_most(zero) {
        Some(best)
    } else {
        None
    }
}

/// A closed-form step is only returned after it was validated: the ray is inside the cone at 0.99
/// of the step, and unless the step is the cap, no longer inside at 1.01 of it.
pub proof fn closed_step_is_validated<T: Scalar>(s: Seq<T>, ds: Seq<T>, edge_z: bool)
    requires
        closed_step(s, ds, edge_z) is Some,
    ensures
        ({
            let t = closed_step(s, ds, edge_z)->0;
            &&& T::zero().below(margin_of(probe(s, ds, T::decimal(99, 2), t)))
            &&& t == step_cap::<T>() || margin_of(probe(s, ds, T::decimal(101, 2), t)).at_most(T::zero())
        }),
{
}

/// A step backed off by a fixed margin.
pub open spec fn backed_off<T: Scalar>(a: T) -> T {
    a.minus(T::decimal(1, 13)).max(T::zero())
}

/// The margin in the primal cone, as a function of the point.
pub open spec fn primal_margin<T: Scalar>() -> spec_fn(Seq<T>) -> T {
    |p: Seq<T>| margin_of(p)
}

/// 1 inside the dual cone and 0 outside, as a function of the point.
pub open spec fn dual_indicator<T: Scalar>() -> spec_fn(Seq<T>) -> T {
    |p: Seq<T>|
        if dual_interior(p, T::decimal(1, 12)) {
            T::one()
        } else {
            T::zero()
        }
}

/// The function whose sign a search along a ray goes by. The search is handed this and asks it for
/// values.
pub struct ExpMargin {
    pub side: Side,
}

impl ExpMargin {
    /// The function itself: the margin in the primal cone, and the indicator of the dual cone.
    pub open spec fn function<T: Scalar>(self) -> spec_fn(Seq<T>) -> T {
        match self.side {
            Side::Primal => primal_margin(),
            Side::Dual => dual_indicator(),
        }
    }

    /// The value at a point.
    pub fn at<T: Scalar>(&self, p: &[T]) -> (r: T)
        requires
            p@.len() >= 3,
        ensures
            r == (self.function())(p@),
    {
        match self.side {
            Side::Primal => margin(p),
            Side::Dual => if in_dual_cone(p, T::decimal(1, 12)) {
                T::one()
            } else {
                T::zero()
            },
        }
    }
}

/// `r` is what the search finds along the ray from `v` in the direction `dv` when it goes by the
/// function `margin`.
pub open spec fn found_along<T: Scalar, F: Fn(&ExpMargin, &[T], &[T]) -> T>(
    search: F,
    margin: spec_fn(Seq<T>) -> T,
    v: Seq<T>,
    dv: Seq<T>,
    r: T,
) -> bool {
    exists|m: &ExpMargin, a: &[T], b: &[T]|
        m.function::<T>() == margin && a@ == v && b@ == dv && #[trigger] search.ensures((m, a, b), r)
}

/// The search takes every margin, on rays of three entries or more.
pub open spec fn searches<T: Scalar, F: Fn(&ExpMargin, &[T], &[T]) -> T>(search: F) -> bool {
    forall|m: &ExpMargin, a: &[T], b: &[T]|
        a@.len() >= 3 && b@.len() >= 3 ==> #[trigger] search.requires((m, a, b))
}

/// The largest step that keeps `s + a ds` in the primal cone, in closed form. Where the closed
/// form does not validate itself, the step is what `bisect` finds by the margin in the cone.
pub fn max_step<T: Scalar, F: Fn(&ExpMargin, &[T], &[T]) -> T>(s: &[T], ds: &[T], bisect: F) -> (r: T)
    requires
        s@.len() >= 3,
        ds@.len() >= 3,
        searches(bisect),
    ensures
        match closed_step(s@, ds@, true) {
            Some(a) => r == backed_off(a),
            None => found_along(bisect, primal_margin(), s@, ds@, r),
        },
{
    match step_closed(s, ds, true) {
        Some(a) => a.minus(T::decimal(1, 13)).max(T::zero()),
        None => {
            let m = ExpMargin { side: Side::Primal };
            let mr: &ExpMargin = &m;
            let r = bisect(mr, s, ds);
            assert(bisect.ensures((mr, s, ds), r));
            r
        },
    }
}

/// The mirror image `(-v, -u, w e)` of a dual point `(u, v, w)`: on it the curved boundary of the
/// dual cone is that of the primal cone.
pub open spec fn mirrored<T: Scalar>(d: Seq<T>) -> Seq<T> {
    seq![d[1].neg(), d[0].neg(), d[2].times(T::one().exp())]
}

/// The largest step that keeps `d + a dd` in the dual cone, in closed form in mirrored
/// coordinates. Where the closed form does not validate itself, the step is what `bisect` finds by the
/// indicator of the cone.
pub fn max_step_dual<T: Scalar, F: Fn(&ExpMargin, &[T], &[T]) -> T>(d: &[T], dd: &[T], bisect: F) -> (r: T)
    requires
        d@.len() >= 3,
        dd@.len() >= 3,
        searches(bisect),
    ensures
        match closed_step(mirrored(d@), mirrored(dd@), true) {
            Some(a) => r == backed_off(a),
            None => found_along(bisect, dual_indicator(), d@, dd@, r),
        },
{
    let e = T::one().exp();
    let s = [d[1].neg(), d[0].neg(), d[2].times(e)];
    let ds = [dd[1].neg(), dd[0].neg(), dd[2].times(e)];
    assert(s@ =~= mirrored(d@));
    assert(ds@ =~= mirrored(dd@));
    match step_closed(&s, &ds, true) {
        Some(a) => a.minus(T::decimal(1, 13)).max(T::zero()),
        None => {
            let m = ExpMargin { side: Side::Dual };
            let mr: &ExpMargin = &m;
            let r = bisect(mr, d, dd);
            assert(bisect.ensures((mr, d, dd), r));
            r
        },
    }
}

/// The barrier at a point of the interior.
pub fn barrier<T: Scalar>(s: &[T]) -> (r: T)
    requires
        s@.len() >= 3,
    ensures
        r == psi_of(s@).ln().neg().minus(s@[1].ln()).minus(s@[2].ln()),
{
    psi(s).ln().neg().minus(s[1].ln()).minus(s[2].ln())
}

/// The Wright omega function: the root of `w + log w = l` on the principal branch. None where the
/// root underflows.
pub fn wright_omega<T: Scalar>(l: T) -> (r: Option<T>)
    ensures
        r == upper_root(l),
{
    w0_positive(l)
}

/// The point whose barrier gradient is `-z / mu`, in closed form, where `z` lies strictly inside
/// the dual cone; none on or outside its boundary, or where the image is not finite and interior.
pub open spec fn conjugate_point<T: Scalar>(z: Seq<T>, mu: T) -> Option<Seq<T>> {
    let zero = T::zero();
    let one = T::one();
    let u = z[0].neg().over(mu);
    let v = z[1].neg().over(mu);
    let w = z[2].neg().over(mu);
    let l = w.neg().over(u).ln().plus(T::decimal(2, 0)).minus(v.over(u));
    if zero.at_most(z[0]) || z[2].at_most(zero) || mu.at_most(zero) || !l.is_finite() || l.at_most(one) {
        None
    } else {
        match upper_root(l) {
            None => None,
            Some(omega) => {
                let om1 = omega.minus(one);
                let p = seq![
                    omega.times(u).over(w.neg()).ln().over(om1.times(u)).minus(one.over(u)),
                    one.over(om1.times(u)),
                    omega.neg().over(om1.times(w)),
                ];
                if omega.at_most(one) || !omega.is_finite() || !p[0].is_finite() || !p[1].is_finite()
                    || !p[2].is_finite() || p[1].at_most(zero) || p[2].at_most(zero) || psi_of(p).at_most(
                    zero,
                ) {
                    None
                } else {
                    Some(p)
                }
            },
        }
    }
}

/// The conjugate scaling point of the dual point `z`: the interior point whose barrier gradient is
/// `-z / mu`.
pub fn scaling_point<T: Scalar>(z: &[T], mu: T) -> (r: Option<[T; 3]>)
    requires
        z@.len() >= 3,
    ensures
        r is Some == conjugate_point(z@, mu) is Some,
        r matches Some(p) ==> p@ == conjugate_point(z@, mu)->0,
{
    let zero = T::zero();
    let one = T::one();
    let two = T::decimal(2, 0);
    if zero.at_most(z[0]) || z[2].at_most(zero) || mu.at_most(zero) {
        return None;
    }
    let u = z[0].neg().over(mu);
    let v = z[1].neg().over(mu);
    let w = z[2].neg().over(mu);
    let l = w.neg().over(u).ln().plus(two).minus(v.over(u));
    if !l.is_finite() || l.at_most(one) {
        return None;
    }
    let omega = match wright_omega(l) {
        Some(o) => o,
        None => {
            return None;
        },
    };
    if omega.at_most(one) || !omega.is_finite() {
        return None;
    }
    let om1 = omega.minus(one);
    let x = omega.times(u).over(w.neg()).ln().over(om1.times(u)).minus(one.over(u));
    let y = one.over(om1.times(u));
    let z2 = omega.neg().over(om1.times(w));
    let ghost expected = seq![x, y, z2];
    if !x.is_finite() || !y.is_finite() || !z2.is_finite() || y.at_most(zero) || z2.at_most(zero) {
        return None;
    }
    let p = [x, y, z2];
    assert(p@ =~= expected);
    if psi(&p).at_most(zero) {
        return None;
    }
    Some(p)
}

/// A scaling point is only returned if it lies in the cone: finite, with positive `y` and `z`, and
/// `psi` not at most zero.
pub proof fn scaling_point_is_interior<T: Scalar>(z: Seq<T>, mu: T)
    requires
        conjugate_point(z, mu) is Some,
    ensures
        ({
            let p = conjugate_point(z, mu)->0;
            &&& p.len() == 3
            &&& p[0].is_finite() && p[1].is_finite() && p[2].is_finite()
            &&& !p[1].at_most(T::zero()) && !p[2].at_most(T::zero())
            &&& !psi_of(p).at_most(T::zero())
        }),
{
}

/// The barrier gradient at `(x, y, z)`, with `p` in the place of `psi`.
pub open spec fn gradient<T: Scalar>(p: T, y: T, z: T) -> Seq<T> {
    let l = z.over(y).ln();
    let one = T::one();
    seq![
        one.over(p),
        l.minus(one).neg().over(p).minus(one.over(y)),
        y.over(z).neg().over(p).minus(one.over(z)),
    ]
}

fn gradient_at<T: Scalar>(p: T, y: T, z: T) -> (r: [T; 3])
    ensures
        r@ == gradient(p, y, z),
{
    let l = z.over(y).ln();
    let one = T::one();
    let r = [
        one.over(p),
        l.minus(one).neg().over(p).minus(one.over(y)),
        y.over(z).neg().over(p).minus(one.over(z)),
    ];
    assert(r@ =~= gradient(p, y, z));
    r
}

/// The barrier gradient.
pub fn grad<T: Scalar>(s: &[T]) -> (r: [T; 3])
    requires
        s@.len() >= 3,
    ensures
        r@ == gradient(psi_of(s@), s@[1], s@[2]),
{
    gradient_at(psi(s), s[1], s[2])
}

/// The barrier gradient with `psi` held above `floor`, which flattens the barrier close to the
/// curved boundary.
pub fn grad_floored<T: Scalar>(s: &[T], floor: T) -> (r: [T; 3])
    requires
        s@.len() >= 3,
    ensures
        r@ == gradient(psi_of(s@).max(floor), s@[1], s@[2]),
{
    gradient_at(psi(s).max(floor), s[1], s[2])
}

/// `v - u - u log(w / -u)`: the dual cone is where it, `-u` and `w` are positive.
pub open spec fn dual_psi<T: Scalar>(z: Seq<T>) -> T {
    z[1].minus(z[0]).minus(z[0].times(z[2].over(z[0].neg()).ln()))
}

/// The gradient of the dual barrier `-log(psi*) - log(-u) - log(w)`.
pub open spec fn dual_gradient<T: Scalar>(z: Seq<T>) -> Seq<T> {
    let one = T::one();
    let ps = dual_psi(z);
    seq![
        z[2].over(z[0].neg()).ln().over(ps).minus(one.over(z[0])),
        one.neg().over(ps),
        z[0].over(z[2].times(ps)).minus(one.over(z[2])),
    ]
}

/// The dual barrier gradient at a point of the interior of the dual cone.
pub fn grad_dual<T: Scalar>(z: &[T]) -> (r: [T; 3])
    requires
        z@.len() >= 3,
    ensures
        r@ == dual_gradient(z@),
{
    let u = z[0];
    let v = z[1];
    let w = z[2];
    let l = w.over(u.neg()).ln();
    let ps = v.minus(u).minus(u.times(l));
    let one = T::one();
    let r = [
        l.over(ps).minus(one.over(u)),
        one.neg().over(ps),
        u.over(w.times(ps)).minus(one.over(w)),
    ];
    assert(r@ =~= dual_gradient(z@));
    r
}

/// The symmetric matrix with these entries on and above the diagonal, read by rows.
pub open spec fn symmetric<T>(a: T, b: T, c: T, d: T, e: T, f: T) -> Seq<Seq<T>> {
    seq![seq![a, b, c], seq![b, d, e], seq![c, e, f]]
}

/// The rows of a matrix of order 3.
pub open spec fn rows3<T>(m: [[T; 3]; 3]) -> Seq<Seq<T>> {
    Seq::new(3, |i: int| m@[i]@)
}

/// The matrix of order 3 with these entries on and above the diagonal.
fn symmetric3<T: Copy>(a: T, b: T, c: T, d: T, e: T, f: T) -> (r: [[T; 3]; 3])
    ensures
        rows3(r) == symmetric(a, b, c, d, e, f),
{
    let r = [[a, b, c], [b, d, e], [c, e, f]];
    assert(r@[0]@ =~= seq![a, b, c]);
    assert(r@[1]@ =~= seq![b, d, e]);
    assert(r@[2]@ =~= seq![c, e, f]);
    assert(rows3(r) =~= symmetric(a, b, c, d, e, f));
    r
}

/// The Hessian of the dual barrier: `g g' / psi*^2 - H* / psi*` for the gradient `g` and the
/// Hessian `H*` of `psi*`, with `1 / u^2` and `1 / w^2` added on the diagonal.
pub open spec fn dual_hessian<T: Scalar>(z: Seq<T>) -> Seq<Seq<T>> {
    let (u, w) = (z[0], z[2]);
    let one = T::one();
    let ps = dual_psi(z);
    let l = w.over(u.neg()).ln();
    let uw = u.over(w);
    let ps2 = ps.times(ps);
    symmetric(
        l.times(l).over(ps2).minus(one.over(u).over(ps)).plus(one.over(u.times(u))),
        l.neg().over(ps2),
        uw.times(l).over(ps2).plus(one.over(w).over(ps)),
        one.over(ps2),
        uw.neg().over(ps2),
        uw.times(uw).over(ps2).minus(uw.over(w).over(ps)).plus(one.over(w.times(w))),
    )
}

/// The dual barrier Hessian at a point of the interior of the dual cone.
pub fn hess_dual<T: Scalar>(z: &[T]) -> (r: [[T; 3]; 3])
    requires
        z@.len() >= 3,
    ensures
        rows3(r) == dual_hessian(z@),
{
    let u = z[0];
    let v = z[1];
    let w = z[2];
    let l = w.over(u.neg()).ln();
    let ps = v.minus(u).minus(u.times(l));
    let one = T::one();
    let uw = u.over(w);
    let ps2 = ps.times(ps);
    symmetric3(
        l.times(l).over(ps2).minus(one.over(u).over(ps)).plus(one.over(u.times(u))),
        l.neg().over(ps2),
        uw.times(l).over(ps2).plus(one.over(w).over(ps)),
        one.over(ps2),
        uw.neg().over(ps2),
        uw.times(uw).over(ps2).minus(uw.over(w).over(ps)).plus(one.over(w.times(w))),
    )
}

/// The barrier Hessian at `(x, y, z)`, with `p` in the place of `psi`.
pub open spec fn hessian<T: Scalar>(p: T, y: T, z: T) -> Seq<Seq<T>> {
    let one = T::one();
    let lm1 = z.over(y).ln().minus(one);
    let yz = y.over(z);
    let p2 = p.times(p);
    symmetric(
        one.over(p2),
        lm1.neg().over(p2),
        yz.neg().over(p2),
        one.over(y.times(p)).plus(lm1.times(lm1).over(p2)).plus(one.over(y.times(y))),
        one.over(z).neg().over(p).plus(lm1.times(yz).over(p2)),
        y.over(z.times(z).times(p)).plus(yz.times(yz).over(p2)).plus(one.over(z.times(z))),
    )
}

fn hessian_at<T: Scalar>(p: T, y: T, z: T) -> (r: [[T; 3]; 3])
    ensures
        rows3(r) == hessian(p, y, z),
{
    let one = T::one();
    let lm1 = z.over(y).ln().minus(one);
    let yz = y.over(z);
    let p2 = p.times(p);
    symmetric3(
        one.over(p2),
        lm1.neg().over(p2),
        yz.neg().over(p2),
        one.over(y.times(p)).plus(lm1.times(lm1).over(p2)).plus(one.over(y.times(y))),
        one.over(z).neg().over(p).plus(lm1.times(yz).over(p2)),
        y.over(z.times(z).times(p)).plus(yz.times(yz).over(p2)).plus(one.over(z.times(z))),
    )
}

/// The barrier Hessian with `psi` held above `floor`, at the same scale as [`grad_floored`].
pub fn hess_floored<T: Scalar>(s: &[T], floor: T) -> (r: [[T; 3]; 3])
    requires
        s@.len() >= 3,
    ensures
        rows3(r) == hessian(psi_of(s@).max(floor), s@[1], s@[2]),
{
    hessian_at(psi(s).max(floor), s[1], s[2])
}

/// The barrier Hessian.
pub fn hess<T: Scalar>(s: &[T]) -> (r: [[T; 3]; 3])
    requires
        s@.len() >= 3,
    ensures
        rows3(r) == hessian(psi_of(s@), s@[1], s@[2]),
{
    hessian_at(psi(s), s[1], s[2])
}

/// The barrier Hessians, floored or not, and the dual barrier Hessian are symmetric.
pub proof fn hessians_are_symmetric<T: Scalar>(p: T, y: T, z: T, d: Seq<T>, a: int, b: int)
    requires
        0 <= a < 3,
        0 <= b < 3,
    ensures
        hessian(p, y, z)[a][b] == hessian(p, y, z)[b][a],
        dual_hessian(d)[a][b] == dual_hessian(d)[b][a],
{
}

} // verus!
