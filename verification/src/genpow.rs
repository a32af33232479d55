//! The generalized power cone `{ (x, z) : prod x_i^alpha_i >= |z|, x > 0 }`, with the barrier
//! `-log(phi) - sum (1 - alpha_i) log(x_i)` for `phi = prod x_i^(2 alpha_i) - |z|^2`.
use crate::cone::Side;
use crate::matrix::DenseMatrix;
use crate::pow_barrier_laws::{
    barrier_tells, computed_barrier_tells, computed_gradient_tells, computed_hessian_tells, gradient_tells,
    hessian_tells,
};
use crate::pow_laws::{
    dual_margin_tells_the_dual_cone, interior_test_tells_the_cone, margin_tells_the_cone, tells_cone, tells_dual_cone,
    tells_interior,
};
use crate::scalar::Scalar;
use vstd::prelude::*;

verus! {

/// The product of `x_i^(2 alpha_i)` over the first `k` bases.
pub open spec fn product_upto<T: Scalar>(x: Seq<T>, alpha: Seq<T>, k: nat) -> T
    decreases k,
{
    if k == 0 {
        T::one()
    } else {
        product_upto(x, alpha, (k - 1) as nat).times(
            x[k - 1].powf(T::decimal(2, 0).times(alpha[k - 1])),
        )
    }
}

/// The product of `x_i^(2 alpha_i)` over all bases.
pub fn prod_term<T: Scalar>(x: &[T], alpha: &[T]) -> (r: T)
    requires
        alpha@.len() <= x@.len(),
    ensures
        r == product_upto(x@, alpha@, alpha@.len()),
{
    let two = T::decimal(2, 0);
    let mut p = T::one();
    let mut i: usize = 0;
    while i < alpha.len()
        invariant
            i <= alpha@.len() <= x@.len(),
            two == T::decimal(2, 0),
            p == product_upto(x@, alpha@, i as nat),
        decreases alpha@.len() - i,
    {
        p = p.times(x[i].powf(two.times(alpha[i])));
        i += 1;
    }
    p
}

/// The sum of the squares of the entries from `n` up to `k`.
pub open spec fn squares_upto<T: Scalar>(s: Seq<T>, n: nat, k: nat) -> T
    decreases k,
{
    if k <= n {
        T::zero()
    } else {
        squares_upto(s, n, (k - 1) as nat).plus(s[k - 1].times(s[k - 1]))
    }
}

/// The sum of the squares of the tail, the entries from `n` on.
fn tail_squares<T: Scalar>(s: &[T], n: usize) -> (r: T)
    requires
        n <= s@.len(),
    ensures
        r == squares_upto(s@, n as nat, s@.len()),
{
    let mut acc = T::zero();
    let mut j: usize = n;
    while j < s.len()
        invariant
            n <= j <= s@.len(),
            acc == squares_upto(s@, n as nat, j as nat),
        decreases s@.len() - j,
    {
        acc = acc.plus(s[j].times(s[j]));
        j += 1;
    }
    acc
}

/// `prod x_i^(2 alpha_i) - |z|^2`.
pub open spec fn phi_of<T: Scalar>(s: Seq<T>, alpha: Seq<T>) -> T {
    product_upto(s, alpha, alpha.len()).minus(squares_upto(s, alpha.len(), s.len()))
}

/// `prod x_i^(2 alpha_i) - |z|^2` at the point `s = (x, z)`.
pub fn phi<T: Scalar>(s: &[T], alpha: &[T]) -> (r: T)
    requires
        alpha@.len() <= s@.len(),
    ensures
        r == phi_of(s@, alpha@),
{
    let p = prod_term(s, alpha);
    p.minus(tail_squares(s, alpha.len()))
}

/// The least of the first `k` entries, for `k` at least 1.
pub open spec fn least_upto<T: Scalar>(s: Seq<T>, k: nat) -> T
    decreases k,
{
    if k <= 1 {
        s[0]
    } else {
        least_upto(s, (k - 1) as nat).min(s[k - 1])
    }
}

/// The least of the first `n` entries.
fn least_base<T: Scalar>(s: &[T], n: usize) -> (r: T)
    requires
        1 <= n <= s@.len(),
    ensures
        r == least_upto(s@, n as nat),
{
    let mut least = s[0];
    let mut i: usize = 1;
    while i < n
        invariant
            1 <= i <= n <= s@.len(),
            least == least_upto(s@, i as nat),
        decreases n - i,
    {
        least = least.min(s[i]);
        i += 1;
    }
    least
}

/// The margin in the primal cone: the least of `phi` and the bases, and of the bases alone where
/// one of them is not positive.
pub open spec fn margin_of<T: Scalar>(s: Seq<T>, alpha: Seq<T>) -> T {
    let least = least_upto(s, alpha.len());
    if least.at_most(T::zero()) {
        least
    } else {
        phi_of(s, alpha).min(least)
    }
}

/// The margin in the primal cone.
pub fn margin<T: Scalar>(s: &[T], alpha: &[T]) -> (r: T)
    requires
        1 <= alpha@.len() <= s@.len(),
    ensures
        r == margin_of(s@, alpha@),
        tells_cone(s@, alpha@, r),
{
    proof {
        margin_tells_the_cone(s@, alpha@);
    }
    let min_x = least_base(s, alpha.len());
    if min_x.at_most(T::zero()) {
        return min_x;
    }
    phi(s, alpha).min(min_x)
}

/// The point lies in the primal cone by more than `tol`.
pub open spec fn interior<T: Scalar>(s: Seq<T>, alpha: Seq<T>, tol: T) -> bool {
    &&& forall|i: int| 0 <= i < alpha.len() ==> tol.below(#[trigger] s[i])
    &&& tol.below(phi_of(s, alpha))
}

/// Whether the point lies in the primal cone by more than `tol`.
pub fn in_cone<T: Scalar>(s: &[T], alpha: &[T], tol: T) -> (r: bool)
    requires
        alpha@.len() <= s@.len(),
    ensures
        r == interior(s@, alpha@, tol),
        tells_interior(s@, alpha@, tol, r),
{
    proof {
        interior_test_tells_the_cone(s@, alpha@, tol);
    }
    let mut i: usize = 0;
    while i < alpha.len()
        invariant
            i <= alpha@.len() <= s@.len(),
            forall|k: int| 0 <= k < i ==> tol.below(#[trigger] s@[k]),
        decreases alpha@.len() - i,
    {
        if !tol.below(s[i]) {
            proof {
                interior_test_tells_the_cone(s@, alpha@, tol);
                assert(!interior(s@, alpha@, tol));
            }
            return false;
        }
        i += 1;
    }
    tol.below(phi(s, alpha))
}

/// The product of `(u_i / alpha_i)^alpha_i` over the first `k` bases.
pub open spec fn dual_product_upto<T: Scalar>(d: Seq<T>, alpha: Seq<T>, k: nat) -> T
    decreases k,
{
    if k == 0 {
        T::one()
    } else {
        dual_product_upto(d, alpha, (k - 1) as nat).times(d[k - 1].over(alpha[k - 1]).powf(alpha[k - 1]))
    }
}

/// The margin in the dual cone `{ (u, w) : prod (u_i / alpha_i)^alpha_i >= |w|, u >= 0 }`; the
/// least base alone where one of them is not positive.
pub open spec fn dual_margin_of<T: Scalar>(d: Seq<T>, alpha: Seq<T>) -> T {
    let least = least_upto(d, alpha.len());
    if least.at_most(T::zero()) {
        least
    } else {
        dual_product_upto(d, alpha, alpha.len()).minus(squares_upto(d, alpha.len(), d.len()).sqrt())
    }
}

/// The margin in the dual cone.
pub fn dual_margin<T: Scalar>(d: &[T], alpha: &[T]) -> (r: T)
    requires
        1 <= alpha@.len() <= d@.len(),
    ensures
        r == dual_margin_of(d@, alpha@),
        tells_dual_cone(d@, alpha@, r),
{
    proof {
        dual_margin_tells_the_dual_cone(d@, alpha@);
    }
    let n: usize = alpha.len();
    let min_u = least_base(d, n);
    if min_u.at_most(T::zero()) {
        return min_u;
    }
    let mut lhs = T::one();
    let mut i: usize = 0;
    while i < n
        invariant
            i <= n == alpha@.len(),
            n <= d@.len(),
            lhs == dual_product_upto(d@, alpha@, i as nat),
        decreases n - i,
    {
        lhs = lhs.times(d[i].over(alpha[i]).powf(alpha[i]));
        i += 1;
    }
    lhs.minus(tail_squares(d, n).sqrt())
}

/// The margin in the primal cone, as a function of the point.
pub open spec fn primal_margin<T: Scalar>(alpha: Seq<T>) -> spec_fn(Seq<T>) -> T {
    |p: Seq<T>| margin_of(p, alpha)
}

/// The margin in the dual cone, as a function of the point.
pub open spec fn conjugate_margin<T: Scalar>(alpha: Seq<T>) -> spec_fn(Seq<T>) -> T {
    |p: Seq<T>| dual_margin_of(p, alpha)
}

/// The function whose sign a search along a ray goes by. The search is handed this and asks it for
/// values.
pub struct PowMargin<'a, T> {
    pub side: Side,
    pub alpha: &'a [T],
}

impl<'a, T: Scalar> PowMargin<'a, T> {
    /// The function itself: the margin on the side that is asked for.
    pub open spec fn function(self) -> spec_fn(Seq<T>) -> T {
        match self.side {
            Side::Primal => primal_margin(self.alpha@),
            Side::Dual => conjugate_margin(self.alpha@),
        }
    }

    /// The value at a point.
    pub fn at(&self, p: &[T]) -> (r: T)
        requires
            1 <= self.alpha@.len() <= p@.len(),
        ensures
            r == (self.function())(p@),
    {
        match self.side {
            Side::Primal => margin(p, self.alpha),
            Side::Dual => dual_margin(p, self.alpha),
        }
    }
}

/// `r` is what the search finds along the ray from `v` in the direction `dv` when it goes by the
/// function `margin`.
pub open spec fn found_along<T: Scalar, F: Fn(&PowMargin<T>, &[T], &[T]) -> T>(
    search: F,
    margin: spec_fn(Seq<T>) -> T,
    v: Seq<T>,
    dv: Seq<T>,
    r: T,
) -> bool {
    exists|m: &PowMargin<T>, a: &[T], b: &[T]|
        m.function() == margin && a@ == v && b@ == dv && #[trigger] search.ensures((m, a, b), r)
}

/// The search takes every margin, on rays that have an entry for every exponent.
pub open spec fn searches<T: Scalar, F: Fn(&PowMargin<T>, &[T], &[T]) -> T>(search: F) -> bool {
    forall|m: &PowMargin<T>, a: &[T], b: &[T]|
        1 <= m.alpha@.len() <= a@.len() && b@.len() == a@.len() ==> #[trigger] search.requires((m, a, b))
}

/// The largest step that keeps `s + a ds` in the primal cone. The boundary has no closed form, so
/// the step is what `bisect` finds by the margin in the cone.
pub fn max_step<T: Scalar, F: Fn(&PowMargin<T>, &[T], &[T]) -> T>(
    s: &[T],
    ds: &[T],
    alpha: &[T],
    bisect: F,
) -> (r: T)
    requires
        1 <= alpha@.len() <= s@.len(),
        ds@.len() == s@.len(),
        searches(bisect),
    ensures
        found_along(bisect, primal_margin(alpha@), s@, ds@, r),
{
    let m = PowMargin { side: Side::Primal, alpha };
    let mr: &PowMargin<T> = &m;
    let r = bisect(mr, s, ds);
    assert(bisect.ensures((mr, s, ds), r));
    r
}

/// The largest step that keeps `d + a dd` in the dual cone, which is what `bisect` finds by the margin
/// in that cone.
pub fn max_step_dual<T: Scalar, F: Fn(&PowMargin<T>, &[T], &[T]) -> T>(
    d: &[T],
    dd: &[T],
    alpha: &[T],
    bisect: F,
) -> (r: T)
    requires
        1 <= alpha@.len() <= d@.len(),
        dd@.len() == d@.len(),
        searches(bisect),
    ensures
        found_along(bisect, conjugate_margin(alpha@), d@, dd@, r),
{
    let m = PowMargin { side: Side::Dual, alpha };
    let mr: &PowMargin<T> = &m;
    let r = bisect(mr, d, dd);
    assert(bisect.ensures((mr, d, dd), r));
    r
}

/// The barrier after the first `k` bases are subtracted.
pub open spec fn barrier_upto<T: Scalar>(s: Seq<T>, alpha: Seq<T>, k: nat) -> T
    decreases k,
{
    if k == 0 {
        phi_of(s, alpha).ln().neg()
    } else {
        barrier_upto(s, alpha, (k - 1) as nat).minus(
            T::one().minus(alpha[k - 1]).times(s[k - 1].ln()),
        )
    }
}

/// The barrier at a point of the interior.
pub fn barrier<T: Scalar>(s: &[T], alpha: &[T]) -> (r: T)
    requires
        alpha@.len() <= s@.len(),
    ensures
        r == barrier_upto(s@, alpha@, alpha@.len()),
        barrier_tells(s@, alpha@, r),
{
    proof {
        computed_barrier_tells(s@, alpha@);
    }
    let one = T::one();
    let mut v = phi(s, alpha).ln().neg();
    let mut i: usize = 0;
    while i < alpha.len()
        invariant
            i <= alpha@.len() <= s@.len(),
            one == T::one(),
            v == barrier_upto(s@, alpha@, i as nat),
        decreases alpha@.len() - i,
    {
        v = v.minus(one.minus(alpha[i]).times(s[i].ln()));
        i += 1;
    }
    v
}

/// The derivative of `phi` in coordinate `i`.
pub open spec fn phi_slope<T: Scalar>(s: Seq<T>, alpha: Seq<T>, i: int) -> T {
    let two = T::decimal(2, 0);
    if i < alpha.len() {
        two.times(alpha[i]).times(product_upto(s, alpha, alpha.len())).over(s[i])
    } else {
        two.neg().times(s[i])
    }
}

/// The barrier gradient in coordinate `i`.
pub open spec fn gradient_at<T: Scalar>(s: Seq<T>, alpha: Seq<T>, i: int) -> T {
    let inv_phi = T::one().over(phi_of(s, alpha));
    let along = inv_phi.neg().times(phi_slope(s, alpha, i));
    if i < alpha.len() {
        along.minus(T::one().minus(alpha[i]).over(s[i]))
    } else {
        along
    }
}

/// The barrier gradient.
pub fn grad<T: Scalar>(s: &[T], alpha: &[T]) -> (g: Vec<T>)
    requires
        alpha@.len() <= s@.len(),
    ensures
        g@ == Seq::new(s@.len(), |i: int| gradient_at(s@, alpha@, i)),
        gradient_tells(s@, alpha@, g@),
{
    let n: usize = alpha.len();
    let d: usize = s.len();
    let two = T::decimal(2, 0);
    let one = T::one();
    let p = prod_term(s, alpha);
    let phi_val = phi(s, alpha);
    let inv_phi = one.over(phi_val);
    let mut g: Vec<T> = Vec::with_capacity(d);
    let mut i: usize = 0;
    while i < d
        invariant
            i <= d == s@.len(),
            n == alpha@.len(),
            n <= d,
            two == T::decimal(2, 0),
            one == T::one(),
            p == product_upto(s@, alpha@, alpha@.len()),
            inv_phi == one.over(phi_of(s@, alpha@)),
            g@.len() == i,
            forall|k: int| 0 <= k < i ==> #[trigger] g@[k] == gradient_at(s@, alpha@, k),
        decreases d - i,
    {
        if i < n {
            let slope = two.times(alpha[i]).times(p).over(s[i]);
            g.push(inv_phi.neg().times(slope).minus(one.minus(alpha[i]).over(s[i])));
        } else {
            let slope = two.neg().times(s[i]);
            g.push(inv_phi.neg().times(slope));
        }
        i += 1;
    }
    assert(g@ =~= Seq::new(s@.len(), |i: int| gradient_at(s@, alpha@, i)));
    proof {
        computed_gradient_tells(s@, alpha@, g@);
    }
    g
}

/// The second derivative of `phi` in coordinates `a` and `b`.
pub open spec fn phi_curvature<T: Scalar>(s: Seq<T>, alpha: Seq<T>, a: int, b: int) -> T {
    let two = T::decimal(2, 0);
    let p = product_upto(s, alpha, alpha.len());
    let n = alpha.len();
    if a < n && b < n {
        if a == b {
            two.times(alpha[a]).times(two.times(alpha[a]).minus(T::one())).times(p).over(
                s[a].times(s[a]),
            )
        } else {
            two.times(two).times(alpha[a]).times(alpha[b]).times(p).over(s[a].times(s[b]))
        }
    } else if a >= n && b >= n && a == b {
        two.neg()
    } else {
        T::zero()
    }
}

/// The barrier Hessian in coordinates `a` and `b`.
pub open spec fn hessian_at<T: Scalar>(s: Seq<T>, alpha: Seq<T>, a: int, b: int) -> T {
    let inv_phi = T::one().over(phi_of(s, alpha));
    let inv_phi2 = inv_phi.times(inv_phi);
    let h = inv_phi.neg().times(phi_curvature(s, alpha, a, b)).plus(
        inv_phi2.times(phi_slope(s, alpha, a)).times(phi_slope(s, alpha, b)),
    );
    if a == b && a < alpha.len() {
        h.plus(T::one().minus(alpha[a]).over(s[a].times(s[a])))
    } else {
        h
    }
}

/// The barrier Hessian, stored by rows.
pub fn hess<T: Scalar>(s: &[T], alpha: &[T]) -> (h: Vec<T>)
    requires
        alpha@.len() <= s@.len(),
        s@.len() * s@.len() <= usize::MAX,
    ensures
        h@.len() == s@.len() * s@.len(),
        forall|a: int, b: int|
            0 <= a < s@.len() && 0 <= b < s@.len() ==> #[trigger] h@[a * s@.len() + b] == hessian_at(
                s@,
                alpha@,
                a,
                b,
            ),
        hessian_tells(s@, alpha@, h@),
{
    let n: usize = alpha.len();
    let d: usize = s.len();
    let two = T::decimal(2, 0);
    let one = T::one();
    let p = prod_term(s, alpha);
    let phi_val = phi(s, alpha);
    let inv_phi = one.over(phi_val);
    let inv_phi2 = inv_phi.times(inv_phi);
    let mut dphi: Vec<T> = Vec::with_capacity(d);
    let mut i: usize = 0;
    while i < d
        invariant
            i <= d == s@.len(),
            n == alpha@.len(),
            n <= d,
            two == T::decimal(2, 0),
            p == product_upto(s@, alpha@, alpha@.len()),
            dphi@.len() == i,
            forall|k: int| 0 <= k < i ==> #[trigger] dphi@[k] == phi_slope(s@, alpha@, k),
        decreases d - i,
    {
        if i < n {
            dphi.push(two.times(alpha[i]).times(p).over(s[i]));
        } else {
            dphi.push(two.neg().times(s[i]));
        }
        i += 1;
    }
    let mut h: DenseMatrix<T> = DenseMatrix::zeros(d, d);
    let mut a: usize = 0;
    while a < d
        invariant
            a <= d == s@.len(),
            n == alpha@.len(),
            n <= d,
            two == T::decimal(2, 0),
            one == T::one(),
            p == product_upto(s@, alpha@, alpha@.len()),
            inv_phi == one.over(phi_of(s@, alpha@)),
            inv_phi2 == inv_phi.times(inv_phi),
            dphi@.len() == d,
            forall|k: int| 0 <= k < d ==> #[trigger] dphi@[k] == phi_slope(s@, alpha@, k),
            h.sized(d as nat, d as nat),
            forall|i: int, j: int|
                0 <= i < a && 0 <= j < d ==> #[trigger] h.at(i, j) == hessian_at(s@, alpha@, i, j),
        decreases d - a,
    {
        let mut b: usize = 0;
        while b < d
            invariant
                a < d == s@.len(),
                b <= d,
                n == alpha@.len(),
                n <= d,
                two == T::decimal(2, 0),
                one == T::one(),
                p == product_upto(s@, alpha@, alpha@.len()),
                inv_phi == one.over(phi_of(s@, alpha@)),
                inv_phi2 == inv_phi.times(inv_phi),
                dphi@.len() == d,
                forall|k: int| 0 <= k < d ==> #[trigger] dphi@[k] == phi_slope(s@, alpha@, k),
                h.sized(d as nat, d as nat),
                forall|i: int, j: int|
                    0 <= i < d && 0 <= j < d && (i < a || (i == a && j < b)) ==> #[trigger] h.at(i, j)
                        == hessian_at(s@, alpha@, i, j),
            decreases d - b,
        {
            let phi_ab = if a < n && b < n {
                if a == b {
                    two.times(alpha[a]).times(two.times(alpha[a]).minus(one)).times(p).over(
                        s[a].times(s[a]),
                    )
                } else {
                    two.times(two).times(alpha[a]).times(alpha[b]).times(p).over(s[a].times(s[b]))
                }
            } else if a >= n && b >= n && a == b {
                two.neg()
            } else {
                T::zero()
            };
            let mut hab = inv_phi.neg().times(phi_ab).plus(inv_phi2.times(dphi[a]).times(dphi[b]));
            if a == b && a < n {
                hab = hab.plus(one.minus(alpha[a]).over(s[a].times(s[a])));
            }
            h.set(a, b, hab);
            b += 1;
        }
        a += 1;
    }
    proof {
        assert forall|i: int, j: int|
            0 <= i < d && 0 <= j < d implies #[trigger] h.data@[i * s@.len() + j] == hessian_at(
            s@,
            alpha@,
            i,
            j,
        ) by {
            assert(h.at(i, j) == hessian_at(s@, alpha@, i, j));
        }
        computed_hessian_tells(s@, alpha@, h.data@);
    }
    h.data
}

} // verus!
