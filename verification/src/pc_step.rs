//! One predictor-corrector step over the nonnegative orthant, with multiple centrality correctors.
use crate::problem::{boundary_ratio, max_step, orthant_step, ratio_upto};
use crate::scalar::Scalar;
use vstd::prelude::*;

verus! {

/// A Newton direction in the unknowns, the equality multipliers, the slacks and the inequality
/// multipliers.
pub struct Direction<T> {
    pub x: Vec<T>,
    pub y: Vec<T>,
    pub s: Vec<T>,
    pub z: Vec<T>,
}

/// The contents of a direction.
pub ghost struct DirectionView<T> {
    pub x: Seq<T>,
    pub y: Seq<T>,
    pub s: Seq<T>,
    pub z: Seq<T>,
}

impl<T> View for Direction<T> {
    type V = DirectionView<T>;

    open spec fn view(&self) -> DirectionView<T> {
        DirectionView { x: self.x@, y: self.y@, s: self.s@, z: self.z@ }
    }
}

impl<T> DirectionView<T> {
    /// The direction has these lengths.
    pub open spec fn sized(self, n: nat, me: nat, mi: nat) -> bool {
        self.x.len() == n && self.y.len() == me && self.s.len() == mi && self.z.len() == mi
    }
}

/// A direction with its step lengths, primal and dual.
pub struct Step<T> {
    pub d: Direction<T>,
    pub ap: T,
    pub ad: T,
}

/// The contents of a step.
pub ghost struct StepView<T> {
    pub d: DirectionView<T>,
    pub ap: T,
    pub ad: T,
}

impl<T> View for Step<T> {
    type V = StepView<T>;

    open spec fn view(&self) -> StepView<T> {
        StepView { d: self.d@, ap: self.ap, ad: self.ad }
    }
}

/// A fraction `eta` of a boundary step, clamped to the unit interval.
pub open spec fn clamped<T: Scalar>(eta: T, a: T) -> T {
    eta.times(a).min(T::one()).max(T::zero())
}

/// A fraction `eta` of a boundary step, clamped to the unit interval.
pub fn clamp_step<T: Scalar>(eta: T, a: T) -> (r: T)
    ensures
        r == clamped(eta, a),
{
    eta.times(a).min(T::one()).max(T::zero())
}

/// The entry-by-entry product of slacks and multipliers.
pub open spec fn products<T: Scalar>(s: Seq<T>, z: Seq<T>) -> Seq<T> {
    Seq::new(s.len(), |i: int| s[i].times(z[i]))
}

/// The entry-by-entry product of slacks and multipliers: the complementarity of the predictor.
pub fn affine_rhs<T: Scalar>(s: &[T], z: &[T]) -> (r: Vec<T>)
    requires
        s@.len() == z@.len(),
    ensures
        r@ == products(s@, z@),
{
    let mut r: Vec<T> = Vec::with_capacity(s.len());
    let mut i: usize = 0;
    while i < s.len()
        invariant
            i <= s@.len() == z@.len(),
            r@ =~= products(s@, z@).subrange(0, i as int),
        decreases s@.len() - i,
    {
        r.push(s[i].times(z[i]));
        i += 1;
    }
    assert(r@ =~= products(s@, z@));
    r
}

/// The sum of the products `(s + ap ds)(z + ad dz)` over the first `k` entries.
pub open spec fn gap_upto<T: Scalar>(
    s: Seq<T>,
    z: Seq<T>,
    ap: T,
    ds: Seq<T>,
    ad: T,
    dz: Seq<T>,
    k: nat,
) -> T
    decreases k,
{
    if k == 0 {
        T::zero()
    } else {
        gap_upto(s, z, ap, ds, ad, dz, (k - 1) as nat).plus(
            s[k - 1].plus(ap.times(ds[k - 1])).times(z[k - 1].plus(ad.times(dz[k - 1]))),
        )
    }
}

/// The sum of the products `(s + ap ds)(z + ad dz)`.
pub fn gap_after<T: Scalar>(s: &[T], z: &[T], ap: T, ds: &[T], ad: T, dz: &[T]) -> (r: T)
    requires
        s@.len() == z@.len(),
        ds@.len() == s@.len(),
        dz@.len() == s@.len(),
    ensures
        r == gap_upto(s@, z@, ap, ds@, ad, dz@, s@.len()),
{
    let mut acc = T::zero();
    let mut i: usize = 0;
    while i < s.len()
        invariant
            s@.len() == z@.len(),
            ds@.len() == s@.len(),
            dz@.len() == s@.len(),
            i <= s@.len(),
            acc == gap_upto(s@, z@, ap, ds@, ad, dz@, i as nat),
        decreases s@.len() - i,
    {
        acc = acc.plus(s[i].plus(ap.times(ds[i])).times(z[i].plus(ad.times(dz[i]))));
        i += 1;
    }
    acc
}

/// The centering parameter: the cube of the ratio of the predicted to the present gap, where the
/// ratio is clamped to the unit interval and its square to one quarter; zero without a gap.
pub open spec fn centering<T: Scalar>(mu_aff: T, mu: T) -> T {
    if T::zero().below(mu) {
        let alpha = mu_aff.over(mu).max(T::zero()).min(T::one());
        alpha.times(alpha).min(T::decimal(25, 2)).times(alpha)
    } else {
        T::zero()
    }
}

/// The centering parameter.
pub fn centering_parameter<T: Scalar>(mu_aff: T, mu: T) -> (r: T)
    ensures
        r == centering(mu_aff, mu),
{
    if T::zero().below(mu) {
        let alpha = mu_aff.over(mu).max(T::zero()).min(T::one());
        alpha.times(alpha).min(T::decimal(25, 2)).times(alpha)
    } else {
        T::zero()
    }
}

/// The predictor's step lengths.
pub open spec fn predictor_steps<T: Scalar>(s: Seq<T>, z: Seq<T>, eta: T, aff: DirectionView<T>) -> (
    T,
    T,
) {
    (clamped(eta, orthant_step(s, aff.s)), clamped(eta, orthant_step(z, aff.z)))
}

/// The centering parameter that the predictor leads to.
pub open spec fn predictor_sigma<T: Scalar>(
    s: Seq<T>,
    z: Seq<T>,
    eta: T,
    mu: T,
    aff: DirectionView<T>,
) -> T {
    let (ap, ad) = predictor_steps(s, z, eta, aff);
    centering(
        gap_upto(s, z, ap, aff.s, ad, aff.z, s.len()).over(T::from_usize(s.len() as usize)),
        mu,
    )
}

/// The complementarity of the combined step, `s z + ds dz - sigma mu`.
pub open spec fn combined_rhs<T: Scalar>(s: Seq<T>, z: Seq<T>, ds: Seq<T>, dz: Seq<T>, sm: T) -> Seq<T> {
    Seq::new(s.len(), |i: int| s[i].times(z[i]).plus(ds[i].times(dz[i])).minus(sm))
}

/// What the predictor leaves for the corrector: its step lengths, the centering parameter and the
/// complementarity of the combined step.
pub struct Predicted<T> {
    pub ap: T,
    pub ad: T,
    pub sigma: T,
    pub rhs: Vec<T>,
}

/// Evaluates the predictor direction `aff`.
pub fn predict<T: Scalar>(s: &[T], z: &[T], eta: T, mu: T, aff: &Direction<T>) -> (r: Predicted<T>)
    requires
        s@.len() == z@.len(),
        aff.s@.len() == s@.len(),
        aff.z@.len() == s@.len(),
    ensures
        (r.ap, r.ad) == predictor_steps(s@, z@, eta, aff@),
        r.sigma == predictor_sigma(s@, z@, eta, mu, aff@),
        r.rhs@ == combined_rhs(s@, z@, aff.s@, aff.z@, r.sigma.times(mu)),
{
    let ap = clamp_step(eta, max_step(s, &aff.s));
    let ad = clamp_step(eta, max_step(z, &aff.z));
    let mi: usize = s.len();
    let mu_aff = gap_after(s, z, ap, &aff.s, ad, &aff.z).over(T::from_usize(mi));
    let sigma = centering_parameter(mu_aff, mu);
    let sm = sigma.times(mu);
    let ghost expected = combined_rhs(s@, z@, aff.s@, aff.z@, sm);
    let mut rhs: Vec<T> = Vec::with_capacity(mi);
    let mut i: usize = 0;
    while i < mi
        invariant
            i <= mi == s@.len(),
            s@.len() == z@.len(),
            aff.s@.len() == s@.len(),
            aff.z@.len() == s@.len(),
            expected == combined_rhs(s@, z@, aff.s@, aff.z@, sm),
            rhs@ =~= expected.subrange(0, i as int),
        decreases mi - i,
    {
        rhs.push(s[i].times(z[i]).plus(aff.s[i].times(aff.z[i])).minus(sm));
        i += 1;
    }
    assert(rhs@ =~= expected);
    Predicted { ap, ad, sigma, rhs }
}

/// The combined direction with its step lengths.
pub open spec fn with_steps<T: Scalar>(s: Seq<T>, z: Seq<T>, eta: T, d: DirectionView<T>) -> StepView<T> {
    StepView {
        d,
        ap: clamped(eta, orthant_step(s, d.s)),
        ad: clamped(eta, orthant_step(z, d.z)),
    }
}

/// Measures the step lengths of the combined direction.
pub fn measure<T: Scalar>(s: &[T], z: &[T], eta: T, d: Direction<T>) -> (r: Step<T>)
    requires
        d.s@.len() == s@.len(),
        d.z@.len() == z@.len(),
    ensures
        r@ == with_steps(s@, z@, eta, d@),
        r.d == d,
{
    let ap = clamp_step(eta, max_step(s, &d.s));
    let ad = clamp_step(eta, max_step(z, &d.z));
    Step { d, ap, ad }
}

/// The number of consecutive steps that came out shorter than a tenth of their predictor, after
/// one more step.
pub open spec fn short_count<T: Scalar>(count: usize, ap: T, ad: T, ap_a: T, ad_a: T) -> int {
    if ap.min(ad).below(T::decimal(1, 1).times(ap_a.min(ad_a))) {
        count + 1
    } else {
        0
    }
}

/// The step lengths at which the correctors look: a tenth longer, and no longer than 1.
pub open spec fn enlarged<T: Scalar>(a: T) -> T {
    a.plus(T::decimal(1, 1)).min(T::one())
}

/// The signed excess of the complementarity product of entry `i` outside the central band from a
/// tenth of `mu` to ten times `mu`, at the enlarged step.
pub open spec fn excess<T: Scalar>(s: Seq<T>, z: Seq<T>, mu: T, st: StepView<T>, i: int) -> T {
    let v = s[i].plus(enlarged(st.ap).times(st.d.s[i])).times(
        z[i].plus(enlarged(st.ad).times(st.d.z[i])),
    );
    v.minus(v.max(T::decimal(1, 1).times(mu)).min(T::decimal(10, 0).times(mu)))
}

/// The excess of every entry.
pub open spec fn corrector_rhs_spec<T: Scalar>(s: Seq<T>, z: Seq<T>, mu: T, st: StepView<T>) -> Seq<T> {
    Seq::new(s.len(), |i: int| excess(s, z, mu, st, i))
}

/// Some entry is not zero.
pub open spec fn any_nonzero<T: Scalar>(v: Seq<T>) -> bool {
    exists|i: int| 0 <= i < v.len() && !(#[trigger] v[i]).equals(T::zero())
}

/// The complementarity of the next centrality corrector; none where every product already lies in
/// the central band.
pub fn corrector_rhs<T: Scalar>(s: &[T], z: &[T], mu: T, st: &Step<T>) -> (r: Option<Vec<T>>)
    requires
        s@.len() == z@.len(),
        st.d.s@.len() == s@.len(),
        st.d.z@.len() == s@.len(),
    ensures
        r is Some == any_nonzero(corrector_rhs_spec(s@, z@, mu, st@)),
        r matches Some(v) ==> v@ == corrector_rhs_spec(s@, z@, mu, st@),
{
    let one = T::one();
    let beta_lo = T::decimal(1, 1).times(mu);
    let beta_hi = T::decimal(10, 0).times(mu);
    let gamma = T::decimal(1, 1);
    let ap_t = st.ap.plus(gamma).min(one);
    let ad_t = st.ad.plus(gamma).min(one);
    let ghost expected = corrector_rhs_spec(s@, z@, mu, st@);
    let mut r_cor: Vec<T> = Vec::with_capacity(s.len());
    let mut any = false;
    let mut i: usize = 0;
    while i < s.len()
        invariant
            i <= s@.len() == z@.len(),
            st.d.s@.len() == s@.len(),
            st.d.z@.len() == s@.len(),
            beta_lo == T::decimal(1, 1).times(mu),
            beta_hi == T::decimal(10, 0).times(mu),
            ap_t == enlarged(st.ap),
            ad_t == enlarged(st.ad),
            expected == corrector_rhs_spec(s@, z@, mu, st@),
            r_cor@ =~= expected.subrange(0, i as int),
            any <==> exists|k: int| 0 <= k < i && !(#[trigger] expected[k]).equals(T::zero()),
        decreases s@.len() - i,
    {
        let v = s[i].plus(ap_t.times(st.d.s[i])).times(z[i].plus(ad_t.times(st.d.z[i])));
        let band = v.max(beta_lo).min(beta_hi);
        let e = v.minus(band);
        r_cor.push(e);
        assert(expected[i as int] == e);
        if !e.equals(T::zero()) {
            any = true;
        }
        i += 1;
    }
    assert(r_cor@ =~= expected);
    if any {
        Some(r_cor)
    } else {
        None
    }
}

/// The entry-by-entry sum.
pub open spec fn sums<T: Scalar>(a: Seq<T>, b: Seq<T>) -> Seq<T> {
    Seq::new(a.len(), |i: int| a[i].plus(b[i]))
}

/// Adds `b` to `a`, entry by entry.
pub fn add_into<T: Scalar>(a: &mut Vec<T>, b: &[T])
    requires
        old(a)@.len() == b@.len(),
    ensures
        final(a)@ == sums(old(a)@, b@),
{
    let ghost start = a@;
    let len: usize = a.len();
    let mut i: usize = 0;
    while i < len
        invariant
            start.len() == b@.len() == len,
            a@.len() == len,
            i <= len,
            forall|k: int| 0 <= k < i ==> #[trigger] a@[k] == start[k].plus(b@[k]),
            forall|k: int| i <= k < len ==> #[trigger] a@[k] == start[k],
        decreases len - i,
    {
        let v = a[i].plus(b[i]);
        a[i] = v;
        i += 1;
    }
    assert(a@ =~= sums(start, b@));
}

/// The entry-by-entry sum.
pub fn sums_of<T: Scalar>(a: &[T], b: &[T]) -> (r: Vec<T>)
    requires
        a@.len() == b@.len(),
    ensures
        r@ == sums(a@, b@),
{
    let mut r: Vec<T> = Vec::with_capacity(a.len());
    let mut i: usize = 0;
    while i < a.len()
        invariant
            i <= a@.len() == b@.len(),
            r@ =~= sums(a@, b@).subrange(0, i as int),
        decreases a@.len() - i,
    {
        r.push(a[i].plus(b[i]));
        i += 1;
    }
    assert(r@ =~= sums(a@, b@));
    r
}

/// The step after the correction `cor` is added to it, with its step lengths.
pub open spec fn corrected<T: Scalar>(
    s: Seq<T>,
    z: Seq<T>,
    eta: T,
    st: StepView<T>,
    cor: DirectionView<T>,
) -> StepView<T> {
    let ds = sums(st.d.s, cor.s);
    let dz = sums(st.d.z, cor.z);
    StepView {
        d: DirectionView { x: sums(st.d.x, cor.x), y: sums(st.d.y, cor.y), s: ds, z: dz },
        ap: clamped(eta, ratio_upto(s, ds, s.len())),
        ad: clamped(eta, ratio_upto(z, dz, z.len())),
    }
}

/// The reduction of the gap that a step length `alpha` promises, relative to `denom`.
pub open spec fn quality<T: Scalar>(sigma: T, denom: T, alpha: T) -> T {
    if T::decimal(1, 30).below(denom) {
        T::one().minus(T::one().minus(alpha.times(T::one().minus(sigma))).over(denom))
    } else {
        T::zero()
    }
}

/// A correction is accepted if it lengthens the step by more than a hundredth, keeps the mean
/// complementarity within the band and improves the gap measurably.
pub open spec fn accepts<T: Scalar>(
    s: Seq<T>,
    z: Seq<T>,
    mu: T,
    sigma: T,
    denom: T,
    st: StepView<T>,
    next: StepView<T>,
) -> bool {
    let mu_trial = gap_upto(s, z, next.ap, next.d.s, next.ad, next.d.z, s.len()).over(
        T::from_usize(s.len() as usize),
    );
    let alpha_new = next.ap.min(next.ad);
    let alpha_old = st.ap.min(st.ad);
    &&& alpha_old.plus(T::decimal(1, 2)).below(alpha_new)
    &&& mu_trial.at_most(T::decimal(10, 0).times(mu))
    &&& T::decimal(1, 3).at_most(quality(sigma, denom, alpha_new))
}

/// The step after one correction is offered to it.
pub open spec fn offered<T: Scalar>(
    s: Seq<T>,
    z: Seq<T>,
    eta: T,
    mu: T,
    sigma: T,
    denom: T,
    st: StepView<T>,
    cor: DirectionView<T>,
) -> Option<StepView<T>> {
    let next = corrected(s, z, eta, st, cor);
    if accepts(s, z, mu, sigma, denom, st, next) {
        Some(next)
    } else {
        None
    }
}

/// Offers the correction `cor` to the step. Returns whether it was accepted; a correction that
/// is not accepted leaves the step as it is.
pub fn offer<T: Scalar>(
    s: &[T],
    z: &[T],
    eta: T,
    mu: T,
    sigma: T,
    denom: T,
    st: &mut Step<T>,
    cor: &Direction<T>,
) -> (taken: bool)
    requires
        s@.len() == z@.len(),
        old(st).d.s@.len() == s@.len(),
        old(st).d.z@.len() == s@.len(),
        cor@.sized(old(st).d.x@.len(), old(st).d.y@.len(), s@.len()),
    ensures
        match offered(s@, z@, eta, mu, sigma, denom, old(st)@, cor@) {
            Some(next) => taken && final(st)@ == next,
            None => !taken && final(st)@ == old(st)@,
        },
{
    let one = T::one();
    let zero = T::zero();
    let mi: usize = s.len();
    let nds = sums_of(&st.d.s, &cor.s);
    let ndz = sums_of(&st.d.z, &cor.z);
    let nap = clamp_step(eta, boundary_ratio(s, &nds));
    let nad = clamp_step(eta, boundary_ratio(z, &ndz));
    let mu_trial = gap_after(s, z, nap, &nds, nad, &ndz).over(T::from_usize(mi));
    let alpha_new = nap.min(nad);
    let alpha_old = st.ap.min(st.ad);
    let qual = if T::decimal(1, 30).below(denom) {
        let numer = one.minus(alpha_new.times(one.minus(sigma)));
        one.minus(numer.over(denom))
    } else {
        zero
    };
    if alpha_old.plus(T::decimal(1, 2)).below(alpha_new) && mu_trial.at_most(
        T::decimal(10, 0).times(mu),
    ) && T::decimal(1, 3).at_most(qual) {
        add_into(&mut st.d.x, &cor.x);
        add_into(&mut st.d.y, &cor.y);
        st.d.s = nds;
        st.d.z = ndz;
        st.ap = nap;
        st.ad = nad;
        true
    } else {
        false
    }
}

/// `d` is a direction that the system `solves` has for the complementarity `rhs`, with the
/// feasibility residuals or, for a corrector, without.
pub open spec fn gives<T>(
    solves: spec_fn(Seq<T>, bool, DirectionView<T>) -> bool,
    rhs: Seq<T>,
    corrector: bool,
    d: DirectionView<T>,
) -> bool {
    solves(rhs, corrector, d)
}

/// `out` is what at most `left` rounds of correction make of `st`. Each round asks the system for
/// a correction; the rounds end where every product lies in the central band, and with the first
/// correction that is not accepted.
pub open spec fn corrects<T: Scalar>(
    s: Seq<T>,
    z: Seq<T>,
    eta: T,
    mu: T,
    sigma: T,
    denom: T,
    solves: spec_fn(Seq<T>, bool, DirectionView<T>) -> bool,
    st: StepView<T>,
    left: nat,
    out: StepView<T>,
) -> bool
    decreases left,
{
    let rhs = corrector_rhs_spec(s, z, mu, st);
    if left == 0 || !any_nonzero(rhs) {
        out == st
    } else {
        exists|cor: DirectionView<T>| #[trigger]
            gives(solves, rhs, true, cor) && match offered(s, z, eta, mu, sigma, denom, st, cor) {
                Some(next) => corrects(
                    s,
                    z,
                    eta,
                    mu,
                    sigma,
                    denom,
                    solves,
                    next,
                    (left - 1) as nat,
                    out,
                ),
                None => out == st,
            }
    }
}

/// The scaled increments of a step.
pub open spec fn increments<T: Scalar>(st: StepView<T>) -> DirectionView<T> {
    DirectionView {
        x: scaled(st.d.x, st.ap),
        y: scaled(st.d.y, st.ad),
        s: scaled(st.d.s, st.ap),
        z: scaled(st.d.z, st.ad),
    }
}

/// `t a`, entry by entry.
pub open spec fn scaled<T: Scalar>(a: Seq<T>, t: T) -> Seq<T> {
    Seq::new(a.len(), |i: int| t.times(a[i]))
}

/// `t a`, entry by entry.
pub fn scaled_by<T: Scalar>(a: &[T], t: T) -> (r: Vec<T>)
    ensures
        r@ == scaled(a@, t),
{
    let mut r: Vec<T> = Vec::with_capacity(a.len());
    let mut i: usize = 0;
    while i < a.len()
        invariant
            i <= a@.len(),
            r@ =~= scaled(a@, t).subrange(0, i as int),
        decreases a@.len() - i,
    {
        r.push(t.times(a[i]));
        i += 1;
    }
    assert(r@ =~= scaled(a@, t));
    r
}

/// The scaled increments of a step.
pub fn increments_of<T: Scalar>(st: &Step<T>) -> (r: Direction<T>)
    ensures
        r@ == increments(st@),
{
    Direction {
        x: scaled_by(&st.d.x, st.ap),
        y: scaled_by(&st.d.y, st.ad),
        s: scaled_by(&st.d.s, st.ap),
        z: scaled_by(&st.d.z, st.ad),
    }
}

/// The number of correction rounds: none once three consecutive steps came out short.
pub open spec fn rounds(count: int, gondzio_max: usize) -> nat {
    if count >= 3 {
        0
    } else {
        gondzio_max as nat
    }
}

/// `out` is the step that the predictor `aff` and the combined direction `comb` lead to, and
/// `count` the number of consecutive short steps after it.
pub open spec fn completes<T: Scalar>(
    s: Seq<T>,
    z: Seq<T>,
    eta: T,
    mu: T,
    solves: spec_fn(Seq<T>, bool, DirectionView<T>) -> bool,
    gondzio_max: usize,
    before: usize,
    aff: DirectionView<T>,
    comb: DirectionView<T>,
    out: StepView<T>,
    count: int,
) -> bool {
    let st = with_steps(s, z, eta, comb);
    let sigma = predictor_sigma(s, z, eta, mu, aff);
    let (ap_a, ad_a) = predictor_steps(s, z, eta, aff);
    let denom = T::one().minus(st.ap.min(st.ad).times(T::one().minus(sigma)));
    if T::zero().below(mu) {
        count == short_count(before, st.ap, st.ad, ap_a, ad_a) && corrects(
            s,
            z,
            eta,
            mu,
            sigma,
            denom,
            solves,
            st,
            rounds(count, gondzio_max),
            out,
        )
    } else {
        count == before && out == st
    }
}

/// `r` is the predictor-corrector step from `(s, z)`, and `count` the number of consecutive short
/// steps after it.
pub open spec fn steps<T: Scalar>(
    s: Seq<T>,
    z: Seq<T>,
    eta: T,
    mu: T,
    solves: spec_fn(Seq<T>, bool, DirectionView<T>) -> bool,
    gondzio_max: usize,
    before: usize,
    r: DirectionView<T>,
    count: int,
) -> bool {
    exists|aff: DirectionView<T>, comb: DirectionView<T>, out: StepView<T>|
        {
            &&& #[trigger] gives(solves, products(s, z), false, aff)
            &&& #[trigger] gives(
                solves,
                combined_rhs(
                    s,
                    z,
                    aff.s,
                    aff.z,
                    predictor_sigma(s, z, eta, mu, aff).times(mu),
                ),
                false,
                comb,
            )
            &&& #[trigger] completes(s, z, eta, mu, solves, gondzio_max, before, aff, comb, out, count)
            &&& r == increments(out)
        }
}

/// One predictor-corrector step with multiple centrality correctors. `solve` solves the Newton
/// system for a complementarity right-hand side, with the feasibility residuals or without; `solves`
/// says which directions it may give. Returns the scaled increments of the iterate.
pub(crate) fn pc_step<T: Scalar, F: Fn(&[T], bool) -> Direction<T>>(
    s: &[T],
    z: &[T],
    eta: T,
    mu: T,
    solve: F,
    Ghost(solves): Ghost<spec_fn(Seq<T>, bool, DirectionView<T>) -> bool>,
    Ghost(n): Ghost<nat>,
    Ghost(me): Ghost<nat>,
    gondzio_max: usize,
    short_step_count: &mut usize,
) -> (r: Direction<T>)
    requires
        s@.len() == z@.len(),
        *old(short_step_count) < usize::MAX,
        forall|a: &[T], c: bool| a@.len() == s@.len() ==> #[trigger] solve.requires((a, c)),
        forall|a: &[T], c: bool, d: Direction<T>| #[trigger]
            solve.ensures((a, c), d) ==> d@.sized(n, me, s@.len()) && gives(solves, a@, c, d@),
    ensures
        steps(
            s@,
            z@,
            eta,
            mu,
            solves,
            gondzio_max,
            *old(short_step_count),
            r@,
            *final(short_step_count) as int,
        ),
        r@.sized(n, me, s@.len()),
{
    let one = T::one();
    let rc_aff = affine_rhs(s, z);
    let aff_arg: &[T] = rc_aff.as_slice();
    let aff = solve(aff_arg, false);
    let pred = predict(s, z, eta, mu, &aff);
    let comb_arg: &[T] = pred.rhs.as_slice();
    let comb = solve(comb_arg, false);
    let ghost comb_view = comb@;
    let mut st = measure(s, z, eta, comb);
    let sigma = pred.sigma;
    let ghost first = st@;
    if T::zero().below(mu) {
        if st.ap.min(st.ad).below(T::decimal(1, 1).times(pred.ap.min(pred.ad))) {
            *short_step_count = *short_step_count + 1;
        } else {
            *short_step_count = 0;
        }
        let count: usize = if *short_step_count >= 3 {
            0
        } else {
            gondzio_max
        };
        let denom = one.minus(st.ap.min(st.ad).times(one.minus(sigma)));
        let mut left: usize = count;
        let mut going = true;
        // Whatever the remaining rounds make of the present step, all the rounds make of the
        // first one.
        while going && left > 0
            invariant
                s@.len() == z@.len(),
                left <= count,
                st.d@.sized(n, me, s@.len()),
                forall|a: &[T], c: bool| a@.len() == s@.len() ==> #[trigger] solve.requires((a, c)),
                forall|a: &[T], c: bool, d: Direction<T>| #[trigger]
                    solve.ensures((a, c), d) ==> d@.sized(n, me, s@.len()) && gives(solves, a@, c, d@),
                going ==> forall|out: StepView<T>|
                    corrects(s@, z@, eta, mu, sigma, denom, solves, st@, left as nat, out)
                        ==> #[trigger] corrects(
                        s@,
                        z@,
                        eta,
                        mu,
                        sigma,
                        denom,
                        solves,
                        first,
                        count as nat,
                        out,
                    ),
                !going ==> corrects(
                    s@,
                    z@,
                    eta,
                    mu,
                    sigma,
                    denom,
                    solves,
                    first,
                    count as nat,
                    st@,
                ),
            decreases left + (if going { 1int } else { 0int }),
        {
            let ghost before = st@;
            match corrector_rhs(s, z, mu, &st) {
                None => {
                    going = false;
                    assert(corrects(
                        s@,
                        z@,
                        eta,
                        mu,
                        sigma,
                        denom,
                        solves,
                        before,
                        left as nat,
                        before,
                    ));
                },
                Some(r_cor) => {
                    let arg: &[T] = r_cor.as_slice();
                    let cor = solve(arg, true);
                    let taken = offer(s, z, eta, mu, sigma, denom, &mut st, &cor);
                    if taken {
                        proof {
                            assert forall|out: StepView<T>|
                                corrects(
                                    s@,
                                    z@,
                                    eta,
                                    mu,
                                    sigma,
                                    denom,
                                    solves,
                                    st@,
                                    (left - 1) as nat,
                                    out,
                                ) implies #[trigger] corrects(
                                s@,
                                z@,
                                eta,
                                mu,
                                sigma,
                                denom,
                                solves,
                                first,
                                count as nat,
                                out,
                            ) by {
                                assert(gives(solves, arg@, true, cor@));
                                assert(corrects(
                                    s@,
                                    z@,
                                    eta,
                                    mu,
                                    sigma,
                                    denom,
                                    solves,
                                    before,
                                    left as nat,
                                    out,
                                ));
                            }
                        }
                        left -= 1;
                    } else {
                        going = false;
                        proof {
                            assert(gives(solves, arg@, true, cor@));
                            assert(corrects(
                                s@,
                                z@,
                                eta,
                                mu,
                                sigma,
                                denom,
                                solves,
                                before,
                                left as nat,
                                before,
                            ));
                        }
                    }
                },
            }
        }
        proof {
            if going {
                assert(corrects(s@, z@, eta, mu, sigma, denom, solves, st@, 0, st@));
            }
            assert(corrects(
                s@,
                z@,
                eta,
                mu,
                sigma,
                denom,
                solves,
                first,
                count as nat,
                st@,
            ));
        }
    }
    proof {
        assert(completes(
            s@,
            z@,
            eta,
            mu,
            solves,
            gondzio_max,
            *old(short_step_count),
            aff@,
            comb_view,
            st@,
            *short_step_count as int,
        ));
        assert(gives(solves, aff_arg@, false, aff@));
        assert(gives(solves, comb_arg@, false, comb@));
    }
    increments_of(&st)
}

/// The correctors never trade a step for a worse one: what they make of a step is the step itself,
/// or a step that was accepted over another for being longer by more than a hundredth, with a mean
/// complementarity within the band and a measurable improvement of the gap.
pub proof fn correctors_only_improve<T: Scalar>(
    s: Seq<T>,
    z: Seq<T>,
    eta: T,
    mu: T,
    sigma: T,
    denom: T,
    solves: spec_fn(Seq<T>, bool, DirectionView<T>) -> bool,
    st: StepView<T>,
    left: nat,
    out: StepView<T>,
)
    requires
        corrects(s, z, eta, mu, sigma, denom, solves, st, left, out),
    ensures
        out == st || exists|prev: StepView<T>| #[trigger] accepts(s, z, mu, sigma, denom, prev, out),
    decreases left,
{
    let rhs = corrector_rhs_spec(s, z, mu, st);
    if left > 0 && any_nonzero(rhs) {
        let cor = choose|cor: DirectionView<T>| #[trigger]
            gives(solves, rhs, true, cor) && match offered(s, z, eta, mu, sigma, denom, st, cor) {
                Some(next) => corrects(
                    s,
                    z,
                    eta,
                    mu,
                    sigma,
                    denom,
                    solves,
                    next,
                    (left - 1) as nat,
                    out,
                ),
                None => out == st,
            };
        if let Some(next) = offered(s, z, eta, mu, sigma, denom, st, cor) {
            correctors_only_improve(
                s,
                z,
                eta,
                mu,
                sigma,
                denom,
                solves,
                next,
                (left - 1) as nat,
                out,
            );
            assert(accepts(s, z, mu, sigma, denom, st, next));
        }
    }
}

} // verus!
