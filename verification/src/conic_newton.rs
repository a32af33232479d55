//! The Newton step of the conic engine: predictor, centering, combined direction and centrality
//! correctors, over the solve against the factored system and the algebra of the curved cones.
use crate::cone::{cones_fit, joint_step, offsets_of, total_size, Cone, ConeScaling};
use crate::conic_dir::{
    accepted, combined_rhs, combined_upto, conic_centering, conic_sigma, corrected_direction, corrected_view,
    corrector_rounds, curved_fit, enlarge, ftb, minus_plus, offer_direction, plan_correctors, predictor_rhs,
    recentered_upto, recentering_rhs, recover_ds, scalings_fit, slack_direction, step_length, uncentered,
    ConicStep,
};
use crate::conic_route::{any_psd, has_psd};
use crate::conic_step::{Iterate, IterateView, Residuals};
use crate::curved::{
    algebra_fits, corrections_at, curved_corrections, curved_ratios, curved_targets, ratios_at, targets_at, Algebra,
};
use crate::fac::Solved;
use crate::kkt::opt_deref;
use crate::pc_step::{clamped, enlarged, gap_upto, short_count};
use crate::problem::QpProblem;
use crate::products::{form_fits, times, times_spec, Form};
use crate::scalar::Scalar;
use crate::sparse::CscMatrix;
use crate::vector::{moved, moved_by};
use vstd::prelude::*;

verus! {

/// The contents of a step.
pub ghost struct ConicStepView<T> {
    pub d: IterateView<T>,
    pub ap: T,
    pub ad: T,
}

impl<T> View for ConicStep<T> {
    type V = ConicStepView<T>;

    open spec fn view(&self) -> ConicStepView<T> {
        ConicStepView { d: self.d@, ap: self.ap, ad: self.ad }
    }
}

/// What the step of one iteration rests on: the problem, its cones with their identities and
/// scalings, and the iterate with its residuals.
pub ghost struct Frame<T> {
    pub prob: QpProblem<T>,
    pub ain: Form,
    pub in_csr: Option<CscMatrix<T>>,
    pub cones: Seq<Cone>,
    pub identities: Seq<Vec<T>>,
    pub sc: Seq<ConeScaling<T>>,
    pub it: IterateView<T>,
    pub r: Residuals<T>,
}

/// The direction that a solution of the system makes, with the slacks that keep the inequality
/// rows.
pub open spec fn direction_of<T: Scalar>(f: Frame<T>, v: Solved<T>) -> IterateView<T> {
    IterateView {
        x: v.dx@,
        y: v.dy@,
        s: slack_direction(f.r.r_h@, times_spec(f.ain, f.in_csr, f.prob.a_in, v.dx@)),
        z: v.dz@,
    }
}

/// `v` is a solution that the system `solves` has for the complementarity right-hand side `rhs`, with
/// the residuals or, for a corrector, without.
pub open spec fn answers<T>(
    solves: spec_fn(Seq<T>, bool, Solved<T>) -> bool,
    rhs: Seq<T>,
    corrector: bool,
    v: Solved<T>,
) -> bool {
    solves(rhs, corrector, v)
}

/// `d` is the direction for the complementarity right-hand side `rhs`.
pub open spec fn solved_for<T: Scalar>(
    f: Frame<T>,
    solves: spec_fn(Seq<T>, bool, Solved<T>) -> bool,
    rhs: Seq<T>,
    d: IterateView<T>,
) -> bool {
    exists|v: Solved<T>| #[trigger] answers(solves, rhs, false, v) && d == direction_of(f, v)
}

/// `a` is the step from `v` along `dv` that the cones allow, kept inside them and within 1.
pub open spec fn allows<T: Scalar, R: Fn(Cone, &[T], &[T]) -> T>(
    cones: Seq<Cone>,
    ratio: R,
    v: Seq<T>,
    dv: Seq<T>,
    a: T,
) -> bool {
    exists|c: Seq<T>| #[trigger]
        ratios_at(cones, ratio, v, dv, c) && a == clamped(ftb(), joint_step(cones, v, dv, c))
}

/// The step `st` goes along `d` as far as the cones allow.
pub open spec fn measures<T: Scalar, R: Fn(Cone, &[T], &[T]) -> T>(
    f: Frame<T>,
    ratio: R,
    d: IterateView<T>,
    st: ConicStepView<T>,
) -> bool {
    &&& st.d == d
    &&& allows(f.cones, ratio, f.it.s, d.s, st.ap)
    &&& allows(f.cones, ratio, f.it.z, d.z, st.ad)
}

/// The centering parameter that the predictor calls for.
pub open spec fn sigma_of<T: Scalar>(f: Frame<T>, degree: T, kron: bool, aff: ConicStepView<T>) -> T {
    conic_sigma(
        gap_upto(f.it.s, f.it.z, aff.ap, aff.d.s, aff.ad, aff.d.z, f.it.s.len()).over(degree),
        f.r.mu,
        kron,
    )
}

/// `out` is what at most `left` rounds of centrality correctors make of the step `st`. A round
/// looks a little further along the step; where a cone is off the central path there, it solves for
/// a correction, and keeps it only if the step grows enough. The rounds end at the first that does
/// not keep its correction.
pub open spec fn recenters<
    T: Scalar,
    I: Fn(Cone) -> Vec<T>,
    R: Fn(Cone, &[T], &[T]) -> T,
    C: Fn(&ConeScaling<T>, &[T], bool) -> Vec<T>,
    P: Fn(Cone, &[T], &[T]) -> Vec<T>,
    Y: Fn(Cone, &[T], &[T]) -> Vec<T>,
    Z: Fn(Cone, &[T], T, T) -> Vec<T>,
>(
    f: Frame<T>,
    solves: spec_fn(Seq<T>, bool, Solved<T>) -> bool,
    al: Algebra<I, R, C, P, Y, Z>,
    sigma: T,
    st: ConicStepView<T>,
    left: nat,
    out: ConicStepView<T>,
) -> bool
    decreases left,
{
    let sp = moved(f.it.s, enlarged(st.ap), st.d.s);
    let zp = moved(f.it.z, enlarged(st.ad), st.d.z);
    if left == 0 {
        out == st
    } else {
        exists|psis: Seq<Vec<T>>, outs: Seq<Vec<T>>|
            {
                &&& #[trigger] targets_at(f.cones, al, f.sc, f.it.z, sp, zp, f.r.mu, psis, outs)
                &&& if !uncentered(f.cones, f.sc, sp, zp, f.r.mu, psis, f.cones.len()) {
                    out == st
                } else {
                    exists|v: Solved<T>, next: ConicStepView<T>|
                        {
                            &&& #[trigger] answers(
                                solves,
                                recentered_upto(
                                    f.cones,
                                    f.sc,
                                    f.it.z,
                                    sp,
                                    zp,
                                    f.r.mu,
                                    psis,
                                    outs,
                                    f.cones.len(),
                                ),
                                true,
                                v,
                            )
                            &&& #[trigger] measures(
                                f,
                                al.ratio,
                                corrected_view(
                                    st.d,
                                    v.dx@,
                                    v.dy@,
                                    v.dz@,
                                    times_spec(f.ain, f.in_csr, f.prob.a_in, v.dx@),
                                ),
                                next,
                            )
                            &&& if accepted(sigma, st.ap, st.ad, next.ap, next.ad) {
                                recenters(f, solves, al, sigma, next, (left - 1) as nat, out)
                            } else {
                                out == st
                            }
                        }
                }
            }
    }
}

/// `base` is the combined step after the predictor `aff`.
pub open spec fn combines<
    T: Scalar,
    I: Fn(Cone) -> Vec<T>,
    R: Fn(Cone, &[T], &[T]) -> T,
    C: Fn(&ConeScaling<T>, &[T], bool) -> Vec<T>,
    P: Fn(Cone, &[T], &[T]) -> Vec<T>,
    Y: Fn(Cone, &[T], &[T]) -> Vec<T>,
    Z: Fn(Cone, &[T], T, T) -> Vec<T>,
>(
    f: Frame<T>,
    solves: spec_fn(Seq<T>, bool, Solved<T>) -> bool,
    al: Algebra<I, R, C, P, Y, Z>,
    sm: T,
    aff: ConicStepView<T>,
    base: ConicStepView<T>,
) -> bool {
    exists|c: Seq<Vec<T>>|
        {
            &&& #[trigger] corrections_at(
                f.cones,
                al,
                f.sc,
                f.identities,
                f.it.z,
                aff.d.s,
                aff.d.z,
                sm,
                c,
            )
            &&& solved_for(
                f,
                solves,
                combined_upto(
                    f.cones,
                    f.sc,
                    f.r.r_h@,
                    f.it.s,
                    f.it.z,
                    aff.d.s,
                    aff.d.z,
                    sm,
                    c,
                    f.cones.len(),
                ),
                base.d,
            )
            &&& measures(f, al.ratio, base.d, base)
        }
}

/// `out` is the step of the iteration, and `short` the count of short steps after it.
pub open spec fn newton_step<
    T: Scalar,
    I: Fn(Cone) -> Vec<T>,
    R: Fn(Cone, &[T], &[T]) -> T,
    C: Fn(&ConeScaling<T>, &[T], bool) -> Vec<T>,
    P: Fn(Cone, &[T], &[T]) -> Vec<T>,
    Y: Fn(Cone, &[T], &[T]) -> Vec<T>,
    Z: Fn(Cone, &[T], T, T) -> Vec<T>,
>(
    f: Frame<T>,
    degree: T,
    kron: bool,
    solves: spec_fn(Seq<T>, bool, Solved<T>) -> bool,
    al: Algebra<I, R, C, P, Y, Z>,
    short_before: usize,
    aff: ConicStepView<T>,
    base: ConicStepView<T>,
    out: ConicStepView<T>,
    short: int,
) -> bool {
    let sigma = sigma_of(f, degree, kron, aff);
    &&& solved_for(f, solves, minus_plus(f.r.r_h@, f.it.s), aff.d)
    &&& measures(f, al.ratio, aff.d, aff)
    &&& combines(f, solves, al, sigma.times(f.r.mu), aff, base)
    &&& if T::zero().below(f.r.mu) {
        &&& short == short_count(short_before, base.ap, base.ad, aff.ap, aff.ad)
        &&& recenters(
            f,
            solves,
            al,
            sigma,
            base,
            corrector_rounds(kron, any_psd(f.cones), short),
            out,
        )
    } else {
        short == short_before && out == base
    }
}

/// `out` is the step of the iteration after some predictor and some combined step, and `short` the
/// count of short steps after it.
pub open spec fn is_newton_step<
    T: Scalar,
    I: Fn(Cone) -> Vec<T>,
    R: Fn(Cone, &[T], &[T]) -> T,
    C: Fn(&ConeScaling<T>, &[T], bool) -> Vec<T>,
    P: Fn(Cone, &[T], &[T]) -> Vec<T>,
    Y: Fn(Cone, &[T], &[T]) -> Vec<T>,
    Z: Fn(Cone, &[T], T, T) -> Vec<T>,
>(
    f: Frame<T>,
    degree: T,
    kron: bool,
    solves: spec_fn(Seq<T>, bool, Solved<T>) -> bool,
    al: Algebra<I, R, C, P, Y, Z>,
    short_before: usize,
    out: ConicStepView<T>,
    short: int,
) -> bool {
    exists|aff: ConicStepView<T>, base: ConicStepView<T>| #[trigger]
        newton_step(
            f,
            degree,
            kron,
            solves,
            al,
            short_before,
            aff,
            base,
            out,
            short,
        )
}

/// The direction has the problem's dimensions.
pub open spec fn direction_fits<T: Scalar>(prob: QpProblem<T>, d: IterateView<T>) -> bool {
    d.x.len() == prob.n() && d.y.len() == prob.me() && d.s.len() == prob.mi() && d.z.len() == prob.mi()
}

/// Measures a direction: how far it goes from slack and multiplier.
fn measure_step<
    T: Scalar,
    I: Fn(Cone) -> Vec<T>,
    R: Fn(Cone, &[T], &[T]) -> T,
    C: Fn(&ConeScaling<T>, &[T], bool) -> Vec<T>,
    P: Fn(Cone, &[T], &[T]) -> Vec<T>,
    Y: Fn(Cone, &[T], &[T]) -> Vec<T>,
    Z: Fn(Cone, &[T], T, T) -> Vec<T>,
>(cones: &[Cone], offsets: &[usize], v: &[T], dv: &[T], al: &Algebra<I, R, C, P, Y, Z>) -> (a: T)
    requires
        cones_fit(cones@),
        offsets_of(cones@, offsets@),
        v@.len() == total_size(cones@),
        dv@.len() == v@.len(),
        algebra_fits(cones@, *al),
    ensures
        allows(cones@, al.ratio, v@, dv@, a),
{
    let c = curved_ratios(cones, offsets, al, v, dv);
    assert(ratios_at(cones@, al.ratio, v@, dv@, c@));
    step_length(cones, offsets, v, dv, &c)
}

/// The step of one iteration of the conic engine. `solve` is the solve against the factored system
/// for a complementarity right-hand side, with the other residuals or, for a corrector, without;
/// `al` is the algebra of the curved cones.
pub(crate) fn conic_newton<
    T: Scalar,
    S: Fn(&[T], bool) -> Solved<T>,
    I: Fn(Cone) -> Vec<T>,
    R: Fn(Cone, &[T], &[T]) -> T,
    C: Fn(&ConeScaling<T>, &[T], bool) -> Vec<T>,
    P: Fn(Cone, &[T], &[T]) -> Vec<T>,
    Y: Fn(Cone, &[T], &[T]) -> Vec<T>,
    Z: Fn(Cone, &[T], T, T) -> Vec<T>,
>(
    prob: &QpProblem<T>,
    ain: Form,
    in_csr: Option<&CscMatrix<T>>,
    cones: &[Cone],
    offsets: &[usize],
    identities: &[Vec<T>],
    sc: &[ConeScaling<T>],
    it: &Iterate<T>,
    r: &Residuals<T>,
    degree: T,
    kron: bool,
    short_steps: usize,
    solve: S,
    Ghost(solves): Ghost<spec_fn(Seq<T>, bool, Solved<T>) -> bool>,
    al: &Algebra<I, R, C, P, Y, Z>,
) -> (out: (ConicStep<T>, usize))
    requires
        prob.wf(),
        form_fits(ain, opt_deref(in_csr), prob.a_in),
        cones_fit(cones@),
        total_size(cones@) == prob.mi(),
        offsets_of(cones@, offsets@),
        scalings_fit(cones@, sc@),
        it.fits(*prob),
        r.r_h@.len() == prob.mi(),
        short_steps < usize::MAX,
        forall|a: &[T], c: bool| a@.len() == prob.mi() ==> #[trigger] solve.requires((a, c)),
        forall|a: &[T], c: bool, v: Solved<T>| #[trigger]
            solve.ensures((a, c), v) ==> v.dx@.len() == prob.n() && v.dy@.len() == prob.me()
                && v.dz@.len() == prob.mi() && answers(solves, a@, c, v),
        curved_fit(cones@, identities@),
        algebra_fits(cones@, *al),
    ensures
        direction_fits(*prob, out.0.d@),
        out.1 <= short_steps + 1,
        is_newton_step(
            (Frame {
                prob: *prob,
                ain,
                in_csr: opt_deref(in_csr),
                cones: cones@,
                identities: identities@,
                sc: sc@,
                it: it@,
                r: *r,
            }),
            degree,
            kron,
            solves,
            *al,
            short_steps,
            out.0@,
            out.1 as int,
        ),
{
    let ghost f = Frame {
        prob: *prob,
        ain,
        in_csr: opt_deref(in_csr),
        cones: cones@,
        identities: identities@,
        sc: sc@,
        it: it@,
        r: *r,
    };
    let psd = has_psd(cones);
    // Predictor.
    let rhs_a = predictor_rhs(&r.r_h, &it.s);
    let arg_a: &[T] = rhs_a.as_slice();
    let sol_a = solve(arg_a, false);
    assert(answers(solves, arg_a@, false, sol_a));
    let aindx = times(ain, in_csr, &prob.a_in, &sol_a.dx);
    let ds_a = recover_ds(&r.r_h, &aindx);
    let ap_a = measure_step(cones, offsets, &it.s, &ds_a, al);
    let ad_a = measure_step(cones, offsets, &it.z, &sol_a.dz, al);
    let ghost aff = ConicStepView { d: direction_of(f, sol_a), ap: ap_a, ad: ad_a };
    assert(ds_a@ == aff.d.s);
    assert(solved_for(f, solves, minus_plus(f.r.r_h@, f.it.s), aff.d));
    assert(measures(f, al.ratio, aff.d, aff));
    let sigma = conic_centering(&it.s, &it.z, ap_a, &ds_a, ad_a, &sol_a.dz, r.mu, degree, kron);
    let sm = sigma.times(r.mu);
    // Combined direction.
    let blocks = curved_corrections(cones, offsets, al, sc, identities, &it.z, &ds_a, &sol_a.dz, sm);
    assert(corrections_at(f.cones, *al, f.sc, f.identities, f.it.z, aff.d.s, aff.d.z, sm, blocks@));
    let rhs_c = combined_rhs(cones, offsets, sc, &r.r_h, &it.s, &it.z, &ds_a, &sol_a.dz, sm, &blocks);
    let arg_c: &[T] = rhs_c.as_slice();
    let sol = solve(arg_c, false);
    assert(answers(solves, arg_c@, false, sol));
    let aindx_c = times(ain, in_csr, &prob.a_in, &sol.dx);
    let ds = recover_ds(&r.r_h, &aindx_c);
    let ap = measure_step(cones, offsets, &it.s, &ds, al);
    let ad = measure_step(cones, offsets, &it.z, &sol.dz, al);
    let ghost base_d = direction_of(f, sol);
    let mut step = ConicStep { d: Iterate { x: sol.dx, y: sol.dy, s: ds, z: sol.dz }, ap, ad };
    let ghost base = step@;
    assert(base.d == base_d);
    assert(combines(f, solves, *al, sm, aff, base));
    let mut short: usize = short_steps;
    if T::zero().below(r.mu) {
        let rounds: usize = plan_correctors(kron, psd, ap, ad, ap_a, ad_a, &mut short);
        let mut left: usize = rounds;
        let mut going = true;
        // Whatever the remaining rounds make of the present step, all the rounds make of the
        // first one.
        while going && left > 0
            invariant
                prob.wf(),
                form_fits(ain, opt_deref(in_csr), prob.a_in),
                cones_fit(cones@),
                total_size(cones@) == prob.mi(),
                offsets_of(cones@, offsets@),
                scalings_fit(cones@, sc@),
                it.fits(*prob),
                f == (Frame {
                    prob: *prob,
                    ain,
                    in_csr: opt_deref(in_csr),
                    cones: cones@,
                    identities: identities@,
                    sc: sc@,
                    it: it@,
                    r: *r,
                }),
                forall|a: &[T], c: bool| a@.len() == prob.mi() ==> #[trigger] solve.requires((a, c)),
                forall|a: &[T], c: bool, v: Solved<T>| #[trigger]
                    solve.ensures((a, c), v) ==> v.dx@.len() == prob.n() && v.dy@.len() == prob.me()
                        && v.dz@.len() == prob.mi() && answers(solves, a@, c, v),
                algebra_fits(cones@, *al),
                direction_fits(*prob, step.d@),
                left <= rounds,
                going ==> forall|fin: ConicStepView<T>|
                    recenters(f, solves, *al, sigma, step@, left as nat, fin)
                        ==> #[trigger] recenters(f, solves, *al, sigma, base, rounds as nat, fin),
                !going ==> recenters(f, solves, *al, sigma, base, rounds as nat, step@),
            decreases left + (if going { 1int } else { 0int }),
        {
            let ghost before = step@;
            let sp = moved_by(&it.s, enlarge(step.ap), &step.d.s);
            let zp = moved_by(&it.z, enlarge(step.ad), &step.d.z);
            let t = curved_targets(cones, offsets, al, sc, &it.z, &sp, &zp, r.mu);
            assert(targets_at(
                f.cones,
                *al,
                f.sc,
                f.it.z,
                moved(f.it.s, enlarged(before.ap), before.d.s),
                moved(f.it.z, enlarged(before.ad), before.d.z),
                f.r.mu,
                t.0@,
                t.1@,
            ));
            match recentering_rhs(cones, offsets, sc, &it.z, &sp, &zp, r.mu, &t.0, &t.1) {
                None => {
                    going = false;
                    assert(recenters(f, solves, *al, sigma, before, left as nat, before));
                },
                Some(rhs) => {
                    let arg: &[T] = rhs.as_slice();
                    let cor = solve(arg, true);
                    assert(answers(solves, arg@, true, cor));
                    let adx = times(ain, in_csr, &prob.a_in, &cor.dx);
                    let d = corrected_direction(&step.d, &cor, &adx);
                    let nap = measure_step(cones, offsets, &it.s, &d.s, al);
                    let nad = measure_step(cones, offsets, &it.z, &d.z, al);
                    let ghost next = ConicStepView { d: d@, ap: nap, ad: nad };
                    proof {
                        assert(measures(
                            f,
                            al.ratio,
                            corrected_view(
                                before.d,
                                cor.dx@,
                                cor.dy@,
                                cor.dz@,
                                times_spec(f.ain, f.in_csr, f.prob.a_in, cor.dx@),
                            ),
                            next,
                        ));
                    }
                    let taken = offer_direction(sigma, &mut step, d, nap, nad);
                    if taken {
                        proof {
                            assert(step@ == next);
                            assert forall|fin: ConicStepView<T>|
                                recenters(f, solves, *al, sigma, step@, (left - 1) as nat, fin) implies
                            #[trigger] recenters(f, solves, *al, sigma, base, rounds as nat, fin) by {
                                assert(recenters(
                                    f,
                                    solves,
                                    *al,
                                    sigma,
                                    before,
                                    left as nat,
                                    fin,
                                ));
                            }
                        }
                        left -= 1;
                    } else {
                        going = false;
                        proof {
                            assert(recenters(
                                f,
                                solves,
                                *al,
                                sigma,
                                before,
                                left as nat,
                                before,
                            ));
                        }
                    }
                },
            }
        }
        proof {
            if going {
                assert(recenters(f, solves, *al, sigma, step@, 0, step@));
            }
        }
    }
    assert(newton_step(
        f,
        degree,
        kron,
        solves,
        *al,
        short_steps,
        aff,
        base,
        step@,
        short as int,
    ));
    (step, short)
}

/// The centrality correctors keep a step or make it longer: wherever a correction was kept, the
/// shorter of the two step lengths grew by more than a hundredth.
pub proof fn correctors_lengthen<
    T: Scalar,
    I: Fn(Cone) -> Vec<T>,
    R: Fn(Cone, &[T], &[T]) -> T,
    C: Fn(&ConeScaling<T>, &[T], bool) -> Vec<T>,
    P: Fn(Cone, &[T], &[T]) -> Vec<T>,
    Y: Fn(Cone, &[T], &[T]) -> Vec<T>,
    Z: Fn(Cone, &[T], T, T) -> Vec<T>,
>(
    f: Frame<T>,
    solves: spec_fn(Seq<T>, bool, Solved<T>) -> bool,
    al: Algebra<I, R, C, P, Y, Z>,
    sigma: T,
    st: ConicStepView<T>,
    out: ConicStepView<T>,
)
    requires
        recenters(f, solves, al, sigma, st, 1, out),
    ensures
        out == st || st.ap.min(st.ad).plus(T::decimal(1, 2)).below(out.ap.min(out.ad)),
{
    reveal_with_fuel(recenters, 2);
}

} // verus!
