//! The directions of the conic engine: right-hand sides, step lengths, centering, centrality
//! correctors, the update of the iterate and the result.
use crate::cone::{
    cone_step, cones_fit, joint_step, lemma_block_bounds, offsets_of, size_upto, total_size, Cone,
    ConeScaling,
};
use crate::cone_laws::{balances_pair, orthant_scaling_balances_the_pair};
use crate::conic_step::{ConicState, Iterate, IterateView, Verdict};
use crate::fac::{folded_rx, unfolded, written, Solved};
use crate::kron::undo_change;
use crate::matrix::DenseMatrix;
use crate::pc_step::{
    any_nonzero, clamp_step, clamped, enlarged, gap_after, gap_upto, short_count, sums, sums_of,
};
use crate::problem::{grade, grade_status, QpProblem, QpSolution, Status};
use crate::products::{hessian_product, hessian_times, times};
use crate::scalar::Scalar;
use crate::vector::{all_finite, constant, copied, dot, dot_spec, filled, is_all_finite, moved, moved_by, negated};
use crate::warm::{splice, spliced};
use vstd::prelude::*;
use vstd::slice::slice_subrange;

verus! {

/// `-r + s`, entry by entry.
pub open spec fn minus_plus<T: Scalar>(r: Seq<T>, s: Seq<T>) -> Seq<T> {
    Seq::new(r.len(), |i: int| r[i].neg().plus(s[i]))
}

/// The complementarity right-hand side of the predictor: `-r_h + s`.
pub fn predictor_rhs<T: Scalar>(r_h: &[T], s: &[T]) -> (r: Vec<T>)
    requires
        r_h@.len() == s@.len(),
    ensures
        r@ == minus_plus(r_h@, s@),
{
    let mut r: Vec<T> = Vec::with_capacity(s.len());
    let mut i: usize = 0;
    while i < s.len()
        invariant
            i <= s@.len() == r_h@.len(),
            r@ =~= minus_plus(r_h@, s@).subrange(0, i as int),
        decreases s@.len() - i,
    {
        r.push(r_h[i].neg().plus(s[i]));
        i += 1;
    }
    assert(r@ =~= minus_plus(r_h@, s@));
    r
}

/// The right-hand side of the full system: the negated residuals, then the complementarity part.
/// The correctors leave the residuals out.
pub open spec fn system_rhs<T: Scalar>(r_d: Seq<T>, r_b: Seq<T>, rhs_z: Seq<T>, corrector: bool) -> Seq<T> {
    if corrector {
        constant(T::zero(), r_d.len()) + constant(T::zero(), r_b.len()) + rhs_z
    } else {
        negated(r_d) + negated(r_b) + rhs_z
    }
}

/// The right-hand side of the full system.
pub fn build_rhs<T: Scalar>(r_d: &[T], r_b: &[T], rhs_z: &[T], corrector: bool) -> (r: Vec<T>)
    ensures
        r@ == system_rhs(r_d@, r_b@, rhs_z@, corrector),
{
    let ghost all = system_rhs(r_d@, r_b@, rhs_z@, corrector);
    let mut r: Vec<T> = Vec::new();
    let mut i: usize = 0;
    while i < r_d.len()
        invariant
            all == system_rhs(r_d@, r_b@, rhs_z@, corrector),
            i <= r_d@.len(),
            r@ =~= all.subrange(0, i as int),
        decreases r_d@.len() - i,
    {
        r.push(
            if corrector {
                T::zero()
            } else {
                r_d[i].neg()
            },
        );
        i += 1;
    }
    i = 0;
    while i < r_b.len()
        invariant
            all == system_rhs(r_d@, r_b@, rhs_z@, corrector),
            i <= r_b@.len(),
            r@ =~= all.subrange(0, r_d@.len() + i),
        decreases r_b@.len() - i,
    {
        r.push(
            if corrector {
                T::zero()
            } else {
                r_b[i].neg()
            },
        );
        i += 1;
    }
    i = 0;
    while i < rhs_z.len()
        invariant
            all == system_rhs(r_d@, r_b@, rhs_z@, corrector),
            i <= rhs_z@.len(),
            r@ =~= all.subrange(0, r_d@.len() + r_b@.len() + i),
        decreases rhs_z@.len() - i,
    {
        r.push(rhs_z[i]);
        i += 1;
    }
    assert(r@ =~= all);
    r
}

/// Row `r` is not in the fold list.
pub open spec fn unfolded_row<T>(fold: Seq<(usize, usize, T)>, r: int) -> bool {
    forall|i: int| 0 <= i < fold.len() ==> (#[trigger] fold[i]).0 != r
}

/// The rows among the first `k` that are not folded.
pub open spec fn kept_rows<T>(fold: Seq<(usize, usize, T)>, k: nat) -> Seq<usize>
    decreases k,
{
    if k == 0 {
        Seq::empty()
    } else {
        let front = kept_rows(fold, (k - 1) as nat);
        if unfolded_row(fold, k - 1) {
            front.push((k - 1) as usize)
        } else {
            front
        }
    }
}

proof fn lemma_kept_rows<T>(fold: Seq<(usize, usize, T)>, k: nat)
    requires
        k <= usize::MAX,
    ensures
        kept_rows(fold, k).len() <= k,
        forall|i: int| 0 <= i < kept_rows(fold, k).len() ==> (#[trigger] kept_rows(fold, k)[i]) < k,
    decreases k,
{
    if k > 0 {
        lemma_kept_rows(fold, (k - 1) as nat);
    }
}

/// The rows that are not folded.
pub fn rows_kept<T: Copy>(fold: &[(usize, usize, T)], mi: usize) -> (r: Vec<usize>)
    requires
        forall|i: int| 0 <= i < fold@.len() ==> (#[trigger] fold@[i]).0 < mi,
    ensures
        r@ == kept_rows(fold@, mi as nat),
        r@.len() <= mi,
        forall|i: int| 0 <= i < r@.len() ==> (#[trigger] r@[i]) < mi,
{
    let mut marks: Vec<bool> = filled(true, mi);
    let mut i: usize = 0;
    while i < fold.len()
        invariant
            forall|i: int| 0 <= i < fold@.len() ==> (#[trigger] fold@[i]).0 < mi,
            i <= fold@.len(),
            marks@.len() == mi,
            forall|r: int|
                0 <= r < mi ==> (#[trigger] marks@[r] <==> forall|k: int|
                    0 <= k < i ==> (#[trigger] fold@[k]).0 != r),
        decreases fold@.len() - i,
    {
        let at: usize = fold[i].0;
        let ghost before = marks@;
        marks[at] = false;
        proof {
            assert forall|r: int| 0 <= r < mi implies (#[trigger] marks@[r] <==> forall|k: int|
                0 <= k < i + 1 ==> (#[trigger] fold@[k]).0 != r) by {
                if r == at {
                    assert(fold@[i as int].0 == r);
                } else {
                    assert(marks@[r] == before[r]);
                }
            }
        }
        i += 1;
    }
    let mut out: Vec<usize> = Vec::new();
    let mut r: usize = 0;
    while r < mi
        invariant
            marks@.len() == mi,
            forall|r: int| 0 <= r < mi ==> (#[trigger] marks@[r] <==> unfolded_row(fold@, r)),
            r <= mi,
            out@ == kept_rows(fold@, r as nat),
        decreases mi - r,
    {
        assert(marks@[r as int] <==> unfolded_row(fold@, r as int));
        if marks[r] {
            out.push(r);
        }
        r += 1;
    }
    proof {
        lemma_kept_rows(fold@, mi as nat);
    }
    out
}

/// The entries of `v` at the given rows.
pub open spec fn picked<T>(v: Seq<T>, rows: Seq<usize>) -> Seq<T> {
    Seq::new(rows.len(), |i: int| v[rows[i] as int])
}

/// The right-hand side of the system without the folded rows: what they would contribute is added
/// to the unknowns' part.
pub open spec fn folded_system_rhs<T: Scalar>(
    a_in: DenseMatrix<T>,
    fold: Seq<(usize, usize, T)>,
    r_d: Seq<T>,
    r_b: Seq<T>,
    rhs_z: Seq<T>,
    corrector: bool,
) -> Seq<T> {
    let rx = if corrector {
        constant(T::zero(), r_d.len())
    } else {
        negated(r_d)
    };
    let ry = if corrector {
        constant(T::zero(), r_b.len())
    } else {
        negated(r_b)
    };
    folded_rx(a_in, fold, rx, rhs_z, fold.len()) + ry + picked(rhs_z, kept_rows(fold, rhs_z.len()))
}

/// The right-hand side of the system without the folded rows.
pub fn build_folded_rhs<T: Scalar>(
    a_in: &DenseMatrix<T>,
    fold: &[(usize, usize, T)],
    r_d: &[T],
    r_b: &[T],
    rhs_z: &[T],
    corrector: bool,
) -> (r: Vec<T>)
    requires
        a_in.sized(rhs_z@.len(), r_d@.len()),
        forall|i: int|
            0 <= i < fold@.len() ==> (#[trigger] fold@[i]).0 < a_in.nrows && fold@[i].1 < a_in.ncols,
    ensures
        r@ == folded_system_rhs(*a_in, fold@, r_d@, r_b@, rhs_z@, corrector),
{
    let n: usize = r_d.len();
    let mi: usize = rhs_z.len();
    let empty: Vec<T> = Vec::new();
    let mut r: Vec<T> = if corrector {
        filled(T::zero(), n)
    } else {
        crate::vector::negated_of(r_d)
    };
    let ghost rx = r@;
    let mut k: usize = 0;
    while k < fold.len()
        invariant
            a_in.sized(rhs_z@.len(), r_d@.len()),
            forall|i: int|
                0 <= i < fold@.len() ==> (#[trigger] fold@[i]).0 < a_in.nrows && fold@[i].1 < a_in.ncols,
            k <= fold@.len(),
            r@.len() == a_in.ncols,
            r@ == folded_rx(*a_in, fold@, rx, rhs_z@, k as nat),
        decreases fold@.len() - k,
    {
        let (row, col, hinv) = fold[k];
        assert(fold@[k as int].0 < a_in.nrows);
        let v = r[col].plus(a_in.get(row, col).times(hinv).times(rhs_z[row]));
        r[col] = v;
        k += 1;
    }
    let ghost head = r@;
    let ghost ry = if corrector {
        constant(T::zero(), r_b@.len())
    } else {
        negated(r_b@)
    };
    let mut i: usize = 0;
    while i < r_b.len()
        invariant
            ry == (if corrector {
                constant(T::zero(), r_b@.len())
            } else {
                negated(r_b@)
            }),
            i <= r_b@.len(),
            r@ =~= head + ry.subrange(0, i as int),
        decreases r_b@.len() - i,
    {
        r.push(
            if corrector {
                T::zero()
            } else {
                r_b[i].neg()
            },
        );
        i += 1;
    }
    let rows = rows_kept(fold, mi);
    let ghost tail = picked(rhs_z@, rows@);
    i = 0;
    while i < rows.len()
        invariant
            forall|k: int| 0 <= k < rows@.len() ==> (#[trigger] rows@[k]) < rhs_z@.len(),
            tail == picked(rhs_z@, rows@),
            i <= rows@.len(),
            r@ =~= head + ry + tail.subrange(0, i as int),
        decreases rows@.len() - i,
    {
        r.push(rhs_z[rows[i]]);
        i += 1;
    }
    assert(r@ =~= head + ry + tail);
    r
}

/// The multipliers of all rows from those of the kept rows and the unknowns.
pub open spec fn folded_dz<T: Scalar>(
    a_in: DenseMatrix<T>,
    fold: Seq<(usize, usize, T)>,
    dx: Seq<T>,
    rhs_z: Seq<T>,
    dz_kept: Seq<T>,
) -> Seq<T> {
    let rows = kept_rows(fold, rhs_z.len());
    unfolded(
        a_in,
        fold,
        dx,
        rhs_z,
        written(constant(T::zero(), rhs_z.len()), rows, dz_kept, rows.len()),
        fold.len(),
    )
}

/// Recovers the multipliers of the folded rows.
pub fn recover_folded<T: Scalar>(
    a_in: &DenseMatrix<T>,
    fold: &[(usize, usize, T)],
    dx: &[T],
    rhs_z: &[T],
    dz_kept: &[T],
) -> (r: Vec<T>)
    requires
        a_in.sized(rhs_z@.len(), dx@.len()),
        forall|i: int|
            0 <= i < fold@.len() ==> (#[trigger] fold@[i]).0 < a_in.nrows && fold@[i].1 < a_in.ncols,
        dz_kept@.len() == kept_rows(fold@, rhs_z@.len()).len(),
    ensures
        r@ == folded_dz(*a_in, fold@, dx@, rhs_z@, dz_kept@),
        r@.len() == rhs_z@.len(),
{
    let mi: usize = rhs_z.len();
    let rows = rows_kept(fold, mi);
    let mut r: Vec<T> = filled(T::zero(), mi);
    let mut i: usize = 0;
    while i < rows.len()
        invariant
            forall|k: int| 0 <= k < rows@.len() ==> (#[trigger] rows@[k]) < mi,
            dz_kept@.len() == rows@.len(),
            i <= rows@.len(),
            r@.len() == mi,
            r@ == written(constant(T::zero(), mi as nat), rows@, dz_kept@, i as nat),
        decreases rows@.len() - i,
    {
        let at: usize = rows[i];
        r[at] = dz_kept[i];
        i += 1;
    }
    let ghost base = r@;
    let mut k: usize = 0;
    while k < fold.len()
        invariant
            a_in.sized(rhs_z@.len(), dx@.len()),
            mi == rhs_z@.len(),
            forall|i: int|
                0 <= i < fold@.len() ==> (#[trigger] fold@[i]).0 < a_in.nrows && fold@[i].1 < a_in.ncols,
            k <= fold@.len(),
            r@.len() == mi,
            r@ == unfolded(*a_in, fold@, dx@, rhs_z@, base, k as nat),
        decreases fold@.len() - k,
    {
        let (row, col, hinv) = fold[k];
        assert(fold@[k as int].0 < a_in.nrows);
        r[row] = hinv.times(a_in.get(row, col).times(dx[col]).minus(rhs_z[row]));
        k += 1;
    }
    r
}

/// `-r_h - A_in dx`, the direction of the slacks.
pub open spec fn slack_direction<T: Scalar>(r_h: Seq<T>, aindx: Seq<T>) -> Seq<T> {
    Seq::new(r_h.len(), |i: int| r_h[i].neg().minus(aindx[i]))
}

/// The direction of the slacks.
pub fn recover_ds<T: Scalar>(r_h: &[T], aindx: &[T]) -> (r: Vec<T>)
    requires
        aindx@.len() == r_h@.len(),
    ensures
        r@ == slack_direction(r_h@, aindx@),
{
    let mut r: Vec<T> = Vec::with_capacity(r_h.len());
    let mut i: usize = 0;
    while i < r_h.len()
        invariant
            i <= r_h@.len() == aindx@.len(),
            r@ =~= slack_direction(r_h@, aindx@).subrange(0, i as int),
        decreases r_h@.len() - i,
    {
        r.push(r_h[i].neg().minus(aindx[i]));
        i += 1;
    }
    assert(r@ =~= slack_direction(r_h@, aindx@));
    r
}

/// The fraction of a boundary step that is taken.
pub open spec fn ftb<T: Scalar>() -> T {
    T::decimal(999, 3)
}

/// The step length along a direction: a fraction of the joint boundary step, clamped to the unit
/// interval.
pub fn step_length<T: Scalar>(cones: &[Cone], offsets: &[usize], v: &[T], dv: &[T], curved: &[T]) -> (r: T)
    requires
        cones_fit(cones@),
        offsets_of(cones@, offsets@),
        v@.len() == total_size(cones@),
        dv@.len() == v@.len(),
        curved@.len() == cones@.len(),
    ensures
        r == clamped(ftb(), joint_step(cones@, v@, dv@, curved@)),
{
    clamp_step(T::decimal(999, 3), cone_step(cones, offsets, v, dv, curved))
}

/// The centering parameter: the cube of the ratio of the predicted to the present gap, clamped,
/// and held above a floor, which is lower for the Kronecker structure; zero without a gap.
pub open spec fn conic_sigma<T: Scalar>(mu_aff: T, mu: T, kron: bool) -> T {
    if T::zero().below(mu) {
        let alpha = mu_aff.over(mu).max(T::zero()).min(T::one());
        let raw = alpha.times(alpha).min(T::decimal(25, 2)).times(alpha);
        raw.max(
            if kron {
                T::decimal(1, 3)
            } else {
                T::decimal(3, 2)
            },
        )
    } else {
        T::zero()
    }
}

/// The centering parameter after the predictor: `ap` and `ad` are its step lengths, `ds` and `dz`
/// its directions.
pub fn conic_centering<T: Scalar>(
    s: &[T],
    z: &[T],
    ap: T,
    ds: &[T],
    ad: T,
    dz: &[T],
    mu: T,
    degree: T,
    kron: bool,
) -> (r: T)
    requires
        s@.len() == z@.len(),
        ds@.len() == s@.len(),
        dz@.len() == s@.len(),
    ensures
        r == conic_sigma(gap_upto(s@, z@, ap, ds@, ad, dz@, s@.len()).over(degree), mu, kron),
{
    let mu_aff = gap_after(s, z, ap, ds, ad, dz).over(degree);
    if T::zero().below(mu) {
        let alpha = mu_aff.over(mu).max(T::zero()).min(T::one());
        let raw = alpha.times(alpha).min(T::decimal(25, 2)).times(alpha);
        let floor = if kron {
            T::decimal(1, 3)
        } else {
            T::decimal(3, 2)
        };
        raw.max(floor)
    } else {
        T::zero()
    }
}

/// The second-order correction of one entry of an orthant: the scaled product of the predictor's
/// directions less the centering target, divided by the scaled point and scaled back.
pub open spec fn orthant_correction<T: Scalar>(w: T, z: T, ds: T, dz: T, sm: T) -> T {
    let corr = ds.over(w).times(w.times(dz));
    w.times(corr.minus(sm.times(T::one())).over(w.times(z)))
}

/// The scaling of entry `i` of an orthant.
pub open spec fn weight<T: Scalar>(sc: ConeScaling<T>, i: int) -> T {
    match sc {
        ConeScaling::NonNeg { w } => w@[i],
        _ => T::one(),
    }
}

/// The correction of cone `c`: entry by entry on an orthant, and `curved[c]`, what the cone's own
/// algebra gives, on any other cone.
pub open spec fn cone_correction<T: Scalar>(
    cones: Seq<Cone>,
    sc: Seq<ConeScaling<T>>,
    z: Seq<T>,
    ds: Seq<T>,
    dz: Seq<T>,
    sm: T,
    curved: Seq<Vec<T>>,
    c: int,
) -> Seq<T> {
    let o = size_upto(cones, c as nat) as int;
    if cones[c] is NonNeg {
        Seq::new(
            cones[c].size(),
            |i: int| orthant_correction(weight(sc[c], i), z[o + i], ds[o + i], dz[o + i], sm),
        )
    } else {
        curved[c]@
    }
}

/// `-r_h + s` and the correction of each of the first `k` cones added in its block.
pub open spec fn combined_upto<T: Scalar>(
    cones: Seq<Cone>,
    sc: Seq<ConeScaling<T>>,
    r_h: Seq<T>,
    s: Seq<T>,
    z: Seq<T>,
    ds: Seq<T>,
    dz: Seq<T>,
    sm: T,
    curved: Seq<Vec<T>>,
    k: nat,
) -> Seq<T>
    decreases k,
{
    if k == 0 {
        constant(T::zero(), s.len())
    } else {
        let c = k - 1;
        let o = size_upto(cones, c as nat);
        let cor = cone_correction(cones, sc, z, ds, dz, sm, curved, c);
        spliced(
            combined_upto(cones, sc, r_h, s, z, ds, dz, sm, curved, c as nat),
            o,
            Seq::new(cor.len(), |i: int| r_h[o + i].neg().plus(s[o + i]).plus(cor[i])),
        )
    }
}

/// There is one scaling per cone, of the cone's kind.
pub open spec fn scalings_fit<T: Scalar>(cones: Seq<Cone>, sc: Seq<ConeScaling<T>>) -> bool {
    &&& sc.len() == cones.len()
    &&& forall|c: int| 0 <= c < cones.len() ==> (#[trigger] sc[c]).matches_cone(cones[c])
}

/// There is one vector per curved cone, of the cone's size.
pub open spec fn curved_fit<T>(cones: Seq<Cone>, curved: Seq<Vec<T>>) -> bool {
    &&& curved.len() == cones.len()
    &&& forall|c: int|
        0 <= c < cones.len() && !(cones[c] is NonNeg) ==> (#[trigger] curved[c])@.len() == cones[c].size()
}

/// The correction of an orthant, by its Jordan algebra: the scaled directions are multiplied, the
/// centering target is taken off, and the arrow operator of the scaled point is inverted.
fn correct_orthant<T: Scalar>(sc: &ConeScaling<T>, z: &[T], ds: &[T], dz: &[T], sm: T) -> (r: Vec<T>)
    requires
        sc matches ConeScaling::NonNeg { w } && w@.len() == z@.len(),
        ds@.len() == z@.len(),
        dz@.len() == z@.len(),
    ensures
        r@ == Seq::new(z@.len(), |i: int| orthant_correction(weight(*sc, i), z@[i], ds@[i], dz@[i], sm)),
{
    let d: usize = z.len();
    let cone = Cone::NonNeg(d);
    let mut lam: Vec<T> = filled(T::zero(), d);
    let mut winv_ds: Vec<T> = filled(T::zero(), d);
    let mut w_dz: Vec<T> = filled(T::zero(), d);
    let mut corr: Vec<T> = filled(T::zero(), d);
    let mut ainv: Vec<T> = filled(T::zero(), d);
    let mut r: Vec<T> = filled(T::zero(), d);
    sc.apply_w_into(z, z, &mut lam);
    sc.apply_w_inv_into(ds, z, &mut winv_ds);
    sc.apply_w_into(dz, z, &mut w_dz);
    cone.jordan_into(&winv_ds, &w_dz, z, &mut corr);
    let mut inner: Vec<T> = Vec::with_capacity(d);
    let mut i: usize = 0;
    while i < d
        invariant
            i <= d,
            corr@.len() == d,
            inner@.len() == i,
            forall|k: int| 0 <= k < i ==> #[trigger] inner@[k] == corr@[k].minus(sm.times(T::one())),
        decreases d - i,
    {
        inner.push(corr[i].minus(sm.times(T::one())));
        i += 1;
    }
    cone.arrow_inv_into(&lam, &inner, z, &mut ainv);
    sc.apply_w_into(&ainv, z, &mut r);
    assert(r@ =~= Seq::new(z@.len(), |i: int| orthant_correction(weight(*sc, i), z@[i], ds@[i], dz@[i], sm)));
    r
}

/// The complementarity right-hand side of the combined step, with the centering target `sm`.
/// `curved[c]` is the correction of cone `c` where it is not an orthant.
pub fn combined_rhs<T: Scalar>(
    cones: &[Cone],
    offsets: &[usize],
    sc: &[ConeScaling<T>],
    r_h: &[T],
    s: &[T],
    z: &[T],
    ds: &[T],
    dz: &[T],
    sm: T,
    curved: &[Vec<T>],
) -> (r: Vec<T>)
    requires
        cones_fit(cones@),
        offsets_of(cones@, offsets@),
        scalings_fit(cones@, sc@),
        curved_fit(cones@, curved@),
        s@.len() == total_size(cones@),
        r_h@.len() == s@.len(),
        z@.len() == s@.len(),
        ds@.len() == s@.len(),
        dz@.len() == s@.len(),
    ensures
        r@ == combined_upto(
            cones@,
            sc@,
            r_h@,
            s@,
            z@,
            ds@,
            dz@,
            sm,
            curved@,
            cones@.len(),
        ),
        r@.len() == s@.len(),
{
    let mi: usize = s.len();
    let mut out: Vec<T> = filled(T::zero(), mi);
    let mut c: usize = 0;
    while c < cones.len()
        invariant
            cones_fit(cones@),
            offsets_of(cones@, offsets@),
            scalings_fit(cones@, sc@),
            curved_fit(cones@, curved@),
            mi == s@.len() == total_size(cones@),
            r_h@.len() == mi,
            z@.len() == mi,
            ds@.len() == mi,
            dz@.len() == mi,
            c <= cones@.len(),
            out@.len() == mi,
            out@ == combined_upto(
                cones@,
                sc@,
                r_h@,
                s@,
                z@,
                ds@,
                dz@,
                sm,
                curved@,
                c as nat,
            ),
        decreases cones@.len() - c,
    {
        let o: usize = offsets[c];
        let cone: Cone = cones[c];
        let d: usize = cone.dim();
        proof {
            lemma_block_bounds(cones@, c as int);
            assert(sc@[c as int].matches_cone(cones@[c as int]));
        }
        let ghost cor = cone_correction(cones@, sc@, z@, ds@, dz@, sm, curved@, c as int);
        let added: Vec<T> = match cone {
            Cone::NonNeg(_) => correct_orthant(
                &sc[c],
                slice_subrange(z, o, o + d),
                slice_subrange(ds, o, o + d),
                slice_subrange(dz, o, o + d),
                sm,
            ),
            _ => copied(&curved[c]),
        };
        assert(added@ =~= cor);
        let mut part: Vec<T> = Vec::with_capacity(d);
        let mut i: usize = 0;
        while i < d
            invariant
                scalings_fit(cones@, sc@),
                curved_fit(cones@, curved@),
                sc@[c as int].matches_cone(cones@[c as int]),
                c < cones@.len(),
                cone == cones@[c as int],
                o == size_upto(cones@, c as nat),
                d == cone.size(),
                o + d <= mi,
                mi == s@.len(),
                r_h@.len() == mi,
                z@.len() == mi,
                ds@.len() == mi,
                dz@.len() == mi,
                cor == cone_correction(cones@, sc@, z@, ds@, dz@, sm, curved@, c as int),
                cor.len() == d,
                added@ == cor,
                i <= d,
                part@.len() == i,
                forall|k: int|
                    0 <= k < i ==> #[trigger] part@[k] == r_h@[o + k].neg().plus(s@[o + k]).plus(
                        cor[k],
                    ),
            decreases d - i,
        {
            part.push(r_h[o + i].neg().plus(s[o + i]).plus(added[i]));
            i += 1;
        }
        proof {
            assert(part@ =~= Seq::new(
                cor.len(),
                |i: int| r_h@[o + i].neg().plus(s@[o + i]).plus(cor[i]),
            ));
        }
        splice(&mut out, o, &part);
        c += 1;
    }
    out
}

/// The displacement of one entry of an orthant into the central band at the enlarged step.
pub open spec fn orthant_target<T: Scalar>(w: T, s: T, z: T, mu: T) -> T {
    let v = s.over(w).times(w.times(z));
    v.max(T::decimal(1, 1).times(mu)).min(T::decimal(10, 0).times(mu)).minus(v)
}

/// The displacements of cone `c`, and `psi[c]`, what the cone's own algebra gives, where it is
/// not an orthant.
pub open spec fn cone_target<T: Scalar>(
    cones: Seq<Cone>,
    sc: Seq<ConeScaling<T>>,
    st: Seq<T>,
    zt: Seq<T>,
    mu: T,
    psi: Seq<Vec<T>>,
    c: int,
) -> Seq<T> {
    let o = size_upto(cones, c as nat) as int;
    if cones[c] is NonNeg {
        Seq::new(
            cones[c].size(),
            |i: int| orthant_target(weight(sc[c], i), st[o + i], zt[o + i], mu),
        )
    } else {
        psi[c]@
    }
}

/// The corrector's right-hand side of one entry of an orthant.
pub open spec fn orthant_recentered<T: Scalar>(w: T, z: T, target: T) -> T {
    w.times(target.neg().over(w.times(z)))
}

/// The corrector's right-hand side of cone `c`, and `curved[c]` where it is not an orthant.
pub open spec fn cone_recentered<T: Scalar>(
    cones: Seq<Cone>,
    sc: Seq<ConeScaling<T>>,
    z: Seq<T>,
    target: Seq<T>,
    curved: Seq<Vec<T>>,
    c: int,
) -> Seq<T> {
    let o = size_upto(cones, c as nat) as int;
    if cones[c] is NonNeg {
        Seq::new(
            cones[c].size(),
            |i: int| orthant_recentered(weight(sc[c], i), z[o + i], target[i]),
        )
    } else {
        curved[c]@
    }
}

/// The corrector's right-hand side over the first `k` cones, written over zeros.
pub open spec fn recentered_upto<T: Scalar>(
    cones: Seq<Cone>,
    sc: Seq<ConeScaling<T>>,
    z: Seq<T>,
    st: Seq<T>,
    zt: Seq<T>,
    mu: T,
    psi: Seq<Vec<T>>,
    curved: Seq<Vec<T>>,
    k: nat,
) -> Seq<T>
    decreases k,
{
    if k == 0 {
        constant(T::zero(), z.len())
    } else {
        let c = k - 1;
        let target = cone_target(cones, sc, st, zt, mu, psi, c);
        spliced(
            recentered_upto(cones, sc, z, st, zt, mu, psi, curved, c as nat),
            size_upto(cones, c as nat),
            cone_recentered(cones, sc, z, target, curved, c),
        )
    }
}

/// Some cone among the first `k` is not centered.
pub open spec fn uncentered<T: Scalar>(
    cones: Seq<Cone>,
    sc: Seq<ConeScaling<T>>,
    st: Seq<T>,
    zt: Seq<T>,
    mu: T,
    psi: Seq<Vec<T>>,
    k: nat,
) -> bool {
    exists|c: int|
        0 <= c < k && any_nonzero(#[trigger] cone_target(cones, sc, st, zt, mu, psi, c))
}

/// The displacement of an orthant into the band from `lo` to `hi`, by its Jordan algebra.
fn target_orthant<T: Scalar>(sc: &ConeScaling<T>, st: &[T], zt: &[T], mu: T) -> (r: Vec<T>)
    requires
        sc matches ConeScaling::NonNeg { w } && w@.len() == st@.len(),
        zt@.len() == st@.len(),
    ensures
        r@ == Seq::new(st@.len(), |i: int| orthant_target(weight(*sc, i), st@[i], zt@[i], mu)),
{
    let d: usize = st.len();
    let cone = Cone::NonNeg(d);
    let mut winv: Vec<T> = filled(T::zero(), d);
    let mut w_zt: Vec<T> = filled(T::zero(), d);
    let mut v: Vec<T> = filled(T::zero(), d);
    let mut r: Vec<T> = filled(T::zero(), d);
    sc.apply_w_inv_into(st, st, &mut winv);
    sc.apply_w_into(zt, st, &mut w_zt);
    cone.jordan_into(&winv, &w_zt, st, &mut v);
    cone.centrality_target_into(&v, T::decimal(1, 1).times(mu), T::decimal(10, 0).times(mu), st, &mut r);
    assert(r@ =~= Seq::new(st@.len(), |i: int| orthant_target(weight(*sc, i), st@[i], zt@[i], mu)));
    r
}

/// The corrector's right-hand side of an orthant, by its Jordan algebra.
fn recenter_orthant<T: Scalar>(sc: &ConeScaling<T>, z: &[T], target: &[T]) -> (r: Vec<T>)
    requires
        sc matches ConeScaling::NonNeg { w } && w@.len() == z@.len(),
        target@.len() == z@.len(),
    ensures
        r@ == Seq::new(z@.len(), |i: int| orthant_recentered(weight(*sc, i), z@[i], target@[i])),
{
    let d: usize = z.len();
    let cone = Cone::NonNeg(d);
    let mut lam: Vec<T> = filled(T::zero(), d);
    let mut ainv: Vec<T> = filled(T::zero(), d);
    let mut r: Vec<T> = filled(T::zero(), d);
    let mut back: Vec<T> = Vec::with_capacity(d);
    let mut i: usize = 0;
    while i < d
        invariant
            i <= d == target@.len(),
            back@.len() == i,
            forall|k: int| 0 <= k < i ==> #[trigger] back@[k] == target@[k].neg(),
        decreases d - i,
    {
        back.push(target[i].neg());
        i += 1;
    }
    sc.apply_w_into(z, z, &mut lam);
    cone.arrow_inv_into(&lam, &back, z, &mut ainv);
    sc.apply_w_into(&ainv, z, &mut r);
    assert(r@ =~= Seq::new(z@.len(), |i: int| orthant_recentered(weight(*sc, i), z@[i], target@[i])));
    r
}

/// The right-hand side of the next centrality corrector; none where every cone is centered already.
/// `st` and `zt` are slacks and multipliers at the enlarged step. For a cone that is not an
/// orthant, `psi[c]` is its displacement into the central band and `curved[c]` its right-hand
/// side.
pub fn recentering_rhs<T: Scalar>(
    cones: &[Cone],
    offsets: &[usize],
    sc: &[ConeScaling<T>],
    z: &[T],
    st: &[T],
    zt: &[T],
    mu: T,
    psi: &[Vec<T>],
    curved: &[Vec<T>],
) -> (r: Option<Vec<T>>)
    requires
        cones_fit(cones@),
        offsets_of(cones@, offsets@),
        scalings_fit(cones@, sc@),
        curved_fit(cones@, psi@),
        curved_fit(cones@, curved@),
        z@.len() == total_size(cones@),
        st@.len() == z@.len(),
        zt@.len() == z@.len(),
    ensures
        r is Some == uncentered(cones@, sc@, st@, zt@, mu, psi@, cones@.len()),
        r matches Some(v) ==> v@ == recentered_upto(
            cones@,
            sc@,
            z@,
            st@,
            zt@,
            mu,
            psi@,
            curved@,
            cones@.len(),
        ) && v@.len() == z@.len(),
{
    let mi: usize = z.len();
    let mut out: Vec<T> = filled(T::zero(), mi);
    let mut any = false;
    let mut c: usize = 0;
    while c < cones.len()
        invariant
            cones_fit(cones@),
            offsets_of(cones@, offsets@),
            scalings_fit(cones@, sc@),
            curved_fit(cones@, psi@),
            curved_fit(cones@, curved@),
            mi == z@.len() == total_size(cones@),
            st@.len() == mi,
            zt@.len() == mi,
            c <= cones@.len(),
            out@.len() == mi,
            any == uncentered(cones@, sc@, st@, zt@, mu, psi@, c as nat),
            out@ == recentered_upto(
                cones@,
                sc@,
                z@,
                st@,
                zt@,
                mu,
                psi@,
                curved@,
                c as nat,
            ),
        decreases cones@.len() - c,
    {
        let o: usize = offsets[c];
        let cone: Cone = cones[c];
        let d: usize = cone.dim();
        proof {
            lemma_block_bounds(cones@, c as int);
            assert(sc@[c as int].matches_cone(cones@[c as int]));
        }
        let ghost target = cone_target(cones@, sc@, st@, zt@, mu, psi@, c as int);
        let ghost part_spec = cone_recentered(cones@, sc@, z@, target, curved@, c as int);
        let (pushed, part): (Vec<T>, Vec<T>) = match cone {
            Cone::NonNeg(_) => {
                let t = target_orthant(
                    &sc[c],
                    slice_subrange(st, o, o + d),
                    slice_subrange(zt, o, o + d),
                    mu,
                );
                let v = recenter_orthant(&sc[c], slice_subrange(z, o, o + d), &t);
                (t, v)
            },
            _ => (copied(&psi[c]), copied(&curved[c])),
        };
        assert(pushed@ =~= target);
        assert(part@ =~= part_spec);
        let mut here = false;
        let mut i: usize = 0;
        while i < d
            invariant
                i <= d == target.len(),
                pushed@ == target,
                here <==> exists|k: int| 0 <= k < i && !(#[trigger] target[k]).equals(T::zero()),
            decreases d - i,
        {
            if !pushed[i].equals(T::zero()) {
                assert(!target[i as int].equals(T::zero()));
                here = true;
            }
            i += 1;
        }
        assert(here == any_nonzero(target));
        if here {
            any = true;
        }
        splice(&mut out, o, &part);
        proof {
            assert(any == uncentered(cones@, sc@, st@, zt@, mu, psi@, (c + 1) as nat)) by {
                if any {
                    if here {
                        assert(any_nonzero(
                            cone_target(cones@, sc@, st@, zt@, mu, psi@, c as int),
                        ));
                    } else {
                        let k = choose|k: int|
                            0 <= k < c && any_nonzero(
                                #[trigger] cone_target(cones@, sc@, st@, zt@, mu, psi@, k),
                            );
                        assert(any_nonzero(cone_target(cones@, sc@, st@, zt@, mu, psi@, k)));
                    }
                }
            }
        }
        c += 1;
    }
    if any {
        Some(out)
    } else {
        None
    }
}

/// A direction of the iterate with its step lengths.
pub struct ConicStep<T> {
    pub d: Iterate<T>,
    pub ap: T,
    pub ad: T,
}

/// The number of centrality correctors: none for the Kronecker structure or after three short
/// steps in a row, two where some cone is semidefinite, else one.
pub open spec fn corrector_rounds(kron: bool, psd: bool, short_steps: int) -> nat {
    if kron || short_steps >= 3 {
        0
    } else if psd {
        2
    } else {
        1
    }
}

/// Counts the step among the short ones if it came out shorter than a tenth of its predictor, and
/// returns the number of centrality correctors.
pub fn plan_correctors<T: Scalar>(
    kron: bool,
    psd: bool,
    ap: T,
    ad: T,
    ap_a: T,
    ad_a: T,
    short_steps: &mut usize,
) -> (r: usize)
    requires
        *old(short_steps) < usize::MAX,
    ensures
        *final(short_steps) == short_count(*old(short_steps), ap, ad, ap_a, ad_a),
        r == corrector_rounds(kron, psd, *final(short_steps) as int),
{
    if ap.min(ad).below(T::decimal(1, 1).times(ap_a.min(ad_a))) {
        *short_steps = *short_steps + 1;
    } else {
        *short_steps = 0;
    }
    if kron || *short_steps >= 3 {
        0
    } else if psd {
        2
    } else {
        1
    }
}

/// The enlarged step length.
pub fn enlarge<T: Scalar>(a: T) -> (r: T)
    ensures
        r == enlarged(a),
{
    a.plus(T::decimal(1, 1)).min(T::one())
}

/// The entry-by-entry difference.
pub open spec fn differences<T: Scalar>(a: Seq<T>, b: Seq<T>) -> Seq<T> {
    Seq::new(a.len(), |i: int| a[i].minus(b[i]))
}

/// The direction after a correction: the unknowns' and the multipliers' parts are added, and the
/// slacks follow by `-A_in dx`.
pub open spec fn corrected_view<T: Scalar>(
    d: IterateView<T>,
    dx: Seq<T>,
    dy: Seq<T>,
    dz: Seq<T>,
    aindx: Seq<T>,
) -> IterateView<T> {
    IterateView {
        x: sums(d.x, dx),
        y: sums(d.y, dy),
        s: differences(d.s, aindx),
        z: sums(d.z, dz),
    }
}

/// The direction after a correction.
pub fn corrected_direction<T: Scalar>(d: &Iterate<T>, cor: &Solved<T>, aindx: &[T]) -> (r: Iterate<T>)
    requires
        cor.dx@.len() == d.x@.len(),
        cor.dy@.len() == d.y@.len(),
        cor.dz@.len() == d.z@.len(),
        aindx@.len() == d.s@.len(),
    ensures
        r@ == corrected_view(d@, cor.dx@, cor.dy@, cor.dz@, aindx@),
{
    let mut s: Vec<T> = Vec::with_capacity(aindx.len());
    let mut i: usize = 0;
    while i < aindx.len()
        invariant
            i <= aindx@.len() == d.s@.len(),
            s@ =~= differences(d.s@, aindx@).subrange(0, i as int),
        decreases aindx@.len() - i,
    {
        s.push(d.s[i].minus(aindx[i]));
        i += 1;
    }
    assert(s@ =~= differences(d.s@, aindx@));
    Iterate { x: sums_of(&d.x, &cor.dx), y: sums_of(&d.y, &cor.dy), s, z: sums_of(&d.z, &cor.dz) }
}

/// A correction with the step lengths `nap` and `nad` is accepted over the step lengths `ap` and
/// `ad`: it lengthens the step by more than a hundredth and improves the gap by at least a
/// thousandth.
pub open spec fn accepted<T: Scalar>(sigma: T, ap: T, ad: T, nap: T, nad: T) -> bool {
    let one = T::one();
    let new_step = nap.min(nad);
    let old_step = ap.min(ad);
    let factor = one.minus(sigma);
    let gap_new = one.minus(new_step.times(factor));
    let gap_old = one.minus(old_step.times(factor));
    let quality = if T::zero().below(gap_old) {
        one.minus(gap_new.over(gap_old))
    } else {
        one
    };
    old_step.plus(T::decimal(1, 2)).below(new_step) && !quality.below(T::decimal(1, 3))
}

/// Offers a corrected direction to the step. Returns whether it was accepted; a direction that is
/// not accepted leaves the step as it is.
pub fn offer_direction<T: Scalar>(sigma: T, step: &mut ConicStep<T>, d: Iterate<T>, nap: T, nad: T) -> (taken:
    bool)
    ensures
        taken == accepted(sigma, old(step).ap, old(step).ad, nap, nad),
        taken ==> final(step).d == d && final(step).ap == nap && final(step).ad == nad,
        !taken ==> *final(step) == *old(step),
{
    let one = T::one();
    let new_step = nap.min(nad);
    let old_step = step.ap.min(step.ad);
    if !old_step.plus(T::decimal(1, 2)).below(new_step) {
        return false;
    }
    let factor = one.minus(sigma);
    let gap_new = one.minus(new_step.times(factor));
    let gap_old = one.minus(old_step.times(factor));
    let quality = if T::zero().below(gap_old) {
        one.minus(gap_new.over(gap_old))
    } else {
        one
    };
    if quality.below(T::decimal(1, 3)) {
        return false;
    }
    step.d = d;
    step.ap = nap;
    step.ad = nad;
    true
}

/// The iterate after a step.
pub open spec fn stepped<T: Scalar>(it: IterateView<T>, d: IterateView<T>, ap: T, ad: T) -> IterateView<T> {
    IterateView {
        x: moved(it.x, ap, d.x),
        y: moved(it.y, ad, d.y),
        s: moved(it.s, ap, d.s),
        z: moved(it.z, ad, d.z),
    }
}

/// The iterate after a step.
pub fn take_step<T: Scalar>(it: &Iterate<T>, step: &ConicStep<T>) -> (r: Iterate<T>)
    requires
        step.d.x@.len() == it.x@.len(),
        step.d.y@.len() == it.y@.len(),
        step.d.s@.len() == it.s@.len(),
        step.d.z@.len() == it.z@.len(),
    ensures
        r@ == stepped(it@, step.d@, step.ap, step.ad),
{
    Iterate {
        x: moved_by(&it.x, step.ap, &step.d.x),
        y: moved_by(&it.y, step.ad, &step.d.y),
        s: moved_by(&it.s, step.ap, &step.d.s),
        z: moved_by(&it.z, step.ad, &step.d.z),
    }
}

/// The scaling of an orthant: the ratios of slack and multiplier, and their roots.
pub fn scale_orthant<T: Scalar>(s: &[T], z: &[T]) -> (r: (ConeScaling<T>, Vec<T>))
    requires
        s@.len() == z@.len(),
    ensures
        r.1@ == Seq::new(s@.len(), |i: int| s@[i].over(z@[i])),
        r.0 matches ConeScaling::NonNeg { w } && w@ == Seq::new(
            s@.len(),
            |i: int| s@[i].over(z@[i]).sqrt(),
        ),
        balances_pair(s@, z@, r.0, r.1@),
{
    let mut w: Vec<T> = Vec::with_capacity(s.len());
    let mut diag: Vec<T> = Vec::with_capacity(s.len());
    let mut i: usize = 0;
    while i < s.len()
        invariant
            i <= s@.len() == z@.len(),
            diag@ =~= Seq::new(i as nat, |k: int| s@[k].over(z@[k])),
            w@ =~= Seq::new(i as nat, |k: int| s@[k].over(z@[k]).sqrt()),
        decreases s@.len() - i,
    {
        let eta_sq = s[i].over(z[i]);
        diag.push(eta_sq);
        w.push(eta_sq.sqrt());
        i += 1;
    }
    let sc = ConeScaling::NonNeg { w };
    proof {
        orthant_scaling_balances_the_pair(s@, z@, sc, diag@);
    }
    (sc, diag)
}

/// The iterate and the status that the solve ends with: after the iteration limit the best
/// iterate with its grade, else what the verdict named.
pub fn settle<T: Scalar>(end: Verdict, it: Iterate<T>, st: ConicState<T>, eps: T) -> (r: (Iterate<T>, Status))
    ensures
        match end {
            Verdict::Accept(status) => r == (it, status),
            Verdict::Restore(status) if status != Status::MaxIterations => r == (st.best, status),
            _ => r == (st.best, grade(st.best_err, eps)),
        },
{
    match end {
        Verdict::Accept(status) => (it, status),
        Verdict::Restore(status) => {
            if status == Status::MaxIterations {
                let g = grade_status(st.best_err, eps);
                (st.best, g)
            } else {
                (st.best, status)
            }
        },
        Verdict::Continue => {
            let g = grade_status(st.best_err, eps);
            (st.best, g)
        },
    }
}

/// The objective with the Hessian's product taken as the engine takes it.
pub open spec fn engine_objective<T: Scalar>(prob: QpProblem<T>, p_diagonal: bool, x: Seq<T>) -> T {
    T::decimal(5, 1).times(dot_spec(x, hessian_times(prob.p, p_diagonal, x))).plus(
        dot_spec(prob.q@, x),
    )
}

/// The status that is reported: a result that is not finite is a numerical failure, whatever the
/// solve said.
pub open spec fn honest_status<T: Scalar>(status: Status, last: IterateView<T>) -> Status {
    if all_finite(last.x) && all_finite(last.y) && all_finite(last.s) && all_finite(last.z) {
        status
    } else {
        Status::NumericalError
    }
}

/// The solution from the last iterate.
pub fn conclude<T: Scalar>(
    prob: &QpProblem<T>,
    p_diagonal: bool,
    it: Iterate<T>,
    status: Status,
    iters: usize,
    change: Option<(&[usize], &[T])>,
) -> (r: QpSolution<T>)
    requires
        prob.wf(),
        it.fits(*prob),
        change matches Some(c) ==> {
            &&& c.0@.len() == prob.n()
            &&& c.1@.len() == prob.n()
            &&& forall|i: int| 0 <= i < prob.n() ==> (#[trigger] c.0@[i]) < prob.n()
            &&& forall|i: int, k: int| 0 <= i < k < prob.n() ==> #[trigger] c.0@[i] != #[trigger] c.0@[k]
        },
    ensures
        r.y@ == it.y@,
        r.s@ == it.s@,
        r.z@ == it.z@,
        r.iters == iters,
        r.plain(),
        r.obj_val == engine_objective(*prob, p_diagonal, it.x@),
        r.status == honest_status(status, (IterateView { x: r.x@, ..it@ })),
        r.x@.len() == prob.n(),
        change is None ==> r.x@ == it.x@,
        change matches Some(c) ==> forall|i: int|
            0 <= i < prob.n() ==> r.x@[#[trigger] c.0@[i] as int] == it.x@[i].over(c.1@[i]),
{
    let px = hessian_product(&prob.p, p_diagonal, &it.x);
    let obj = T::decimal(5, 1).times(dot(&it.x, &px)).plus(dot(&prob.q, &it.x));
    let Iterate { x, y, s, z } = it;
    let x = match change {
        Some((sigma, g)) => undo_change(&x, sigma, g),
        None => x,
    };
    let finite = is_all_finite(&x) && is_all_finite(&y) && is_all_finite(&s) && is_all_finite(&z);
    let graded = if finite {
        status
    } else {
        Status::NumericalError
    };
    QpSolution::new(graded, x, y, s, z, obj, iters)
}

/// A result that holds an entry that is not finite is never reported as solved.
pub proof fn nonfinite_is_never_solved<T: Scalar>(status: Status, last: IterateView<T>)
    ensures
        !(all_finite(last.x) && all_finite(last.y) && all_finite(last.s) && all_finite(last.z))
            ==> honest_status(status, last) == Status::NumericalError,
{
}

} // verus!
