//! Starting points from an earlier near-solution.
use crate::cone::{block, cones_fit, lemma_block_bounds, offsets_of, size_upto, total_size, Cone};
use crate::conic_kkt::conic_problem;
use crate::dualize::{slack_at, slacks_at};
use crate::problem::{ain_row_dot, QpProblem, WarmStart};
use crate::scalar::Scalar;
use crate::vector::{all_finite, copied, dot_spec, is_all_finite, slice_of};
use vstd::prelude::*;

verus! {

/// A starting point in the unknowns, the slacks and the multipliers.
pub struct Seed<T> {
    pub x: Vec<T>,
    pub s: Vec<T>,
    pub z: Vec<T>,
}

/// The scale of slacks and right-hand sides over the first `k` rows, at least 1.
pub open spec fn seed_scale<T: Scalar>(prob: QpProblem<T>, s: Seq<T>, k: nat) -> T
    decreases k,
{
    if k == 0 {
        T::one()
    } else {
        seed_scale(prob, s, (k - 1) as nat).max(prob.b_in@[k - 1].abs()).max(s[k - 1].abs())
    }
}

/// Row `r` of the seed satisfies `A x + s = b` up to the tolerance.
pub open spec fn row_holds<T: Scalar>(prob: QpProblem<T>, x: Seq<T>, s: Seq<T>, r: int) -> bool {
    let tol = T::decimal(1, 6).times(seed_scale(prob, s, prob.mi()));
    !tol.below(dot_spec(prob.a_in.row(r), x).plus(s[r]).minus(prob.b_in@[r]).abs())
}

/// The seed has the problem's dimensions, is finite, and satisfies `A x + s = b` up to a relative
/// error of `1e-6`.
pub open spec fn seed_usable<T: Scalar>(prob: QpProblem<T>, ws: WarmStart<T>) -> bool {
    &&& ws.x@.len() == prob.n()
    &&& ws.s@.len() == prob.mi()
    &&& ws.z@.len() == prob.mi()
    &&& all_finite(ws.x@)
    &&& all_finite(ws.s@)
    &&& all_finite(ws.z@)
    &&& forall|r: int| 0 <= r < prob.mi() ==> #[trigger] row_holds(prob, ws.x@, ws.s@, r)
}

/// Whether the seed has the problem's dimensions, is finite, and satisfies `A x + s = b`.
pub fn is_seed_usable<T: Scalar>(prob: &QpProblem<T>, ws: &WarmStart<T>) -> (ok: bool)
    requires
        prob.wf(),
    ensures
        ok == seed_usable(*prob, *ws),
{
    let n: usize = prob.q.len();
    let mi: usize = prob.b_in.len();
    if ws.x.len() != n || ws.s.len() != mi || ws.z.len() != mi {
        return false;
    }
    if !is_all_finite(&ws.x) || !is_all_finite(&ws.s) || !is_all_finite(&ws.z) {
        return false;
    }
    let mut scale = T::one();
    let mut i: usize = 0;
    while i < mi
        invariant
            mi == prob.mi(),
            ws.s@.len() == mi,
            i <= mi,
            scale == seed_scale(*prob, ws.s@, i as nat),
        decreases mi - i,
    {
        scale = scale.max(prob.b_in[i].abs()).max(ws.s[i].abs());
        i += 1;
    }
    let tol = T::decimal(1, 6).times(scale);
    let mut r: usize = 0;
    while r < mi
        invariant
            prob.wf(),
            mi == prob.mi(),
            ws.x@.len() == prob.n(),
            ws.s@.len() == mi,
            tol == T::decimal(1, 6).times(seed_scale(*prob, ws.s@, prob.mi())),
            r <= mi,
            forall|k: int| 0 <= k < r ==> #[trigger] row_holds(*prob, ws.x@, ws.s@, k),
        decreases mi - r,
    {
        let acc = ain_row_dot(prob, r, &ws.x);
        if tol.below(acc.plus(ws.s[r]).minus(prob.b_in[r]).abs()) {
            assert(!row_holds(*prob, ws.x@, ws.s@, r as int));
            return false;
        }
        r += 1;
    }
    true
}

/// The seed with its slacks recomputed, so that `A x + s = b` holds as exactly as the slacks can
/// be computed; none where there is no usable seed.
pub fn warm_seed_primal<T: Scalar>(prob: &QpProblem<T>, init: Option<&WarmStart<T>>) -> (r: Option<Seed<T>>)
    requires
        prob.wf(),
    ensures
        r is Some <==> (init matches Some(ws) && seed_usable(*prob, *ws)),
        r matches Some(seed) ==> {
            let ws = *(init->0);
            seed.x@ == ws.x@ && seed.s@ == slack_at(*prob, ws.x@) && seed.z@ == ws.z@
        },
{
    match init {
        None => None,
        Some(ws) => {
            if !is_seed_usable(prob, ws) {
                return None;
            }
            let x = copied(&ws.x);
            let s = slacks_at(prob, &x);
            let z = copied(&ws.z);
            Some(Seed { x, s, z })
        },
    }
}

/// `v` moved by a twentieth of the way towards `e`.
pub open spec fn blend<T: Scalar>(v: T, e: T) -> T {
    let theta = T::decimal(5, 2);
    T::one().minus(theta).times(v).plus(theta.times(e))
}

/// Every slack and every multiplier is positive after it is moved towards 1.
pub open spec fn orthant_interior<T: Scalar>(s: Seq<T>, z: Seq<T>) -> bool {
    forall|i: int|
        0 <= i < s.len() ==> !blend(#[trigger] s[i], T::one()).at_most(T::zero()) && !blend(
            z[i],
            T::one(),
        ).at_most(T::zero())
}

/// The vector moved towards 1, entry by entry.
pub open spec fn blended<T: Scalar>(v: Seq<T>) -> Seq<T> {
    Seq::new(v.len(), |i: int| blend(v[i], T::one()))
}

/// The starting point of the orthant engine from a seed: slacks recomputed from the unknowns, then
/// slacks and multipliers moved towards 1. None where there is no usable seed, or the moved point
/// is not strictly positive.
pub fn qp_warm_seed<T: Scalar>(prob: &QpProblem<T>, init: Option<&WarmStart<T>>) -> (r: Option<Seed<T>>)
    requires
        prob.wf(),
    ensures
        r is Some <==> (init matches Some(ws) && seed_usable(*prob, *ws) && orthant_interior(
            slack_at(*prob, ws.x@),
            ws.z@,
        )),
        r matches Some(seed) ==> {
            let ws = *(init->0);
            &&& seed.x@ == ws.x@
            &&& seed.s@ == blended(slack_at(*prob, ws.x@))
            &&& seed.z@ == blended(ws.z@)
        },
{
    let seed = match warm_seed_primal(prob, init) {
        Some(seed) => seed,
        None => {
            return None;
        },
    };
    let one = T::one();
    let theta = T::decimal(5, 2);
    let mi: usize = seed.s.len();
    let mut s: Vec<T> = Vec::with_capacity(mi);
    let mut z: Vec<T> = Vec::with_capacity(mi);
    let mut i: usize = 0;
    while i < mi
        invariant
            mi == seed.s@.len() == seed.z@.len(),
            init is Some,
            seed.s@ == slack_at(*prob, (*(init->0)).x@),
            seed.z@ == (*(init->0)).z@,
            one == T::one(),
            theta == T::decimal(5, 2),
            i <= mi,
            s@ =~= blended(seed.s@).subrange(0, i as int),
            z@ =~= blended(seed.z@).subrange(0, i as int),
            forall|k: int|
                0 <= k < i ==> !blend(#[trigger] seed.s@[k], T::one()).at_most(T::zero()) && !blend(
                    seed.z@[k],
                    T::one(),
                ).at_most(T::zero()),
        decreases mi - i,
    {
        let si = one.minus(theta).times(seed.s[i]).plus(theta.times(one));
        let zi = one.minus(theta).times(seed.z[i]).plus(theta.times(one));
        assert(si == blend(seed.s@[i as int], T::one()));
        assert(zi == blend(seed.z@[i as int], T::one()));
        if si.at_most(T::zero()) || zi.at_most(T::zero()) {
            assert(!orthant_interior(seed.s@, seed.z@)) by {
                let v = seed.s@[i as int];
            }
            return None;
        }
        s.push(si);
        z.push(zi);
        proof {
            assert(!blend(seed.s@[i as int], T::one()).at_most(T::zero()));
            assert(!blend(seed.z@[i as int], T::one()).at_most(T::zero()));
            assert forall|k: int| 0 <= k < i + 1 implies !blend(
                #[trigger] seed.s@[k],
                T::one(),
            ).at_most(T::zero()) && !blend(seed.z@[k], T::one()).at_most(T::zero()) by {
                if k < i {
                    let v = seed.s@[k];
                }
            }
        }
        i += 1;
    }
    assert(s@ =~= blended(seed.s@));
    assert(z@ =~= blended(seed.z@));
    Some(Seed { x: seed.x, s, z })
}

/// The largest absolute entry, at least 1.
pub open spec fn block_scale<T: Scalar>(v: Seq<T>, k: nat) -> T
    decreases k,
{
    if k == 0 {
        T::one()
    } else {
        block_scale(v, (k - 1) as nat).max(v[k - 1].abs())
    }
}

/// The largest absolute entry, at least 1.
pub fn scale_of<T: Scalar>(v: &[T]) -> (r: T)
    ensures
        r == block_scale(v@, v@.len()),
{
    let mut acc = T::one();
    let mut i: usize = 0;
    while i < v.len()
        invariant
            i <= v@.len(),
            acc == block_scale(v@, i as nat),
        decreases v@.len() - i,
    {
        acc = acc.max(v[i].abs());
        i += 1;
    }
    acc
}

/// The least of the first `k` entries, infinite where there is none.
pub open spec fn orthant_margin<T: Scalar>(v: Seq<T>, k: nat) -> T
    decreases k,
{
    if k == 0 {
        T::infinity()
    } else {
        orthant_margin(v, (k - 1) as nat).min(v[k - 1])
    }
}

/// The least entry, infinite where there is none.
pub fn least_entry<T: Scalar>(v: &[T]) -> (r: T)
    ensures
        r == orthant_margin(v@, v@.len()),
{
    let mut acc = T::infinity();
    let mut i: usize = 0;
    while i < v.len()
        invariant
            i <= v@.len(),
            acc == orthant_margin(v@, i as nat),
        decreases v@.len() - i,
    {
        acc = acc.min(v[i]);
        i += 1;
    }
    acc
}

/// `m` is the margin of the block in its cone: the least entry on an orthant, and what `curved`
/// says of it on any other cone.
pub open spec fn is_margin<T: Scalar, M: Fn(Cone, &[T]) -> T>(curved: M, cone: Cone, v: Seq<T>, m: T) -> bool {
    if cone is NonNeg {
        m == orthant_margin(v, v.len())
    } else {
        exists|b: &[T]| b@ == v && #[trigger] curved.ensures((cone, b), m)
    }
}

fn margin_in<T: Scalar, M: Fn(Cone, &[T]) -> T>(curved: &M, cone: Cone, v: &[T]) -> (m: T)
    requires
        forall|c: Cone, b: &[T]| #[trigger] curved.requires((c, b)),
    ensures
        is_margin(*curved, cone, v@, m),
{
    match cone {
        Cone::NonNeg(_) => least_entry(v),
        _ => curved(cone, v),
    }
}

/// `inside` tells whether the margin of the block in its cone is nonnegative.
pub open spec fn is_member<T: Scalar, M: Fn(Cone, &[T]) -> T>(
    curved: M,
    cone: Cone,
    v: Seq<T>,
    inside: bool,
) -> bool {
    exists|m: T| #[trigger] is_margin(curved, cone, v, m) && inside == T::zero().at_most(m)
}

/// `inside` tells whether every block of `v` lies in its cone.
pub open spec fn in_cones<T: Scalar, M: Fn(Cone, &[T]) -> T>(
    curved: M,
    cones: Seq<Cone>,
    v: Seq<T>,
    inside: bool,
) -> bool {
    if inside {
        forall|c: int| 0 <= c < cones.len() ==> #[trigger] is_member(curved, cones[c], block(cones, v, c), true)
    } else {
        exists|c: int|
            0 <= c < cones.len() && #[trigger] is_member(curved, cones[c], block(cones, v, c), false)
    }
}

/// Whether every block of `v` lies in its cone: its margin is nonnegative.
pub fn lies_in_cones<T: Scalar, M: Fn(Cone, &[T]) -> T>(
    curved: &M,
    cones: &[Cone],
    offsets: &[usize],
    v: &[T],
) -> (inside: bool)
    requires
        cones_fit(cones@),
        offsets_of(cones@, offsets@),
        total_size(cones@) == v@.len(),
        forall|c: Cone, b: &[T]| #[trigger] curved.requires((c, b)),
    ensures
        in_cones(*curved, cones@, v@, inside),
{
    let mut c: usize = 0;
    while c < cones.len()
        invariant
            cones_fit(cones@),
            offsets_of(cones@, offsets@),
            total_size(cones@) == v@.len(),
            forall|c: Cone, b: &[T]| #[trigger] curved.requires((c, b)),
            c <= cones@.len(),
            forall|k: int|
                0 <= k < c ==> #[trigger] is_member(*curved, cones@[k], block(cones@, v@, k), true),
        decreases cones@.len() - c,
    {
        let cone: Cone = cones[c];
        let o: usize = offsets[c];
        proof {
            lemma_block_bounds(cones@, c as int);
        }
        let b = slice_of(v, o, o + cone.dim());
        let m = margin_in(curved, cone, &b);
        assert(b@ =~= block(cones@, v@, c as int));
        assert(is_margin(*curved, cone, b@, m));
        if !T::zero().at_most(m) {
            assert(is_member(*curved, cones@[c as int], block(cones@, v@, c as int), false));
            return false;
        }
        assert(is_member(*curved, cones@[c as int], block(cones@, v@, c as int), true));
        c += 1;
    }
    true
}

/// The block, moved towards the identity `e` where its margin `m` is below a thousandth of its
/// scale.
pub open spec fn interiorized<T: Scalar>(v: Seq<T>, e: Seq<T>, m: T) -> Seq<T> {
    if m.below(T::decimal(1, 3).times(block_scale(v, v.len()))) {
        Seq::new(v.len(), |i: int| blend(v[i], e[i]))
    } else {
        v
    }
}

/// The block, moved towards the identity `e` where its margin is below a thousandth of its scale.
pub fn interiorize<T: Scalar>(v: &[T], e: &[T], m: T) -> (r: Vec<T>)
    requires
        e@.len() == v@.len(),
    ensures
        r@ == interiorized(v@, e@, m),
{
    if !m.below(T::decimal(1, 3).times(scale_of(v))) {
        return copied(v);
    }
    let one = T::one();
    let theta = T::decimal(5, 2);
    let mut r: Vec<T> = Vec::with_capacity(v.len());
    let mut i: usize = 0;
    while i < v.len()
        invariant
            i <= v@.len() == e@.len(),
            one == T::one(),
            theta == T::decimal(5, 2),
            r@.len() == i,
            forall|k: int| 0 <= k < i ==> #[trigger] r@[k] == blend(v@[k], e@[k]),
        decreases v@.len() - i,
    {
        r.push(one.minus(theta).times(v[i]).plus(theta.times(e[i])));
        i += 1;
    }
    assert(r@ =~= interiorized(v@, e@, m));
    r
}

/// The margins of both blocks exceed a billionth of the larger scale.
pub open spec fn strictly_inside<T: Scalar>(s: Seq<T>, z: Seq<T>, ms: T, mz: T) -> bool {
    let tol = T::decimal(1, 9).times(block_scale(s, s.len()).max(block_scale(z, z.len())));
    !ms.at_most(tol) && !mz.at_most(tol)
}

/// From the blocks `s` and `z` of a cone come `s2` and `z2`, and `inside` tells whether they lie
/// strictly inside.
pub open spec fn interiorizes<T: Scalar, M: Fn(Cone, &[T]) -> T>(
    curved: M,
    cone: Cone,
    e: Seq<T>,
    s: Seq<T>,
    z: Seq<T>,
    s2: Seq<T>,
    z2: Seq<T>,
    inside: bool,
) -> bool {
    exists|ms: T, mz: T, ms2: T, mz2: T|
        {
            &&& #[trigger] is_margin(curved, cone, s, ms)
            &&& #[trigger] is_margin(curved, cone, z, mz)
            &&& s2 == interiorized(s, e, ms)
            &&& z2 == interiorized(z, e, mz)
            &&& #[trigger] is_margin(curved, cone, s2, ms2)
            &&& #[trigger] is_margin(curved, cone, z2, mz2)
            &&& inside == strictly_inside(s2, z2, ms2, mz2)
        }
}

/// `v` with `b` in the place of its entries from `off` on.
pub open spec fn spliced<T>(v: Seq<T>, off: nat, b: Seq<T>) -> Seq<T> {
    Seq::new(
        v.len(),
        |i: int|
            if off <= i < off + b.len() {
                b[i - off]
            } else {
                v[i]
            },
    )
}

/// Overwrites the entries of `v` from `off` on with `b`.
pub fn splice<T: Copy>(v: &mut Vec<T>, off: usize, b: &[T])
    requires
        off + b@.len() <= old(v)@.len(),
    ensures
        final(v)@ == spliced(old(v)@, off as nat, b@),
{
    let len: usize = v.len();
    let ghost start = v@;
    let mut i: usize = 0;
    while i < b.len()
        invariant
            off + b@.len() <= len,
            v@.len() == len == start.len(),
            i <= b@.len(),
            forall|k: int|
                0 <= k < len ==> #[trigger] v@[k] == (if off <= k < off + i {
                    b@[k - off]
                } else {
                    start[k]
                }),
        decreases b@.len() - i,
    {
        v[off + i] = b[i];
        i += 1;
    }
    assert(v@ =~= spliced(start, off as nat, b@));
}

/// The blocks of the first `k` cones of the starting slacks and multipliers are moved inside, one
/// after the other, and end as `s` and `z`.
pub open spec fn moved_inside<T: Scalar, M: Fn(Cone, &[T]) -> T>(
    curved: M,
    cones: Seq<Cone>,
    identities: Seq<Vec<T>>,
    s0: Seq<T>,
    z0: Seq<T>,
    k: nat,
    s: Seq<T>,
    z: Seq<T>,
) -> bool
    decreases k,
{
    if k == 0 {
        s == s0 && z == z0
    } else {
        let c = k - 1;
        let off = size_upto(cones, c as nat);
        exists|sp: Seq<T>, zp: Seq<T>, s2: Seq<T>, z2: Seq<T>|
            {
                &&& moved_inside(curved, cones, identities, s0, z0, c as nat, sp, zp)
                &&& #[trigger] interiorizes(
                    curved,
                    cones[c],
                    identities[c]@,
                    block(cones, sp, c),
                    block(cones, zp, c),
                    s2,
                    z2,
                    true,
                )
                &&& s == spliced(sp, off, s2)
                &&& z == spliced(zp, off, z2)
            }
    }
}

/// Cone `k` is the first that does not come to lie strictly inside.
pub open spec fn stays_outside<T: Scalar, M: Fn(Cone, &[T]) -> T>(
    curved: M,
    cones: Seq<Cone>,
    identities: Seq<Vec<T>>,
    s0: Seq<T>,
    z0: Seq<T>,
    k: nat,
) -> bool {
    exists|sp: Seq<T>, zp: Seq<T>, s2: Seq<T>, z2: Seq<T>|
        {
            &&& moved_inside(curved, cones, identities, s0, z0, k, sp, zp)
            &&& #[trigger] interiorizes(
                curved,
                cones[k as int],
                identities[k as int]@,
                block(cones, sp, k as int),
                block(cones, zp, k as int),
                s2,
                z2,
                false,
            )
        }
}

/// `r` is the starting point that the warm start gives: none where it cannot be used or where a cone's
/// part stays outside of its cone, and else the warm start with every part moved inside.
pub open spec fn conic_seed<T: Scalar, M: Fn(Cone, &[T]) -> T>(
    prob: QpProblem<T>,
    cones: Seq<Cone>,
    identities: Seq<Vec<T>>,
    init: Option<&WarmStart<T>>,
    curved: M,
    r: Option<Seed<T>>,
) -> bool {
    if init matches Some(ws) && seed_usable(prob, *ws) {
        let ws = *(init->0);
        let s0 = slack_at(prob, ws.x@);
        match r {
            Some(seed) => seed.x@ == ws.x@ && moved_inside(
                curved,
                cones,
                identities,
                s0,
                ws.z@,
                cones.len(),
                seed.s@,
                seed.z@,
            ),
            None => exists|k: nat|
                k < cones.len() && #[trigger] stays_outside(curved, cones, identities, s0, ws.z@, k),
        }
    } else {
        r is None
    }
}

/// The warm start gives no starting point: there is none, it cannot be used, or its blocks do not all come
/// to lie inside their cones, whatever their margins.
pub open spec fn seed_refused<T: Scalar, M: Fn(Cone, &[T]) -> T>(
    prob: QpProblem<T>,
    cones: Seq<Cone>,
    identities: Seq<Vec<T>>,
    init: Option<&WarmStart<T>>,
    curved: M,
) -> bool {
    init matches Some(ws) && seed_usable(prob, *ws) ==> {
        let ws = *(init->0);
        forall|s: Seq<T>, z: Seq<T>|
            !(#[trigger] moved_inside(
                curved,
                cones,
                identities,
                slack_at(prob, ws.x@),
                ws.z@,
                cones.len(),
                s,
                z,
            ))
    }
}

/// A refused warm start gives no starting point, and so does no warm start at all.
pub proof fn refused_seed_is_none<T: Scalar, M: Fn(Cone, &[T]) -> T>(
    prob: QpProblem<T>,
    cones: Seq<Cone>,
    identities: Seq<Vec<T>>,
    init: Option<&WarmStart<T>>,
    curved: M,
    r: Option<Seed<T>>,
)
    requires
        seed_refused(prob, cones, identities, init, curved),
        conic_seed(prob, cones, identities, init, curved, r),
    ensures
        r is None,
        conic_seed(prob, cones, identities, None, curved, r),
{
}

/// The starting point of the conic engine from a seed: slacks recomputed from the unknowns, then
/// the blocks of each cone moved towards its identity where they lie too close to its boundary.
/// `curved` gives the margin of a block in a cone that is not an orthant, and `identities` the
/// identity of each cone. None where there is no usable seed, or a block does not come to lie
/// strictly inside its cone.
pub fn conic_warm_seed<T: Scalar, M: Fn(Cone, &[T]) -> T>(
    prob: &QpProblem<T>,
    cones: &[Cone],
    offsets: &[usize],
    init: Option<&WarmStart<T>>,
    identities: &[Vec<T>],
    curved: &M,
) -> (r: Option<Seed<T>>)
    requires
        conic_problem(*prob, cones@),
        offsets_of(cones@, offsets@),
        identities@.len() == cones@.len(),
        forall|c: int| 0 <= c < cones@.len() ==> (#[trigger] identities@[c])@.len() == cones@[c].size(),
        forall|c: Cone, b: &[T]| #[trigger] curved.requires((c, b)),
    ensures
        conic_seed(*prob, cones@, identities@, init, *curved, r),
        r matches Some(seed) ==> seed.x@.len() == prob.n() && seed.s@.len() == prob.mi() && seed.z@.len()
            == prob.mi(),
{
    let seed = match warm_seed_primal(prob, init) {
        Some(seed) => seed,
        None => {
            return None;
        },
    };
    let mut s = seed.s;
    let mut z = seed.z;
    let ghost s0 = s@;
    let ghost z0 = z@;
    let mut c: usize = 0;
    while c < cones.len()
        invariant
            conic_problem(*prob, cones@),
            offsets_of(cones@, offsets@),
            identities@.len() == cones@.len(),
            forall|c: int|
                0 <= c < cones@.len() ==> (#[trigger] identities@[c])@.len() == cones@[c].size(),
            forall|c: Cone, b: &[T]| #[trigger] curved.requires((c, b)),
            init is Some,
            seed_usable(*prob, *(init->0)),
            s0 == slack_at(*prob, (*(init->0)).x@),
            z0 == (*(init->0)).z@,
            c <= cones@.len(),
            s@.len() == prob.mi(),
            z@.len() == prob.mi(),
            moved_inside(*curved, cones@, identities@, s0, z0, c as nat, s@, z@),
        decreases cones@.len() - c,
    {
        let cone: Cone = cones[c];
        let o: usize = offsets[c];
        let d: usize = cone.dim();
        let e = &identities[c];
        proof {
            lemma_block_bounds(cones@, c as int);
        }
        let ghost sp = s@;
        let ghost zp = z@;
        let sb = slice_of(&s, o, o + d);
        let zb = slice_of(&z, o, o + d);
        let ms = margin_in(curved, cone, &sb);
        let s2 = interiorize(&sb, e, ms);
        let mz = margin_in(curved, cone, &zb);
        let z2 = interiorize(&zb, e, mz);
        let tol = T::decimal(1, 9).times(scale_of(&s2).max(scale_of(&z2)));
        let ms2 = margin_in(curved, cone, &s2);
        let mz2 = margin_in(curved, cone, &z2);
        proof {
            assert(is_margin(*curved, cone, sb@, ms));
            assert(is_margin(*curved, cone, zb@, mz));
            assert(is_margin(*curved, cone, s2@, ms2));
            assert(is_margin(*curved, cone, z2@, mz2));
            assert(interiorizes(
                *curved,
                cone,
                e@,
                block(cones@, sp, c as int),
                block(cones@, zp, c as int),
                s2@,
                z2@,
                strictly_inside(s2@, z2@, ms2, mz2),
            ));
        }
        if ms2.at_most(tol) || mz2.at_most(tol) {
            proof {
                assert(stays_outside(*curved, cones@, identities@, s0, z0, c as nat));
            }
            return None;
        }
        splice(&mut s, o, &s2);
        splice(&mut z, o, &z2);
        proof {
            let k = (c + 1) as nat;
            assert(moved_inside(*curved, cones@, identities@, s0, z0, (k - 1) as nat, sp, zp));
            assert(interiorizes(
                *curved,
                cones@[k - 1],
                identities@[k - 1]@,
                block(cones@, sp, k - 1),
                block(cones@, zp, k - 1),
                s2@,
                z2@,
                true,
            ));
            assert(s@ == spliced(sp, size_upto(cones@, (k - 1) as nat), s2@));
            assert(z@ == spliced(zp, size_upto(cones@, (k - 1) as nat), z2@));
            assert(moved_inside(*curved, cones@, identities@, s0, z0, k, s@, z@));
        }
        c += 1;
    }
    Some(Seed { x: seed.x, s, z })
}

} // verus!
