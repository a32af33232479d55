//! The curved cones in the step of an iteration: how far they allow a direction to go, and their parts
//! in the right-hand sides of the combined step and of the centrality correctors, over the elementary
//! operations of their algebra.
use crate::cone::{block, cones_fit, lemma_block_bounds, offsets_of, total_size, Cone, ConeScaling};
use crate::conic_dir::{curved_fit, scalings_fit};
use crate::scalar::Scalar;
use crate::vector::{constant, filled, negated, negated_of};
use vstd::prelude::*;

verus! {

/// The elementary operations of the curved cones.
pub struct Algebra<I, R, C, P, Y, Z> {
    /// The identity of a cone.
    pub identity: I,
    /// How far a cone allows a direction to go.
    pub ratio: R,
    /// A vector under a scaling, or under its inverse.
    pub apply: C,
    /// The Jordan product of two vectors.
    pub multiply: P,
    /// The vector whose product with the first is the second.
    pub divide: Y,
    /// The displacement of a vector into the band between two bounds.
    pub displace: Z,
}

/// `e` is what `f` may give as the identity of cone `c`.
pub open spec fn names<T, F: Fn(Cone) -> Vec<T>>(f: F, c: Cone, e: Seq<T>) -> bool {
    exists|o: Vec<T>| #[trigger] f.ensures((c,), o) && o@ == e
}

/// `a` is how far `f` may find that cone `c` allows to go from `v` along `dv`.
pub open spec fn reaches<T, F: Fn(Cone, &[T], &[T]) -> T>(f: F, c: Cone, v: Seq<T>, dv: Seq<T>, a: T) -> bool {
    exists|s: &[T], t: &[T]| s@ == v && t@ == dv && #[trigger] f.ensures((c, s, t), a)
}

/// `r` is what `f` may make of `v` under the scaling `sc`, or under its inverse.
pub open spec fn maps<T, F: Fn(&ConeScaling<T>, &[T], bool) -> Vec<T>>(
    f: F,
    sc: ConeScaling<T>,
    inverse: bool,
    v: Seq<T>,
    r: Seq<T>,
) -> bool {
    exists|w: &ConeScaling<T>, s: &[T], o: Vec<T>|
        *w == sc && s@ == v && #[trigger] f.ensures((w, s, inverse), o) && o@ == r
}

/// `r` is what `f` may make of `u` and `v` in cone `c`.
pub open spec fn joins<T, F: Fn(Cone, &[T], &[T]) -> Vec<T>>(
    f: F,
    c: Cone,
    u: Seq<T>,
    v: Seq<T>,
    r: Seq<T>,
) -> bool {
    exists|s: &[T], t: &[T], o: Vec<T>|
        s@ == u && t@ == v && #[trigger] f.ensures((c, s, t), o) && o@ == r
}

/// `r` is what `f` may make of `v` in cone `c` for the band from `lo` to `hi`.
pub open spec fn moves_into<T, F: Fn(Cone, &[T], T, T) -> Vec<T>>(
    f: F,
    c: Cone,
    v: Seq<T>,
    lo: T,
    hi: T,
    r: Seq<T>,
) -> bool {
    exists|s: &[T], o: Vec<T>| s@ == v && #[trigger] f.ensures((c, s, lo, hi), o) && o@ == r
}

/// Vectors of this length belong to the curved cone `c`.
pub open spec fn belongs<T>(cones: Seq<Cone>, c: Cone, v: Seq<T>) -> bool {
    cones.contains(c) && !(c is NonNeg) && v.len() == c.size()
}

/// The operations take vectors of the size of a curved cone and give such vectors.
pub open spec fn algebra_fits<
    T: Scalar,
    I: Fn(Cone) -> Vec<T>,
    R: Fn(Cone, &[T], &[T]) -> T,
    C: Fn(&ConeScaling<T>, &[T], bool) -> Vec<T>,
    P: Fn(Cone, &[T], &[T]) -> Vec<T>,
    Y: Fn(Cone, &[T], &[T]) -> Vec<T>,
    Z: Fn(Cone, &[T], T, T) -> Vec<T>,
>(cones: Seq<Cone>, al: Algebra<I, R, C, P, Y, Z>) -> bool {
    &&& forall|c: Cone| cones.contains(c) && !(c is NonNeg) ==> #[trigger] al.identity.requires((c,))
    &&& forall|c: Cone, o: Vec<T>|
        cones.contains(c) && !(c is NonNeg) && #[trigger] al.identity.ensures((c,), o) ==> o@.len() == c.size()
    &&& forall|c: Cone, s: &[T], t: &[T]|
        belongs(cones, c, s@) && t@.len() == s@.len() ==> #[trigger] al.ratio.requires((c, s, t))
    &&& forall|c: Cone, w: &ConeScaling<T>, s: &[T], i: bool|
        #![trigger w.matches_cone(c), al.apply.requires((w, s, i))]
        belongs(cones, c, s@) && w.matches_cone(c) ==> al.apply.requires((w, s, i))
    &&& forall|w: &ConeScaling<T>, s: &[T], i: bool, o: Vec<T>| #[trigger]
        al.apply.ensures((w, s, i), o) ==> o@.len() == s@.len()
    &&& forall|c: Cone, s: &[T], t: &[T]|
        belongs(cones, c, s@) && t@.len() == s@.len() ==> #[trigger] al.multiply.requires((c, s, t))
    &&& forall|c: Cone, s: &[T], t: &[T], o: Vec<T>| #[trigger]
        al.multiply.ensures((c, s, t), o) ==> o@.len() == s@.len()
    &&& forall|c: Cone, s: &[T], t: &[T]|
        belongs(cones, c, s@) && t@.len() == s@.len() ==> #[trigger] al.divide.requires((c, s, t))
    &&& forall|c: Cone, s: &[T], t: &[T], o: Vec<T>| #[trigger]
        al.divide.ensures((c, s, t), o) ==> o@.len() == s@.len()
    &&& forall|c: Cone, s: &[T], lo: T, hi: T|
        belongs(cones, c, s@) ==> #[trigger] al.displace.requires((c, s, lo, hi))
    &&& forall|c: Cone, s: &[T], lo: T, hi: T, o: Vec<T>| #[trigger]
        al.displace.ensures((c, s, lo, hi), o) ==> o@.len() == s@.len()
}

/// There is an identity for every cone, of its size.
pub open spec fn identities_fit<T>(cones: Seq<Cone>, identities: Seq<Vec<T>>) -> bool {
    &&& identities.len() == cones.len()
    &&& forall|c: int| 0 <= c < cones.len() ==> (#[trigger] identities[c])@.len() == cones[c].size()
}

/// `r` holds the identities of the cones: ones on an orthant, and what `identity` gives on a curved cone.
pub open spec fn identities_at<T: Scalar, I: Fn(Cone) -> Vec<T>>(
    cones: Seq<Cone>,
    identity: I,
    r: Seq<Vec<T>>,
) -> bool {
    &&& r.len() == cones.len()
    &&& forall|c: int|
        0 <= c < cones.len() ==> match cones[c] {
            Cone::NonNeg(d) => (#[trigger] r[c])@ == constant(T::one(), d as nat),
            k => names(identity, k, r[c]@),
        }
}

/// `r` is how far each curved cone allows to go from `v` along `dv`.
pub open spec fn ratios_at<T: Scalar, R: Fn(Cone, &[T], &[T]) -> T>(
    cones: Seq<Cone>,
    ratio: R,
    v: Seq<T>,
    dv: Seq<T>,
    r: Seq<T>,
) -> bool {
    &&& r.len() == cones.len()
    &&& forall|c: int|
        0 <= c < cones.len() && !(cones[c] is NonNeg) ==> reaches(
            ratio,
            cones[c],
            block(cones, v, c),
            block(cones, dv, c),
            #[trigger] r[c],
        )
}

/// `v` less `t` times `e`.
pub open spec fn recentered_by<T: Scalar>(v: Seq<T>, t: T, e: Seq<T>) -> Seq<T> {
    Seq::new(v.len(), |i: int| v[i].minus(t.times(e[i])))
}

/// `out` is `inner` divided by the scaled multipliers `z` and scaled back.
pub open spec fn divides_back<
    T: Scalar,
    I: Fn(Cone) -> Vec<T>,
    R: Fn(Cone, &[T], &[T]) -> T,
    C: Fn(&ConeScaling<T>, &[T], bool) -> Vec<T>,
    P: Fn(Cone, &[T], &[T]) -> Vec<T>,
    Y: Fn(Cone, &[T], &[T]) -> Vec<T>,
    Z: Fn(Cone, &[T], T, T) -> Vec<T>,
>(al: Algebra<I, R, C, P, Y, Z>, c: Cone, sc: ConeScaling<T>, z: Seq<T>, inner: Seq<T>, out: Seq<T>) -> bool {
    exists|lam: Seq<T>, x: Seq<T>|
        maps(al.apply, sc, false, z, lam) && #[trigger] joins(al.divide, c, lam, inner, x) && maps(
            al.apply,
            sc,
            false,
            x,
            out,
        )
}

/// `prod` is the product of the unscaled `s` with the scaled `z`.
pub open spec fn scaled_product<
    T: Scalar,
    I: Fn(Cone) -> Vec<T>,
    R: Fn(Cone, &[T], &[T]) -> T,
    C: Fn(&ConeScaling<T>, &[T], bool) -> Vec<T>,
    P: Fn(Cone, &[T], &[T]) -> Vec<T>,
    Y: Fn(Cone, &[T], &[T]) -> Vec<T>,
    Z: Fn(Cone, &[T], T, T) -> Vec<T>,
>(al: Algebra<I, R, C, P, Y, Z>, c: Cone, sc: ConeScaling<T>, s: Seq<T>, z: Seq<T>, prod: Seq<T>) -> bool {
    exists|a: Seq<T>, b: Seq<T>|
        maps(al.apply, sc, true, s, a) && maps(al.apply, sc, false, z, b) && #[trigger] joins(
            al.multiply,
            c,
            a,
            b,
            prod,
        )
}

/// `out` is the part of cone `c` in the combined right-hand side: the scaled product of the predictor's
/// directions less the centering target, divided by the scaled multipliers and scaled back.
pub open spec fn corrects<
    T: Scalar,
    I: Fn(Cone) -> Vec<T>,
    R: Fn(Cone, &[T], &[T]) -> T,
    C: Fn(&ConeScaling<T>, &[T], bool) -> Vec<T>,
    P: Fn(Cone, &[T], &[T]) -> Vec<T>,
    Y: Fn(Cone, &[T], &[T]) -> Vec<T>,
    Z: Fn(Cone, &[T], T, T) -> Vec<T>,
>(
    al: Algebra<I, R, C, P, Y, Z>,
    c: Cone,
    sc: ConeScaling<T>,
    z: Seq<T>,
    e: Seq<T>,
    ds: Seq<T>,
    dz: Seq<T>,
    sm: T,
    out: Seq<T>,
) -> bool {
    exists|prod: Seq<T>| #[trigger]
        scaled_product(al, c, sc, ds, dz, prod) && divides_back(al, c, sc, z, recentered_by(prod, sm, e), out)
}

/// `psi` is the displacement of cone `c` into the central band at the trial point, and `out` its part in
/// the corrector's right-hand side.
pub open spec fn recenters_cone<
    T: Scalar,
    I: Fn(Cone) -> Vec<T>,
    R: Fn(Cone, &[T], &[T]) -> T,
    C: Fn(&ConeScaling<T>, &[T], bool) -> Vec<T>,
    P: Fn(Cone, &[T], &[T]) -> Vec<T>,
    Y: Fn(Cone, &[T], &[T]) -> Vec<T>,
    Z: Fn(Cone, &[T], T, T) -> Vec<T>,
>(
    al: Algebra<I, R, C, P, Y, Z>,
    c: Cone,
    sc: ConeScaling<T>,
    z: Seq<T>,
    st: Seq<T>,
    zt: Seq<T>,
    mu: T,
    psi: Seq<T>,
    out: Seq<T>,
) -> bool {
    &&& exists|prod: Seq<T>| #[trigger]
        scaled_product(al, c, sc, st, zt, prod) && moves_into(
            al.displace,
            c,
            prod,
            T::decimal(1, 1).times(mu),
            T::decimal(10, 0).times(mu),
            psi,
        )
    &&& divides_back(al, c, sc, z, negated(psi), out)
}

/// Cone `c` has its part in the combined right-hand side, which is empty for an orthant.
pub open spec fn has_correction<
    T: Scalar,
    I: Fn(Cone) -> Vec<T>,
    R: Fn(Cone, &[T], &[T]) -> T,
    C: Fn(&ConeScaling<T>, &[T], bool) -> Vec<T>,
    P: Fn(Cone, &[T], &[T]) -> Vec<T>,
    Y: Fn(Cone, &[T], &[T]) -> Vec<T>,
    Z: Fn(Cone, &[T], T, T) -> Vec<T>,
>(
    cones: Seq<Cone>,
    al: Algebra<I, R, C, P, Y, Z>,
    c: int,
    sc: Seq<ConeScaling<T>>,
    identities: Seq<Vec<T>>,
    z: Seq<T>,
    ds: Seq<T>,
    dz: Seq<T>,
    sm: T,
    out: Vec<T>,
) -> bool {
    if cones[c] is NonNeg {
        out@.len() == 0
    } else {
        corrects(
            al,
            cones[c],
            sc[c],
            block(cones, z, c),
            identities[c]@,
            block(cones, ds, c),
            block(cones, dz, c),
            sm,
            out@,
        )
    }
}

/// `r` holds the parts of the cones in the combined right-hand side.
pub open spec fn corrections_at<
    T: Scalar,
    I: Fn(Cone) -> Vec<T>,
    R: Fn(Cone, &[T], &[T]) -> T,
    C: Fn(&ConeScaling<T>, &[T], bool) -> Vec<T>,
    P: Fn(Cone, &[T], &[T]) -> Vec<T>,
    Y: Fn(Cone, &[T], &[T]) -> Vec<T>,
    Z: Fn(Cone, &[T], T, T) -> Vec<T>,
>(
    cones: Seq<Cone>,
    al: Algebra<I, R, C, P, Y, Z>,
    sc: Seq<ConeScaling<T>>,
    identities: Seq<Vec<T>>,
    z: Seq<T>,
    ds: Seq<T>,
    dz: Seq<T>,
    sm: T,
    r: Seq<Vec<T>>,
) -> bool {
    &&& r.len() == cones.len()
    &&& forall|c: int|
        0 <= c < cones.len() ==> has_correction(cones, al, c, sc, identities, z, ds, dz, sm, #[trigger] r[c])
}

/// Cone `c` has its displacement and its part in the corrector's right-hand side, both empty for an
/// orthant.
pub open spec fn has_target<
    T: Scalar,
    I: Fn(Cone) -> Vec<T>,
    R: Fn(Cone, &[T], &[T]) -> T,
    C: Fn(&ConeScaling<T>, &[T], bool) -> Vec<T>,
    P: Fn(Cone, &[T], &[T]) -> Vec<T>,
    Y: Fn(Cone, &[T], &[T]) -> Vec<T>,
    Z: Fn(Cone, &[T], T, T) -> Vec<T>,
>(
    cones: Seq<Cone>,
    al: Algebra<I, R, C, P, Y, Z>,
    c: int,
    sc: Seq<ConeScaling<T>>,
    z: Seq<T>,
    st: Seq<T>,
    zt: Seq<T>,
    mu: T,
    psi: Vec<T>,
    out: Vec<T>,
) -> bool {
    if cones[c] is NonNeg {
        psi@.len() == 0 && out@.len() == 0
    } else {
        recenters_cone(
            al,
            cones[c],
            sc[c],
            block(cones, z, c),
            block(cones, st, c),
            block(cones, zt, c),
            mu,
            psi@,
            out@,
        )
    }
}

/// `psis` holds the displacements of the cones, and `outs` their parts in the corrector's right-hand
/// side.
pub open spec fn targets_at<
    T: Scalar,
    I: Fn(Cone) -> Vec<T>,
    R: Fn(Cone, &[T], &[T]) -> T,
    C: Fn(&ConeScaling<T>, &[T], bool) -> Vec<T>,
    P: Fn(Cone, &[T], &[T]) -> Vec<T>,
    Y: Fn(Cone, &[T], &[T]) -> Vec<T>,
    Z: Fn(Cone, &[T], T, T) -> Vec<T>,
>(
    cones: Seq<Cone>,
    al: Algebra<I, R, C, P, Y, Z>,
    sc: Seq<ConeScaling<T>>,
    z: Seq<T>,
    st: Seq<T>,
    zt: Seq<T>,
    mu: T,
    psis: Seq<Vec<T>>,
    outs: Seq<Vec<T>>,
) -> bool {
    &&& psis.len() == cones.len()
    &&& outs.len() == cones.len()
    &&& forall|c: int|
        0 <= c < cones.len() ==> #[trigger] has_target(cones, al, c, sc, z, st, zt, mu, psis[c], outs[c])
}

/// Divides by the scaled multipliers and scales back.
fn divide_back<
    T: Scalar,
    I: Fn(Cone) -> Vec<T>,
    R: Fn(Cone, &[T], &[T]) -> T,
    C: Fn(&ConeScaling<T>, &[T], bool) -> Vec<T>,
    P: Fn(Cone, &[T], &[T]) -> Vec<T>,
    Y: Fn(Cone, &[T], &[T]) -> Vec<T>,
    Z: Fn(Cone, &[T], T, T) -> Vec<T>,
>(cones: &[Cone], al: &Algebra<I, R, C, P, Y, Z>, c: usize, sc: &ConeScaling<T>, z: &[T], inner: &[T]) -> (out: Vec<T>)
    requires
        c < cones@.len(),
        !(cones@[c as int] is NonNeg),
        sc.matches_cone(cones@[c as int]),
        algebra_fits(cones@, *al),
        z@.len() == cones@[c as int].size(),
        inner@.len() == z@.len(),
    ensures
        out@.len() == z@.len(),
        divides_back(*al, cones@[c as int], *sc, z@, inner@, out@),
{
    let k: Cone = cones[c];
    assert(cones@.contains(k));
    assert(belongs(cones@, k, z@));
    let lam = (al.apply)(sc, z, false);
    assert(al.apply.ensures((sc, z, false), lam));
    assert(maps(al.apply, *sc, false, z@, lam@));
    let l: &[T] = lam.as_slice();
    let x = (al.divide)(k, l, inner);
    assert(al.divide.ensures((k, l, inner), x));
    assert(joins(al.divide, k, lam@, inner@, x@));
    let xs: &[T] = x.as_slice();
    assert(belongs(cones@, k, xs@));
    let out = (al.apply)(sc, xs, false);
    assert(al.apply.ensures((sc, xs, false), out));
    assert(maps(al.apply, *sc, false, x@, out@));
    out
}

/// The product of the unscaled slacks with the scaled multipliers.
fn product_of<
    T: Scalar,
    I: Fn(Cone) -> Vec<T>,
    R: Fn(Cone, &[T], &[T]) -> T,
    C: Fn(&ConeScaling<T>, &[T], bool) -> Vec<T>,
    P: Fn(Cone, &[T], &[T]) -> Vec<T>,
    Y: Fn(Cone, &[T], &[T]) -> Vec<T>,
    Z: Fn(Cone, &[T], T, T) -> Vec<T>,
>(cones: &[Cone], al: &Algebra<I, R, C, P, Y, Z>, c: usize, sc: &ConeScaling<T>, s: &[T], z: &[T]) -> (prod: Vec<T>)
    requires
        c < cones@.len(),
        !(cones@[c as int] is NonNeg),
        sc.matches_cone(cones@[c as int]),
        algebra_fits(cones@, *al),
        s@.len() == cones@[c as int].size(),
        z@.len() == s@.len(),
    ensures
        prod@.len() == s@.len(),
        scaled_product(*al, cones@[c as int], *sc, s@, z@, prod@),
{
    let k: Cone = cones[c];
    assert(cones@.contains(k));
    assert(belongs(cones@, k, s@) && belongs(cones@, k, z@));
    let a = (al.apply)(sc, s, true);
    assert(al.apply.ensures((sc, s, true), a));
    assert(maps(al.apply, *sc, true, s@, a@));
    let b = (al.apply)(sc, z, false);
    assert(al.apply.ensures((sc, z, false), b));
    assert(maps(al.apply, *sc, false, z@, b@));
    let (p, q): (&[T], &[T]) = (a.as_slice(), b.as_slice());
    let prod = (al.multiply)(k, p, q);
    assert(al.multiply.ensures((k, p, q), prod));
    assert(joins(al.multiply, k, a@, b@, prod@));
    prod
}

/// The block of a cone.
pub(crate) fn block_of<T: Scalar>(cones: &[Cone], offsets: &[usize], v: &[T], c: usize) -> (r: Vec<T>)
    requires
        cones_fit(cones@),
        offsets_of(cones@, offsets@),
        c < cones@.len(),
        v@.len() == total_size(cones@),
    ensures
        r@ == block(cones@, v@, c as int),
        r@.len() == cones@[c as int].size(),
{
    let o: usize = offsets[c];
    let d: usize = cones[c].dim();
    let n: usize = v.len();
    proof {
        lemma_block_bounds(cones@, c as int);
    }
    let mut r: Vec<T> = Vec::with_capacity(d);
    let mut i: usize = 0;
    while i < d
        invariant
            i <= d,
            o + d <= n,
            n == v@.len(),
            r@.len() == i,
            forall|k: int| 0 <= k < i ==> #[trigger] r@[k] == v@[o + k],
        decreases d - i,
    {
        r.push(v[o + i]);
        i += 1;
    }
    proof {
        assert(r@ =~= block(cones@, v@, c as int));
    }
    r
}

/// The identities of the cones.
pub fn identities_of<
    T: Scalar,
    I: Fn(Cone) -> Vec<T>,
    R: Fn(Cone, &[T], &[T]) -> T,
    C: Fn(&ConeScaling<T>, &[T], bool) -> Vec<T>,
    P: Fn(Cone, &[T], &[T]) -> Vec<T>,
    Y: Fn(Cone, &[T], &[T]) -> Vec<T>,
    Z: Fn(Cone, &[T], T, T) -> Vec<T>,
>(cones: &[Cone], al: &Algebra<I, R, C, P, Y, Z>) -> (r: Vec<Vec<T>>)
    requires
        cones_fit(cones@),
        algebra_fits(cones@, *al),
    ensures
        identities_at(cones@, al.identity, r@),
        identities_fit(cones@, r@),
{
    let mut r: Vec<Vec<T>> = Vec::with_capacity(cones.len());
    let mut c: usize = 0;
    while c < cones.len()
        invariant
            cones_fit(cones@),
            algebra_fits(cones@, *al),
            c <= cones@.len(),
            r@.len() == c,
            forall|k: int| 0 <= k < c ==> (#[trigger] r@[k])@.len() == cones@[k].size(),
            forall|k: int|
                0 <= k < c ==> match cones@[k] {
                    Cone::NonNeg(d) => (#[trigger] r@[k])@ == constant(T::one(), d as nat),
                    q => names(al.identity, q, r@[k]@),
                },
        decreases cones@.len() - c,
    {
        match cones[c] {
            Cone::NonNeg(d) => {
                r.push(filled(T::one(), d));
            },
            k => {
                assert(cones@.contains(cones@[c as int]));
                let e = (al.identity)(k);
                assert(al.identity.ensures((k,), e));
                assert(names(al.identity, k, e@));
                r.push(k.identity(&e));
            },
        }
        c += 1;
    }
    r
}

/// How far each curved cone allows to go from `v` along `dv`; 1 for an orthant, which is tested
/// entry by entry.
pub fn curved_ratios<
    T: Scalar,
    I: Fn(Cone) -> Vec<T>,
    R: Fn(Cone, &[T], &[T]) -> T,
    C: Fn(&ConeScaling<T>, &[T], bool) -> Vec<T>,
    P: Fn(Cone, &[T], &[T]) -> Vec<T>,
    Y: Fn(Cone, &[T], &[T]) -> Vec<T>,
    Z: Fn(Cone, &[T], T, T) -> Vec<T>,
>(cones: &[Cone], offsets: &[usize], al: &Algebra<I, R, C, P, Y, Z>, v: &[T], dv: &[T]) -> (r: Vec<T>)
    requires
        cones_fit(cones@),
        offsets_of(cones@, offsets@),
        algebra_fits(cones@, *al),
        v@.len() == total_size(cones@),
        dv@.len() == v@.len(),
    ensures
        ratios_at(cones@, al.ratio, v@, dv@, r@),
        forall|c: int| 0 <= c < cones@.len() && cones@[c] is NonNeg ==> #[trigger] r@[c] == T::one(),
{
    let mut r: Vec<T> = Vec::with_capacity(cones.len());
    let mut c: usize = 0;
    while c < cones.len()
        invariant
            cones_fit(cones@),
            offsets_of(cones@, offsets@),
            algebra_fits(cones@, *al),
            v@.len() == total_size(cones@),
            dv@.len() == v@.len(),
            c <= cones@.len(),
            r@.len() == c,
            forall|k: int|
                0 <= k < c && !(cones@[k] is NonNeg) ==> reaches(
                    al.ratio,
                    cones@[k],
                    block(cones@, v@, k),
                    block(cones@, dv@, k),
                    #[trigger] r@[k],
                ),
            forall|k: int| 0 <= k < c && cones@[k] is NonNeg ==> #[trigger] r@[k] == T::one(),
        decreases cones@.len() - c,
    {
        match cones[c] {
            Cone::NonNeg(_) => {
                r.push(T::one());
            },
            k => {
                let (p, q) = (block_of(cones, offsets, v, c), block_of(cones, offsets, dv, c));
                let (ps, qs): (&[T], &[T]) = (p.as_slice(), q.as_slice());
                assert(cones@.contains(cones@[c as int]));
                assert(belongs(cones@, k, ps@));
                let a = (al.ratio)(k, ps, qs);
                assert(al.ratio.ensures((k, ps, qs), a));
                assert(reaches(al.ratio, k, p@, q@, a));
                r.push(a);
            },
        }
        c += 1;
    }
    r
}

/// The parts of the curved cones in the combined right-hand side, with the centering target `sm`. The
/// parts of orthants are left empty.
pub fn curved_corrections<
    T: Scalar,
    I: Fn(Cone) -> Vec<T>,
    R: Fn(Cone, &[T], &[T]) -> T,
    C: Fn(&ConeScaling<T>, &[T], bool) -> Vec<T>,
    P: Fn(Cone, &[T], &[T]) -> Vec<T>,
    Y: Fn(Cone, &[T], &[T]) -> Vec<T>,
    Z: Fn(Cone, &[T], T, T) -> Vec<T>,
>(
    cones: &[Cone],
    offsets: &[usize],
    al: &Algebra<I, R, C, P, Y, Z>,
    sc: &[ConeScaling<T>],
    identities: &[Vec<T>],
    z: &[T],
    ds: &[T],
    dz: &[T],
    sm: T,
) -> (r: Vec<Vec<T>>)
    requires
        cones_fit(cones@),
        offsets_of(cones@, offsets@),
        algebra_fits(cones@, *al),
        scalings_fit(cones@, sc@),
        curved_fit(cones@, identities@),
        z@.len() == total_size(cones@),
        ds@.len() == z@.len(),
        dz@.len() == z@.len(),
    ensures
        curved_fit(cones@, r@),
        corrections_at(cones@, *al, sc@, identities@, z@, ds@, dz@, sm, r@),
{
    let mut r: Vec<Vec<T>> = Vec::with_capacity(cones.len());
    let mut c: usize = 0;
    while c < cones.len()
        invariant
            cones_fit(cones@),
            offsets_of(cones@, offsets@),
            algebra_fits(cones@, *al),
            scalings_fit(cones@, sc@),
            curved_fit(cones@, identities@),
            z@.len() == total_size(cones@),
            ds@.len() == z@.len(),
            dz@.len() == z@.len(),
            c <= cones@.len(),
            r@.len() == c,
            forall|k: int|
                0 <= k < c && !(cones@[k] is NonNeg) ==> (#[trigger] r@[k])@.len() == cones@[k].size(),
            forall|k: int|
                0 <= k < c ==> has_correction(
                    cones@,
                    *al,
                    k,
                    sc@,
                    identities@,
                    z@,
                    ds@,
                    dz@,
                    sm,
                    #[trigger] r@[k],
                ),
        decreases cones@.len() - c,
    {
        match cones[c] {
            Cone::NonNeg(_) => {
                r.push(Vec::new());
            },
            _ => {
                let e = &identities[c];
                let prod = product_of(
                    cones,
                    al,
                    c,
                    &sc[c],
                    &block_of(cones, offsets, ds, c),
                    &block_of(cones, offsets, dz, c),
                );
                let mut inner: Vec<T> = Vec::with_capacity(prod.len());
                let mut i: usize = 0;
                while i < prod.len()
                    invariant
                        i <= prod@.len(),
                        e@.len() == prod@.len(),
                        inner@.len() == i,
                        forall|k: int| 0 <= k < i ==> #[trigger] inner@[k] == prod@[k].minus(sm.times(e@[k])),
                    decreases prod@.len() - i,
                {
                    inner.push(prod[i].minus(sm.times(e[i])));
                    i += 1;
                }
                proof {
                    assert(inner@ =~= recentered_by(prod@, sm, e@));
                }
                let out = divide_back(cones, al, c, &sc[c], &block_of(cones, offsets, z, c), &inner);
                r.push(out);
            },
        }
        c += 1;
    }
    r
}

/// The displacements of the curved cones into the central band at the trial point `st`, `zt`, and their
/// parts in the corrector's right-hand side. Those of orthants are left empty.
pub fn curved_targets<
    T: Scalar,
    I: Fn(Cone) -> Vec<T>,
    R: Fn(Cone, &[T], &[T]) -> T,
    C: Fn(&ConeScaling<T>, &[T], bool) -> Vec<T>,
    P: Fn(Cone, &[T], &[T]) -> Vec<T>,
    Y: Fn(Cone, &[T], &[T]) -> Vec<T>,
    Z: Fn(Cone, &[T], T, T) -> Vec<T>,
>(
    cones: &[Cone],
    offsets: &[usize],
    al: &Algebra<I, R, C, P, Y, Z>,
    sc: &[ConeScaling<T>],
    z: &[T],
    st: &[T],
    zt: &[T],
    mu: T,
) -> (r: (Vec<Vec<T>>, Vec<Vec<T>>))
    requires
        cones_fit(cones@),
        offsets_of(cones@, offsets@),
        algebra_fits(cones@, *al),
        scalings_fit(cones@, sc@),
        z@.len() == total_size(cones@),
        st@.len() == z@.len(),
        zt@.len() == z@.len(),
    ensures
        curved_fit(cones@, r.0@),
        curved_fit(cones@, r.1@),
        targets_at(cones@, *al, sc@, z@, st@, zt@, mu, r.0@, r.1@),
{
    let lo = T::decimal(1, 1).times(mu);
    let hi = T::decimal(10, 0).times(mu);
    let mut psis: Vec<Vec<T>> = Vec::with_capacity(cones.len());
    let mut outs: Vec<Vec<T>> = Vec::with_capacity(cones.len());
    let mut c: usize = 0;
    while c < cones.len()
        invariant
            cones_fit(cones@),
            offsets_of(cones@, offsets@),
            algebra_fits(cones@, *al),
            scalings_fit(cones@, sc@),
            z@.len() == total_size(cones@),
            st@.len() == z@.len(),
            zt@.len() == z@.len(),
            lo == T::decimal(1, 1).times(mu),
            hi == T::decimal(10, 0).times(mu),
            c <= cones@.len(),
            psis@.len() == c,
            outs@.len() == c,
            forall|k: int|
                0 <= k < c && !(cones@[k] is NonNeg) ==> (#[trigger] psis@[k])@.len() == cones@[k].size(),
            forall|k: int|
                0 <= k < c && !(cones@[k] is NonNeg) ==> (#[trigger] outs@[k])@.len() == cones@[k].size(),
            forall|k: int|
                0 <= k < c ==> #[trigger] has_target(
                    cones@,
                    *al,
                    k,
                    sc@,
                    z@,
                    st@,
                    zt@,
                    mu,
                    psis@[k],
                    outs@[k],
                ),
        decreases cones@.len() - c,
    {
        match cones[c] {
            Cone::NonNeg(_) => {
                psis.push(Vec::new());
                outs.push(Vec::new());
            },
            k => {
                let prod = product_of(
                    cones,
                    al,
                    c,
                    &sc[c],
                    &block_of(cones, offsets, st, c),
                    &block_of(cones, offsets, zt, c),
                );
                let p: &[T] = prod.as_slice();
                assert(cones@.contains(cones@[c as int]));
                assert(belongs(cones@, k, p@));
                let psi = (al.displace)(k, p, lo, hi);
                assert(al.displace.ensures((k, p, lo, hi), psi));
                assert(moves_into(al.displace, k, prod@, lo, hi, psi@));
                let inner = negated_of(&psi);
                let out = divide_back(cones, al, c, &sc[c], &block_of(cones, offsets, z, c), &inner);
                psis.push(psi);
                outs.push(out);
            },
        }
        proof {
            assert(has_target(cones@, *al, c as int, sc@, z@, st@, zt@, mu, psis@[c as int], outs@[c as int]));
        }
        c += 1;
    }
    (psis, outs)
}

} // verus!
