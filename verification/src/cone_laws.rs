//! The algebra and the steps of the orthants among the cones, where the operations of the numbers are
//! exact.
use crate::cone::{
    block, joint_step_upto, lemma_block_bounds, min_ratio_upto, step_of, total_size, Cone, ConeScaling,
};
use crate::exact::{exact, exact_order, lemma_over, lemma_sum_same, product};
use crate::problem::{orthant_step, ratio_upto};
use crate::scalar::Scalar;
use crate::step_laws::{keeps_orthant, orthant_steps_keep_the_orthant, stays};
use vstd::prelude::*;

verus! {

/// The sequences read as the same numbers.
pub open spec fn same<T>(r: spec_fn(T) -> real, a: Seq<T>, b: Seq<T>) -> bool {
    &&& a.len() == b.len()
    &&& forall|i: int| 0 <= i < a.len() ==> r(#[trigger] a[i]) == r(b[i])
}

/// Every entry reads as a positive number.
pub open spec fn positive<T>(r: spec_fn(T) -> real, a: Seq<T>) -> bool {
    forall|i: int| 0 <= i < a.len() ==> r(#[trigger] a[i]) > 0real
}

/// On an orthant the Jordan product commutes, the identity changes nothing, and the identity sums the
/// product to the inner product.
pub proof fn orthant_product_is_jordan<T: Scalar>(r: spec_fn(T) -> real, d: usize, u: Seq<T>, v: Seq<T>)
    requires
        exact(r),
        u.len() == d,
        v.len() == d,
    ensures
        ({
            let k = Cone::NonNeg(d);
            let e = k.identity_spec::<T>(u);
            &&& same(r, k.jordan(u, v, u), k.jordan(v, u, v))
            &&& same(r, k.jordan(e, v, v), v)
            &&& product(r, e, k.jordan(u, v, u)) == product(r, u, v)
        }),
{
    let k = Cone::NonNeg(d);
    let e = k.identity_spec::<T>(u);
    let p = k.jordan(u, v, u);
    let q = k.jordan(v, u, v);
    assert forall|i: int| 0 <= i < d implies r(#[trigger] p[i]) == r(q[i]) by {
        let (a, b) = (r(u[i]), r(v[i]));
        assert(a * b == b * a) by (nonlinear_arith);
    }
    let ev = k.jordan(e, v, v);
    assert forall|i: int| 0 <= i < d implies r(#[trigger] ev[i]) == r(v[i]) by {
        assert(e[i] == T::one());
    }
    let f = |i: int| r(e[i]) * r(p[i]);
    let g = |i: int| r(u[i]) * r(v[i]);
    assert forall|i: int| 0 <= i < d implies #[trigger] f(i) == g(i) by {
        assert(e[i] == T::one());
        assert(p[i] == u[i].times(v[i]));
    }
    lemma_sum_same(f, g, d as nat);
}

/// On an orthant the inverse of the arrow operator undoes the Jordan product.
pub proof fn arrow_inverse_undoes_the_product<T: Scalar>(r: spec_fn(T) -> real, d: usize, lam: Seq<T>, b: Seq<T>)
    requires
        exact(r),
        lam.len() == d,
        b.len() == d,
        positive(r, lam),
    ensures
        ({
            let k = Cone::NonNeg(d);
            same(r, k.jordan(lam, k.arrow_inv(lam, b, b), b), b)
        }),
{
    let k = Cone::NonNeg(d);
    let x = k.arrow_inv(lam, b, b);
    let p = k.jordan(lam, x, b);
    assert forall|i: int| 0 <= i < d implies r(#[trigger] p[i]) == r(b[i]) by {
        assert(r(lam[i]) > 0real);
        assert(x[i] == b[i].over(lam[i]));
        lemma_over(r, b[i], lam[i]);
        let (l, q) = (r(lam[i]), r(x[i]));
        assert(l * q == q * l) by (nonlinear_arith);
    }
}

/// Moved by the displacement, a vector lies in the band, and what lies in the band already stays.
pub proof fn displacement_reaches_the_band<T: Scalar>(
    r: spec_fn(T) -> real,
    d: usize,
    v: Seq<T>,
    lo: T,
    hi: T,
    i: int,
)
    requires
        exact(r),
        exact_order(r),
        r(lo) <= r(hi),
        v.len() == d,
        0 <= i < d,
    ensures
        ({
            let t = r(Cone::NonNeg(d).centrality_target(v, lo, hi, v)[i]);
            &&& r(lo) <= r(v[i]) + t <= r(hi)
            &&& r(lo) <= r(v[i]) <= r(hi) ==> t == 0real
            &&& r(v[i]) < r(lo) ==> r(v[i]) + t == r(lo)
            &&& r(v[i]) > r(hi) ==> r(v[i]) + t == r(hi)
        }),
{
}

/// The scaling takes the multipliers and its inverse the slacks to one point, whose Jordan square is the
/// product of slacks and multipliers, and the block takes the multipliers to the slacks; it holds however
/// the numbers are read.
pub open spec fn balances_pair<T: Scalar>(s: Seq<T>, z: Seq<T>, sc: ConeScaling<T>, blk: Seq<T>) -> bool {
    forall|r: spec_fn(T) -> real| #[trigger] exact(r) && positive(r, s) && positive(r, z) ==> {
        let lam = sc.apply_w(z, z);
        &&& lam.len() == s.len()
        &&& positive(r, lam)
        &&& same(r, lam, sc.apply_w_inv(s, s))
        &&& forall|i: int| 0 <= i < s.len() ==> r(#[trigger] lam[i]) * r(lam[i]) == r(s[i]) * r(z[i])
        &&& forall|i: int| 0 <= i < s.len() ==> r(#[trigger] blk[i]) * r(z[i]) == r(s[i])
    }
}

proof fn lemma_root(w: real, h: real, s: real, z: real, back: real)
    requires
        s > 0real,
        z > 0real,
        h * z == s,
        w >= 0real,
        w * w == h,
    ensures
        w > 0real,
        w * z > 0real,
        (w * z) * (w * z) == s * z,
        back * w == s ==> w * z == back,
{
    assert(w != 0real) by {
        if w == 0real {
            assert(w * w == 0real) by (nonlinear_arith)
                requires
                    w == 0real,
            ;
            assert(h * z == 0real) by (nonlinear_arith)
                requires
                    h == 0real,
            ;
        }
    }
    assert(w * z > 0real) by (nonlinear_arith)
        requires
            w > 0real,
            z > 0real,
    ;
    assert((w * z) * (w * z) == ((w * w) * z) * z) by (nonlinear_arith);
    assert((w * z) * w == (w * w) * z) by (nonlinear_arith);
    if back * w == s {
        let p = w * z;
        assert(p == back) by (nonlinear_arith)
            requires
                p * w == back * w,
                w > 0real,
        ;
    }
}

/// The ratio of slacks and multipliers, and its root, balance the pair.
pub proof fn orthant_scaling_balances_the_pair<T: Scalar>(s: Seq<T>, z: Seq<T>, sc: ConeScaling<T>, blk: Seq<T>)
    requires
        s.len() == z.len(),
        blk == Seq::new(s.len(), |i: int| s[i].over(z[i])),
        sc matches ConeScaling::NonNeg { w } && w@ == Seq::new(s.len(), |i: int| s[i].over(z[i]).sqrt()),
    ensures
        balances_pair(s, z, sc, blk),
{
    assert forall|r: spec_fn(T) -> real| #[trigger] exact(r) && positive(r, s) && positive(r, z) implies {
        let lam = sc.apply_w(z, z);
        &&& lam.len() == s.len()
        &&& positive(r, lam)
        &&& same(r, lam, sc.apply_w_inv(s, s))
        &&& forall|i: int| 0 <= i < s.len() ==> r(#[trigger] lam[i]) * r(lam[i]) == r(s[i]) * r(z[i])
        &&& forall|i: int| 0 <= i < s.len() ==> r(#[trigger] blk[i]) * r(z[i]) == r(s[i])
    } by {
        let lam = sc.apply_w(z, z);
        let back = sc.apply_w_inv(s, s);
        assert forall|i: int| 0 <= i < s.len() implies r(#[trigger] lam[i]) > 0real && r(lam[i]) == r(back[i])
            && r(lam[i]) * r(lam[i]) == r(s[i]) * r(z[i]) && r(blk[i]) * r(z[i]) == r(s[i]) by {
            assert(r(s[i]) > 0real && r(z[i]) > 0real);
            lemma_over(r, s[i], z[i]);
            let h = s[i].over(z[i]);
            let (a, b, c) = (r(s[i]), r(z[i]), r(h));
            assert(c >= 0real) by (nonlinear_arith)
                requires
                    c * b == a,
                    a > 0real,
                    b > 0real,
            ;
            let w = h.sqrt();
            assert(r(w) * r(w) == c);
            lemma_root(r(w), c, a, b, r(s[i].over(w)));
            lemma_over(r, s[i], w);
            assert(back[i] == s[i].over(w));
            assert(lam[i] == w.times(z[i]));
        }
        assert forall|i: int| 0 <= i < s.len() implies r(#[trigger] blk[i]) * r(z[i]) == r(s[i]) by {
            assert(r(lam[i]) > 0real);
        }
    }
}

proof fn lemma_same_ratio<T: Scalar>(r: spec_fn(T) -> real, v: Seq<T>, dv: Seq<T>, k: nat)
    requires
        exact(r),
        exact_order(r),
        k <= v.len(),
        k <= dv.len(),
    ensures
        r(min_ratio_upto(v, dv, k)) == r(ratio_upto(v, dv, k)),
    decreases k,
{
    if k > 0 {
        lemma_same_ratio(r, v, dv, (k - 1) as nat);
    }
}

/// The step that an orthant among the cones allows keeps the orthant.
pub proof fn cone_steps_keep_the_orthant<T: Scalar>(d: usize, v: Seq<T>, dv: Seq<T>, curved: T)
    requires
        v.len() <= dv.len(),
    ensures
        keeps_orthant(v, dv, step_of(Cone::NonNeg(d), v, dv, curved)),
{
    let step = step_of(Cone::NonNeg(d), v, dv, curved);
    orthant_steps_keep_the_orthant(v, dv);
    assert forall|r: spec_fn(T) -> real| #[trigger] exact(r) && exact_order(r) implies r(step) == r(
        orthant_step(v, dv),
    ) by {
        lemma_same_ratio(r, v, dv, v.len());
    }
}

/// No step up to the joint one leaves an orthant, or is longer than what another cone allows, and the joint
/// step is without end only where every cone allows that; it holds however the numbers are read.
pub open spec fn keeps_cones<T: Scalar>(cones: Seq<Cone>, v: Seq<T>, dv: Seq<T>, curved: Seq<T>, step: T) -> bool {
    forall|r: spec_fn(T) -> real| #[trigger] exact(r) && exact_order(r) && r(T::decimal(1, 13)) >= 0real ==> {
        &&& forall|c: int, a: real|
            0 <= c < cones.len() && cones[c] is NonNeg && stays(
                r,
                block(cones, v, c),
                block(cones, dv, c),
                0real,
                cones[c].size(),
            ) && 0real <= a <= r(step) ==> #[trigger] stays(
                r,
                block(cones, v, c),
                block(cones, dv, c),
                a,
                cones[c].size(),
            )
        &&& forall|c: int| 0 <= c < cones.len() && !(cones[c] is NonNeg) ==> r(step) <= r(#[trigger] curved[c])
        &&& r(step) == r(T::infinity()) || exists|c: int|
            0 <= c < cones.len() && r(step) == r(
                step_of(#[trigger] cones[c], block(cones, v, c), block(cones, dv, c), curved[c]),
            )
    }
}

proof fn lemma_joint<T: Scalar>(
    r: spec_fn(T) -> real,
    cones: Seq<Cone>,
    v: Seq<T>,
    dv: Seq<T>,
    curved: Seq<T>,
    k: nat,
)
    requires
        exact(r),
        k <= cones.len(),
    ensures
        ({
            let m = r(joint_step_upto(cones, v, dv, curved, k));
            &&& forall|c: int|
                0 <= c < k ==> m <= r(
                    step_of(#[trigger] cones[c], block(cones, v, c), block(cones, dv, c), curved[c]),
                )
            &&& m == r(T::infinity()) || exists|c: int|
                0 <= c < k && m == r(
                    step_of(#[trigger] cones[c], block(cones, v, c), block(cones, dv, c), curved[c]),
                )
        }),
    decreases k,
{
    if k > 0 {
        lemma_joint(r, cones, v, dv, curved, (k - 1) as nat);
        let c = k - 1;
        let own = step_of(cones[c], block(cones, v, c), block(cones, dv, c), curved[c]);
        let front = joint_step_upto(cones, v, dv, curved, (k - 1) as nat);
        if !own.below(front) && r(front) != r(T::infinity()) {
            let b = choose|b: int|
                0 <= b < k - 1 && r(front) == r(
                    step_of(#[trigger] cones[b], block(cones, v, b), block(cones, dv, b), curved[b]),
                );
            assert(0 <= b < k);
        }
    }
}

/// The joint step keeps the cones.
pub proof fn joint_steps_keep_the_cones<T: Scalar>(cones: Seq<Cone>, v: Seq<T>, dv: Seq<T>, curved: Seq<T>)
    requires
        v.len() == total_size(cones),
        dv.len() == v.len(),
    ensures
        keeps_cones(cones, v, dv, curved, joint_step_upto(cones, v, dv, curved, cones.len())),
{
    let step = joint_step_upto(cones, v, dv, curved, cones.len());
    assert forall|r: spec_fn(T) -> real| #[trigger]
        exact(r) && exact_order(r) && r(T::decimal(1, 13)) >= 0real implies {
        &&& forall|c: int, a: real|
            0 <= c < cones.len() && cones[c] is NonNeg && stays(
                r,
                block(cones, v, c),
                block(cones, dv, c),
                0real,
                cones[c].size(),
            ) && 0real <= a <= r(step) ==> #[trigger] stays(
                r,
                block(cones, v, c),
                block(cones, dv, c),
                a,
                cones[c].size(),
            )
        &&& forall|c: int| 0 <= c < cones.len() && !(cones[c] is NonNeg) ==> r(step) <= r(#[trigger] curved[c])
        &&& r(step) == r(T::infinity()) || exists|c: int|
            0 <= c < cones.len() && r(step) == r(
                step_of(#[trigger] cones[c], block(cones, v, c), block(cones, dv, c), curved[c]),
            )
    } by {
        lemma_joint(r, cones, v, dv, curved, cones.len());
        assert forall|c: int, a: real|
            0 <= c < cones.len() && cones[c] is NonNeg && stays(
                r,
                block(cones, v, c),
                block(cones, dv, c),
                0real,
                cones[c].size(),
            ) && 0real <= a <= r(step) implies #[trigger] stays(
            r,
            block(cones, v, c),
            block(cones, dv, c),
            a,
            cones[c].size(),
        ) by {
            lemma_block_bounds(cones, c);
            let (p, q) = (block(cones, v, c), block(cones, dv, c));
            let own = step_of(cones[c], p, q, curved[c]);
            cone_steps_keep_the_orthant(cones[c]->NonNeg_0, p, q, curved[c]);
            assert(p.len() == cones[c].size());
            assert(r(step) <= r(own));
            assert(stays(r, p, q, a, p.len()));
        }
        assert forall|c: int| 0 <= c < cones.len() && !(cones[c] is NonNeg) implies r(step) <= r(
            #[trigger] curved[c],
        ) by {
            assert(step_of(cones[c], block(cones, v, c), block(cones, dv, c), curved[c]) == curved[c]);
        }
    }
}

} // verus!
