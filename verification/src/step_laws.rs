//! The steps to the boundary, where the operations of the numbers are exact: no step up to the one that is
//! found leaves the orthant, and the boundary is a fixed margin further.
use crate::exact::{exact, exact_order, lemma_over};
use crate::problem::{orthant_step, ratio_upto};
use crate::scalar::Scalar;
use vstd::prelude::*;

verus! {

/// Every entry of `v + a dv` is not negative, over the first `k`.
pub open spec fn stays<T: Scalar>(r: spec_fn(T) -> real, v: Seq<T>, dv: Seq<T>, a: real, k: nat) -> bool {
    forall|i: int| 0 <= i < k ==> r(#[trigger] v[i]) + a * r(dv[i]) >= 0real
}

/// Some entry of `v + a dv` vanishes, over the first `k`, and falls further behind.
pub open spec fn touches<T: Scalar>(r: spec_fn(T) -> real, v: Seq<T>, dv: Seq<T>, a: real, k: nat) -> bool {
    exists|i: int| 0 <= i < k && r(#[trigger] v[i]) + a * r(dv[i]) == 0real && r(dv[i]) < 0real
}

proof fn lemma_entry(x: real, d: real, a: real, b: real)
    requires
        0real <= a <= b,
        x >= 0real,
        d < 0real ==> x + b * d >= 0real,
    ensures
        x + a * d >= 0real,
{
    if d < 0real {
        assert(a * d >= b * d) by (nonlinear_arith)
            requires
                a <= b,
                d < 0real,
        ;
    } else {
        assert(a * d >= 0real) by (nonlinear_arith)
            requires
                a >= 0real,
                d >= 0real,
        ;
    }
}

proof fn lemma_ratio_order(q: real, f: real, d: real, x: real)
    requires
        d < 0real,
        q * d == -x,
    ensures
        f <= q ==> x + f * d >= 0real,
{
    if f <= q {
        assert(f * d >= q * d) by (nonlinear_arith)
            requires
                f <= q,
                d < 0real,
        ;
    }
}

/// The ratio of the boundary test: no falling entry is negative at it, and one vanishes there unless none
/// falls before infinity.
proof fn lemma_ratio<T: Scalar>(r: spec_fn(T) -> real, v: Seq<T>, dv: Seq<T>, k: nat)
    requires
        exact(r),
        k <= v.len(),
        k <= dv.len(),
    ensures
        ({
            let m = r(ratio_upto(v, dv, k));
            &&& m <= r(T::infinity())
            &&& forall|i: int| 0 <= i < k && r(dv[i]) < 0real ==> r(#[trigger] v[i]) + m * r(dv[i]) >= 0real
            &&& m == r(T::infinity()) || touches(r, v, dv, m, k)
        }),
    decreases k,
{
    if k > 0 {
        let t = k - 1;
        lemma_ratio(r, v, dv, t as nat);
        let (f, m) = (r(ratio_upto(v, dv, t as nat)), r(ratio_upto(v, dv, k)));
        let (x, d) = (r(v[t]), r(dv[t]));
        if d < 0real {
            lemma_over(r, v[t].neg(), dv[t]);
            let q = r(v[t].neg().over(dv[t]));
            lemma_ratio_order(q, f, d, x);
            lemma_ratio_order(q, q, d, x);
            assert forall|i: int| 0 <= i < k && r(dv[i]) < 0real implies r(#[trigger] v[i]) + m * r(dv[i]) >= 0real by {
                if i < t {
                    let (y, e) = (r(v[i]), r(dv[i]));
                    assert(y + f * e >= 0real);
                    assert(m * e >= f * e) by (nonlinear_arith)
                        requires
                            m <= f,
                            e < 0real,
                    ;
                }
            }
            if q < f {
                assert(r(v[t]) + m * r(dv[t]) == 0real);
                assert(touches(r, v, dv, m, k));
            }
        }
        if m == f && m != r(T::infinity()) {
            let i = choose|i: int| 0 <= i < t && r(#[trigger] v[i]) + f * r(dv[i]) == 0real && r(dv[i]) < 0real;
            assert(r(v[i]) + m * r(dv[i]) == 0real);
            assert(touches(r, v, dv, m, k));
        }
    }
}

/// No step up to the one that is found leaves the orthant, and where that is positive and not without end,
/// an entry vanishes a fixed margin further; it holds however the numbers are read.
pub open spec fn keeps_orthant<T: Scalar>(v: Seq<T>, dv: Seq<T>, step: T) -> bool {
    forall|r: spec_fn(T) -> real| #[trigger]
        exact(r) && exact_order(r) && r(T::decimal(1, 13)) >= 0real && stays(r, v, dv, 0real, v.len()) ==> {
            &&& r(step) >= 0real
            &&& forall|a: real| 0real <= a <= r(step) ==> #[trigger] stays(r, v, dv, a, v.len())
            &&& r(step) > 0real && r(step) + r(T::decimal(1, 13)) < r(T::infinity()) ==> touches(
                r,
                v,
                dv,
                r(step) + r(T::decimal(1, 13)),
                v.len(),
            )
        }
}

/// The step to the boundary keeps the orthant.
pub proof fn orthant_steps_keep_the_orthant<T: Scalar>(v: Seq<T>, dv: Seq<T>)
    requires
        v.len() <= dv.len(),
    ensures
        keeps_orthant(v, dv, orthant_step(v, dv)),
{
    let step = orthant_step(v, dv);
    let n = v.len();
    assert forall|r: spec_fn(T) -> real| #[trigger]
        exact(r) && exact_order(r) && r(T::decimal(1, 13)) >= 0real && stays(r, v, dv, 0real, n) implies {
        &&& r(step) >= 0real
        &&& forall|a: real| 0real <= a <= r(step) ==> #[trigger] stays(r, v, dv, a, n)
        &&& r(step) > 0real && r(step) + r(T::decimal(1, 13)) < r(T::infinity()) ==> touches(
            r,
            v,
            dv,
            r(step) + r(T::decimal(1, 13)),
            n,
        )
    } by {
        lemma_ratio(r, v, dv, n);
        let m = r(ratio_upto(v, dv, n));
        assert forall|a: real| 0real <= a <= r(step) implies #[trigger] stays(r, v, dv, a, n) by {
            assert forall|i: int| 0 <= i < n implies r(#[trigger] v[i]) + a * r(dv[i]) >= 0real by {
                let (x, d) = (r(v[i]), r(dv[i]));
                assert(x + 0real * d >= 0real);
                assert(0real * d == 0real) by (nonlinear_arith);
                if a == 0real {
                } else {
                    assert(a <= m);
                    lemma_entry(x, d, a, m);
                }
            }
        }
    }
}

} // verus!
