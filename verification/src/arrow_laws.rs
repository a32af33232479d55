//! The arrow form, where the operations of the numbers are exact: the two auxiliary columns of a
//! second-order cone carry what its scaling block has off the diagonal.
use crate::arrow_kkt::{arrow_diag, eta_of, space_col, time_col, wbar_of};
use crate::cone::{nt_entry, ConeScaling};
use crate::exact::{exact, inv, lemma_inv};
use crate::scalar::Scalar;
use vstd::prelude::*;

verus! {

proof fn lemma_pair(c: real, e: real, x: real, y: real)
    ensures
        (c * e * x) * (c * e * y) == (c * c) * ((e * e) * (x * y)),
{
    let g = c * e;
    assert((g * x) * (g * y) == (g * g) * (x * y)) by (nonlinear_arith);
    assert((c * e) * (c * e) == (c * c) * (e * e)) by (nonlinear_arith);
    let (p, q, r) = (c * c, e * e, x * y);
    assert((p * q) * r == p * (q * r)) by (nonlinear_arith);
}

proof fn lemma_two(p: real, s: real)
    requires
        p == 2real,
    ensures
        p * s == s + s,
{
    assert(2real * s == s + s) by (nonlinear_arith);
}

proof fn lemma_block_value(q: real, x: real, y: real, j: real)
    ensures
        q * (2real * x * y - j) == q * (x * y) + q * (x * y) - q * j,
{
    let r = x * y;
    assert(2real * x * y == r + r) by (nonlinear_arith)
        requires
            r == x * y,
    ;
    assert(q * ((r + r) - j) == q * r + q * r - q * j) by (nonlinear_arith);
}

proof fn lemma_through(p: real, q: real)
    ensures
        p * 1real * q == p * q,
        p * (-1real) * q == -(p * q),
        p * 0real == 0real,
        0real * (-1real) * q == 0real,
        p * (-1real) * 0real == 0real,
        p * 1real == p,
        p * -1real == -p,
{
    assert(p * 1real * q == p * q) by (nonlinear_arith);
    assert(p * (-1real) * q == -(p * q)) by (nonlinear_arith);
    assert(p * 0real == 0real) by (nonlinear_arith);
    assert(0real * (-1real) * q == 0real) by (nonlinear_arith);
    assert(p * (-1real) * 0real == 0real) by (nonlinear_arith);
    assert(p * 1real == p) by (nonlinear_arith);
    assert(p * -1real == -p) by (nonlinear_arith);
}

/// The entry of the arrow form's diagonal part in row `a` and column `b`.
pub open spec fn arrow_part<T: Scalar>(v: spec_fn(T) -> real, sc: ConeScaling<T>, delta: T, a: int, b: int) -> real {
    if a == b {
        v(arrow_diag(sc, wbar_of(sc).len(), a, delta))
    } else {
        0real
    }
}

/// What the second auxiliary column holds in row `l`.
pub open spec fn apex_part<T: Scalar>(v: spec_fn(T) -> real, time: Seq<(usize, T)>, l: int) -> real {
    if l == 0 {
        v(time[0].1)
    } else {
        0real
    }
}

/// Eliminating the two auxiliary unknowns of a second-order cone from the arrow form leaves the cone's
/// block `-(eta^2 (2 w w' - J) + delta I)` of the conic system.
pub proof fn auxiliary_columns_give_the_scaling_block<T: Scalar>(
    v: spec_fn(T) -> real,
    sc: ConeScaling<T>,
    delta: T,
    base: nat,
    acol: nat,
    a: int,
    b: int,
)
    requires
        exact(v),
        sc is Soc,
        wbar_of(sc).len() > 1,
        0 <= a < wbar_of(sc).len(),
        0 <= b < wbar_of(sc).len(),
    ensures
        ({
            let (eta, w) = (eta_of(sc), wbar_of(sc));
            let d = w.len();
            let space = space_col(base, d, eta, w, acol);
            let time = time_col(base, eta, acol + 1);
            arrow_part(v, sc, delta, a, b) - v(space[a].1) * inv(v(space[d as int].1)) * v(space[b].1) - apex_part(
                v,
                time,
                a,
            ) * inv(v(time[1].1)) * apex_part(v, time, b) == -(v(nt_entry(eta.times(eta), w, a, b)) + if a == b {
                v(delta)
            } else {
                0real
            })
        }),
{
    let (eta, w) = (eta_of(sc), wbar_of(sc));
    let d = w.len();
    let space = space_col(base, d, eta, w, acol);
    let time = time_col(base, eta, acol + 1);
    let (c, e, x, y) = (v(T::decimal(2, 0).sqrt()), v(eta), v(w[a]), v(w[b]));
    lemma_inv(1real);
    lemma_inv(-1real);
    assert(space[d as int].1 == T::one());
    assert(time[1].1 == T::one().neg());
    assert(inv(v(space[d as int].1)) == 1real);
    assert(inv(v(time[1].1)) == -1real);
    let q = e * e;
    let s = q * (x * y);
    lemma_through(c * e * x, c * e * y);
    lemma_pair(c, e, x, y);
    lemma_two(c * c, s);
    let j = if a == b {
        if a == 0 {
            1real
        } else {
            -1real
        }
    } else {
        0real
    };
    lemma_block_value(q, x, y, j);
    lemma_through(q, q);
    lemma_through(e, e);
}

} // verus!
