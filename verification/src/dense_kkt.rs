//! The dense augmented system of a conic program, and the equality part of the Kronecker solve.
use crate::condensed::lemma_cone_at;
use crate::cone::{lemma_block_bounds, offsets_of, size_upto, total_size, Cone};
use crate::conic_kkt::{block_entry, blocks_fit, conic_problem};
use crate::kkt_cache::cone_of_row;
use crate::kkt_laws::cone_at;
use crate::matrix::{raw_get, DenseMatrix};
use crate::problem::QpProblem;
use crate::scalar::Scalar;
use crate::vector::{dot_spec, dot_upto};
use vstd::prelude::*;

verus! {

/// The entry of the full symmetric augmented system in row `i` and column `j`.
pub open spec fn full_entry<T: Scalar>(
    prob: QpProblem<T>,
    cones: Seq<Cone>,
    blocks: Seq<Vec<T>>,
    rho: T,
    delta: T,
) -> spec_fn(int, int) -> T {
    |i: int, j: int|
        {
            let n = prob.n() as int;
            let zoff = n + prob.me();
            if i < n && j < n {
                if i == j {
                    prob.p.at(i, j).plus(rho)
                } else {
                    prob.p.at(i, j)
                }
            } else if j < n {
                if i < zoff {
                    prob.a_eq.at(i - n, j)
                } else {
                    prob.a_in.at(i - zoff, j)
                }
            } else if i < n {
                if j < zoff {
                    prob.a_eq.at(j - n, i)
                } else {
                    prob.a_in.at(j - zoff, i)
                }
            } else if i < zoff || j < zoff {
                if i == j {
                    delta.neg()
                } else {
                    T::zero()
                }
            } else {
                block_value(cones, blocks, delta, i - zoff, j - zoff)
            }
        }
}

/// The entry of the cones' blocks between slack entries `r` and `c`.
pub open spec fn block_value<T: Scalar>(
    cones: Seq<Cone>,
    blocks: Seq<Vec<T>>,
    delta: T,
    r: int,
    c: int,
) -> T {
    let k = cone_at(cones, c);
    let off = size_upto(cones, k as nat);
    if cone_at(cones, r) != k {
        T::zero()
    } else if cones[k] is NonNeg {
        if r == c {
            blocks[k]@[r - off].plus(delta).neg()
        } else {
            T::zero()
        }
    } else {
        block_entry(blocks[k]@, cones[k].size(), r - off, c - off, delta)
    }
}

fn block_value_of<T: Scalar>(
    cones: &[Cone],
    offsets: &[usize],
    blocks: &[Vec<T>],
    delta: T,
    r: usize,
    c: usize,
) -> (v: T)
    requires
        offsets_of(cones@, offsets@),
        crate::cone::cones_fit(cones@),
        blocks_fit(cones@, blocks@),
        r < total_size(cones@),
        c < total_size(cones@),
    ensures
        v == block_value(cones@, blocks@, delta, r as int, c as int),
{
    let kr: usize = cone_of_row(cones, offsets, r);
    let k: usize = cone_of_row(cones, offsets, c);
    proof {
        lemma_cone_at(cones@, kr as int, r as int);
        lemma_cone_at(cones@, k as int, c as int);
        lemma_block_bounds(cones@, k as int);
    }
    if kr != k {
        return T::zero();
    }
    let off: usize = offsets[k];
    match cones[k] {
        Cone::NonNeg(_) => {
            if r == c {
                blocks[k][r - off].plus(delta).neg()
            } else {
                T::zero()
            }
        },
        _ => {
            let d: usize = cones[k].dim();
            let h = raw_get(&blocks[k], d, d, r - off, c - off);
            if r == c {
                h.plus(delta).neg()
            } else {
                h.neg()
            }
        },
    }
}

/// The dense augmented system: the Hessian and the couplings, with the regularization and the
/// cones' blocks written over them.
pub fn assemble_dense_kkt<T: Scalar>(
    prob: &QpProblem<T>,
    cones: &[Cone],
    offsets: &[usize],
    blocks: &[Vec<T>],
    rho: T,
    delta: T,
) -> (m: DenseMatrix<T>)
    requires
        conic_problem(*prob, cones@),
        offsets_of(cones@, offsets@),
        blocks_fit(cones@, blocks@),
        (prob.n() + prob.me() + prob.mi()) * (prob.n() + prob.me() + prob.mi()) <= usize::MAX,
    ensures
        m.sized(prob.n() + prob.me() + prob.mi(), prob.n() + prob.me() + prob.mi()),
        m.entries_are(full_entry(*prob, cones@, blocks@, rho, delta)),
{
    let n: usize = prob.q.len();
    let me: usize = prob.b_eq.len();
    let mi: usize = prob.b_in.len();
    let dim: usize = n + me + mi;
    let zoff: usize = n + me;
    let ghost f = full_entry(*prob, cones@, blocks@, rho, delta);
    let mut m: DenseMatrix<T> = DenseMatrix::zeros(dim, dim);
    let mut i: usize = 0;
    while i < dim
        invariant
            conic_problem(*prob, cones@),
            offsets_of(cones@, offsets@),
            blocks_fit(cones@, blocks@),
            n == prob.n(),
            me == prob.me(),
            mi == prob.mi(),
            dim == n + me + mi,
            zoff == n + me,
            f == full_entry(*prob, cones@, blocks@, rho, delta),
            i <= dim,
            m.sized(dim as nat, dim as nat),
            forall|a: int, b: int| 0 <= a < i && 0 <= b < dim ==> #[trigger] m.at(a, b) == f(a, b),
        decreases dim - i,
    {
        let mut j: usize = 0;
        while j < dim
            invariant
                conic_problem(*prob, cones@),
                offsets_of(cones@, offsets@),
                blocks_fit(cones@, blocks@),
                n == prob.n(),
                me == prob.me(),
                mi == prob.mi(),
                dim == n + me + mi,
                zoff == n + me,
                f == full_entry(*prob, cones@, blocks@, rho, delta),
                i < dim,
                j <= dim,
                m.sized(dim as nat, dim as nat),
                forall|a: int, b: int|
                    0 <= a < dim && 0 <= b < dim && (a < i || (a == i && b < j)) ==> #[trigger] m.at(a, b)
                        == f(a, b),
            decreases dim - j,
        {
            let v = if i < n && j < n {
                if i == j {
                    prob.p.get(i, j).plus(rho)
                } else {
                    prob.p.get(i, j)
                }
            } else if j < n {
                if i < zoff {
                    prob.a_eq.get(i - n, j)
                } else {
                    prob.a_in.get(i - zoff, j)
                }
            } else if i < n {
                if j < zoff {
                    prob.a_eq.get(j - n, i)
                } else {
                    prob.a_in.get(j - zoff, i)
                }
            } else if i < zoff || j < zoff {
                if i == j {
                    delta.neg()
                } else {
                    T::zero()
                }
            } else {
                block_value_of(cones, offsets, blocks, delta, i - zoff, j - zoff)
            };
            m.set(i, j, v);
            j += 1;
        }
        i += 1;
    }
    m
}

/// Row `j` of the equality matrix divided by the regularization: the coupling of an equality row
/// to the slack entries.
pub open spec fn eq_coupling<T: Scalar>(prob: QpProblem<T>, inv_rho: T, j: int) -> Seq<T> {
    Seq::new(prob.n(), |r: int| inv_rho.times(prob.a_eq.at(j, r)))
}

/// The coupling of an equality row to the slack entries.
pub fn equality_coupling<T: Scalar>(prob: &QpProblem<T>, inv_rho: T, j: usize) -> (v: Vec<T>)
    requires
        prob.wf(),
        j < prob.me(),
    ensures
        v@ == eq_coupling(*prob, inv_rho, j as int),
{
    let n: usize = prob.q.len();
    let mut v: Vec<T> = Vec::with_capacity(n);
    let mut r: usize = 0;
    while r < n
        invariant
            prob.wf(),
            n == prob.n(),
            j < prob.me(),
            r <= n,
            v@ =~= eq_coupling(*prob, inv_rho, j as int).subrange(0, r as int),
        decreases n - r,
    {
        v.push(inv_rho.times(prob.a_eq.get(j, r)));
        r += 1;
    }
    assert(v@ =~= eq_coupling(*prob, inv_rho, j as int));
    v
}

/// The equality part of the Kronecker structure: `-delta I - A_eq A_eq' / rho` less the couplings
/// through the slack entries, of which `gzy[j]` is the solution for equality row `j`.
pub open spec fn kron_schur_entry<T: Scalar>(
    prob: QpProblem<T>,
    gzy: Seq<Vec<T>>,
    inv_rho: T,
    delta: T,
) -> spec_fn(int, int) -> T {
    |i: int, j: int|
        {
            let d = if i == j {
                delta
            } else {
                T::zero()
            };
            let yy = d.neg().minus(inv_rho.times(dot_spec(prob.a_eq.row(i), prob.a_eq.row(j))));
            yy.minus(inv_rho.times(dot_spec(prob.a_eq.row(i), gzy[j]@)))
        }
}

/// The equality part of the Kronecker structure.
pub fn kron_schur<T: Scalar>(prob: &QpProblem<T>, gzy: &[Vec<T>], inv_rho: T, delta: T) -> (m: DenseMatrix<T>)
    requires
        prob.wf(),
        gzy@.len() == prob.me(),
        forall|j: int| 0 <= j < gzy@.len() ==> (#[trigger] gzy@[j])@.len() == prob.n(),
        prob.me() * prob.me() <= usize::MAX,
    ensures
        m.sized(prob.me(), prob.me()),
        m.entries_are(kron_schur_entry(*prob, gzy@, inv_rho, delta)),
{
    let n: usize = prob.q.len();
    let me: usize = prob.b_eq.len();
    let ghost f = kron_schur_entry(*prob, gzy@, inv_rho, delta);
    let mut m: DenseMatrix<T> = DenseMatrix::zeros(me, me);
    let mut i: usize = 0;
    while i < me
        invariant
            prob.wf(),
            n == prob.n(),
            me == prob.me(),
            gzy@.len() == me,
            forall|j: int| 0 <= j < gzy@.len() ==> (#[trigger] gzy@[j])@.len() == n,
            f == kron_schur_entry(*prob, gzy@, inv_rho, delta),
            i <= me,
            m.sized(me as nat, me as nat),
            forall|a: int, b: int| 0 <= a < i && 0 <= b < me ==> #[trigger] m.at(a, b) == f(a, b),
        decreases me - i,
    {
        let mut j: usize = 0;
        while j < me
            invariant
                prob.wf(),
                n == prob.n(),
                me == prob.me(),
                gzy@.len() == me,
                forall|j: int| 0 <= j < gzy@.len() ==> (#[trigger] gzy@[j])@.len() == n,
                f == kron_schur_entry(*prob, gzy@, inv_rho, delta),
                i < me,
                j <= me,
                m.sized(me as nat, me as nat),
                forall|a: int, b: int|
                    0 <= a < me && 0 <= b < me && (a < i || (a == i && b < j)) ==> #[trigger] m.at(a, b)
                        == f(a, b),
            decreases me - j,
        {
            let mut aij = T::zero();
            let mut r: usize = 0;
            while r < n
                invariant
                    prob.wf(),
                    n == prob.n(),
                    me == prob.me(),
                    i < me,
                    j < me,
                    r <= n,
                    aij == dot_upto(prob.a_eq.row(i as int), prob.a_eq.row(j as int), r as nat),
                decreases n - r,
            {
                aij = aij.plus(prob.a_eq.get(i, r).times(prob.a_eq.get(j, r)));
                r += 1;
            }
            let aig = prob.a_eq.row_dot(i, &gzy[j]);
            let d = if i == j {
                delta
            } else {
                T::zero()
            };
            let yy = d.neg().minus(inv_rho.times(aij));
            m.set(i, j, yy.minus(inv_rho.times(aig)));
            j += 1;
        }
        i += 1;
    }
    m
}

} // verus!
