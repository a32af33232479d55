//! Which backend the conic engine takes for a problem, what is prepared of it before the first
//! iteration, and the step that it gives in each.
use crate::arrow_kkt::{arrow_scalings, assemble_arrow_kkt, aux_upto};
use crate::condensed::{fold_inverses_of, kept_list, lemma_lists, CondensedScratch};
use crate::cone::{
    block, cones_fit, lemma_block_bounds, lemma_cone_of, nt_dense_block, nt_entry, offsets_of, size_upto, total_size,
    Cone, ConeScaling,
};
use crate::conic_backends::{
    arrow_matrix, arrow_newton, arrow_step, cached_pattern, condensed_newton, condensed_step,
    dense_newton, dense_step, folded_matrix, folded_newton, folded_step, kron_newton, kron_step,
    sparse_newton, sparse_step, step_fits, ConicMoment, ConicSetting,
};
use crate::conic_dir::{scale_orthant, scalings_fit, ConicStep};
use crate::conic_kkt::{assemble_conic_kkt, blocks_fit, conic_cols};
use crate::conic_route::{
    all_orthants, any_psd, backend_for, choose_backend, conic_shape_of, eliminates_densely, largest_curved,
    lemma_single_rows, prefold, prefolded, takes_dense_schur, Backend, Shape,
};
use crate::conic_solve::rows_of;
use crate::curved::{algebra_fits, block_of, Algebra};
use crate::fac::permutation;
use crate::folded_kkt::{assemble_conic_kkt_folded, fold_fits, kept_before};
use crate::kkt::opt_deref;
use crate::kkt_cache::{in_block, Permuted, SparseKktCache};
use crate::kkt_laws::cone_at;
use crate::factor::{always_factors_at, factors_at, pivot_tolerance, Method};
use crate::matrix::{diagonal_matrix, nonzero_count, DenseMatrix};
use crate::ordering::{gives_orders, permutes, sort_system, sorted_by, squared};
use crate::problem::QpProblem;
use crate::qp_systems::{factors_pattern, same_pattern};
use crate::scalar::Scalar;
use crate::solve::solves_at;
use crate::sparse::CscMatrix;
use vstd::prelude::*;

verus! {

/// The outside parts of the backends.
pub struct ConicTools<A, O, U, K, V, E, S, Q> {
    /// The scaling of a semidefinite cone at slack and multiplier, with its block in the system.
    pub scale: A,
    /// The order of elimination of a sparse system.
    pub order: O,
    /// The upper triangle of a system in the order of a permutation.
    pub permute: U,
    /// The factorization of a dense matrix by a method, which may fail.
    pub dense: K,
    /// That of a dense matrix with pivoting.
    pub pivoted: V,
    /// The squared size and the direction of the scaling of a second-order cone at slack and
    /// multiplier.
    pub soc: E,
    /// The factorization of a sparse matrix, given by its upper triangle, with a tolerance for its
    /// pivots.
    pub sparse: S,
    /// The solve with the scaling of a semidefinite cone and a shift.
    pub structure: Q,
}

/// `sc` and `blk` are the scaling and the block that the squared size `eta_sq` and the direction
/// `wbar` give a second-order cone.
pub open spec fn is_soc_scaling<T: Scalar>(eta_sq: T, wbar: Seq<T>, sc: ConeScaling<T>, blk: Seq<T>) -> bool {
    &&& sc matches ConeScaling::Soc { eta, wbar: w } && eta == eta_sq.sqrt() && w@ == wbar
    &&& blk.len() == wbar.len() * wbar.len()
    &&& forall|a: int, b: int|
        0 <= a < wbar.len() && 0 <= b < wbar.len() ==> #[trigger] blk[a * wbar.len() + b] == nt_entry(
            eta_sq,
            wbar,
            a,
            b,
        )
}

/// `sc` and `blk` are the scaling of cone `c` and its block: entry by entry on an orthant, from what
/// `soc` gives on a second-order cone, and what `scale` gives on a semidefinite one.
pub open spec fn is_scaled<
    T: Scalar,
    A: Fn(Cone, &[T], &[T]) -> (ConeScaling<T>, Vec<T>),
    E: Fn(&[T], &[T]) -> (T, Vec<T>),
>(
    cones: Seq<Cone>,
    c: int,
    s: Seq<T>,
    z: Seq<T>,
    scale: A,
    soc: E,
    sc: ConeScaling<T>,
    blk: Vec<T>,
) -> bool {
    let p = block(cones, s, c);
    let q = block(cones, z, c);
    match cones[c] {
        Cone::NonNeg(_) => {
            &&& blk@ == Seq::new(p.len(), |i: int| p[i].over(q[i]))
            &&& sc matches ConeScaling::NonNeg { w } && w@ == Seq::new(p.len(), |i: int| p[i].over(q[i]).sqrt())
        },
        Cone::Soc(_) => exists|a: &[T], b: &[T], o: (T, Vec<T>)|
            a@ == p && b@ == q && #[trigger] soc.ensures((a, b), o) && is_soc_scaling(o.0, o.1@, sc, blk@),
        Cone::Psd(_) => exists|a: &[T], b: &[T]|
            a@ == p && b@ == q && #[trigger] scale.ensures((cones[c], a, b), (sc, blk)),
    }
}

/// The scalings of all cones.
pub open spec fn are_scaled<
    T: Scalar,
    A: Fn(Cone, &[T], &[T]) -> (ConeScaling<T>, Vec<T>),
    E: Fn(&[T], &[T]) -> (T, Vec<T>),
>(
    cones: Seq<Cone>,
    s: Seq<T>,
    z: Seq<T>,
    scale: A,
    soc: E,
    sc: Seq<ConeScaling<T>>,
    blocks: Seq<Vec<T>>,
) -> bool {
    &&& sc.len() == cones.len()
    &&& blocks.len() == cones.len()
    &&& forall|c: int| 0 <= c < cones.len() ==> #[trigger] is_scaled(cones, c, s, z, scale, soc, sc[c], blocks[c])
}

/// `scale` takes points of semidefinite cones and gives scalings of their kind.
pub open spec fn scales<T: Scalar, A: Fn(Cone, &[T], &[T]) -> (ConeScaling<T>, Vec<T>)>(scale: A) -> bool {
    &&& forall|c: Cone, a: &[T], b: &[T]|
        c is Psd && a@.len() == c.size() && b@.len() == c.size() ==> #[trigger] scale.requires((c, a, b))
    &&& forall|c: Cone, a: &[T], b: &[T], o: (ConeScaling<T>, Vec<T>)|
        c is Psd && a@.len() == c.size() && b@.len() == c.size() && #[trigger] scale.ensures((c, a, b), o)
            ==> o.0.matches_cone(c) && o.1@.len() == c.block_len()
}

/// `soc` takes points of second-order cones and gives directions of their size.
pub open spec fn scales_soc<T: Scalar, E: Fn(&[T], &[T]) -> (T, Vec<T>)>(soc: E) -> bool {
    &&& forall|a: &[T], b: &[T]| a@.len() == b@.len() && a@.len() > 0 ==> #[trigger] soc.requires((a, b))
    &&& forall|a: &[T], b: &[T], o: (T, Vec<T>)|
        a@.len() == b@.len() && #[trigger] soc.ensures((a, b), o) ==> o.1@.len() == a@.len()
}

/// The scalings of the cones at slacks and multipliers, with their blocks in the system.
pub fn scale_cones<
    T: Scalar,
    A: Fn(Cone, &[T], &[T]) -> (ConeScaling<T>, Vec<T>),
    E: Fn(&[T], &[T]) -> (T, Vec<T>),
>(
    cones: &[Cone],
    offsets: &[usize],
    s: &[T],
    z: &[T],
    scale: &A,
    soc: &E,
) -> (r: (Vec<ConeScaling<T>>, Vec<Vec<T>>))
    requires
        cones_fit(cones@),
        offsets_of(cones@, offsets@),
        forall|c: int| 0 <= c < cones@.len() && cones@[c] is Soc ==> (#[trigger] cones@[c]).size() > 0,
        total_size(cones@) * total_size(cones@) <= usize::MAX,
        s@.len() == total_size(cones@),
        z@.len() == s@.len(),
        scales(*scale),
        scales_soc(*soc),
    ensures
        are_scaled(cones@, s@, z@, *scale, *soc, r.0@, r.1@),
        scalings_fit(cones@, r.0@),
        blocks_fit(cones@, r.1@),
{
    let mut sc: Vec<ConeScaling<T>> = Vec::with_capacity(cones.len());
    let mut blocks: Vec<Vec<T>> = Vec::with_capacity(cones.len());
    let mut c: usize = 0;
    while c < cones.len()
        invariant
            cones_fit(cones@),
            offsets_of(cones@, offsets@),
            forall|c: int| 0 <= c < cones@.len() && cones@[c] is Soc ==> (#[trigger] cones@[c]).size() > 0,
            total_size(cones@) * total_size(cones@) <= usize::MAX,
            s@.len() == total_size(cones@),
            z@.len() == s@.len(),
            scales(*scale),
            scales_soc(*soc),
            c <= cones@.len(),
            sc@.len() == c,
            blocks@.len() == c,
            forall|k: int|
                0 <= k < c ==> #[trigger] is_scaled(cones@, k, s@, z@, *scale, *soc, sc@[k], blocks@[k]),
            forall|k: int| 0 <= k < c ==> (#[trigger] sc@[k]).matches_cone(cones@[k]),
            forall|k: int| 0 <= k < c ==> (#[trigger] blocks@[k])@.len() == cones@[k].block_len(),
        decreases cones@.len() - c,
    {
        let p = block_of(cones, offsets, s, c);
        let q = block_of(cones, offsets, z, c);
        let o = match cones[c] {
            Cone::NonNeg(_) => scale_orthant(&p, &q),
            Cone::Soc(_) => {
                let (a, b): (&[T], &[T]) = (p.as_slice(), q.as_slice());
                let (eta_sq, wbar) = soc(a, b);
                assert(soc.ensures((a, b), (eta_sq, wbar)));
                proof {
                    lemma_block_bounds(cones@, c as int);
                    assert(wbar@.len() * wbar@.len() <= total_size(cones@) * total_size(cones@)) by (nonlinear_arith)
                        requires
                            wbar@.len() <= total_size(cones@),
                    ;
                }
                let blk = nt_dense_block(eta_sq, &wbar);
                let sc = ConeScaling::Soc { eta: eta_sq.sqrt(), wbar };
                assert(is_soc_scaling(eta_sq, wbar@, sc, blk@));
                (sc, blk)
            },
            Cone::Psd(_) => {
                let (a, b): (&[T], &[T]) = (p.as_slice(), q.as_slice());
                let o = scale(cones[c], a, b);
                assert(scale.ensures((cones@[c as int], a, b), o));
                o
            },
        };
        assert(is_scaled(cones@, c as int, s@, z@, *scale, *soc, o.0, o.1));
        sc.push(o.0);
        blocks.push(o.1);
        c += 1;
    }
    (sc, blocks)
}

/// What is prepared of the chosen backend.
pub enum ConicPlan<T> {
    Kronecker,
    /// The condensed system, with its rows sorted and the way it is built.
    Condensed { scratch: CondensedScratch, dense_schur: bool },
    Dense,
    /// The arrow system in its order.
    Arrow { perm: Vec<usize> },
    /// The sparse system without the folded rows, in its order.
    Folded { rows: Vec<(usize, usize)>, perm: Vec<usize> },
    /// The sparse system in its order, with its pattern.
    Sparse { cache: SparseKktCache<T>, perm: Vec<usize> },
}

/// `k` is the sparse augmented system.
pub open spec fn conic_matrix<T: Scalar>(
    c: ConicSetting<T>,
    blocks: Seq<Vec<T>>,
    rho: T,
    delta: T,
    k: CscMatrix<T>,
) -> bool {
    &&& squared(k)
    &&& k.n == c.prob.n() + c.prob.me() + c.prob.mi()
    &&& k.cols() == conic_cols(
        *c.prob,
        c.cones@,
        blocks,
        rho,
        delta,
        opt_deref(c.eq_csr),
        opt_deref(c.in_csr),
        c.p_diag,
    )
}

/// `k` is a sparse augmented system of the problem, from its sparse rows.
pub open spec fn assembled<T: Scalar>(prob: QpProblem<T>, cones: Seq<Cone>, k: CscMatrix<T>) -> bool {
    exists|
        blocks: Seq<Vec<T>>,
        rho: T,
        delta: T,
        eq: Option<CscMatrix<T>>,
        ain: Option<CscMatrix<T>>,
    |
        {
            &&& blocks_fit(cones, blocks)
            &&& eq matches Some(e) && rows_of(prob.a_eq_csr, prob.a_eq, prob.me(), prob.n(), e)
            &&& ain matches Some(e) && rows_of(prob.a_in_csr, prob.a_in, prob.mi(), prob.n(), e)
            &&& k.cols() == #[trigger] conic_cols(
                prob,
                cones,
                blocks,
                rho,
                delta,
                eq,
                ain,
                diagonal_matrix(prob.p),
            )
        }
}

/// The system `s` in the order of a permutation.
pub open spec fn in_order<T: Scalar>(
    prob: QpProblem<T>,
    cones: Seq<Cone>,
    perm: Seq<usize>,
    s: CscMatrix<T>,
) -> Permuted<T> {
    Permuted { kkt: s, perm, cones, n: prob.n(), me: prob.me() }
}

/// What `permute` makes of a sparse augmented system is that system in the order of the permutation.
pub open spec fn permutes_conic<T: Scalar, U: Fn(&CscMatrix<T>, &[usize]) -> CscMatrix<T>>(
    prob: QpProblem<T>,
    cones: Seq<Cone>,
    permute: U,
) -> bool {
    forall|k: &CscMatrix<T>, p: &[usize], s: CscMatrix<T>|
        squared(*k) && assembled(prob, cones, *k) && permutation(p@) && p@.len() == k.n && #[trigger] permute.ensures(
            (k, p),
            s,
        ) ==> in_order(prob, cones, p@, s).wf()
}

/// The facts on which the choice of the backend rests.
pub open spec fn shape_with<T: Scalar>(prob: QpProblem<T>, cones: Seq<Cone>, kkt_nnz: usize) -> Shape {
    Shape {
        kron: false,
        p_diagonal: diagonal_matrix(prob.p),
        orthants_only: all_orthants(cones),
        psd: any_psd(cones),
        largest_curved: largest_curved(cones, cones.len()) as usize,
        n: prob.n() as usize,
        me: prob.me() as usize,
        mi: prob.mi() as usize,
        ain_nnz: nonzero_count(prob.a_in.data@, prob.a_in.data@.len()) as usize,
        kkt_nnz,
    }
}

/// The arrow system is put in its order.
pub open spec fn arrow_planned<
    T: Scalar,
    O: Fn(&CscMatrix<T>) -> Vec<usize>,
    U: Fn(&CscMatrix<T>, &[usize]) -> CscMatrix<T>,
>(
    c: ConicSetting<T>,
    sc: Seq<ConeScaling<T>>,
    rho: T,
    delta: T,
    order: O,
    permute: U,
    perm: Vec<usize>,
) -> bool {
    exists|a: CscMatrix<T>, s: CscMatrix<T>|
        arrow_matrix(c, sc, rho, delta, a) && #[trigger] sorted_by(order, permute, a, perm, s)
}

/// The sparse system without the folded rows is put in its order.
pub open spec fn folded_planned<
    T: Scalar,
    O: Fn(&CscMatrix<T>) -> Vec<usize>,
    U: Fn(&CscMatrix<T>, &[usize]) -> CscMatrix<T>,
>(
    c: ConicSetting<T>,
    blocks: Seq<Vec<T>>,
    rho: T,
    delta: T,
    order: O,
    permute: U,
    rows: Seq<(usize, usize)>,
    perm: Vec<usize>,
) -> bool {
    exists|a: CscMatrix<T>, s: CscMatrix<T>|
        folded_matrix(c, blocks, rho, delta, rows, a) && #[trigger] sorted_by(order, permute, a, perm, s)
}

/// The sparse system `k` is put in its order, and its pattern is kept.
pub open spec fn pattern_planned<
    T: Scalar,
    O: Fn(&CscMatrix<T>) -> Vec<usize>,
    U: Fn(&CscMatrix<T>, &[usize]) -> CscMatrix<T>,
>(
    c: ConicSetting<T>,
    k: CscMatrix<T>,
    order: O,
    permute: U,
    cache: SparseKktCache<T>,
    perm: Vec<usize>,
) -> bool {
    exists|s: CscMatrix<T>| #[trigger]
        sorted_by(order, permute, k, perm, s) && cache.describes(in_order(*c.prob, c.cones@, perm@, s))
}

/// `plan` prepares the backend for the problem, whose sparse augmented system is `k`.
pub open spec fn prepares<
    T: Scalar,
    O: Fn(&CscMatrix<T>) -> Vec<usize>,
    U: Fn(&CscMatrix<T>, &[usize]) -> CscMatrix<T>,
>(
    c: ConicSetting<T>,
    sc: Seq<ConeScaling<T>>,
    blocks: Seq<Vec<T>>,
    rho: T,
    delta: T,
    order: O,
    permute: U,
    k: CscMatrix<T>,
    plan: ConicPlan<T>,
) -> bool {
    let rows = prefolded(*c.prob, c.cones@);
    match backend_for(shape_with(*c.prob, c.cones@, k.nzval@.len() as usize)) {
        Backend::Condensed => plan matches ConicPlan::Condensed { scratch, dense_schur } && scratch.plans(
            *c.prob,
            c.cones@,
        ) && dense_schur == eliminates_densely(*c.prob),
        Backend::Dense => plan is Dense,
        Backend::Arrow => plan matches ConicPlan::Arrow { perm } && arrow_planned(
            c,
            sc,
            rho,
            delta,
            order,
            permute,
            perm,
        ),
        Backend::Sparse => if rows.len() > 0 {
            plan matches ConicPlan::Folded { rows: kept, perm } && kept@ == rows && folded_planned(
                c,
                blocks,
                rho,
                delta,
                order,
                permute,
                rows,
                perm,
            )
        } else {
            plan matches ConicPlan::Sparse { cache, perm } && pattern_planned(c, k, order, permute, cache, perm)
        },
        Backend::Kronecker => false,
    }
}

/// `plan` prepares the backend for the problem at the scalings `sc` and blocks `blocks` of the starting
/// point.
pub open spec fn conic_planned<
    T: Scalar,
    O: Fn(&CscMatrix<T>) -> Vec<usize>,
    U: Fn(&CscMatrix<T>, &[usize]) -> CscMatrix<T>,
>(
    c: ConicSetting<T>,
    kron: bool,
    sc: Seq<ConeScaling<T>>,
    blocks: Seq<Vec<T>>,
    rho: T,
    delta: T,
    order: O,
    permute: U,
    plan: ConicPlan<T>,
) -> bool {
    if kron {
        plan is Kronecker
    } else {
        exists|k: CscMatrix<T>| #[trigger]
            conic_matrix(c, blocks, rho, delta, k) && prepares(c, sc, blocks, rho, delta, order, permute, k, plan)
    }
}

/// What was prepared has the problem's dimensions.
pub open spec fn conic_plan_fits<T: Scalar>(prob: QpProblem<T>, cones: Seq<Cone>, plan: ConicPlan<T>) -> bool {
    let dim = prob.n() + prob.me() + prob.mi();
    match plan {
        ConicPlan::Kronecker => prob.n() > 0 && prob.mi() == prob.n(),
        ConicPlan::Condensed { scratch, dense_schur } => scratch.plans(prob, cones),
        ConicPlan::Dense => true,
        ConicPlan::Arrow { perm } => {
            &&& !any_psd(cones)
            &&& permutation(perm@)
            &&& perm@.len() == dim + aux_upto(cones, cones.len())
        },
        ConicPlan::Folded { rows, perm } => {
            &&& rows@.len() > 0
            &&& fold_fits(rows@, prob.mi(), prob.n())
            &&& forall|i: int| 0 <= i < rows@.len() ==> cones[cone_at(cones, (#[trigger] rows@[i]).0 as int)] is NonNeg
            &&& permutation(perm@)
            &&& perm@.len() == prob.n() + prob.me() + kept_before(rows@, prob.mi())
        },
        ConicPlan::Sparse { cache, perm } => {
            &&& cache.wf(cones, prob.n())
            &&& cache.dim == dim
            &&& permutation(perm@)
            &&& perm@.len() == dim
            &&& exists|s: CscMatrix<T>| squared(s) && #[trigger] cached_pattern(cache, s)
        },
    }
}

/// The squares of the systems' dimensions and the auxiliary unknowns of the arrow system can be counted.
pub open spec fn conic_systems_fit<T: Scalar>(prob: QpProblem<T>, cones: Seq<Cone>) -> bool {
    let dim = prob.n() + prob.me() + prob.mi();
    dim * dim <= usize::MAX && dim + aux_upto(cones, cones.len()) <= usize::MAX
}

/// `structure` takes the scalings of the cones, and what it gives solves systems of the cones' size.
pub open spec fn structures<T: Scalar, F: Fn(&[T]) -> Vec<T>, Q: Fn(&[ConeScaling<T>], T) -> F>(
    cones: Seq<Cone>,
    structure: Q,
) -> bool {
    &&& forall|w: &[ConeScaling<T>], s: T| scalings_fit(cones, w@) ==> #[trigger] structure.requires((w, s))
    &&& forall|w: &[ConeScaling<T>], s: T, f: F|
        scalings_fit(cones, w@) && #[trigger] structure.ensures((w, s), f) ==> solves_at(f, total_size(cones))
}

/// The outside parts take what the backends hand them, and what they give has its size.
pub open spec fn conic_tools_fit<
    T: Scalar,
    F: Fn(&[T]) -> Vec<T>,
    G: Fn(&[T]) -> Vec<T>,
    A: Fn(Cone, &[T], &[T]) -> (ConeScaling<T>, Vec<T>),
    O: Fn(&CscMatrix<T>) -> Vec<usize>,
    U: Fn(&CscMatrix<T>, &[usize]) -> CscMatrix<T>,
    K: Fn(&DenseMatrix<T>, Method<T>) -> Option<F>,
    V: Fn(&DenseMatrix<T>) -> F,
    E: Fn(&[T], &[T]) -> (T, Vec<T>),
    S: Fn(&CscMatrix<T>, T) -> Option<G>,
    Q: Fn(&[ConeScaling<T>], T) -> F,
>(cones: Seq<Cone>, tools: ConicTools<A, O, U, K, V, E, S, Q>) -> bool {
    &&& scales(tools.scale)
    &&& scales_soc(tools.soc)
    &&& gives_orders(tools.order)
    &&& permutes(tools.permute)
    &&& forall|dim: nat| #[trigger] factors_at(tools.dense, dim)
    &&& forall|dim: nat| #[trigger] always_factors_at(tools.pivoted, dim)
    &&& forall|s: CscMatrix<T>| squared(s) ==> #[trigger] factors_pattern(tools.sparse, s)
    &&& structures(cones, tools.structure)
}

/// The parts of a conic program without a change of variables.
pub open spec fn plain_setting<T: Scalar>(c: ConicSetting<T>) -> bool {
    let prob = *c.prob;
    &&& c.p_diag == diagonal_matrix(prob.p)
    &&& opt_deref(c.eq_csr) matches Some(e) && rows_of(prob.a_eq_csr, prob.a_eq, prob.me(), prob.n(), e)
    &&& opt_deref(c.in_csr) matches Some(e) && rows_of(prob.a_in_csr, prob.a_in, prob.mi(), prob.n(), e)
}

fn plan_arrow<
    T: Scalar,
    O: Fn(&CscMatrix<T>) -> Vec<usize>,
    U: Fn(&CscMatrix<T>, &[usize]) -> CscMatrix<T>,
>(c: &ConicSetting<T>, sc: &[ConeScaling<T>], rho: T, delta: T, order: &O, permute: &U) -> (plan: ConicPlan<T>)
    requires
        c.wf(),
        scalings_fit(c.cones@, sc@),
        conic_systems_fit(*c.prob, c.cones@),
        !any_psd(c.cones@),
        gives_orders(*order),
        permutes(*permute),
    ensures
        plan matches ConicPlan::Arrow { perm } && arrow_planned(*c, sc@, rho, delta, *order, *permute, perm),
        conic_plan_fits(*c.prob, c.cones@, plan),
{
    let cones = c.cones;
    assert(arrow_scalings(cones@, sc@)) by {
        assert forall|i: int| 0 <= i < cones@.len() implies (#[trigger] sc@[i]).matches_cone(cones@[i])
            && !(cones@[i] is Psd) by {}
    }
    let (a, _) = assemble_arrow_kkt(c.prob, cones, c.offsets, sc, rho, delta, c.eq_csr, c.in_csr, c.p_diag);
    assert(arrow_matrix(*c, sc@, rho, delta, a));
    let (perm, _, s) = sort_system(order, permute, &a);
    assert(sorted_by(*order, *permute, a, perm, s));
    ConicPlan::Arrow { perm }
}

fn plan_folded<
    T: Scalar,
    O: Fn(&CscMatrix<T>) -> Vec<usize>,
    U: Fn(&CscMatrix<T>, &[usize]) -> CscMatrix<T>,
>(
    c: &ConicSetting<T>,
    blocks: &[Vec<T>],
    rho: T,
    delta: T,
    order: &O,
    permute: &U,
    rows: Vec<(usize, usize)>,
) -> (plan: ConicPlan<T>)
    requires
        c.wf(),
        blocks_fit(c.cones@, blocks@),
        rows@ == prefolded(*c.prob, c.cones@),
        rows@.len() > 0,
        gives_orders(*order),
        permutes(*permute),
    ensures
        plan matches ConicPlan::Folded { rows: kept, perm } && kept@ == rows@ && folded_planned(
            *c,
            blocks@,
            rho,
            delta,
            *order,
            *permute,
            rows@,
            perm,
        ),
        conic_plan_fits(*c.prob, c.cones@, plan),
{
    let prob = c.prob;
    let cones = c.cones;
    proof {
        lemma_single_rows(*prob, prob.mi());
        assert forall|i: int| 0 <= i < rows@.len() implies cones@[cone_at(
            cones@,
            (#[trigger] rows@[i]).0 as int,
        )] is NonNeg by {
            lemma_cone_in_range(cones@, rows@[i].0 as int);
        }
    }
    let hinv = fold_inverses_of(cones, c.offsets, blocks, delta, &rows);
    let a = assemble_conic_kkt_folded(
        prob,
        cones,
        c.offsets,
        blocks,
        rho,
        delta,
        c.eq_csr,
        c.in_csr,
        c.p_diag,
        &rows,
        &hinv,
    );
    assert(folded_matrix(*c, blocks@, rho, delta, rows@, a));
    let (perm, _, s) = sort_system(order, permute, &a);
    assert(sorted_by(*order, *permute, a, perm, s));
    ConicPlan::Folded { rows, perm }
}

fn plan_pattern<
    T: Scalar,
    O: Fn(&CscMatrix<T>) -> Vec<usize>,
    U: Fn(&CscMatrix<T>, &[usize]) -> CscMatrix<T>,
>(
    c: &ConicSetting<T>,
    Ghost(blocks): Ghost<Seq<Vec<T>>>,
    Ghost(rho): Ghost<T>,
    Ghost(delta): Ghost<T>,
    k: &CscMatrix<T>,
    order: &O,
    permute: &U,
) -> (plan: ConicPlan<T>)
    requires
        c.wf(),
        plain_setting(*c),
        blocks_fit(c.cones@, blocks),
        conic_matrix(*c, blocks, rho, delta, *k),
        gives_orders(*order),
        permutes(*permute),
        permutes_conic(*c.prob, c.cones@, *permute),
    ensures
        plan matches ConicPlan::Sparse { cache, perm } && pattern_planned(*c, *k, *order, *permute, cache, perm),
        conic_plan_fits(*c.prob, c.cones@, plan),
{
    let prob = c.prob;
    let cones = c.cones;
    let (perm, _, s) = sort_system(order, permute, k);
    proof {
        assert(assembled(*prob, cones@, *k));
        let p = choose|p: &[usize]| p@ == perm@ && #[trigger] permute.ensures((k, p), s);
        assert(permute.ensures((k, p), s));
        assert(in_order(*prob, cones@, p@, s).wf());
    }
    let cache = SparseKktCache::from_assembly(&s, &perm, cones, c.offsets, prob.q.len(), prob.b_eq.len());
    assert(cached_pattern(cache, s));
    assert(sorted_by(*order, *permute, *k, perm, s));
    ConicPlan::Sparse { cache, perm }
}

/// Prepares the backend for the problem at the scalings and blocks of the starting point.
pub fn plan_conic<
    T: Scalar,
    O: Fn(&CscMatrix<T>) -> Vec<usize>,
    U: Fn(&CscMatrix<T>, &[usize]) -> CscMatrix<T>,
>(
    c: &ConicSetting<T>,
    kron: bool,
    sc: &[ConeScaling<T>],
    blocks: &[Vec<T>],
    rho: T,
    delta: T,
    order: &O,
    permute: &U,
) -> (plan: ConicPlan<T>)
    requires
        c.wf(),
        scalings_fit(c.cones@, sc@),
        blocks_fit(c.cones@, blocks@),
        conic_systems_fit(*c.prob, c.cones@),
        if kron {
            c.prob.n() > 0 && c.prob.mi() == c.prob.n()
        } else {
            plain_setting(*c) && permutes_conic(*c.prob, c.cones@, *permute)
        },
        gives_orders(*order),
        permutes(*permute),
    ensures
        conic_planned(*c, kron, sc@, blocks@, rho, delta, *order, *permute, plan),
        conic_plan_fits(*c.prob, c.cones@, plan),
{
    if kron {
        return ConicPlan::Kronecker;
    }
    let prob = c.prob;
    let cones = c.cones;
    let k = assemble_conic_kkt(prob, cones, c.offsets, blocks, rho, delta, c.eq_csr, c.in_csr, c.p_diag);
    assert(conic_matrix(*c, blocks@, rho, delta, k));
    let shape = conic_shape_of(prob, cones, false, k.nnz());
    assert(shape == shape_with(*prob, cones@, k.nzval@.len() as usize));
    let plan = match choose_backend(&shape) {
        Backend::Condensed => ConicPlan::Condensed {
            scratch: CondensedScratch::new(prob, cones, c.offsets),
            dense_schur: takes_dense_schur(prob),
        },
        Backend::Dense => ConicPlan::Dense,
        Backend::Arrow => plan_arrow(c, sc, rho, delta, order, permute),
        Backend::Sparse => {
            let rows = prefold(prob, cones);
            if rows.len() > 0 {
                plan_folded(c, blocks, rho, delta, order, permute, rows)
            } else {
                plan_pattern(c, Ghost(blocks@), Ghost(rho), Ghost(delta), &k, order, permute)
            }
        },
        Backend::Kronecker => {
            assert(false);
            ConicPlan::Dense
        },
    };
    assert(prepares(*c, sc@, blocks@, rho, delta, *order, *permute, k, plan));
    plan
}

proof fn lemma_cone_in_range(cones: Seq<Cone>, r: int)
    requires
        0 <= r < total_size(cones),
    ensures
        0 <= cone_at(cones, r) < cones.len(),
{
    lemma_cone_of(cones, cones.len(), r as nat);
    let k = choose|k: int|
        0 <= k < cones.len() && #[trigger] size_upto(cones, k as nat) <= r < size_upto(cones, k as nat)
            + cones[k].size();
    assert(in_block(cones, k, r));
}

/// `out` is the step that the prepared backend gives.
pub open spec fn conic_plan_steps<
    T: Scalar,
    F: Fn(&[T]) -> Vec<T>,
    G: Fn(&[T]) -> Vec<T>,
    A: Fn(Cone, &[T], &[T]) -> (ConeScaling<T>, Vec<T>),
    O: Fn(&CscMatrix<T>) -> Vec<usize>,
    U: Fn(&CscMatrix<T>, &[usize]) -> CscMatrix<T>,
    K: Fn(&DenseMatrix<T>, Method<T>) -> Option<F>,
    V: Fn(&DenseMatrix<T>) -> F,
    E: Fn(&[T], &[T]) -> (T, Vec<T>),
    S: Fn(&CscMatrix<T>, T) -> Option<G>,
    Q: Fn(&[ConeScaling<T>], T) -> F,
    I: Fn(Cone) -> Vec<T>,
    R: Fn(Cone, &[T], &[T]) -> T,
    C: Fn(&ConeScaling<T>, &[T], bool) -> Vec<T>,
    P: Fn(Cone, &[T], &[T]) -> Vec<T>,
    Y: Fn(Cone, &[T], &[T]) -> Vec<T>,
    Z: Fn(Cone, &[T], T, T) -> Vec<T>,
>(
    c: ConicSetting<T>,
    t: ConicMoment<T>,
    plan: ConicPlan<T>,
    tools: ConicTools<A, O, U, K, V, E, S, Q>,
    al: Algebra<I, R, C, P, Y, Z>,
    out: Option<(ConicStep<T>, usize)>,
) -> bool {
    match plan {
        ConicPlan::Kronecker => kron_step(c, t, tools.structure, tools.dense, al, out),
        ConicPlan::Condensed { scratch, dense_schur } => out matches Some(o) && condensed_step(
            c,
            t,
            scratch,
            dense_schur,
            tools.dense,
            tools.pivoted,
            al,
            o,
        ),
        ConicPlan::Dense => out matches Some(o) && dense_step(c, t, tools.dense, tools.pivoted, al, o),
        ConicPlan::Arrow { perm } => arrow_step(c, t, perm@, tools.permute, tools.sparse, al, out),
        ConicPlan::Folded { rows, perm } => folded_step(
            c,
            t,
            rows@,
            perm@,
            tools.permute,
            tools.sparse,
            al,
            out,
        ),
        ConicPlan::Sparse { cache, perm } => sparse_step(c, t, cache, perm@, tools.sparse, al, out),
    }
}

/// The step that the prepared backend gives; none where the factorization fails.
pub fn conic_plan_newton<
    T: Scalar,
    F: Fn(&[T]) -> Vec<T>,
    G: Fn(&[T]) -> Vec<T>,
    A: Fn(Cone, &[T], &[T]) -> (ConeScaling<T>, Vec<T>),
    O: Fn(&CscMatrix<T>) -> Vec<usize>,
    U: Fn(&CscMatrix<T>, &[usize]) -> CscMatrix<T>,
    K: Fn(&DenseMatrix<T>, Method<T>) -> Option<F>,
    V: Fn(&DenseMatrix<T>) -> F,
    E: Fn(&[T], &[T]) -> (T, Vec<T>),
    S: Fn(&CscMatrix<T>, T) -> Option<G>,
    Q: Fn(&[ConeScaling<T>], T) -> F,
    I: Fn(Cone) -> Vec<T>,
    R: Fn(Cone, &[T], &[T]) -> T,
    C: Fn(&ConeScaling<T>, &[T], bool) -> Vec<T>,
    P: Fn(Cone, &[T], &[T]) -> Vec<T>,
    Y: Fn(Cone, &[T], &[T]) -> Vec<T>,
    Z: Fn(Cone, &[T], T, T) -> Vec<T>,
>(
    c: &ConicSetting<T>,
    t: &ConicMoment<T>,
    plan: &ConicPlan<T>,
    tools: &ConicTools<A, O, U, K, V, E, S, Q>,
    al: &Algebra<I, R, C, P, Y, Z>,
) -> (out: Option<(ConicStep<T>, usize)>)
    requires
        c.wf(),
        t.fits(*c),
        conic_plan_fits(*c.prob, c.cones@, *plan),
        conic_systems_fit(*c.prob, c.cones@),
        conic_tools_fit(c.cones@, *tools),
        algebra_fits(c.cones@, *al),
    ensures
        conic_plan_steps(*c, *t, *plan, *tools, *al, out),
        step_fits(*c.prob, t.short, out),
{
    let ghost (n, me, mi) = (c.prob.n(), c.prob.me(), c.prob.mi());
    proof {
        assert(me * me <= (n + me + mi) * (n + me + mi)) by (nonlinear_arith);
        assert(factors_at(tools.dense, me));
        assert(factors_at(tools.dense, n + me + mi));
        assert(always_factors_at(tools.pivoted, n + me + mi));
    }
    match plan {
        ConicPlan::Kronecker => kron_newton(c, t, &tools.structure, &tools.dense, al),
        ConicPlan::Condensed { scratch, dense_schur } => {
            proof {
                lemma_lists(*c.prob, c.cones@, mi);
                let kept = scratch.kept@.len();
                assert(kept == kept_list(*c.prob, c.cones@, mi).len());
                assert((me + kept) * (me + kept) <= (n + me + mi) * (n + me + mi)) by (nonlinear_arith)
                    requires
                        kept <= mi,
                ;
                assert(factors_at(tools.dense, me + kept));
                assert(always_factors_at(tools.pivoted, me + kept));
            }
            Some(condensed_newton(c, t, scratch, *dense_schur, &tools.dense, &tools.pivoted, al))
        },
        ConicPlan::Dense => Some(dense_newton(c, t, &tools.dense, &tools.pivoted, al)),
        ConicPlan::Arrow { perm } => {
            assert(arrow_scalings(c.cones@, t.sc@)) by {
                assert forall|i: int| 0 <= i < c.cones@.len() implies (#[trigger] t.sc@[i]).matches_cone(c.cones@[i])
                    && !(c.cones@[i] is Psd) by {}
            }
            arrow_newton(c, t, perm, &tools.permute, &tools.sparse, al)
        },
        ConicPlan::Folded { rows, perm } => {
            folded_newton(c, t, rows, perm, &tools.permute, &tools.sparse, al)
        },
        ConicPlan::Sparse { cache, perm } => {
            proof {
                let s = choose|s: CscMatrix<T>| squared(s) && #[trigger] cached_pattern(*cache, s);
                assert(factors_pattern(tools.sparse, s));
                assert forall|k: &CscMatrix<T>| cached_pattern(*cache, *k) implies #[trigger] tools.sparse.requires(
                    (k, pivot_tolerance()),
                ) by {
                    assert(same_pattern(s, *k));
                }
                assert forall|k: &CscMatrix<T>, f: G|
                    cached_pattern(*cache, *k) && #[trigger] tools.sparse.ensures((k, pivot_tolerance()), Some(f)) implies solves_at(
                    f,
                    cache.dim as nat,
                ) by {
                    assert(same_pattern(s, *k));
                }
            }
            sparse_newton(c, t, cache, perm, &tools.sparse, al)
        },
    }
}

} // verus!
