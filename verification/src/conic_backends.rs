//! The steps of the conic engine for each of its backends: what is handed to the factorization, and
//! what is made of its solutions.
use crate::arrow_kkt::{arrow_cols, arrow_scalings, assemble_arrow_kkt, aux_upto};
use crate::condensed::{
    build_condensed_into, condensed_dinv, fold_inverses, fold_inverses_of, lemma_lists, remaining_entry,
    Condensed, CondensedScratch,
};
use crate::cone::{offsets_of, Cone, ConeScaling};
use crate::conic_dir::{curved_fit, kept_rows, scalings_fit, ConicStep};
use crate::conic_kkt::{blocks_fit, conic_problem};
use crate::conic_newton::{answers, conic_newton, direction_fits, is_newton_step, Frame};
use crate::conic_run::{solve_system, system_len, system_solved};
use crate::conic_step::{Iterate, Residuals};
use crate::curved::{algebra_fits, Algebra};
use crate::dense_kkt::{
    assemble_dense_kkt, eq_coupling, equality_coupling, full_entry, kron_schur, kron_schur_entry,
};
use crate::fac::{permutation, Fac, Solved};
use crate::folded_kkt::{assemble_conic_kkt_folded, fold_fits, folded, folded_cols, kept_before};
use crate::kkt::{opt_deref, source_fits};
use crate::kkt_cache::SparseKktCache;
use crate::kkt_laws::cone_at;
use crate::conic_route::{any_psd, has_psd};
use crate::factor::{
    always_factors_at, factor_surely, factors_at, pivot_tolerance, pivots, plain, secured, tolerance_of_pivots, tried,
    try_in_order, Method,
};
use crate::matrix::{lemma_position, DenseMatrix};
use crate::problem::QpProblem;
use crate::products::{form_fits, Form};
use crate::ordering::{permutes, squared};
use crate::qp_systems::{factors_pattern, lemma_solved_by};
use crate::scalar::Scalar;
use crate::solve::{gives_solutions, solved_by, solves_at, yields};
use crate::sparse::CscMatrix;
use crate::vector::{copied, negated, negated_of};
use vstd::prelude::*;

verus! {

/// What the backends of one run have in common.
pub struct ConicSetting<'a, T> {
    pub prob: &'a QpProblem<T>,
    pub cones: &'a [Cone],
    pub offsets: &'a [usize],
    /// The identities of the cones.
    pub identities: &'a [Vec<T>],
    /// How products with the inequality rows are computed.
    pub ain: Form,
    pub eq_csr: Option<&'a CscMatrix<T>>,
    pub in_csr: Option<&'a CscMatrix<T>>,
    /// The barrier degree of the cones.
    pub degree: T,
    /// The Hessian is diagonal.
    pub p_diag: bool,
}

impl<'a, T: Scalar> ConicSetting<'a, T> {
    /// The parts fit the problem.
    pub open spec fn wf(self) -> bool {
        &&& conic_problem(*self.prob, self.cones@)
        &&& offsets_of(self.cones@, self.offsets@)
        &&& curved_fit(self.cones@, self.identities@)
        &&& form_fits(self.ain, opt_deref(self.in_csr), self.prob.a_in)
        &&& source_fits(opt_deref(self.eq_csr), self.prob.a_eq, self.prob.me(), self.prob.n())
        &&& source_fits(opt_deref(self.in_csr), self.prob.a_in, self.prob.mi(), self.prob.n())
    }
}

/// What an iteration hands to its backend.
pub struct ConicMoment<'a, T> {
    pub it: &'a Iterate<T>,
    pub r: &'a Residuals<T>,
    /// The scalings of the cones and their blocks in the system.
    pub sc: &'a [ConeScaling<T>],
    pub blocks: &'a [Vec<T>],
    pub rho: T,
    pub delta: T,
    /// The number of consecutive short steps before this iteration.
    pub short: usize,
}

impl<'a, T: Scalar> ConicMoment<'a, T> {
    /// The parts have the problem's dimensions.
    pub open spec fn fits(self, c: ConicSetting<T>) -> bool {
        &&& self.it.fits(*c.prob)
        &&& self.r.r_d@.len() == c.prob.n()
        &&& self.r.r_b@.len() == c.prob.me()
        &&& self.r.r_h@.len() == c.prob.mi()
        &&& scalings_fit(c.cones@, self.sc@)
        &&& blocks_fit(c.cones@, self.blocks@)
        &&& self.short < usize::MAX
    }

    /// What the step of this moment rests on.
    pub open spec fn frame(self, c: ConicSetting<T>) -> Frame<T> {
        Frame {
            prob: *c.prob,
            ain: c.ain,
            in_csr: opt_deref(c.in_csr),
            cones: c.cones@,
            identities: c.identities@,
            sc: self.sc@,
            it: self.it@,
            r: *self.r,
        }
    }
}

/// A factored system with what its solves are made of.
pub ghost struct Factored<T, S, G> {
    pub fac: Fac<T>,
    pub perm: Seq<usize>,
    pub fold: Seq<(usize, usize, T)>,
    pub inner: S,
    pub schur: G,
}

/// The solutions of a factored system.
pub open spec fn fac_system<T: Scalar, S: Fn(&[T]) -> Vec<T>, G: Fn(&[T]) -> Vec<T>>(
    prob: QpProblem<T>,
    r: Residuals<T>,
    x: Factored<T, S, G>,
) -> spec_fn(Seq<T>, bool, Solved<T>) -> bool {
    |rhs: Seq<T>, corrector: bool, v: Solved<T>|
        system_solved(prob, x.fac, x.perm, x.fold, r, rhs, corrector, x.inner, x.schur, v)
}

/// `out` is the step of this moment from the factored system `x`.
pub open spec fn stepped_by<
    T: Scalar,
    S: Fn(&[T]) -> Vec<T>,
    G: Fn(&[T]) -> Vec<T>,
    I: Fn(Cone) -> Vec<T>,
    R: Fn(Cone, &[T], &[T]) -> T,
    C: Fn(&ConeScaling<T>, &[T], bool) -> Vec<T>,
    P: Fn(Cone, &[T], &[T]) -> Vec<T>,
    Y: Fn(Cone, &[T], &[T]) -> Vec<T>,
    Z: Fn(Cone, &[T], T, T) -> Vec<T>,
>(
    c: ConicSetting<T>,
    t: ConicMoment<T>,
    kron: bool,
    x: Factored<T, S, G>,
    al: Algebra<I, R, C, P, Y, Z>,
    out: Option<(ConicStep<T>, usize)>,
) -> bool {
    out matches Some(o) && is_newton_step(
        t.frame(c),
        c.degree,
        kron,
        fac_system(*c.prob, *t.r, x),
        al,
        t.short,
        o.0@,
        o.1 as int,
    )
}

/// The step fits the problem, and at most one more is counted as short.
pub open spec fn step_fits<T: Scalar>(prob: QpProblem<T>, short: usize, out: Option<(ConicStep<T>, usize)>) -> bool {
    out matches Some(o) ==> direction_fits(prob, o.0.d@) && o.1 <= short + 1
}

fn fac_newton<
    T: Scalar,
    S: Fn(&[T]) -> Vec<T>,
    G: Fn(&[T]) -> Vec<T>,
    I: Fn(Cone) -> Vec<T>,
    R: Fn(Cone, &[T], &[T]) -> T,
    C: Fn(&ConeScaling<T>, &[T], bool) -> Vec<T>,
    P: Fn(Cone, &[T], &[T]) -> Vec<T>,
    Y: Fn(Cone, &[T], &[T]) -> Vec<T>,
    Z: Fn(Cone, &[T], T, T) -> Vec<T>,
>(
    c: &ConicSetting<T>,
    t: &ConicMoment<T>,
    kron: bool,
    fac: &Fac<T>,
    perm: &[usize],
    fold: &[(usize, usize, T)],
    inner: &S,
    schur: &G,
    al: &Algebra<I, R, C, P, Y, Z>,
) -> (out: (ConicStep<T>, usize))
    requires
        c.wf(),
        t.fits(*c),
        fac.fits(*c.prob, perm@, system_len(*c.prob, fold@)),
        fold@.len() > 0 ==> *fac is Sparse,
        forall|i: int|
            0 <= i < fold@.len() ==> (#[trigger] fold@[i]).0 < c.prob.mi() && fold@[i].1 < c.prob.n(),
        solves_at(*inner, fac.inner_dim(*c.prob, system_len(*c.prob, fold@))),
        *fac is Kronecker && c.prob.me() > 0 ==> solves_at(*schur, c.prob.me()),
        algebra_fits(c.cones@, *al),
    ensures
        stepped_by(
            *c,
            *t,
            kron,
            (Factored { fac: *fac, perm: perm@, fold: fold@, inner: *inner, schur: *schur }),
            *al,
            Some(out),
        ),
        step_fits(*c.prob, t.short, Some(out)),
{
    let prob = c.prob;
    let r = t.r;
    let ghost (n, me, mi) = (prob.n(), prob.me(), prob.mi());
    let system = Ghost(
        fac_system(
            *prob,
            *r,
            Factored { fac: *fac, perm: perm@, fold: fold@, inner: *inner, schur: *schur },
        ),
    );
    let solve = |a: &[T], corrector: bool| -> (v: Solved<T>)
        requires
            a@.len() == mi,
        ensures
            v.dx@.len() == n,
            v.dy@.len() == me,
            v.dz@.len() == mi,
            answers(system@, a@, corrector, v),
    { solve_system(prob, fac, perm, fold, r, a, corrector, inner, schur) };
    conic_newton(
        prob,
        c.ain,
        c.in_csr,
        c.cones,
        c.offsets,
        c.identities,
        t.sc,
        t.it,
        r,
        c.degree,
        kron,
        t.short,
        solve,
        system,
        al,
    )
}

/// `m` is the dense matrix of the augmented system.
pub open spec fn is_full_matrix<T: Scalar>(c: ConicSetting<T>, t: ConicMoment<T>, m: DenseMatrix<T>) -> bool {
    let dim = c.prob.n() + c.prob.me() + c.prob.mi();
    &&& m.sized(dim, dim)
    &&& m.entries_are(full_entry(*c.prob, c.cones@, t.blocks@, t.rho, t.delta))
}

/// How the dense system of dimension `dim` is factored.
pub open spec fn dense_order<T: Scalar>(dim: nat) -> Seq<Method<T>> {
    if dim < 48 {
        seq![plain(), Method::Unpivoted]
    } else {
        seq![Method::PlatformPivoted, Method::Unpivoted]
    }
}

fn dense_methods<T: Scalar>(dim: usize) -> (r: Vec<Method<T>>)
    ensures
        r@ == dense_order::<T>(dim as nat),
{
    let mut r: Vec<Method<T>> = Vec::new();
    if dim < 48 {
        r.push(Method::Plain { tolerance: tolerance_of_pivots() });
    } else {
        r.push(Method::PlatformPivoted);
    }
    r.push(Method::Unpivoted);
    assert(r@ =~= dense_order::<T>(dim as nat));
    r
}

/// `out` is what the dense backend gives, with the factorizations `factor` and `pivot`.
pub open spec fn dense_step<
    T: Scalar,
    F: Fn(&[T]) -> Vec<T>,
    K: Fn(&DenseMatrix<T>, Method<T>) -> Option<F>,
    V: Fn(&DenseMatrix<T>) -> F,
    I: Fn(Cone) -> Vec<T>,
    R: Fn(Cone, &[T], &[T]) -> T,
    C: Fn(&ConeScaling<T>, &[T], bool) -> Vec<T>,
    P: Fn(Cone, &[T], &[T]) -> Vec<T>,
    Y: Fn(Cone, &[T], &[T]) -> Vec<T>,
    Z: Fn(Cone, &[T], T, T) -> Vec<T>,
>(
    c: ConicSetting<T>,
    t: ConicMoment<T>,
    factor: K,
    pivot: V,
    al: Algebra<I, R, C, P, Y, Z>,
    out: (ConicStep<T>, usize),
) -> bool {
    exists|m: DenseMatrix<T>, f: F|
        {
            &&& is_full_matrix(c, t, m)
            &&& #[trigger] secured(factor, pivot, dense_order(m.nrows as nat), m, f)
            &&& stepped_by(
                c,
                t,
                false,
                Factored { fac: Fac::Dense, perm: Seq::empty(), fold: Seq::empty(), inner: f, schur: f },
                al,
                Some(out),
            )
        }
}

/// The step of the dense backend.
pub fn dense_newton<
    T: Scalar,
    F: Fn(&[T]) -> Vec<T>,
    K: Fn(&DenseMatrix<T>, Method<T>) -> Option<F>,
    V: Fn(&DenseMatrix<T>) -> F,
    I: Fn(Cone) -> Vec<T>,
    R: Fn(Cone, &[T], &[T]) -> T,
    C: Fn(&ConeScaling<T>, &[T], bool) -> Vec<T>,
    P: Fn(Cone, &[T], &[T]) -> Vec<T>,
    Y: Fn(Cone, &[T], &[T]) -> Vec<T>,
    Z: Fn(Cone, &[T], T, T) -> Vec<T>,
>(
    c: &ConicSetting<T>,
    t: &ConicMoment<T>,
    factor: &K,
    pivot: &V,
    al: &Algebra<I, R, C, P, Y, Z>,
) -> (out: (ConicStep<T>, usize))
    requires
        c.wf(),
        t.fits(*c),
        (c.prob.n() + c.prob.me() + c.prob.mi()) * (c.prob.n() + c.prob.me() + c.prob.mi()) <= usize::MAX,
        factors_at(*factor, c.prob.n() + c.prob.me() + c.prob.mi()),
        always_factors_at(*pivot, c.prob.n() + c.prob.me() + c.prob.mi()),
        algebra_fits(c.cones@, *al),
    ensures
        dense_step(*c, *t, *factor, *pivot, *al, out),
        step_fits(*c.prob, t.short, Some(out)),
{
    let m = assemble_dense_kkt(c.prob, c.cones, c.offsets, t.blocks, t.rho, t.delta);
    let order = dense_methods(m.nrows);
    let f = factor_surely(factor, pivot, &order, &m);
    let perm: Vec<usize> = Vec::new();
    let fold: Vec<(usize, usize, T)> = Vec::new();
    assert(perm@ =~= Seq::empty());
    assert(fold@ =~= Seq::empty());
    fac_newton(c, t, false, &Fac::Dense, &perm, &fold, &f, &f, al)
}

/// `k` has the pattern that the cache keeps.
pub open spec fn cached_pattern<T>(cache: SparseKktCache<T>, k: CscMatrix<T>) -> bool {
    &&& k.m == cache.dim
    &&& k.n == cache.dim
    &&& k.colptr@ == cache.colptr@
    &&& k.rowval@ == cache.rowval@
    &&& k.nzval@.len() == cache.nzval_static@.len()
}

/// `out` is what the sparse backend gives, with the factorization `factor`.
pub open spec fn sparse_step<
    T: Scalar,
    F: Fn(&[T]) -> Vec<T>,
    K: Fn(&CscMatrix<T>, T) -> Option<F>,
    I: Fn(Cone) -> Vec<T>,
    R: Fn(Cone, &[T], &[T]) -> T,
    C: Fn(&ConeScaling<T>, &[T], bool) -> Vec<T>,
    P: Fn(Cone, &[T], &[T]) -> Vec<T>,
    Y: Fn(Cone, &[T], &[T]) -> Vec<T>,
    Z: Fn(Cone, &[T], T, T) -> Vec<T>,
>(
    c: ConicSetting<T>,
    t: ConicMoment<T>,
    cache: SparseKktCache<T>,
    perm: Seq<usize>,
    factor: K,
    al: Algebra<I, R, C, P, Y, Z>,
    out: Option<(ConicStep<T>, usize)>,
) -> bool {
    exists|k: &CscMatrix<T>, o: Option<F>|
        {
            &&& cached_pattern(cache, *k)
            &&& k.nzval@ == cache.updated(*c.prob, c.cones@, t.blocks@, t.rho, t.delta)
            &&& #[trigger] factor.ensures((k, pivot_tolerance()), o)
            &&& match o {
                Some(f) => stepped_by(
                    c,
                    t,
                    false,
                    Factored { fac: Fac::Sparse, perm, fold: Seq::empty(), inner: f, schur: f },
                    al,
                    out,
                ),
                None => out is None,
            }
        }
}

/// The step of the sparse backend, whose cached pattern gets the values of this iteration. None where
/// the factorization fails.
pub fn sparse_newton<
    T: Scalar,
    F: Fn(&[T]) -> Vec<T>,
    K: Fn(&CscMatrix<T>, T) -> Option<F>,
    I: Fn(Cone) -> Vec<T>,
    R: Fn(Cone, &[T], &[T]) -> T,
    C: Fn(&ConeScaling<T>, &[T], bool) -> Vec<T>,
    P: Fn(Cone, &[T], &[T]) -> Vec<T>,
    Y: Fn(Cone, &[T], &[T]) -> Vec<T>,
    Z: Fn(Cone, &[T], T, T) -> Vec<T>,
>(
    c: &ConicSetting<T>,
    t: &ConicMoment<T>,
    cache: &SparseKktCache<T>,
    perm: &[usize],
    factor: &K,
    al: &Algebra<I, R, C, P, Y, Z>,
) -> (out: Option<(ConicStep<T>, usize)>)
    requires
        c.wf(),
        t.fits(*c),
        cache.wf(c.cones@, c.prob.n()),
        cache.dim == c.prob.n() + c.prob.me() + c.prob.mi(),
        permutation(perm@),
        perm@.len() == cache.dim,
        forall|k: &CscMatrix<T>| cached_pattern(*cache, *k) ==> #[trigger] factor.requires((k, pivot_tolerance())),
        forall|k: &CscMatrix<T>, f: F|
            cached_pattern(*cache, *k) && #[trigger] factor.ensures((k, pivot_tolerance()), Some(f)) ==> solves_at(
                f,
                cache.dim as nat,
            ),
        algebra_fits(c.cones@, *al),
    ensures
        sparse_step(*c, *t, *cache, perm@, *factor, *al, out),
        step_fits(*c.prob, t.short, out),
{
    let nzval = cache.update_nzval(c.prob, c.cones, t.blocks, t.rho, t.delta);
    let k = CscMatrix {
        m: cache.dim,
        n: cache.dim,
        colptr: copied(&cache.colptr),
        rowval: copied(&cache.rowval),
        nzval,
    };
    let kr: &CscMatrix<T> = &k;
    let o = factor(kr, tolerance_of_pivots());
    assert(factor.ensures((kr, pivot_tolerance()), o));
    match o {
        None => None,
        Some(f) => {
            let fold: Vec<(usize, usize, T)> = Vec::new();
            assert(fold@ =~= Seq::empty());
            Some(fac_newton(c, t, false, &Fac::Sparse, perm, &fold, &f, &f, al))
        },
    }
}

/// `o` is what the factorization gives for `k` in the order of the permutation.
pub open spec fn factors_permuted<
    T: Scalar,
    F: Fn(&[T]) -> Vec<T>,
    U: Fn(&CscMatrix<T>, &[usize]) -> CscMatrix<T>,
    K: Fn(&CscMatrix<T>, T) -> Option<F>,
>(permute: U, factor: K, k: CscMatrix<T>, perm: Seq<usize>, o: Option<F>) -> bool {
    exists|p: &[usize], s: CscMatrix<T>|
        p@ == perm && #[trigger] permute.ensures((&k, p), s) && factor.ensures((&s, pivot_tolerance()), o)
}

fn factor_permuted<
    T: Scalar,
    F: Fn(&[T]) -> Vec<T>,
    U: Fn(&CscMatrix<T>, &[usize]) -> CscMatrix<T>,
    K: Fn(&CscMatrix<T>, T) -> Option<F>,
>(permute: &U, factor: &K, k: &CscMatrix<T>, perm: &[usize]) -> (o: Option<F>)
    requires
        squared(*k),
        permutation(perm@),
        perm@.len() == k.n,
        permutes(*permute),
        forall|s: CscMatrix<T>| squared(s) ==> #[trigger] factors_pattern(*factor, s),
    ensures
        factors_permuted(*permute, *factor, *k, perm@, o),
        o matches Some(f) ==> solves_at(f, perm@.len()),
{
    let s = permute(k, perm);
    assert(permute.ensures((k, perm), s));
    proof {
        assert(factors_pattern(*factor, s));
    }
    let sr: &CscMatrix<T> = &s;
    let o = factor(sr, tolerance_of_pivots());
    assert(factor.ensures((sr, pivot_tolerance()), o));
    o
}

/// The folded rows with the inverses of their diagonal entries.
pub open spec fn with_inverses<T>(rows: Seq<(usize, usize)>, hinv: Seq<T>) -> Seq<(usize, usize, T)> {
    Seq::new(rows.len(), |i: int| (rows[i].0, rows[i].1, hinv[i]))
}

fn with_inverses_of<T: Scalar>(rows: &[(usize, usize)], hinv: &[T]) -> (r: Vec<(usize, usize, T)>)
    requires
        rows@.len() == hinv@.len(),
    ensures
        r@ == with_inverses(rows@, hinv@),
{
    let mut r: Vec<(usize, usize, T)> = Vec::with_capacity(rows.len());
    let mut i: usize = 0;
    while i < rows.len()
        invariant
            rows@.len() == hinv@.len(),
            i <= rows@.len(),
            r@ =~= with_inverses(rows@, hinv@).subrange(0, i as int),
        decreases rows@.len() - i,
    {
        r.push((rows[i].0, rows[i].1, hinv[i]));
        i += 1;
    }
    assert(r@ =~= with_inverses(rows@, hinv@));
    r
}

proof fn lemma_kept<T>(rows: Seq<(usize, usize)>, hinv: Seq<T>, k: nat)
    ensures
        kept_rows(with_inverses(rows, hinv), k).len() == kept_before(rows, k),
    decreases k,
{
    if k > 0 {
        lemma_kept(rows, hinv, (k - 1) as nat);
        let fold = with_inverses(rows, hinv);
        if folded(rows, k - 1) {
            let i = choose|i: int| 0 <= i < rows.len() && (#[trigger] rows[i]).0 == k - 1;
            assert(fold[i].0 == k - 1);
        } else {
            assert forall|i: int| 0 <= i < fold.len() implies (#[trigger] fold[i]).0 != k - 1 by {
                assert(rows[i].0 == fold[i].0);
            }
        }
    }
}

/// `out` is what the sparse backend with folded rows gives, with the factorization `factor`.
pub open spec fn folded_step<
    T: Scalar,
    F: Fn(&[T]) -> Vec<T>,
    U: Fn(&CscMatrix<T>, &[usize]) -> CscMatrix<T>,
    K: Fn(&CscMatrix<T>, T) -> Option<F>,
    I: Fn(Cone) -> Vec<T>,
    R: Fn(Cone, &[T], &[T]) -> T,
    C: Fn(&ConeScaling<T>, &[T], bool) -> Vec<T>,
    P: Fn(Cone, &[T], &[T]) -> Vec<T>,
    Y: Fn(Cone, &[T], &[T]) -> Vec<T>,
    Z: Fn(Cone, &[T], T, T) -> Vec<T>,
>(
    c: ConicSetting<T>,
    t: ConicMoment<T>,
    rows: Seq<(usize, usize)>,
    perm: Seq<usize>,
    permute: U,
    factor: K,
    al: Algebra<I, R, C, P, Y, Z>,
    out: Option<(ConicStep<T>, usize)>,
) -> bool {
    let hinv = fold_inverses(c.cones@, t.blocks@, t.delta, rows);
    exists|k: CscMatrix<T>, o: Option<F>|
        {
            &&& folded_matrix(c, t.blocks@, t.rho, t.delta, rows, k)
            &&& #[trigger] factors_permuted(permute, factor, k, perm, o)
            &&& match o {
                Some(f) => stepped_by(
                    c,
                    t,
                    false,
                    Factored { fac: Fac::Sparse, perm, fold: with_inverses(rows, hinv), inner: f, schur: f },
                    al,
                    out,
                ),
                None => out is None,
            }
        }
}

/// `k` is the sparse matrix of the system without the folded rows.
pub open spec fn folded_matrix<T: Scalar>(
    c: ConicSetting<T>,
    blocks: Seq<Vec<T>>,
    rho: T,
    delta: T,
    rows: Seq<(usize, usize)>,
    k: CscMatrix<T>,
) -> bool {
    &&& k.wf()
    &&& k.m == c.prob.n() + c.prob.me() + kept_before(rows, c.prob.mi())
    &&& k.n == k.m
    &&& k.cols() == folded_cols(
        *c.prob,
        c.cones@,
        blocks,
        rho,
        delta,
        opt_deref(c.eq_csr),
        opt_deref(c.in_csr),
        c.p_diag,
        rows,
        fold_inverses(c.cones@, blocks, delta, rows),
    )
}

/// The step of the sparse backend without the rows `rows`, whose single entries are folded into the
/// diagonal of the unknowns. The matrix is permuted and factored. None where it fails.
pub fn folded_newton<
    T: Scalar,
    F: Fn(&[T]) -> Vec<T>,
    U: Fn(&CscMatrix<T>, &[usize]) -> CscMatrix<T>,
    K: Fn(&CscMatrix<T>, T) -> Option<F>,
    I: Fn(Cone) -> Vec<T>,
    R: Fn(Cone, &[T], &[T]) -> T,
    C: Fn(&ConeScaling<T>, &[T], bool) -> Vec<T>,
    P: Fn(Cone, &[T], &[T]) -> Vec<T>,
    Y: Fn(Cone, &[T], &[T]) -> Vec<T>,
    Z: Fn(Cone, &[T], T, T) -> Vec<T>,
>(
    c: &ConicSetting<T>,
    t: &ConicMoment<T>,
    rows: &[(usize, usize)],
    perm: &[usize],
    permute: &U,
    factor: &K,
    al: &Algebra<I, R, C, P, Y, Z>,
) -> (out: Option<(ConicStep<T>, usize)>)
    requires
        c.wf(),
        t.fits(*c),
        rows@.len() > 0,
        fold_fits(rows@, c.prob.mi(), c.prob.n()),
        forall|i: int| 0 <= i < rows@.len() ==> c.cones@[cone_at(c.cones@, (#[trigger] rows@[i]).0 as int)] is NonNeg,
        permutation(perm@),
        perm@.len() == c.prob.n() + c.prob.me() + kept_before(rows@, c.prob.mi()),
        permutes(*permute),
        forall|s: CscMatrix<T>| squared(s) ==> #[trigger] factors_pattern(*factor, s),
        algebra_fits(c.cones@, *al),
    ensures
        folded_step(*c, *t, rows@, perm@, *permute, *factor, *al, out),
        step_fits(*c.prob, t.short, out),
{
    let hinv = fold_inverses_of(c.cones, c.offsets, t.blocks, t.delta, rows);
    let k = assemble_conic_kkt_folded(
        c.prob,
        c.cones,
        c.offsets,
        t.blocks,
        t.rho,
        t.delta,
        c.eq_csr,
        c.in_csr,
        c.p_diag,
        rows,
        &hinv,
    );
    let o = factor_permuted(permute, factor, &k, perm);
    match o {
        None => None,
        Some(f) => {
            let fold = with_inverses_of(rows, &hinv);
            proof {
                lemma_kept(rows@, hinv@, c.prob.mi());
                assert forall|i: int| 0 <= i < fold@.len() implies (#[trigger] fold@[i]).0 < c.prob.mi()
                    && fold@[i].1 < c.prob.n() by {
                    assert(rows@[i].0 == fold@[i].0);
                }
            }
            Some(fac_newton(c, t, false, &Fac::Sparse, perm, &fold, &f, &f, al))
        },
    }
}

/// `k` is the sparse matrix of the arrow system.
pub open spec fn arrow_matrix<T: Scalar>(
    c: ConicSetting<T>,
    sc: Seq<ConeScaling<T>>,
    rho: T,
    delta: T,
    k: CscMatrix<T>,
) -> bool {
    &&& k.wf()
    &&& k.m == c.prob.n() + c.prob.me() + c.prob.mi() + aux_upto(c.cones@, c.cones@.len())
    &&& k.n == k.m
    &&& k.cols() == arrow_cols(
        *c.prob,
        c.cones@,
        sc,
        rho,
        delta,
        opt_deref(c.eq_csr),
        opt_deref(c.in_csr),
        c.p_diag,
    )
}

/// `out` is what the arrow backend gives, with the factorization `factor`.
pub open spec fn arrow_step<
    T: Scalar,
    F: Fn(&[T]) -> Vec<T>,
    U: Fn(&CscMatrix<T>, &[usize]) -> CscMatrix<T>,
    K: Fn(&CscMatrix<T>, T) -> Option<F>,
    I: Fn(Cone) -> Vec<T>,
    R: Fn(Cone, &[T], &[T]) -> T,
    C: Fn(&ConeScaling<T>, &[T], bool) -> Vec<T>,
    P: Fn(Cone, &[T], &[T]) -> Vec<T>,
    Y: Fn(Cone, &[T], &[T]) -> Vec<T>,
    Z: Fn(Cone, &[T], T, T) -> Vec<T>,
>(
    c: ConicSetting<T>,
    t: ConicMoment<T>,
    perm: Seq<usize>,
    permute: U,
    factor: K,
    al: Algebra<I, R, C, P, Y, Z>,
    out: Option<(ConicStep<T>, usize)>,
) -> bool {
    let n_aux = aux_upto(c.cones@, c.cones@.len()) as usize;
    exists|k: CscMatrix<T>, o: Option<F>|
        {
            &&& arrow_matrix(c, t.sc@, t.rho, t.delta, k)
            &&& #[trigger] factors_permuted(permute, factor, k, perm, o)
            &&& match o {
                Some(f) => stepped_by(
                    c,
                    t,
                    false,
                    Factored { fac: Fac::ArrowSparse { n_aux }, perm, fold: Seq::empty(), inner: f, schur: f },
                    al,
                    out,
                ),
                None => out is None,
            }
        }
}

/// The step of the arrow backend, for second-order cones. The matrix is permuted and factored.
/// None where it fails.
pub fn arrow_newton<
    T: Scalar,
    F: Fn(&[T]) -> Vec<T>,
    U: Fn(&CscMatrix<T>, &[usize]) -> CscMatrix<T>,
    K: Fn(&CscMatrix<T>, T) -> Option<F>,
    I: Fn(Cone) -> Vec<T>,
    R: Fn(Cone, &[T], &[T]) -> T,
    C: Fn(&ConeScaling<T>, &[T], bool) -> Vec<T>,
    P: Fn(Cone, &[T], &[T]) -> Vec<T>,
    Y: Fn(Cone, &[T], &[T]) -> Vec<T>,
    Z: Fn(Cone, &[T], T, T) -> Vec<T>,
>(
    c: &ConicSetting<T>,
    t: &ConicMoment<T>,
    perm: &[usize],
    permute: &U,
    factor: &K,
    al: &Algebra<I, R, C, P, Y, Z>,
) -> (out: Option<(ConicStep<T>, usize)>)
    requires
        c.wf(),
        t.fits(*c),
        arrow_scalings(c.cones@, t.sc@),
        c.prob.n() + c.prob.me() + c.prob.mi() + aux_upto(c.cones@, c.cones@.len()) <= usize::MAX,
        permutation(perm@),
        perm@.len() == c.prob.n() + c.prob.me() + c.prob.mi() + aux_upto(c.cones@, c.cones@.len()),
        permutes(*permute),
        forall|s: CscMatrix<T>| squared(s) ==> #[trigger] factors_pattern(*factor, s),
        algebra_fits(c.cones@, *al),
    ensures
        arrow_step(*c, *t, perm@, *permute, *factor, *al, out),
        step_fits(*c.prob, t.short, out),
{
    let (k, n_aux) = assemble_arrow_kkt(
        c.prob,
        c.cones,
        c.offsets,
        t.sc,
        t.rho,
        t.delta,
        c.eq_csr,
        c.in_csr,
        c.p_diag,
    );
    let o = factor_permuted(permute, factor, &k, perm);
    match o {
        None => None,
        Some(f) => {
            let fold: Vec<(usize, usize, T)> = Vec::new();
            assert(fold@ =~= Seq::empty());
            let fac = Fac::ArrowSparse { n_aux };
            Some(fac_newton(c, t, false, &fac, perm, &fold, &f, &f, al))
        },
    }
}

/// `d` is the condensed system of this moment.
pub open spec fn is_condensed<T: Scalar>(
    c: ConicSetting<T>,
    t: ConicMoment<T>,
    sc: CondensedScratch,
    dense_schur: bool,
    d: Condensed<T>,
) -> bool {
    let dim = c.prob.me() + sc.kept@.len();
    &&& d.fold_hinv@ == fold_inverses(c.cones@, t.blocks@, t.delta, sc.fold_rc@)
    &&& d.dinv@ == condensed_dinv(*c.prob, t.rho, sc.fold_rc@, d.fold_hinv@)
    &&& d.r.sized(dim, dim)
    &&& d.r.entries_are(
        remaining_entry(*c.prob, c.cones@, t.blocks@, t.delta, sc.kept@, d.dinv@, dense_schur),
    )
}

/// `fac` is made of the condensed system `d`, whose factor is that of its negation or not.
pub open spec fn is_condensed_fac<T: Scalar>(
    sc: CondensedScratch,
    d: Condensed<T>,
    negation: bool,
    fac: Fac<T>,
) -> bool {
    fac matches Fac::Condensed { negated, dinv, fold, kept } && negated == negation && dinv@ == d.dinv@
        && fold@ == with_inverses(sc.fold_rc@, d.fold_hinv@) && kept@ == sc.kept@
}

/// `neg` is the negation of `m`.
pub open spec fn is_negation<T: Scalar>(m: DenseMatrix<T>, neg: DenseMatrix<T>) -> bool {
    &&& neg.sized(m.nrows as nat, m.ncols as nat)
    &&& forall|i: int, j: int| 0 <= i < m.nrows && 0 <= j < m.ncols ==> #[trigger] neg.at(i, j) == m.at(i, j).neg()
}

fn negation_of<T: Scalar>(m: &DenseMatrix<T>) -> (neg: DenseMatrix<T>)
    requires
        m.wf(),
    ensures
        is_negation(*m, neg),
{
    let data = negated_of(&m.data);
    let neg = DenseMatrix { nrows: m.nrows, ncols: m.ncols, data };
    proof {
        assert forall|i: int, j: int| 0 <= i < m.nrows && 0 <= j < m.ncols implies #[trigger] neg.at(i, j)
            == m.at(i, j).neg() by {
            lemma_position(i, j, m.nrows as int, m.ncols as int);
        }
    }
    neg
}

/// The factor `f` of a condensed matrix `m`, or of its negation. A small one without a semidefinite
/// cone is factored as it stands, then by Cholesky's method in its negation, and at last with pivoting;
/// a large one by the routines of the platform, and any other with pivoting.
pub open spec fn condensed_factored<
    T: Scalar,
    F,
    K: Fn(&DenseMatrix<T>, Method<T>) -> Option<F>,
    V: Fn(&DenseMatrix<T>) -> F,
>(factor: K, pivot: V, semidefinite: bool, m: DenseMatrix<T>, f: F, negated: bool) -> bool {
    if m.nrows >= 48 {
        secured(factor, pivot, seq![Method::PlatformPivoted], m, f) && !negated
    } else if semidefinite {
        pivots(pivot, m, f) && !negated
    } else {
        exists|o: Option<F>| #[trigger]
            tried(factor, seq![plain()], m, o) && match o {
                Some(g) => f == g && !negated,
                None => negation_factored(factor, pivot, m, f, negated),
            }
    }
}

/// The factor `f` of the negation of `m` by Cholesky's method, and of `m` with pivoting where that
/// fails.
pub open spec fn negation_factored<
    T: Scalar,
    F,
    K: Fn(&DenseMatrix<T>, Method<T>) -> Option<F>,
    V: Fn(&DenseMatrix<T>) -> F,
>(factor: K, pivot: V, m: DenseMatrix<T>, f: F, negated: bool) -> bool {
    exists|neg: DenseMatrix<T>, o: Option<F>|
        is_negation(m, neg) && #[trigger] tried(factor, seq![Method::Cholesky], neg, o) && match o {
            Some(g) => f == g && negated,
            None => pivots(pivot, m, f) && !negated,
        }
}

fn factor_condensed<
    T: Scalar,
    F: Fn(&[T]) -> Vec<T>,
    K: Fn(&DenseMatrix<T>, Method<T>) -> Option<F>,
    V: Fn(&DenseMatrix<T>) -> F,
>(factor: &K, pivot: &V, semidefinite: bool, m: &DenseMatrix<T>) -> (r: (F, bool))
    requires
        m.wf(),
        m.nrows == m.ncols,
        factors_at(*factor, m.nrows as nat),
        always_factors_at(*pivot, m.nrows as nat),
    ensures
        condensed_factored(*factor, *pivot, semidefinite, *m, r.0, r.1),
        solves_at(r.0, m.nrows as nat),
{
    if m.nrows >= 48 {
        let order: Vec<Method<T>> = vec![Method::PlatformPivoted];
        assert(order@ =~= seq![Method::PlatformPivoted]);
        return (factor_surely(factor, pivot, &order, m), false);
    }
    if semidefinite {
        let f = pivot(m);
        assert(pivots(*pivot, *m, f));
        return (f, false);
    }
    let first: Vec<Method<T>> = vec![Method::Plain { tolerance: tolerance_of_pivots() }];
    assert(first@ =~= seq![plain()]);
    let o = try_in_order(factor, &first, m);
    assert(tried(*factor, seq![plain()], *m, o));
    if let Some(f) = o {
        return (f, false);
    }
    let neg = negation_of(m);
    let second: Vec<Method<T>> = vec![Method::Cholesky];
    assert(second@ =~= seq![Method::Cholesky]);
    let u = try_in_order(factor, &second, &neg);
    assert(tried(*factor, seq![Method::Cholesky], neg, u));
    match u {
        Some(f) => {
            assert(negation_factored(*factor, *pivot, *m, f, true));
            (f, true)
        },
        None => {
            let f = pivot(m);
            assert(pivots(*pivot, *m, f));
            assert(negation_factored(*factor, *pivot, *m, f, false));
            (f, false)
        },
    }
}

/// `out` is what the condensed backend gives, with the factorizations `factor` and `pivot`.
pub open spec fn condensed_step<
    T: Scalar,
    F: Fn(&[T]) -> Vec<T>,
    K: Fn(&DenseMatrix<T>, Method<T>) -> Option<F>,
    V: Fn(&DenseMatrix<T>) -> F,
    I: Fn(Cone) -> Vec<T>,
    R: Fn(Cone, &[T], &[T]) -> T,
    C: Fn(&ConeScaling<T>, &[T], bool) -> Vec<T>,
    P: Fn(Cone, &[T], &[T]) -> Vec<T>,
    Y: Fn(Cone, &[T], &[T]) -> Vec<T>,
    Z: Fn(Cone, &[T], T, T) -> Vec<T>,
>(
    c: ConicSetting<T>,
    t: ConicMoment<T>,
    sc: CondensedScratch,
    dense_schur: bool,
    factor: K,
    pivot: V,
    al: Algebra<I, R, C, P, Y, Z>,
    out: (ConicStep<T>, usize),
) -> bool {
    exists|d: Condensed<T>, f: F, negated: bool, fac: Fac<T>|
        {
            &&& #[trigger] is_condensed(c, t, sc, dense_schur, d)
            &&& #[trigger] condensed_factored(factor, pivot, any_psd(c.cones@), d.r, f, negated)
            &&& #[trigger] is_condensed_fac(sc, d, negated, fac)
            &&& stepped_by(
                c,
                t,
                false,
                Factored { fac, perm: Seq::empty(), fold: Seq::empty(), inner: f, schur: f },
                al,
                Some(out),
            )
        }
}

/// The step of the condensed backend: the unknowns and the folded rows are eliminated, and what
/// remains, or its negation, is factored.
pub fn condensed_newton<
    T: Scalar,
    F: Fn(&[T]) -> Vec<T>,
    K: Fn(&DenseMatrix<T>, Method<T>) -> Option<F>,
    V: Fn(&DenseMatrix<T>) -> F,
    I: Fn(Cone) -> Vec<T>,
    R: Fn(Cone, &[T], &[T]) -> T,
    C: Fn(&ConeScaling<T>, &[T], bool) -> Vec<T>,
    P: Fn(Cone, &[T], &[T]) -> Vec<T>,
    Y: Fn(Cone, &[T], &[T]) -> Vec<T>,
    Z: Fn(Cone, &[T], T, T) -> Vec<T>,
>(
    c: &ConicSetting<T>,
    t: &ConicMoment<T>,
    sc: &CondensedScratch,
    dense_schur: bool,
    factor: &K,
    pivot: &V,
    al: &Algebra<I, R, C, P, Y, Z>,
) -> (out: (ConicStep<T>, usize))
    requires
        c.wf(),
        t.fits(*c),
        sc.plans(*c.prob, c.cones@),
        (c.prob.me() + sc.kept@.len()) * (c.prob.me() + sc.kept@.len()) <= usize::MAX,
        factors_at(*factor, c.prob.me() + sc.kept@.len()),
        always_factors_at(*pivot, c.prob.me() + sc.kept@.len()),
        algebra_fits(c.cones@, *al),
    ensures
        condensed_step(*c, *t, *sc, dense_schur, *factor, *pivot, *al, out),
        step_fits(*c.prob, t.short, Some(out)),
{
    let prob = c.prob;
    let d = build_condensed_into(prob, c.cones, c.offsets, t.blocks, t.rho, t.delta, dense_schur, sc);
    assert(is_condensed(*c, *t, *sc, dense_schur, d));
    let (f, negated) = factor_condensed(factor, pivot, has_psd(c.cones), &d.r);
    let fold = with_inverses_of(&sc.fold_rc, &d.fold_hinv);
    proof {
        lemma_lists(*prob, c.cones@, prob.mi());
        assert forall|i: int| 0 <= i < fold@.len() implies (#[trigger] fold@[i]).0 < prob.mi() && fold@[i].1
            < prob.n() by {
            assert(sc.fold_rc@[i].0 == fold@[i].0);
        }
    }
    let fac = Fac::Condensed { negated, dinv: copied(&d.dinv), fold, kept: copied(&sc.kept) };
    assert(is_condensed_fac(*sc, d, negated, fac));
    let perm: Vec<usize> = Vec::new();
    let none: Vec<(usize, usize, T)> = Vec::new();
    assert(perm@ =~= Seq::empty());
    assert(none@ =~= Seq::empty());
    fac_newton(c, t, false, &fac, &perm, &none, &f, &f, al)
}

/// The inverse diagonal of the unknowns' block.
pub open spec fn inverse_diagonal<T: Scalar>(prob: QpProblem<T>, rho: T) -> Seq<T> {
    Seq::new(prob.n(), |i: int| T::one().over(prob.p.at(i, i).plus(rho)))
}

fn inverse_diagonal_of<T: Scalar>(prob: &QpProblem<T>, rho: T) -> (r: Vec<T>)
    requires
        prob.wf(),
    ensures
        r@ == inverse_diagonal(*prob, rho),
{
    let n: usize = prob.q.len();
    let mut r: Vec<T> = Vec::with_capacity(n);
    let mut i: usize = 0;
    while i < n
        invariant
            prob.wf(),
            n == prob.n(),
            i <= n,
            r@ =~= inverse_diagonal(*prob, rho).subrange(0, i as int),
        decreases n - i,
    {
        r.push(T::one().over(prob.p.get(i, i).plus(rho)));
        i += 1;
    }
    assert(r@ =~= inverse_diagonal(*prob, rho));
    r
}

/// `gzy` are the negated solutions for the couplings of the equality rows.
pub open spec fn coupled_solutions<T: Scalar>(
    prob: QpProblem<T>,
    inv_rho: T,
    solves: spec_fn(Seq<T>, Seq<T>) -> bool,
    gzy: Seq<Vec<T>>,
) -> bool {
    &&& gzy.len() == prob.me()
    &&& forall|j: int| 0 <= j < gzy.len() ==> (#[trigger] gzy[j])@.len() == prob.n()
    &&& forall|j: int|
        0 <= j < gzy.len() ==> solved_and_negated(solves, eq_coupling(prob, inv_rho, j), (#[trigger] gzy[j])@)
}

/// `g` is the negation of a solution for `a`.
pub open spec fn solved_and_negated<T: Scalar>(
    solves: spec_fn(Seq<T>, Seq<T>) -> bool,
    a: Seq<T>,
    g: Seq<T>,
) -> bool {
    exists|v: Seq<T>| #[trigger] yields(solves, a, v) && g == negated(v)
}

fn solve_couplings<T: Scalar, F: Fn(&[T]) -> Vec<T>>(prob: &QpProblem<T>, inv_rho: T, f: &F) -> (gzy: Vec<Vec<T>>)
    requires
        prob.wf(),
        solves_at(*f, prob.n()),
    ensures
        coupled_solutions(*prob, inv_rho, solved_by(*f), gzy@),
{
    let me: usize = prob.b_eq.len();
    let ghost inner = solved_by(*f);
    proof {
        lemma_solved_by(*f, prob.n());
    }
    let mut gzy: Vec<Vec<T>> = Vec::with_capacity(me);
    let mut j: usize = 0;
    while j < me
        invariant
            prob.wf(),
            me == prob.me(),
            inner == solved_by(*f),
            gives_solutions(*f, inner, prob.n()),
            j <= me,
            gzy@.len() == j,
            forall|k: int| 0 <= k < gzy@.len() ==> (#[trigger] gzy@[k])@.len() == prob.n(),
            forall|k: int|
                0 <= k < gzy@.len() ==> solved_and_negated(
                    inner,
                    eq_coupling(*prob, inv_rho, k),
                    (#[trigger] gzy@[k])@,
                ),
        decreases me - j,
    {
        let a = equality_coupling(prob, inv_rho, j);
        let v = f(a.as_slice());
        assert(yields(inner, a@, v@));
        gzy.push(negated_of(&v));
        j += 1;
    }
    gzy
}

/// `fac` is the Kronecker structure of this moment, solved by `solves`.
pub open spec fn is_kron_fac<T: Scalar>(
    c: ConicSetting<T>,
    t: ConicMoment<T>,
    solves: spec_fn(Seq<T>, Seq<T>) -> bool,
    fac: Fac<T>,
) -> bool {
    let d = inverse_diagonal(*c.prob, t.rho);
    fac matches Fac::Kronecker { factored, gzy, inv_rho, dinv } && factored == (c.prob.me() > 0) && inv_rho
        == d[0] && dinv@ == d && coupled_solutions(*c.prob, inv_rho, solves, gzy@)
}

/// `m` is the equality part of the Kronecker structure `fac`.
pub open spec fn is_kron_schur<T: Scalar>(
    c: ConicSetting<T>,
    t: ConicMoment<T>,
    fac: Fac<T>,
    m: DenseMatrix<T>,
) -> bool {
    fac matches Fac::Kronecker { factored, gzy, inv_rho, dinv } && m.sized(c.prob.me(), c.prob.me())
        && m.entries_are(kron_schur_entry(*c.prob, gzy@, inv_rho, t.delta))
}

/// `out` is what the Kronecker backend gives: `structure` is the solve of the cone's part for a
/// shift,
/// and `factor` the factorization of the equality part.
pub open spec fn kron_step<
    T: Scalar,
    F: Fn(&[T]) -> Vec<T>,
    G: Fn(&[T]) -> Vec<T>,
    Q: Fn(&[ConeScaling<T>], T) -> F,
    K: Fn(&DenseMatrix<T>, Method<T>) -> Option<G>,
    I: Fn(Cone) -> Vec<T>,
    R: Fn(Cone, &[T], &[T]) -> T,
    C: Fn(&ConeScaling<T>, &[T], bool) -> Vec<T>,
    P: Fn(Cone, &[T], &[T]) -> Vec<T>,
    Y: Fn(Cone, &[T], &[T]) -> Vec<T>,
    Z: Fn(Cone, &[T], T, T) -> Vec<T>,
>(
    c: ConicSetting<T>,
    t: ConicMoment<T>,
    structure: Q,
    factor: K,
    al: Algebra<I, R, C, P, Y, Z>,
    out: Option<(ConicStep<T>, usize)>,
) -> bool {
    let shift = t.delta.plus(inverse_diagonal(*c.prob, t.rho)[0]);
    exists|f: F, fac: Fac<T>|
        {
            &&& #[trigger] structure.ensures((t.sc, shift), f)
            &&& #[trigger] is_kron_fac(c, t, solved_by(f), fac)
            &&& if c.prob.me() == 0 {
                stepped_by(
                    c,
                    t,
                    true,
                    Factored { fac, perm: Seq::empty(), fold: Seq::empty(), inner: f, schur: f },
                    al,
                    out,
                )
            } else {
                exists|m: DenseMatrix<T>, o: Option<G>|
                    {
                        &&& is_kron_schur(c, t, fac, m)
                        &&& #[trigger] tried(factor, seq![plain()], m, o)
                        &&& match o {
                            Some(g) => stepped_by(
                                c,
                                t,
                                true,
                                Factored { fac, perm: Seq::empty(), fold: Seq::empty(), inner: f, schur: g },
                                al,
                                out,
                            ),
                            None => out is None,
                        }
                    }
            }
        }
}

/// The step of the Kronecker backend, for a single semidefinite cone whose rows are the negated
/// identity. None where the factorization of the equality part fails.
pub fn kron_newton<
    T: Scalar,
    F: Fn(&[T]) -> Vec<T>,
    G: Fn(&[T]) -> Vec<T>,
    Q: Fn(&[ConeScaling<T>], T) -> F,
    K: Fn(&DenseMatrix<T>, Method<T>) -> Option<G>,
    I: Fn(Cone) -> Vec<T>,
    R: Fn(Cone, &[T], &[T]) -> T,
    C: Fn(&ConeScaling<T>, &[T], bool) -> Vec<T>,
    P: Fn(Cone, &[T], &[T]) -> Vec<T>,
    Y: Fn(Cone, &[T], &[T]) -> Vec<T>,
    Z: Fn(Cone, &[T], T, T) -> Vec<T>,
>(
    c: &ConicSetting<T>,
    t: &ConicMoment<T>,
    structure: &Q,
    factor: &K,
    al: &Algebra<I, R, C, P, Y, Z>,
) -> (out: Option<(ConicStep<T>, usize)>)
    requires
        c.wf(),
        t.fits(*c),
        c.prob.n() > 0,
        c.prob.mi() == c.prob.n(),
        c.prob.me() * c.prob.me() <= usize::MAX,
        forall|w: &[ConeScaling<T>], s: T| scalings_fit(c.cones@, w@) ==> #[trigger] structure.requires((w, s)),
        forall|w: &[ConeScaling<T>], s: T, f: F|
            scalings_fit(c.cones@, w@) && #[trigger] structure.ensures((w, s), f) ==> solves_at(f, c.prob.n()),
        factors_at(*factor, c.prob.me()),
        algebra_fits(c.cones@, *al),
    ensures
        kron_step(*c, *t, *structure, *factor, *al, out),
        step_fits(*c.prob, t.short, out),
{
    let prob = c.prob;
    let dinv = inverse_diagonal_of(prob, t.rho);
    let inv_rho = dinv[0];
    let shift = t.delta.plus(inv_rho);
    let f = structure(t.sc, shift);
    assert(structure.ensures((t.sc, shift), f));
    let gzy = solve_couplings(prob, inv_rho, &f);
    let perm: Vec<usize> = Vec::new();
    let none: Vec<(usize, usize, T)> = Vec::new();
    assert(perm@ =~= Seq::empty());
    assert(none@ =~= Seq::empty());
    if prob.b_eq.len() == 0 {
        let fac = Fac::Kronecker { factored: false, gzy, inv_rho, dinv };
        assert(is_kron_fac(*c, *t, solved_by(f), fac));
        Some(fac_newton(c, t, true, &fac, &perm, &none, &f, &f, al))
    } else {
        let m = kron_schur(prob, &gzy, inv_rho, t.delta);
        let fac = Fac::Kronecker { factored: true, gzy, inv_rho, dinv };
        assert(is_kron_fac(*c, *t, solved_by(f), fac));
        assert(is_kron_schur(*c, *t, fac, m));
        let order: Vec<Method<T>> = vec![Method::Plain { tolerance: tolerance_of_pivots() }];
        assert(order@ =~= seq![plain()]);
        let o = try_in_order(factor, &order, &m);
        assert(tried(*factor, seq![plain()], m, o));
        match o {
            None => None,
            Some(g) => Some(fac_newton(c, t, true, &fac, &perm, &none, &f, &g, al)),
        }
    }
}

} // verus!
