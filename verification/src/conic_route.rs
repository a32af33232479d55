//! How a conic program is routed: which backend factors its systems, with which regularization,
//! and from where the iteration starts.
use crate::cone::{block, cones_fit, lemma_block_bounds, offsets_of, size_upto, Cone};
use crate::conic_kkt::conic_problem;
use crate::lp_simplex::{last_nonzero, lemma_last_nonzero};
use crate::matrix::{diagonal_matrix, nonzero_count, zero_matrix, DenseMatrix};
use crate::problem::QpProblem;
use crate::scalar::Scalar;
use crate::vector::{constant, filled};
use crate::warm::{splice, spliced, Seed};
use vstd::prelude::*;

verus! {

/// Every cone is an orthant.
pub open spec fn all_orthants(cones: Seq<Cone>) -> bool {
    forall|c: int| 0 <= c < cones.len() ==> (#[trigger] cones[c]) is NonNeg
}

/// Some cone is semidefinite.
pub open spec fn any_psd(cones: Seq<Cone>) -> bool {
    exists|c: int| 0 <= c < cones.len() && (#[trigger] cones[c]) is Psd
}

/// Whether every cone is an orthant.
pub fn is_all_orthants(cones: &[Cone]) -> (r: bool)
    ensures
        r == all_orthants(cones@),
{
    let mut c: usize = 0;
    while c < cones.len()
        invariant
            c <= cones@.len(),
            forall|k: int| 0 <= k < c ==> (#[trigger] cones@[k]) is NonNeg,
        decreases cones@.len() - c,
    {
        let orthant = matches!(cones[c], Cone::NonNeg(_));
        if !orthant {
            assert(!(cones@[c as int] is NonNeg));
            return false;
        }
        c += 1;
    }
    true
}

/// Whether some cone is semidefinite.
pub fn has_psd(cones: &[Cone]) -> (r: bool)
    ensures
        r == any_psd(cones@),
{
    let mut c: usize = 0;
    while c < cones.len()
        invariant
            c <= cones@.len(),
            forall|k: int| 0 <= k < c ==> !((#[trigger] cones@[k]) is Psd),
        decreases cones@.len() - c,
    {
        let psd = matches!(cones[c], Cone::Psd(_));
        if psd {
            assert(cones@[c as int] is Psd);
            return true;
        }
        c += 1;
    }
    false
}

/// Fewer than 15 of 100 entries are nonzero; a matrix without entries counts as sparse.
pub open spec fn sparse_matrix<T: Scalar>(a: DenseMatrix<T>) -> bool {
    a.data@.len() == 0 || 100 * nonzero_count(a.data@, a.data@.len()) < 15 * a.data@.len()
}

/// Whether fewer than 15 of 100 entries are nonzero.
pub fn is_sparse_matrix<T: Scalar>(a: &DenseMatrix<T>) -> (r: bool)
    ensures
        r == sparse_matrix(*a),
{
    let nz: usize = a.count_nonzeros();
    let total: usize = a.data.len();
    total == 0 || 100 * (nz as u128) < 15 * (total as u128)
}

/// The conic engine hands the problem to the dual simplex method: a linear program without
/// equality rows over orthants, of 400 to 2000 unknowns and at most 400 sparse rows.
pub open spec fn takes_simplex<T: Scalar>(prob: QpProblem<T>, cones: Seq<Cone>) -> bool {
    &&& all_orthants(cones)
    &&& zero_matrix(prob.p)
    &&& prob.me() == 0
    &&& 0 < prob.mi() <= 400
    &&& 400 <= prob.n() <= 2000
    &&& sparse_matrix(prob.a_in)
}

/// Whether the conic engine hands the problem to the dual simplex method.
pub fn conic_takes_simplex<T: Scalar>(prob: &QpProblem<T>, cones: &[Cone]) -> (r: bool)
    requires
        prob.wf(),
    ensures
        r == takes_simplex(*prob, cones@),
{
    let n: usize = prob.q.len();
    let mi: usize = prob.b_in.len();
    is_all_orthants(cones) && prob.p.is_zero() && prob.b_eq.len() == 0 && mi > 0 && mi <= 400 && n <= 2000
        && n >= 400 && is_sparse_matrix(&prob.a_in)
}

/// The number of regularization levels.
pub const LEVELS: usize = 6;

/// The regularization of a level: 0, 1e-13, 1e-10, 1e-8, 1e-6, 1e-4.
pub open spec fn ladder<T: Scalar>(level: int) -> T {
    if level <= 0 {
        T::zero()
    } else if level == 1 {
        T::decimal(1, 13)
    } else if level == 2 {
        T::decimal(1, 10)
    } else if level == 3 {
        T::decimal(1, 8)
    } else if level == 4 {
        T::decimal(1, 6)
    } else {
        T::decimal(1, 4)
    }
}

/// The regularization of a level.
pub fn ladder_at<T: Scalar>(level: usize) -> (r: T)
    ensures
        r == ladder::<T>(level as int),
{
    if level == 0 {
        T::zero()
    } else if level == 1 {
        T::decimal(1, 13)
    } else if level == 2 {
        T::decimal(1, 10)
    } else if level == 3 {
        T::decimal(1, 8)
    } else if level == 4 {
        T::decimal(1, 6)
    } else {
        T::decimal(1, 4)
    }
}

/// The highest level up to `level` whose regularization is at most `rho0`, and 0 where there is
/// none.
pub open spec fn level_for<T: Scalar>(rho0: T, level: nat) -> nat
    decreases level,
{
    if level == 0 || ladder::<T>(level as int).at_most(rho0) {
        level
    } else {
        level_for(rho0, (level - 1) as nat)
    }
}

/// The baseline of the primal regularization.
pub open spec fn rho_floor<T: Scalar>() -> T {
    T::decimal(1, 6)
}

/// The baseline of the dual regularization: larger where some cone is curved, whose scaling block
/// is ill-conditioned close to the boundary.
pub open spec fn delta_floor<T: Scalar>(cones: Seq<Cone>) -> T {
    if all_orthants(cones) {
        T::decimal(1, 7)
    } else {
        T::decimal(1, 6)
    }
}

/// The regularization: the baselines, the level on the ladder, and the present values.
pub struct Regularization<T> {
    pub rho0: T,
    pub delta0: T,
    pub level: usize,
    pub rho: T,
    pub delta: T,
}

impl<T: Scalar> Regularization<T> {
    /// The present values are those of the level, held above the baselines.
    pub open spec fn wf(self) -> bool {
        &&& self.level < LEVELS
        &&& self.rho == ladder::<T>(self.level as int).max(self.rho0)
        &&& self.delta == ladder::<T>(self.level as int).max(self.delta0)
    }
}

/// The regularization that the iteration starts with.
pub fn initial_regularization<T: Scalar>(cones: &[Cone]) -> (r: Regularization<T>)
    ensures
        r.wf(),
        r.rho0 == rho_floor::<T>(),
        r.delta0 == delta_floor::<T>(cones@),
        r.level == level_for(r.rho0, 5),
{
    let rho0: T = T::decimal(1, 6);
    let delta0: T = if is_all_orthants(cones) {
        T::decimal(1, 7)
    } else {
        T::decimal(1, 6)
    };
    let mut level: usize = 5;
    while level > 0 && !ladder_at::<T>(level).at_most(rho0)
        invariant
            level <= 5,
            level_for(rho0, 5) == level_for(rho0, level as nat),
        decreases level,
    {
        level -= 1;
    }
    let base: T = ladder_at(level);
    Regularization { rho0, delta0, level, rho: base.max(rho0), delta: base.max(delta0) }
}

/// The number of levels that a growth of the gap by the factor `boost` lifts: half its decimal
/// logarithm, rounded up, and at most 3.
pub open spec fn levels_up<T: Scalar>(boost: T) -> int {
    let k = boost.log10().over(T::decimal(2, 0)).ceil_count();
    if k < 3 {
        k as int
    } else {
        3
    }
}

/// The level after an iteration: raised where the gap runs away, lowered by one where both the
/// relative and the equality residual fell below a tenth.
pub open spec fn next_level<T: Scalar>(
    level: int,
    mu: T,
    prev_mu: T,
    rel: T,
    prev_rel: T,
    nb: T,
    prev_nb: T,
) -> int {
    let raised = if prev_mu.times(T::decimal(5, 0)).below(mu) && T::decimal(1000000, 0).below(mu) {
        let up = level + levels_up(mu.over(prev_mu).min(T::decimal(1000000, 0)));
        if up < LEVELS - 1 {
            up
        } else {
            LEVELS - 1
        }
    } else {
        level
    };
    let tenth = T::decimal(1, 1);
    if rel.below(tenth.times(prev_rel)) && nb.below(tenth.times(prev_nb)) && raised > 0 {
        raised - 1
    } else {
        raised
    }
}

/// Moves the regularization along the ladder after an iteration.
pub fn update_regularization<T: Scalar>(
    reg: &mut Regularization<T>,
    mu: T,
    prev_mu: T,
    rel: T,
    prev_rel: T,
    nb: T,
    prev_nb: T,
)
    requires
        old(reg).wf(),
    ensures
        final(reg).wf(),
        final(reg).rho0 == old(reg).rho0,
        final(reg).delta0 == old(reg).delta0,
        final(reg).level == next_level(
            old(reg).level as int,
            mu,
            prev_mu,
            rel,
            prev_rel,
            nb,
            prev_nb,
        ),
{
    let mut level: usize = reg.level;
    if prev_mu.times(T::decimal(5, 0)).below(mu) && T::decimal(1000000, 0).below(mu) {
        let boost = mu.over(prev_mu).min(T::decimal(1000000, 0));
        let k: usize = boost.log10().over(T::decimal(2, 0)).ceil_count();
        let up: usize = level + if k < 3 {
            k
        } else {
            3
        };
        level = if up < LEVELS - 1 {
            up
        } else {
            LEVELS - 1
        };
    }
    let tenth = T::decimal(1, 1);
    if rel.below(tenth.times(prev_rel)) && nb.below(tenth.times(prev_nb)) && level > 0 {
        level -= 1;
    }
    reg.level = level;
    let base: T = ladder_at(level);
    reg.rho = base.max(reg.rho0);
    reg.delta = base.max(reg.delta0);
}

/// The largest dimension of a curved cone among the first `k`, and 0 where there is none.
pub open spec fn largest_curved(cones: Seq<Cone>, k: nat) -> nat
    decreases k,
{
    if k == 0 {
        0
    } else {
        let front = largest_curved(cones, (k - 1) as nat);
        if !(cones[k - 1] is NonNeg) && cones[k - 1].size() > front {
            cones[k - 1].size()
        } else {
            front
        }
    }
}

/// The largest dimension of a curved cone.
pub fn largest_curved_dim(cones: &[Cone]) -> (r: usize)
    requires
        cones_fit(cones@),
    ensures
        r == largest_curved(cones@, cones@.len()),
{
    let mut best: usize = 0;
    let mut c: usize = 0;
    while c < cones.len()
        invariant
            cones_fit(cones@),
            c <= cones@.len(),
            best == largest_curved(cones@, c as nat),
        decreases cones@.len() - c,
    {
        let d: usize = cones[c].dim();
        let orthant = matches!(cones[c], Cone::NonNeg(_));
        if !orthant && d > best {
            best = d;
        }
        c += 1;
    }
    best
}

/// The backend that factors the systems of a conic program.
#[derive(Clone, Copy, Debug, PartialEq, Eq, Structural)]
pub enum Backend {
    /// The Kronecker structure of a single semidefinite cone.
    Kronecker,
    /// The condensed system.
    Condensed,
    /// The dense augmented system.
    Dense,
    /// The sparse arrow system.
    Arrow,
    /// The sparse augmented system.
    Sparse,
}

/// The facts on which the choice of the backend rests.
pub struct Shape {
    pub kron: bool,
    pub p_diagonal: bool,
    pub orthants_only: bool,
    pub psd: bool,
    pub largest_curved: usize,
    pub n: usize,
    pub me: usize,
    pub mi: usize,
    /// The nonzero entries of the inequality matrix.
    pub ain_nnz: usize,
    /// The stored entries of the augmented system.
    pub kkt_nnz: usize,
}

/// The shape of a conic program whose augmented system stores `kkt_nnz` entries; with `kron`, the
/// Kronecker structure is used and no system is assembled.
pub fn conic_shape_of<T: Scalar>(prob: &QpProblem<T>, cones: &[Cone], kron: bool, kkt_nnz: usize) -> (s: Shape)
    requires
        prob.wf(),
        cones_fit(cones@),
    ensures
        s.kron == kron,
        s.p_diagonal == diagonal_matrix(prob.p),
        s.orthants_only == all_orthants(cones@),
        s.psd == any_psd(cones@),
        s.largest_curved == largest_curved(cones@, cones@.len()),
        s.n == prob.n(),
        s.me == prob.me(),
        s.mi == prob.mi(),
        s.ain_nnz == nonzero_count(prob.a_in.data@, prob.a_in.data@.len()),
        s.kkt_nnz == kkt_nnz,
{
    Shape {
        kron,
        p_diagonal: prob.p.is_diagonal(),
        orthants_only: is_all_orthants(cones),
        psd: has_psd(cones),
        largest_curved: largest_curved_dim(cones),
        n: prob.q.len(),
        me: prob.b_eq.len(),
        mi: prob.b_in.len(),
        ain_nnz: prob.a_in.count_nonzeros(),
        kkt_nnz,
    }
}

/// The backend for a shape. The arrow form is for large second-order cones over a sparse
/// inequality matrix. A system that is dense, or has a large curved cone, is factored densely,
/// and condensed first where the Hessian is diagonal and that makes it smaller.
pub open spec fn backend_for(s: Shape) -> Backend {
    let dim = s.n + s.me + s.mi;
    let area = if dim * dim < 2 {
        2
    } else {
        dim * dim
    };
    let a_area = if s.mi * s.n < 1 {
        1
    } else {
        s.mi * s.n
    };
    let arrow = !s.kron && s.largest_curved >= 8 && 10 * s.ain_nnz < a_area && !s.psd;
    let dense = !arrow && (200 * s.kkt_nnz > 15 * area || s.largest_curved >= 8 || s.kron);
    if s.kron {
        Backend::Kronecker
    } else if dense && s.p_diagonal && (s.largest_curved >= 8 || (s.orthants_only && s.mi >= s.n)) {
        Backend::Condensed
    } else if dense {
        Backend::Dense
    } else if arrow {
        Backend::Arrow
    } else {
        Backend::Sparse
    }
}

/// The backend for a shape.
pub fn choose_backend(s: &Shape) -> (r: Backend)
    requires
        s.n + s.me + s.mi < usize::MAX,
    ensures
        r == backend_for(*s),
{
    let dim: u128 = s.n as u128 + s.me as u128 + s.mi as u128;
    proof {
        let d = dim as int;
        assert(0 <= d * d <= 0xffff_ffff_ffff_ffff * 0xffff_ffff_ffff_ffff) by (nonlinear_arith)
            requires
                0 <= d <= 0xffff_ffff_ffff_ffff,
        ;
        let (m, n) = (s.mi as int, s.n as int);
        assert(0 <= m * n <= 0xffff_ffff_ffff_ffff * 0xffff_ffff_ffff_ffff) by (nonlinear_arith)
            requires
                0 <= m <= 0xffff_ffff_ffff_ffff,
                0 <= n <= 0xffff_ffff_ffff_ffff,
        ;
    }
    let square: u128 = dim * dim;
    let area: u128 = if square < 2 {
        2
    } else {
        square
    };
    let product: u128 = (s.mi as u128) * (s.n as u128);
    let a_area: u128 = if product < 1 {
        1
    } else {
        product
    };
    let arrow = !s.kron && s.largest_curved >= 8 && 10 * (s.ain_nnz as u128) < a_area && !s.psd;
    // `15 area < 200 nnz` without the product on the left, which could overflow.
    let filled_in = area < (40 * (s.kkt_nnz as u128) + 2) / 3;
    proof {
        let (a, z) = (area as int, s.kkt_nnz as int);
        assert(filled_in == (15 * a < 200 * z));
    }
    let dense = !arrow && (filled_in || s.largest_curved >= 8 || s.kron);
    if s.kron {
        Backend::Kronecker
    } else if dense && s.p_diagonal && (s.largest_curved >= 8 || (s.orthants_only && s.mi >= s.n)) {
        Backend::Condensed
    } else if dense {
        Backend::Dense
    } else if arrow {
        Backend::Arrow
    } else {
        Backend::Sparse
    }
}

/// The unknowns of a condensed system are eliminated through whole rows: the rows are at least 48
/// in number, and more than a quarter of their entries are nonzero.
pub open spec fn eliminates_densely<T: Scalar>(prob: QpProblem<T>) -> bool {
    let nnz = nonzero_count(prob.a_eq.data@, prob.a_eq.data@.len()) + nonzero_count(
        prob.a_in.data@,
        prob.a_in.data@.len(),
    );
    prob.me() + prob.mi() >= 48 && nnz * 4 > prob.n() * (prob.me() + prob.mi())
}

/// Whether the unknowns of a condensed system are eliminated through whole rows.
pub fn takes_dense_schur<T: Scalar>(prob: &QpProblem<T>) -> (r: bool)
    requires
        prob.wf(),
    ensures
        r == eliminates_densely(*prob),
{
    let n: usize = prob.q.len();
    let me: usize = prob.b_eq.len();
    let mi: usize = prob.b_in.len();
    if me + mi < 48 {
        return false;
    }
    let a: usize = prob.a_eq.count_nonzeros();
    let b: usize = prob.a_in.count_nonzeros();
    let ta: usize = prob.a_eq.data.len();
    let tb: usize = prob.a_in.data.len();
    proof {
        assert(n * (me + mi) == me * n + mi * n) by (nonlinear_arith);
    }
    ((a as u128) + (b as u128)) * 4 > (ta as u128) + (tb as u128)
}

/// The rows with a single entry among the first `k`, each with its column.
pub open spec fn single_rows<T: Scalar>(prob: QpProblem<T>, k: nat) -> Seq<(usize, usize)>
    decreases k,
{
    if k == 0 {
        Seq::empty()
    } else {
        let front = single_rows(prob, (k - 1) as nat);
        let row = prob.a_in.row(k - 1);
        if nonzero_count(row, prob.n()) == 1 {
            front.push(((k - 1) as usize, last_nonzero(row, prob.n()) as usize))
        } else {
            front
        }
    }
}

/// The bound rows that are folded out of a sparse system: all rows with a single entry, where the
/// Hessian is diagonal, every cone is an orthant and the system has at least 200 rows and
/// unknowns; else none.
pub open spec fn prefolded<T: Scalar>(prob: QpProblem<T>, cones: Seq<Cone>) -> Seq<(usize, usize)> {
    if diagonal_matrix(prob.p) && all_orthants(cones) && prob.mi() > 0 && prob.n() + prob.mi() >= 200 {
        single_rows(prob, prob.mi())
    } else {
        Seq::empty()
    }
}

/// The listed rows are rows of the problem.
pub proof fn lemma_single_rows<T: Scalar>(prob: QpProblem<T>, k: nat)
    requires
        k <= prob.mi() <= usize::MAX,
        prob.n() <= usize::MAX,
    ensures
        forall|i: int|
            0 <= i < single_rows(prob, k).len() ==> (#[trigger] single_rows(prob, k)[i]).0 < k
                && single_rows(prob, k)[i].1 < prob.n(),
        forall|i: int, j: int|
            0 <= i < j < single_rows(prob, k).len() ==> (#[trigger] single_rows(prob, k)[i]).0 < (
            #[trigger] single_rows(prob, k)[j]).0,
        single_rows(prob, k).len() <= k,
    decreases k,
{
    if k > 0 {
        lemma_single_rows(prob, (k - 1) as nat);
        if nonzero_count(prob.a_in.row(k - 1), prob.n()) == 1 {
            lemma_last_nonzero(prob.a_in.row(k - 1), prob.n());
        }
    }
}

/// The bound rows that are folded out of a sparse system.
pub fn prefold<T: Scalar>(prob: &QpProblem<T>, cones: &[Cone]) -> (r: Vec<(usize, usize)>)
    requires
        prob.wf(),
    ensures
        r@ == prefolded(*prob, cones@),
{
    let n: usize = prob.q.len();
    let mi: usize = prob.b_in.len();
    let mut out: Vec<(usize, usize)> = Vec::new();
    if !(prob.p.is_diagonal() && is_all_orthants(cones) && mi > 0 && n + mi >= 200) {
        assert(out@ =~= Seq::<(usize, usize)>::empty());
        return out;
    }
    let mut r: usize = 0;
    while r < mi
        invariant
            prob.wf(),
            n == prob.n(),
            mi == prob.mi(),
            r <= mi,
            out@ == single_rows(*prob, r as nat),
        decreases mi - r,
    {
        let ghost row = prob.a_in.row(r as int);
        let mut nz: usize = 0;
        let mut col: usize = 0;
        let mut j: usize = 0;
        while j < n
            invariant
                prob.wf(),
                n == prob.n(),
                mi == prob.mi(),
                r < mi,
                row == prob.a_in.row(r as int),
                j <= n,
                nz <= j,
                nz == nonzero_count(row, j as nat),
                col == last_nonzero(row, j as nat),
            decreases n - j,
        {
            if !prob.a_in.get(r, j).equals(T::zero()) {
                nz += 1;
                col = j;
            }
            j += 1;
        }
        if nz == 1 {
            out.push((r, col));
        }
        r += 1;
    }
    out
}

/// The sum of the squares of the entries after the first, over the first `k`.
pub open spec fn tail_squares<T: Scalar>(v: Seq<T>, k: nat) -> T
    decreases k,
{
    if k <= 1 {
        T::zero()
    } else {
        tail_squares(v, (k - 1) as nat).plus(v[k - 1].times(v[k - 1]))
    }
}

/// The starting slack of one cone for the right-hand side `b`: on an orthant each entry raised to
/// at least 1; on a second-order cone the apex raised until the margin is at least 1; on the
/// semidefinite cone its identity `e`.
pub open spec fn start_slack<T: Scalar>(cone: Cone, b: Seq<T>, e: Seq<T>) -> Seq<T> {
    match cone {
        Cone::NonNeg(_) => Seq::new(
            b.len(),
            |i: int|
                if b[i].below(T::one()) {
                    T::one()
                } else {
                    b[i]
                },
        ),
        Cone::Soc(_) => {
            let margin = b[0].minus(tail_squares(b, b.len()).sqrt());
            if margin.below(T::one()) {
                b.update(0, b[0].plus(T::one().minus(margin)))
            } else {
                b
            }
        },
        Cone::Psd(_) => e,
    }
}

/// The starting slack of one cone.
pub fn start_slack_of<T: Scalar>(cone: Cone, b: Vec<T>, e: &[T]) -> (r: Vec<T>)
    requires
        e@.len() == b@.len(),
        cone is Soc ==> b@.len() > 0,
    ensures
        r@ == start_slack(cone, b@, e@),
        r@.len() == b@.len(),
{
    let one = T::one();
    match cone {
        Cone::NonNeg(_) => {
            let mut r: Vec<T> = Vec::with_capacity(b.len());
            let mut i: usize = 0;
            while i < b.len()
                invariant
                    cone is NonNeg,
                    one == T::one(),
                    i <= b@.len(),
                    r@ =~= start_slack(cone, b@, e@).subrange(0, i as int),
                decreases b@.len() - i,
            {
                let v = b[i];
                r.push(
                    if v.below(one) {
                        one
                    } else {
                        v
                    },
                );
                i += 1;
            }
            assert(r@ =~= start_slack(cone, b@, e@));
            r
        },
        Cone::Soc(_) => {
            let mut acc = T::zero();
            let mut i: usize = 1;
            while i < b.len()
                invariant
                    1 <= i <= b@.len(),
                    acc == tail_squares(b@, i as nat),
                decreases b@.len() - i,
            {
                acc = acc.plus(b[i].times(b[i]));
                i += 1;
            }
            let margin = b[0].minus(acc.sqrt());
            let mut r = b;
            if margin.below(one) {
                let v = r[0].plus(one.minus(margin));
                r[0] = v;
            }
            r
        },
        Cone::Psd(_) => crate::vector::copied(e),
    }
}

/// The starting slacks and multipliers of the first `k` cones, written over zeros.
pub open spec fn cold_slacks<T: Scalar>(
    prob: QpProblem<T>,
    cones: Seq<Cone>,
    identities: Seq<Vec<T>>,
    k: nat,
) -> (Seq<T>, Seq<T>)
    decreases k,
{
    if k == 0 {
        (constant(T::zero(), prob.mi()), constant(T::zero(), prob.mi()))
    } else {
        let (s, z) = cold_slacks(prob, cones, identities, (k - 1) as nat);
        let c = k - 1;
        let off = size_upto(cones, c as nat);
        let e = identities[c]@;
        (
            spliced(s, off, start_slack(cones[c], block(cones, prob.b_in@, c), e)),
            spliced(z, off, e),
        )
    }
}

/// The cold start: no unknowns, the natural slack moved inside each cone, and the identities as
/// multipliers.
pub fn cold_start<T: Scalar>(
    prob: &QpProblem<T>,
    cones: &[Cone],
    offsets: &[usize],
    identities: &[Vec<T>],
) -> (r: Seed<T>)
    requires
        conic_problem(*prob, cones@),
        offsets_of(cones@, offsets@),
        identities@.len() == cones@.len(),
        forall|c: int| 0 <= c < cones@.len() ==> (#[trigger] identities@[c])@.len() == cones@[c].size(),
        forall|c: int| 0 <= c < cones@.len() && cones@[c] is Soc ==> (#[trigger] cones@[c]).size() > 0,
    ensures
        r.x@ == constant(T::zero(), prob.n()),
        (r.s@, r.z@) == cold_slacks(*prob, cones@, identities@, cones@.len()),
        r.s@.len() == prob.mi(),
        r.z@.len() == prob.mi(),
{
    let mi: usize = prob.b_in.len();
    let mut s: Vec<T> = filled(T::zero(), mi);
    let mut z: Vec<T> = filled(T::zero(), mi);
    let mut c: usize = 0;
    while c < cones.len()
        invariant
            conic_problem(*prob, cones@),
            offsets_of(cones@, offsets@),
            identities@.len() == cones@.len(),
            forall|c: int|
                0 <= c < cones@.len() ==> (#[trigger] identities@[c])@.len() == cones@[c].size(),
            forall|c: int|
                0 <= c < cones@.len() && cones@[c] is Soc ==> (#[trigger] cones@[c]).size() > 0,
            mi == prob.mi(),
            c <= cones@.len(),
            s@.len() == mi,
            z@.len() == mi,
            (s@, z@) == cold_slacks(*prob, cones@, identities@, c as nat),
        decreases cones@.len() - c,
    {
        let o: usize = offsets[c];
        let cone: Cone = cones[c];
        let d: usize = cone.dim();
        proof {
            lemma_block_bounds(cones@, c as int);
        }
        let e = &identities[c];
        let b = crate::vector::slice_of(&prob.b_in, o, o + d);
        let sb = start_slack_of(cone, b, e);
        splice(&mut s, o, &sb);
        splice(&mut z, o, e);
        c += 1;
    }
    Seed { x: filled(T::zero(), prob.q.len()), s, z }
}

/// The starting point: the seed where there is one, else the cold start. A seed that was refused
/// leaves the solve as it would be without one.
pub fn starting_point<T: Scalar>(
    prob: &QpProblem<T>,
    cones: &[Cone],
    offsets: &[usize],
    identities: &[Vec<T>],
    warm: Option<Seed<T>>,
) -> (r: Seed<T>)
    requires
        conic_problem(*prob, cones@),
        offsets_of(cones@, offsets@),
        identities@.len() == cones@.len(),
        forall|c: int| 0 <= c < cones@.len() ==> (#[trigger] identities@[c])@.len() == cones@[c].size(),
        forall|c: int| 0 <= c < cones@.len() && cones@[c] is Soc ==> (#[trigger] cones@[c]).size() > 0,
    ensures
        warm matches Some(w) ==> r == w,
        warm is None ==> {
            &&& r.x@ == constant(T::zero(), prob.n())
            &&& (r.s@, r.z@) == cold_slacks(*prob, cones@, identities@, cones@.len())
            &&& r.s@.len() == prob.mi()
            &&& r.z@.len() == prob.mi()
        },
{
    match warm {
        Some(w) => w,
        None => cold_start(prob, cones, offsets, identities),
    }
}

} // verus!
