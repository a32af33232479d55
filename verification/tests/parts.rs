use iconic_ipm::cone::{cone_offsets, Cone, ConeScaling};
use iconic_ipm::conic_dir::{combined_rhs, recentering_rhs};
use iconic_ipm::conic_route::{
    choose_backend, cold_start, initial_regularization, ladder_at, prefold, start_slack_of,
    update_regularization, Backend, Shape,
};
use iconic_ipm::curved::{curved_corrections, curved_ratios, curved_targets, identities_of, Algebra};
use iconic_ipm::dualize::{dual_problem, recover_primal};
use iconic_ipm::fac::{gather, scatter};
use iconic_ipm::generators::{
    genpow_geomean, log_sum_exp, log_sum_exp_of, log_sum_exp_seed, max_entropy, moment_entropy, pow_eq, pow_proj, weighted_entropy, NsCone,
};
use iconic_ipm::kron::{kron_transform, undo_change};
use iconic_ipm::lowrank::{equality_factor, rank_cap, reform_iterations, reformulate, restore, LowRankDiag};
use iconic_ipm::lp_simplex::{box_lp, classify_rows, recover_solution, Vertex};
use iconic_ipm::lr_cache::{detect_cached, find_low_rank, hash_p, lr_was_rejected, Searches};
use iconic_ipm::matrix::DenseMatrix;
use iconic_ipm::problem::{
    check_diverge, grade_status, is_unbounded, max_step, QpProblem, QpSolution, Status, TermScale, WarmStart,
};
use iconic_ipm::factor::Method;
use iconic_ipm::folded_kkt::fold_diagonal;
use iconic_ipm::qp_blocks::factor_complement;
use iconic_ipm::qp_loop::qp_correctors;
use iconic_ipm::qp_newton::{factor_definite, factor_reduced};
use iconic_ipm::qp_setup::{offers, solve_separable, Settings};
use iconic_ipm::qp_sparse::{diagonal_positions, AugmentedCache};
use iconic_ipm::range_space::{equality_columns, invert_permutation, plan_complement, range_maps};
use iconic_ipm::sparse::{csr_of_dense, CscMatrix};
use iconic_ipm::warm::{interiorize, qp_warm_seed, scale_of};
use iconic_ipm::woodbury::build_woodbury_capacitance;
use iconic_ipm::Scalar;
use std::cell::{Cell, RefCell};

/// A double as the number type of the library.
#[derive(Clone, Copy, Debug, PartialEq, PartialOrd)]
struct F(f64);

impl Scalar for F {
    fn zero() -> Self {
        F(0.0)
    }
    fn spec_zero() -> Self {
        Self::zero()
    }
    fn one() -> Self {
        F(1.0)
    }
    fn spec_one() -> Self {
        Self::one()
    }
    fn infinity() -> Self {
        F(f64::INFINITY)
    }
    fn spec_infinity() -> Self {
        Self::infinity()
    }
    fn from_usize(k: usize) -> Self {
        F(k as f64)
    }
    fn spec_from_usize(k: usize) -> Self {
        Self::from_usize(k)
    }
    fn decimal(digits: u64, places: u64) -> Self {
        F(format!("{}e-{}", digits, places).parse().unwrap())
    }
    fn spec_decimal(digits: u64, places: u64) -> Self {
        Self::decimal(digits, places)
    }
    fn plus(self, o: Self) -> Self {
        F(self.0 + o.0)
    }
    fn spec_plus(self, o: Self) -> Self {
        Self::plus(self, o)
    }
    fn minus(self, o: Self) -> Self {
        F(self.0 - o.0)
    }
    fn spec_minus(self, o: Self) -> Self {
        Self::minus(self, o)
    }
    fn times(self, o: Self) -> Self {
        F(self.0 * o.0)
    }
    fn spec_times(self, o: Self) -> Self {
        Self::times(self, o)
    }
    fn over(self, o: Self) -> Self {
        F(self.0 / o.0)
    }
    fn spec_over(self, o: Self) -> Self {
        Self::over(self, o)
    }
    fn max(self, o: Self) -> Self {
        F(self.0.max(o.0))
    }
    fn spec_max(self, o: Self) -> Self {
        Self::max(self, o)
    }
    fn min(self, o: Self) -> Self {
        F(self.0.min(o.0))
    }
    fn spec_min(self, o: Self) -> Self {
        Self::min(self, o)
    }
    fn powf(self, o: Self) -> Self {
        F(self.0.powf(o.0))
    }
    fn spec_powf(self, o: Self) -> Self {
        Self::powf(self, o)
    }
    fn neg(self) -> Self {
        F(-self.0)
    }
    fn spec_neg(self) -> Self {
        Self::neg(self)
    }
    fn abs(self) -> Self {
        F(self.0.abs())
    }
    fn spec_abs(self) -> Self {
        Self::abs(self)
    }
    fn sqrt(self) -> Self {
        F(self.0.sqrt())
    }
    fn spec_sqrt(self) -> Self {
        Self::sqrt(self)
    }
    fn ln(self) -> Self {
        F(self.0.ln())
    }
    fn spec_ln(self) -> Self {
        Self::ln(self)
    }
    fn log10(self) -> Self {
        F(self.0.log10())
    }
    fn spec_log10(self) -> Self {
        Self::log10(self)
    }
    fn exp(self) -> Self {
        F(self.0.exp())
    }
    fn spec_exp(self) -> Self {
        Self::exp(self)
    }
    fn below(self, o: Self) -> bool {
        self.0 < o.0
    }
    fn spec_below(self, o: Self) -> bool {
        Self::below(self, o)
    }
    fn at_most(self, o: Self) -> bool {
        self.0 <= o.0
    }
    fn spec_at_most(self, o: Self) -> bool {
        Self::at_most(self, o)
    }
    fn equals(self, o: Self) -> bool {
        self.0 == o.0
    }
    fn spec_equals(self, o: Self) -> bool {
        Self::equals(self, o)
    }
    fn is_finite(self) -> bool {
        self.0.is_finite()
    }
    fn spec_is_finite(self) -> bool {
        Self::is_finite(self)
    }
    fn bits(self) -> u64 {
        self.0.to_bits()
    }
    fn spec_bits(self) -> u64 {
        Self::bits(self)
    }
    fn ceil_count(self) -> usize {
        self.0.ceil() as usize
    }
    fn spec_ceil_count(self) -> usize {
        Self::ceil_count(self)
    }
}

fn v(a: &[f64]) -> Vec<F> {
    a.iter().map(|&x| F(x)).collect()
}

/// A small generator of reproducible draws.
struct Draws(u64);

impl Draws {
    fn unit(&mut self) -> f64 {
        self.0 = self.0.wrapping_add(0x9E3779B97F4A7C15);
        let mut z = self.0;
        z = (z ^ (z >> 30)).wrapping_mul(0xBF58476D1CE4E5B9);
        z = (z ^ (z >> 27)).wrapping_mul(0x94D049BB133111EB);
        z ^= z >> 31;
        (z >> 11) as f64 / (1u64 << 53) as f64
    }

    fn signed(&mut self) -> f64 {
        2.0 * self.unit() - 1.0
    }
}

fn matrix(rows: usize, cols: usize, data: &[f64]) -> DenseMatrix<F> {
    DenseMatrix::from_row_major(rows, cols, v(data))
}

fn problem(
    p: DenseMatrix<F>,
    q: Vec<F>,
    a_eq: DenseMatrix<F>,
    b_eq: Vec<F>,
    a_in: DenseMatrix<F>,
    b_in: Vec<F>,
) -> QpProblem<F> {
    QpProblem { p, q, a_eq, b_eq, a_in, b_in, a_eq_csr: None, a_in_csr: None }
}

/// Upper and lower bounds on two unknowns.
fn boxed(p: DenseMatrix<F>, q: &[f64]) -> QpProblem<F> {
    problem(
        p,
        v(q),
        DenseMatrix::zeros(0, 2),
        v(&[]),
        matrix(4, 2, &[1.0, 0.0, 0.0, 1.0, -1.0, 0.0, 0.0, -1.0]),
        v(&[1.0, 1.0, 0.0, 0.0]),
    )
}

fn settings() -> Settings<F> {
    Settings { eps_abs: F(1e-8), max_iters: 200, hsd: false, dualize: true, dualize_ratio: F(4.0), sparse_kkt: false }
}

#[test]
fn woodbury_capacitance_ldtl_block_matches_scalar() {
    let n = 8usize;
    let k = 3usize;
    let me = 2usize;
    let mut l = DenseMatrix::zeros(n, k);
    for i in 0..n {
        for t in 0..k {
            l.set(i, t, F(0.1 * (i as f64 + 1.0) + 0.05 * t as f64));
        }
    }
    let d: Vec<f64> = (0..n).map(|i| 0.5 + 0.1 * i as f64).collect();
    let mut a_eq = DenseMatrix::zeros(me, n);
    for j in 0..n {
        a_eq.set(0, j, F(1.0));
        a_eq.set(1, j, F(0.1 * j as f64));
    }
    let rho = 1e-3;
    let delta = 1e-4;
    let dinv: Vec<f64> = (0..n).map(|j| 1.0 / (d[j] + rho)).collect();
    let mut lt = vec![0.0; k * n];
    for t in 0..k {
        for i in 0..n {
            lt[t * n + i] = l.get(i, t).0;
        }
    }
    let c = build_woodbury_capacitance(k, &v(&lt), &v(&dinv), &a_eq, F(delta));
    for a in 0..k {
        for b in 0..k {
            let mut expect = if a == b { 1.0 } else { 0.0 };
            for j in 0..n {
                expect += lt[a * n + j] * dinv[j] * lt[b * n + j];
            }
            assert!((c.get(a, b).0 - expect).abs() < 1e-12, "C[{},{}]: {} {}", a, b, c.get(a, b).0, expect);
        }
    }
    for a in 0..k + me {
        for b in 0..k + me {
            assert_eq!(c.get(a, b), c.get(b, a));
        }
    }
}

#[test]
fn a_found_structure_is_searched_once() {
    let n = 72usize;
    let mut p = DenseMatrix::zeros(n, n);
    for i in 0..n {
        p.set(i, i, F(1.0 + i as f64));
    }
    let prob = problem(p, v(&vec![0.0; n]), DenseMatrix::zeros(0, n), v(&[]), DenseMatrix::zeros(0, n), v(&[]));
    let mut known = Searches::new();
    let found = |rank: usize, err: f64| LowRankDiag {
        l: DenseMatrix::zeros(n, rank),
        d: v(&vec![1.0; n]),
        rank,
        offdiag_rel: F(err),
    };
    let first = find_low_rank(&prob, 0, &mut known, &|_: &DenseMatrix<F>, tolerance: F, cap: usize| {
        assert_eq!((tolerance, cap), (F(1e-10), 36));
        Some(found(5, 1e-6))
    });
    assert_eq!(first.map(|lr| lr.rank), Some(5));
    let never = |_: &DenseMatrix<F>, _: F, _: usize| unreachable!();
    assert_eq!(find_low_rank(&prob, 0, &mut known, &never).map(|lr| lr.rank), Some(5));
    // General rows or many equality rows rule the structure out.
    assert!(find_low_rank(&prob, 1, &mut known, &never).is_none());
    let mut known = Searches::new();
    let loose = |_: &DenseMatrix<F>, _: F, _: usize| Some(found(5, 1e-3));
    assert!(find_low_rank(&prob, 0, &mut known, &loose).is_none());
    assert!(lr_was_rejected(&known.rejected, hash_p(&prob.p)));
    assert!(find_low_rank(&prob, 0, &mut known, &never).is_none());
}

#[test]
fn a_search_is_recorded_whatever_it_gave() {
    let p = matrix(2, 2, &[2.0, 1.0, 1.0, 2.0]);
    let h = hash_p(&p);
    let never = |_: &DenseMatrix<F>, _: F, _: usize| unreachable!();
    let mut known = Searches::new();
    let lr = |_: &DenseMatrix<F>, _: F, _: usize| {
        Some(LowRankDiag { l: matrix(2, 1, &[1.0, 1.0]), d: v(&[1.0, 1.0]), rank: 1, offdiag_rel: F(0.5) })
    };
    assert_eq!(detect_cached(&p, h, 1, &mut known, &lr).map(|a| a.rank), Some(1));
    assert_eq!(detect_cached(&p, h, 1, &mut known, &never).map(|a| a.d), Some(v(&[1.0, 1.0])));
    let mut known = Searches::new();
    assert!(detect_cached(&p, h, 1, &mut known, &|_: &DenseMatrix<F>, _: F, _: usize| None).is_none());
    assert!(detect_cached(&p, h, 1, &mut known, &never).is_none());
    assert!(known.rejected.contains(&h) && known.found.is_empty());
}

#[test]
fn equal_matrices_hash_equally() {
    let a = matrix(2, 2, &[1.0, 2.0, 3.0, 4.0]);
    let b = matrix(2, 2, &[1.0, 2.0, 3.0, 4.0]);
    let c = matrix(2, 2, &[1.0, 2.0, 3.0, 5.0]);
    assert_eq!(hash_p(&a), hash_p(&b));
    assert_ne!(hash_p(&a), hash_p(&c));
}

#[test]
fn a_reformulated_program_restores_the_unknowns() {
    assert_eq!((rank_cap(100), rank_cap(8), rank_cap(3), rank_cap(0)), (12, 4, 2, 0));
    assert_eq!((reform_iterations(200), reform_iterations(900)), (500, 900));
    let prob = boxed(matrix(2, 2, &[2.0, 1.0, 1.0, 2.0]), &[-1.0, 0.0]);
    let lr = LowRankDiag { l: matrix(2, 1, &[1.0, 1.0]), d: v(&[1.0, 1.0]), rank: 1, offdiag_rel: F(0.0) };
    let (reformed, cones) = reformulate(&prob, &lr);
    assert_eq!(cones, vec![Cone::NonNeg(4), Cone::Soc(3)]);
    assert_eq!(reformed.b_in.len(), 7);
    let sol = QpSolution::new(
        Status::Solved,
        v(&vec![0.5; reformed.q.len()]),
        v(&vec![0.0; reformed.b_eq.len()]),
        v(&vec![1.0; 7]),
        v(&vec![2.0; 7]),
        F(9.0),
        11,
    );
    let back = restore(&prob, 1, &sol).expect("a solution");
    assert_eq!(back.x, v(&[0.5, 0.5]));
    assert_eq!((back.s.len(), back.z.len(), back.iters), (4, 4, 11));
    // (2 * 0.25 + 2 * 0.25 + 2 * 0.25) / 2 - 0.5
    assert!((back.obj_val.0 - 0.25).abs() < 1e-15);
    let failed = QpSolution { status: Status::MaxIterations, ..sol };
    assert!(restore(&prob, 1, &failed).is_none());
}

#[test]
fn equality_rows_leave_their_part_of_the_diagonal() {
    // P = 3 I + f f' with the row f of ones among the equality rows.
    let n = 32usize;
    let mut p = DenseMatrix::zeros(n, n);
    for i in 0..n {
        for j in 0..n {
            p.set(i, j, F(if i == j { 4.0 } else { 1.0 }));
        }
    }
    let mut a_eq = DenseMatrix::zeros(2, n);
    for j in 0..n {
        a_eq.set(0, j, F(1.0));
    }
    a_eq.set(1, 3, F(5.0));
    let prob = problem(p, v(&vec![0.0; n]), a_eq, v(&[0.0, 0.0]), DenseMatrix::zeros(0, n), v(&[]));
    let lr = equality_factor(&prob).expect("a dense equality row");
    assert_eq!(lr.rank, 1);
    assert_eq!(lr.d, v(&vec![3.0; n]));
    assert_eq!(lr.l.data, v(&vec![1.0; n]));
    assert_eq!(lr.offdiag_rel, F(0.0));
}

#[test]
fn statuses_are_graded() {
    assert_eq!(grade_status(F(1e-9), F(1e-8)), Status::Solved);
    assert_eq!(grade_status(F(1e-8), F(1e-8)), Status::Solved);
    assert_eq!(grade_status(F(5e-5), F(1e-8)), Status::SolvedInaccurate);
    assert_eq!(grade_status(F(1e-4), F(1e-8)), Status::SolvedInaccurate);
    assert_eq!(grade_status(F(2e-4), F(1e-8)), Status::MaxIterations);
    assert_eq!(grade_status(F(1.0), F(1e-8)), Status::MaxIterations);
    assert_eq!(grade_status(F(f64::INFINITY), F(1e-8)), Status::MaxIterations);
    assert_eq!(grade_status(F(f64::NAN), F(1e-8)), Status::MaxIterations);
    assert_eq!(check_diverge(&v(&[2.0, -9.0]), &v(&[3.0]), F(8.0)), Some(Status::DualInfeasible));
    assert_eq!(check_diverge(&v(&[2.0]), &v(&[9.0]), F(8.0)), Some(Status::PrimalInfeasible));
    assert_eq!(check_diverge(&v(&[2.0]), &v(&[8.0]), F(8.0)), None);
}

#[test]
fn a_ray_of_descent_is_unbounded() {
    let prob = problem(
        DenseMatrix::zeros(2, 2),
        v(&[-1.0, 0.0]),
        DenseMatrix::zeros(0, 2),
        v(&[]),
        matrix(1, 2, &[0.0, 1.0]),
        v(&[1.0]),
    );
    assert!(is_unbounded(&prob, &v(&[1e7, 0.0])));
    assert!(!is_unbounded(&prob, &v(&[1e6, 0.0])));
    assert!(!is_unbounded(&prob, &v(&[1e7, 1e7])));
    assert!(!is_unbounded(&prob, &v(&[-1e7, 0.0])));
}

#[test]
fn a_flat_direction_with_a_finite_optimum_is_not_unbounded() {
    // Along the second unknown the curvature is tiny, and the optimum lies at 1e10.
    let prob = problem(
        matrix(2, 2, &[1.0, 0.0, 0.0, 1e-10]),
        v(&[0.0, -1.0]),
        DenseMatrix::zeros(0, 2),
        v(&[]),
        DenseMatrix::zeros(0, 2),
        v(&[]),
    );
    assert!(!is_unbounded(&prob, &v(&[0.0, 1e8])));
    assert!(!is_unbounded(&prob, &v(&[0.0, 1e12])));
    // A small part of the direction that is not a ray is left out of it.
    let flat = problem(
        matrix(2, 2, &[1.0, 0.0, 0.0, 0.0]),
        v(&[0.0, -1.0]),
        DenseMatrix::zeros(0, 2),
        v(&[]),
        DenseMatrix::zeros(0, 2),
        v(&[]),
    );
    assert!(is_unbounded(&flat, &v(&[1.0, 1e8])));
    assert!(!is_unbounded(&flat, &v(&[1e4, 1e8])));
}

#[test]
fn the_step_stops_at_the_boundary() {
    assert_eq!(max_step(&v(&[1.0, 2.0]), &v(&[-2.0, 1.0])), F(0.5 - 1e-13));
    assert_eq!(max_step(&v(&[1.0, 2.0]), &v(&[-2.0, -8.0])), F(0.25 - 1e-13));
}

#[test]
fn the_identity_scale_changes_nothing() {
    let t: TermScale<F> = TermScale::identity(2, 1, 3);
    assert_eq!((t.dual, t.prim_eq, t.prim_in, t.comp), (v(&[1.0; 2]), v(&[1.0]), v(&[1.0; 3]), F(1.0)));
}

#[test]
fn regularization_climbs_and_descends_its_ladder() {
    let rungs: Vec<f64> = (0..6).map(|k| ladder_at::<F>(k).0).collect();
    assert_eq!(rungs, vec![0.0, 1e-13, 1e-10, 1e-8, 1e-6, 1e-4]);
    let mut reg = initial_regularization::<F>(&[Cone::NonNeg(3)]);
    assert_eq!((reg.level, reg.rho, reg.delta), (4, F(1e-6), F(1e-6)));
    assert_eq!(initial_regularization::<F>(&[Cone::Soc(3)]).delta0, F(1e-6));
    // Falling residuals lower the level.
    update_regularization(&mut reg, F(1.0), F(2.0), F(0.01), F(1.0), F(0.01), F(1.0));
    assert_eq!((reg.level, reg.rho, reg.delta), (3, F(1e-6), F(1e-7)));
    // An exploding complementarity raises it by half its decades, here one level.
    update_regularization(&mut reg, F(1e8), F(1e7), F(1.0), F(1.0), F(1.0), F(1.0));
    assert_eq!((reg.level, reg.delta), (4, F(1e-6)));
    update_regularization(&mut reg, F(1e14), F(1e7), F(1.0), F(1.0), F(1.0), F(1.0));
    assert_eq!((reg.level, reg.rho), (5, F(1e-4)));
    // Nothing changes without cause.
    update_regularization(&mut reg, F(1.0), F(1.0), F(1.0), F(1.0), F(1.0), F(1.0));
    assert_eq!(reg.level, 5);
}

#[test]
fn backends_follow_the_shape() {
    let shape = |n: usize, mi: usize, curved: usize, kkt: usize| Shape {
        kron: false,
        p_diagonal: false,
        orthants_only: curved == 0,
        psd: false,
        largest_curved: curved,
        n,
        me: 0,
        mi,
        ain_nnz: mi,
        kkt_nnz: kkt,
    };
    assert_eq!(choose_backend(&shape(100, 100, 0, 300)), Backend::Sparse);
    assert_eq!(choose_backend(&shape(100, 100, 0, 9000)), Backend::Dense);
    assert_eq!(choose_backend(&Shape { p_diagonal: true, ..shape(100, 100, 0, 9000) }), Backend::Condensed);
    assert_eq!(choose_backend(&shape(100, 100, 8, 300)), Backend::Arrow);
    assert_eq!(choose_backend(&Shape { psd: true, ..shape(100, 100, 8, 300) }), Backend::Dense);
    assert_eq!(choose_backend(&Shape { kron: true, ..shape(100, 100, 8, 300) }), Backend::Kronecker);
}

#[test]
fn large_separable_programs_fold_their_bounds() {
    let n = 110usize;
    let mut a_in = DenseMatrix::zeros(n, n);
    for i in 0..n {
        a_in.set(i, n - 1 - i, F(2.0));
    }
    a_in.set(5, 0, F(1.0));
    let prob = problem(
        DenseMatrix::zeros(n, n),
        v(&vec![0.0; n]),
        DenseMatrix::zeros(0, n),
        v(&[]),
        a_in,
        v(&vec![1.0; n]),
    );
    let rows = prefold(&prob, &[Cone::NonNeg(n)]);
    assert_eq!(rows.len(), n - 1);
    assert_eq!((rows[0], rows[5]), ((0, 109), (6, 103)));
    assert!(prefold(&prob, &[Cone::Soc(n)]).is_empty());
}

#[test]
fn the_cold_start_is_inside_the_cones() {
    assert_eq!(start_slack_of(Cone::NonNeg(3), v(&[-1.0, 0.5, 2.0]), &v(&[1.0; 3])), v(&[1.0, 1.0, 2.0]));
    assert_eq!(start_slack_of(Cone::Soc(3), v(&[1.0, 3.0, 4.0]), &v(&[1.0, 0.0, 0.0])), v(&[6.0, 3.0, 4.0]));
    assert_eq!(start_slack_of(Cone::Soc(2), v(&[9.0, 3.0]), &v(&[1.0, 0.0])), v(&[9.0, 3.0]));
    assert_eq!(start_slack_of(Cone::Psd(2), v(&[9.0, 3.0, 1.0]), &v(&[1.0, 0.0, 1.0])), v(&[1.0, 0.0, 1.0]));
    let prob = boxed(DenseMatrix::zeros(2, 2), &[0.0, 0.0]);
    let cones = [Cone::NonNeg(1), Cone::Soc(3)];
    let seed = cold_start(&prob, &cones, &cone_offsets(&cones), &[v(&[1.0]), v(&[1.0, 0.0, 0.0])]);
    assert_eq!(seed.x, v(&[0.0, 0.0]));
    assert_eq!(seed.s, v(&[1.0, 1.0, 0.0, 0.0]));
    assert_eq!(seed.z, v(&[1.0, 1.0, 0.0, 0.0]));
}

#[test]
fn a_ray_may_leave_the_equalities_by_rounding() {
    let tilted = |slope: f64| {
        problem(
            DenseMatrix::zeros(2, 2),
            v(&[-1.0, 0.0]),
            matrix(1, 2, &[slope, 0.0]),
            v(&[0.0]),
            DenseMatrix::zeros(0, 2),
            v(&[]),
        )
    };
    assert!(is_unbounded(&tilted(1e-7), &v(&[1e7, 0.0])));
    assert!(!is_unbounded(&tilted(1e-5), &v(&[1e7, 0.0])));
}

#[test]
fn the_correction_of_an_orthant_goes_through_its_algebra() {
    let cones = [Cone::NonNeg(1)];
    let sc = [ConeScaling::NonNeg { w: v(&[2.0]) }];
    let none: [Vec<F>; 1] = [v(&[])];
    // 4/2 * 2*5 = 20, less 8, over 2*3, times 2.
    let r = combined_rhs(
        &cones, &[0], &sc, &v(&[1.0]), &v(&[10.0]), &v(&[3.0]), &v(&[4.0]), &v(&[5.0]), F(8.0), &none,
    );
    assert_eq!(r, v(&[13.0]));
    // 1/2 * 2*100 = 100 is 90 above the band up to 10.
    let far = recentering_rhs(&cones, &[0], &sc, &v(&[3.0]), &v(&[1.0]), &v(&[100.0]), F(1.0), &none, &none);
    assert_eq!(far, Some(v(&[30.0])));
    let inside = recentering_rhs(&cones, &[0], &sc, &v(&[3.0]), &v(&[1.0]), &v(&[5.0]), F(1.0), &none, &none);
    assert_eq!(inside, None);
}

#[test]
fn a_folded_row_adds_its_schur_term() {
    // The row (0, 3) with the pivot -4: 0 - 3 / -4 * 3.
    let d = fold_diagonal(&matrix(1, 2, &[0.0, 3.0]), &[(0, 1)], &v(&[0.25]));
    assert_eq!(d, v(&[0.0, 2.25]));
}

#[test]
fn cones_know_their_sizes() {
    assert_eq!((Cone::NonNeg(3).dim(), Cone::Soc(4).dim(), Cone::Psd(3).dim()), (3, 4, 6));
    assert_eq!((Cone::NonNeg(3).degree(), Cone::Soc(4).degree(), Cone::Psd(3).degree()), (3, 1, 3));
    assert_eq!(cone_offsets(&[Cone::NonNeg(3), Cone::Psd(2), Cone::Soc(2)]), vec![0, 3, 6]);
    let mut out = v(&[0.0; 2]);
    Cone::NonNeg(2).jordan_into(&v(&[2.0, 3.0]), &v(&[5.0, 7.0]), &[], &mut out);
    assert_eq!(out, v(&[10.0, 21.0]));
    Cone::NonNeg(2).arrow_inv_into(&v(&[2.0, 4.0]), &v(&[5.0, 7.0]), &[], &mut out);
    assert_eq!(out, v(&[2.5, 1.75]));
    Cone::NonNeg(2).centrality_target_into(&v(&[0.5, 9.0]), F(1.0), F(4.0), &[], &mut out);
    assert_eq!(out, v(&[0.5, -5.0]));
    let sc = ConeScaling::NonNeg { w: v(&[2.0, 4.0]) };
    sc.apply_w_into(&v(&[3.0, 5.0]), &[], &mut out);
    assert_eq!(out, v(&[6.0, 20.0]));
    sc.apply_w_inv_into(&v(&[3.0, 5.0]), &[], &mut out);
    assert_eq!(out, v(&[1.5, 1.25]));
}

#[test]
fn curved_cones_are_corrected_by_their_own_algebra() {
    // A cone of one entry, whose algebra is that of the numbers.
    let cones = [Cone::NonNeg(1), Cone::Soc(1)];
    let offsets = cone_offsets(&cones);
    let sc = [ConeScaling::NonNeg { w: v(&[3.0]) }, ConeScaling::Soc { eta: F(2.0), wbar: v(&[1.0]) }];
    let al = Algebra {
        identity: |_: Cone| v(&[1.0]),
        ratio: |_: Cone, u: &[F], du: &[F]| F(-u[0].0 / du[0].0),
        apply: |sc: &ConeScaling<F>, u: &[F], inverse: bool| match sc {
            ConeScaling::Soc { eta, .. } => v(&[if inverse { u[0].0 / eta.0 } else { eta.0 * u[0].0 }]),
            _ => unreachable!(),
        },
        multiply: |_: Cone, a: &[F], b: &[F]| v(&[a[0].0 * b[0].0]),
        divide: |_: Cone, a: &[F], b: &[F]| v(&[b[0].0 / a[0].0]),
        displace: |_: Cone, u: &[F], lo: F, hi: F| v(&[u[0].0.max(lo.0).min(hi.0) - u[0].0]),
    };
    assert_eq!(curved_ratios(&cones, &offsets, &al, &v(&[1.0, 3.0]), &v(&[-2.0, -6.0])), v(&[1.0, 0.5]));
    let z = v(&[1.0, 4.0]);
    let e = identities_of(&cones, &al);
    assert_eq!(e, vec![v(&[1.0]), v(&[1.0])]);
    let r = curved_corrections(&cones, &offsets, &al, &sc, &e, &z, &v(&[9.0, 3.0]), &v(&[9.0, 5.0]), F(7.0));
    assert!(r[0].is_empty());
    // (3 * 5 - 7) / 4
    assert_eq!(r[1], v(&[2.0]));
    let (psi, rhs) =
        curved_targets(&cones, &offsets, &al, &sc, &z, &v(&[1.0, 2.0]), &v(&[1.0, 20.0]), F(1.0));
    assert!(psi[0].is_empty() && rhs[0].is_empty());
    // 40 moves down to 10.
    assert_eq!(psi[1], v(&[-30.0]));
    assert_eq!(rhs[1], v(&[7.5]));
}

#[test]
fn the_change_of_variables_is_undone() {
    let prob = problem(
        DenseMatrix::zeros(3, 3),
        v(&[1.0, 2.0, 3.0]),
        matrix(1, 3, &[4.0, 5.0, 6.0]),
        v(&[1.0]),
        matrix(3, 3, &[0.0, -2.0, 0.0, 0.0, 0.0, -1.0, -4.0, 0.0, 0.0]),
        v(&[0.0, 0.0, 0.0]),
    );
    let c = kron_transform(&prob, &[Cone::Psd(2)]).expect("a permutation");
    assert_eq!(c.sigma, vec![1, 2, 0]);
    let x = v(&[0.5, 1.5, 2.5]);
    let u: Vec<F> = (0..3).map(|i| F(x[c.sigma[i]].0 * c.g[i].0)).collect();
    assert_eq!(undo_change(&u, &c.sigma, &c.g), x);
    let dot = |a: &[F], b: &[F]| a.iter().zip(b).map(|(s, t)| s.0 * t.0).sum::<f64>();
    assert!((dot(&c.prob.q, &u) - dot(&prob.q, &x)).abs() < 1e-12);
    assert!((c.prob.a_eq.row_dot(0, &u).0 - prob.a_eq.row_dot(0, &x).0).abs() < 1e-12);
    assert_eq!(c.prob.a_in.matvec(&u), prob.a_in.matvec(&x));
    assert!(kron_transform(&prob, &[Cone::NonNeg(3)]).is_none());
}

#[test]
fn warm_starts_are_moved_inside() {
    let prob = boxed(DenseMatrix::zeros(2, 2), &[-1.0, -1.0]);
    let ws = WarmStart { x: v(&[1.0, 0.5]), s: v(&[0.0, 0.5, 1.0, 0.5]), z: v(&[1.0, 0.0, 0.0, 2.0]) };
    let seed = qp_warm_seed(&prob, Some(&ws)).expect("a usable seed");
    assert_eq!(seed.x, ws.x);
    let near = |a: &[F], b: &[f64]| a.iter().zip(b).all(|(s, t)| (s.0 - t).abs() < 1e-12);
    assert!(near(&seed.s, &[0.05, 0.525, 1.0, 0.525]));
    assert!(near(&seed.z, &[1.0, 0.05, 0.05, 1.95]));
    let off = WarmStart { x: v(&[1.0, 0.5]), s: v(&[9.0, 0.5, 1.0, 0.5]), z: v(&[1.0; 4]) };
    assert!(qp_warm_seed(&prob, Some(&off)).is_none());
    let outside = WarmStart { x: v(&[1.0, 0.5]), s: v(&[0.0, 0.5, 1.0, 0.5]), z: v(&[1.0, -1.0, 0.0, 2.0]) };
    assert!(qp_warm_seed(&prob, Some(&outside)).is_none());
    assert!(qp_warm_seed(&prob, None).is_none());
    assert_eq!((scale_of(&v(&[0.5, -3.0])), scale_of(&v(&[0.5]))), (F(3.0), F(1.0)));
    assert_eq!(interiorize(&v(&[4.0, 2.0]), &v(&[1.0, 0.0]), F(2.0)), v(&[4.0, 2.0]));
    assert!(near(&interiorize(&v(&[4.0, 4.0]), &v(&[1.0, 0.0]), F(0.0)), &[3.85, 3.8]));
}

#[test]
fn separable_programs_are_solved_in_closed_form() {
    let prob = boxed(matrix(2, 2, &[2.0, 0.0, 0.0, 4.0]), &[-4.0, -2.0]);
    let sol = solve_separable(&prob, &classify_rows(&prob), F(1e-8)).expect("a separable program");
    assert_eq!(sol.status, Status::Solved);
    assert_eq!(sol.x, v(&[1.0, 0.5]));
    assert_eq!(sol.obj_val, F(-3.5));
    assert_eq!(sol.s, v(&[0.0, 0.5, 1.0, 0.5]));
    assert_eq!(sol.z[0], F(2.0));
    let flat = boxed(matrix(2, 2, &[2.0, 0.0, 0.0, 0.0]), &[-4.0, -2.0]);
    assert!(solve_separable(&flat, &classify_rows(&flat), F(1e-8)).is_none());
}

/// Rows `a x <= b` on one unknown with the objective `x^2 / 2 + q x`.
fn single(q: f64, rows: &[(f64, f64)]) -> QpProblem<F> {
    let a: Vec<f64> = rows.iter().map(|r| r.0).collect();
    let b: Vec<f64> = rows.iter().map(|r| r.1).collect();
    problem(matrix(1, 1, &[1.0]), v(&[q]), DenseMatrix::zeros(0, 1), v(&[]), matrix(rows.len(), 1, &a), v(&b))
}

#[test]
fn contradicting_bounds_have_no_solution() {
    // x <= 1 and x >= 2.
    let prob = single(0.0, &[(1.0, 1.0), (-1.0, -2.0)]);
    let sol = solve_separable(&prob, &classify_rows(&prob), F(1e-8)).expect("a separable program");
    assert_eq!(sol.status, Status::PrimalInfeasible);
    // Bounds that meet leave one point.
    let tight = single(-9.0, &[(1.0, 2.0), (-1.0, -2.0)]);
    let sol = solve_separable(&tight, &classify_rows(&tight), F(1e-8)).expect("a separable program");
    assert_eq!((sol.status, sol.x[0]), (Status::Solved, F(2.0)));
    // A gap below the tolerance is left to the run.
    let near = single(0.0, &[(1.0, 1.0), (-1.0, -1.0 - 1e-9)]);
    assert!(solve_separable(&near, &classify_rows(&near), F(1e-8)).is_none());
}

#[test]
fn rows_with_the_same_bound_share_its_multiplier() {
    // x <= 1 twice, once scaled by two, against the pull of 3 towards larger values.
    let prob = single(-4.0, &[(1.0, 1.0), (2.0, 2.0), (-1.0, 5.0)]);
    let sol = solve_separable(&prob, &classify_rows(&prob), F(1e-8)).expect("a separable program");
    assert_eq!((sol.status, sol.x[0]), (Status::Solved, F(1.0)));
    assert_eq!(sol.z, v(&[1.5, 0.75, 0.0]));
    // Stationarity: P x + q + A'z = 0.
    assert_eq!(sol.x[0].0 - 4.0 + sol.z[0].0 + 2.0 * sol.z[1].0 - sol.z[2].0, 0.0);
}

#[test]
fn empty_rows_keep_their_right_hand_side() {
    // Row 1 has no entries.
    let with = |b: f64| {
        problem(
            DenseMatrix::zeros(2, 2),
            v(&[-1.0, -2.0]),
            DenseMatrix::zeros(0, 2),
            v(&[]),
            matrix(4, 2, &[1.0, 1.0, 0.0, 0.0, -1.0, 0.0, 0.0, -1.0]),
            v(&[3.0, b, 0.0, 0.0]),
        )
    };
    let vertex = Vertex { x: v(&[0.0, 3.0, 0.0]), pi: v(&[-2.0]), obj: F(-6.0), iters: 4 };
    let prob = with(7.0);
    let sol = recover_solution(&prob, &classify_rows(&prob), &vertex).expect("consistent multipliers");
    assert_eq!(sol.s, v(&[0.0, 7.0, 0.0, 3.0]));
    // 0 <= -1 has no solution, whatever the vertex.
    let wrong = with(-1.0);
    assert!(recover_solution(&wrong, &classify_rows(&wrong), &vertex).is_none());
}

#[test]
fn rows_are_classified_and_folded_into_bounds() {
    let prob = problem(
        DenseMatrix::zeros(2, 2),
        v(&[-1.0, -2.0]),
        DenseMatrix::zeros(0, 2),
        v(&[]),
        matrix(4, 2, &[1.0, 1.0, 2.0, 0.0, -1.0, 0.0, 0.0, -1.0]),
        v(&[3.0, 4.0, 0.0, 0.0]),
    );
    let classes = classify_rows(&prob);
    assert_eq!(classes.general, vec![0]);
    assert_eq!(classes.singleton, vec![(1, 0, F(2.0)), (2, 0, F(-1.0)), (3, 1, F(-1.0))]);
    let lp = box_lp(&prob, &classes);
    assert_eq!(lp.c, v(&[-1.0, -2.0, 0.0]));
    assert_eq!(lp.b, v(&[3.0]));
    assert_eq!((lp.a.get(0, 0), lp.a.get(0, 1), lp.a.get(0, 2)), (F(1.0), F(1.0), F(1.0)));
    assert_eq!(lp.lower, v(&[0.0, 0.0, 0.0]));
    assert_eq!(lp.upper[0], F(2.0));
    // The optimum is x = (0, 3), with the multiplier -2 of the general row.
    let vertex = Vertex { x: v(&[0.0, 3.0, 0.0]), pi: v(&[-2.0]), obj: F(-6.0), iters: 4 };
    let sol = recover_solution(&prob, &classes, &vertex).expect("consistent multipliers");
    assert_eq!((sol.status, sol.iters, sol.obj_val), (Status::Solved, 4, F(-6.0)));
    assert_eq!(sol.s, v(&[0.0, 4.0, 0.0, 3.0]));
    let stationary: Vec<f64> =
        (0..2).map(|j| prob.q[j].0 + (0..4).map(|r| prob.a_in.get(r, j).0 * sol.z[r].0).sum::<f64>()).collect();
    assert!(stationary.iter().all(|t| t.abs() < 1e-12), "{:?}", stationary);
    let wrong = Vertex { x: v(&[0.0, 3.0, 0.0]), pi: v(&[5.0]), obj: F(-6.0), iters: 4 };
    assert!(recover_solution(&prob, &classes, &wrong).is_none());
}

#[test]
fn the_dual_of_a_wide_program_gives_its_solution() {
    // min x0 + x1 with x0 >= 1, x1 >= 2 and x0 + x1 >= 1: x = (1, 2).
    let prob = problem(
        DenseMatrix::zeros(2, 2),
        v(&[1.0, 1.0]),
        DenseMatrix::zeros(0, 2),
        v(&[]),
        matrix(3, 2, &[-1.0, 0.0, 0.0, -1.0, -1.0, -1.0]),
        v(&[-1.0, -2.0, -1.0]),
    );
    let dual = dual_problem(&prob);
    assert_eq!((dual.q.len(), dual.b_eq.len(), dual.b_in.len()), (3, 2, 3));
    assert_eq!(dual.q, prob.b_in);
    let x = v(&[1.0, 1.0, 0.0]);
    let answer = QpSolution::new(Status::Solved, x.clone(), v(&[-1.0, -2.0]), x, v(&[0.0; 3]), F(-3.0), 7);
    let sol = recover_primal(&prob, &answer).expect("a solution");
    assert_eq!(sol.x, v(&[1.0, 2.0]));
    assert_eq!(sol.s, v(&[0.0, 0.0, 2.0]));
    assert_eq!(sol.z, v(&[1.0, 1.0, 0.0]));
    assert_eq!((sol.obj_val, sol.iters), (F(3.0), 7));
    let unsolved =
        QpSolution::new(Status::MaxIterations, v(&[0.0; 3]), v(&[0.0; 2]), v(&[0.0; 3]), v(&[0.0; 3]), F(0.0), 1);
    assert!(recover_primal(&prob, &unsolved).is_none());
}

#[test]
fn only_wide_programs_are_offered_to_the_dual() {
    let wide = |rows: usize| {
        let mut a_in = DenseMatrix::zeros(rows, 2);
        for r in 0..rows {
            a_in.set(r, 0, F(1.0));
            a_in.set(r, 1, F(1.0 + r as f64));
        }
        problem(
            DenseMatrix::zeros(2, 2),
            v(&[1.0, 1.0]),
            DenseMatrix::zeros(0, 2),
            v(&[]),
            a_in,
            v(&vec![1.0; rows]),
        )
    };
    let keep = Settings { dualize: false, ..settings() };
    assert!(!offers(&wide(4), &settings()).dual);
    assert!(!offers(&wide(2000), &keep).dual);
}

#[test]
fn complements_are_planned_and_mapped() {
    // Rows 0 and 1 share column 0, the other rows stand alone.
    let mut a_eq = DenseMatrix::zeros(20, 19);
    a_eq.set(0, 0, F(2.0));
    a_eq.set(1, 0, F(3.0));
    for j in 1..19 {
        a_eq.set(j + 1, j, F(1.0));
    }
    let cols = equality_columns(&a_eq);
    assert_eq!(cols[0], vec![(0, F(2.0)), (1, F(3.0))]);
    let s: CscMatrix<F> = plan_complement(20, &cols).expect("a sparse complement");
    let natural: Vec<usize> = (0..20).collect();
    let maps = range_maps(&s, &invert_permutation(&natural), &cols).expect("every contribution has its place");
    assert_eq!(maps.off[0].iter().map(|e| (e.1, e.2)).collect::<Vec<_>>(), vec![(F(2.0), F(3.0))]);
    assert_eq!(s.rowval[maps.off[0][0].0], 0);
    for r in 0..20 {
        assert_eq!(s.rowval[maps.dpos[r]], r);
    }
    // In the reverse order the pair stands in the other triangle's place.
    let back: Vec<usize> = (0..20).rev().collect();
    let pinv = invert_permutation(&back);
    let mut turned: Vec<Vec<(usize, F)>> = vec![Vec::new(); 20];
    for c in 0..20 {
        for p in s.colptr[c]..s.colptr[c + 1] {
            let (a, b) = (pinv[s.rowval[p]], pinv[c]);
            turned[a.max(b)].push((a.min(b), s.nzval[p]));
        }
    }
    let mut t = CscMatrix { m: 20, n: 20, colptr: vec![0], rowval: vec![], nzval: vec![] };
    for col in turned.iter_mut() {
        col.sort_by_key(|e| e.0);
        for e in col.iter() {
            t.rowval.push(e.0);
            t.nzval.push(e.1);
        }
        t.colptr.push(t.rowval.len());
    }
    let maps = range_maps(&t, &pinv, &cols).expect("every contribution has its place");
    assert_eq!(maps.off[0].len(), 1);
    let place = maps.off[0][0].0;
    assert!(t.colptr[19] <= place && place < t.colptr[20]);
    assert_eq!(t.rowval[place], 18);
    for r in 0..20 {
        assert_eq!(t.rowval[maps.dpos[r]], 19 - r);
    }
    // Without its diagonal entries a matrix has no place for the contributions.
    let empty = CscMatrix { m: 20, n: 20, colptr: vec![0; 21], rowval: vec![], nzval: vec![] };
    assert!(range_maps(&empty, &natural, &cols).is_none());
    assert!(diagonal_positions(&empty, &natural, 0, 1).is_none());
    // Rows that all share a column make a dense complement.
    let dense = DenseMatrix::from_row_major(20, 1, v(&vec![1.0; 20]));
    assert!(plan_complement::<F>(20, &equality_columns(&dense)).is_none());
}

#[test]
fn a_refill_writes_both_diagonals() {
    let prob = problem(
        matrix(1, 1, &[3.0]),
        v(&[0.0]),
        DenseMatrix::zeros(0, 1),
        v(&[]),
        matrix(1, 1, &[5.0]),
        v(&[1.0]),
    );
    // The columns of x and of the multiplier, each with its diagonal.
    let s = CscMatrix { m: 2, n: 2, colptr: vec![0, 1, 3], rowval: vec![0, 0, 1], nzval: v(&[9.0, 5.0, 9.0]) };
    let cache = AugmentedCache::from_permuted(&prob, &s, &[0, 1], 1, F(0.5)).expect("both diagonals");
    assert_eq!(cache.refill(F(0.25), &[], &v(&[2.0])), v(&[3.25, 5.0, -2.5]));
    assert_eq!(cache.refill(F(0.0), &[], &v(&[1.0])), v(&[3.0, 5.0, -1.5]));
    let bare = CscMatrix { m: 2, n: 2, colptr: vec![0, 0, 1], rowval: vec![1], nzval: v(&[9.0]) };
    assert!(AugmentedCache::from_permuted(&prob, &bare, &[0, 1], 1, F(0.5)).is_none());
}

#[test]
fn permutations_are_undone() {
    let perm = [2usize, 0, 1];
    let a = v(&[5.0, 6.0, 7.0]);
    assert_eq!(gather(&perm, &a), v(&[7.0, 5.0, 6.0]));
    assert_eq!(scatter(&perm, &gather(&perm, &a)), a);
    assert_eq!(invert_permutation(&perm), vec![1, 2, 0]);
    let c = csr_of_dense(&matrix(2, 3, &[0.0, 1.0, 0.0, 2.0, 0.0, 3.0]), 2, 3);
    assert_eq!((c.colptr, c.rowval, c.nzval), (vec![0, 1, 3], vec![1, 0, 2], v(&[1.0, 2.0, 3.0])));
}

type Solve = Box<dyn Fn(&[F]) -> Vec<F>>;

#[test]
fn failed_factorizations_raise_the_regularization() {
    let h = matrix(1, 1, &[2.0]);
    let tried = RefCell::new(Vec::new());
    let divide = |m: &DenseMatrix<F>| -> Solve {
        let d = m.get(0, 0);
        Box::new(move |_: &[F]| vec![d])
    };
    let stubborn = |m: &DenseMatrix<F>, method: Method<F>| {
        assert!(matches!(method, Method::Plain { tolerance } if tolerance == F(1e-14)));
        tried.borrow_mut().push(m.get(0, 0).0);
        if tried.borrow().len() < 3 { None } else { Some(divide(m)) }
    };
    let (f, m, reg) = factor_definite(h, F(1e-12), F(1e-8), &stubborn, &divide).expect("the third attempt");
    assert_eq!(tried.borrow().len(), 3);
    assert!(tried.borrow()[0] < tried.borrow()[1] && tried.borrow()[1] < tried.borrow()[2]);
    assert_eq!(f(&[])[0], m.get(0, 0));
    assert!((reg.0 - 1e-8).abs() < 1e-12);
    let asked = RefCell::new(Vec::new());
    let never = |_: &DenseMatrix<F>, method: Method<F>| -> Option<Solve> {
        asked.borrow_mut().push(match method {
            Method::Plain { .. } => 0,
            Method::PlatformCholesky => 1,
            Method::Cholesky => 2,
            Method::Unpivoted => 3,
            Method::PlatformPivoted => 4,
        });
        None
    };
    assert!(factor_definite(matrix(1, 1, &[2.0]), F(1e-8), F(1e-8), &never, &divide).is_none());
    // A large block is factored with pivoting once the other methods have failed, as it stands.
    asked.borrow_mut().clear();
    let (_, kept, same) =
        factor_definite(DenseMatrix::zeros(48, 48), F(1e-12), F(1e-8), &never, &divide).expect("with pivoting");
    assert_eq!(*asked.borrow(), vec![1, 2, 3]);
    assert_eq!((kept.get(0, 0), same), (F(0.0), F(1e-12)));
    // A large reduced system is factored with pivoting in the end, a small one given up.
    assert!(factor_reduced(matrix(1, 1, &[2.0]), 1, F(1e-8), F(1e-8), F(1e-8), &never, &divide).is_none());
    let large: DenseMatrix<F> = DenseMatrix::zeros(64, 64);
    let r = factor_reduced(large, 60, F(1e-8), F(1e-8), F(1e-8), &never, &divide).expect("with pivoting");
    assert!((r.reg_dual.0 - 1.0).abs() < 1e-12 && (r.m.get(63, 63).0 + 1.0).abs() < 1e-7);
}

#[test]
fn a_complement_is_raised_and_then_pivoted() {
    let divide = |m: &DenseMatrix<F>| -> Solve {
        let d = m.get(0, 0).0;
        Box::new(move |b: &[F]| v(&[b[0].0 / d]))
    };
    let tried = Cell::new(0usize);
    let never = |_: &DenseMatrix<F>, _: Method<F>| -> Option<Solve> {
        tried.set(tried.get() + 1);
        None
    };
    let f = factor_complement(matrix(1, 1, &[4.0]), F(1e-8), &never, &divide);
    assert!((f(&v(&[8.0]))[0].0 - 2.0).abs() < 1e-3);
    let once = |m: &DenseMatrix<F>, _: Method<F>| Some(divide(m));
    let g = factor_complement(matrix(1, 1, &[4.0]), F(1e-8), &once, &divide);
    assert_eq!(g(&v(&[8.0])), v(&[2.0]));
}

#[test]
fn lagging_runs_get_no_correctors() {
    assert_eq!((qp_correctors(0), qp_correctors(4), qp_correctors(5)), (2, 2, 0));
}

#[test]
fn entropy_programs_have_their_shape() {
    let (p, cones) = max_entropy::<F>(2);
    assert_eq!(p.q, v(&[0.0, 0.0, -1.0, -1.0]));
    assert_eq!((p.a_eq.matvec(&v(&[3.0, 4.0, 9.0, 9.0])), p.b_eq), (v(&[7.0]), v(&[1.0])));
    assert_eq!(p.b_in, v(&[0.0, 0.0, 1.0, 0.0, 0.0, 1.0]));
    // s = (t, x, 1) for each pair.
    let s: Vec<f64> =
        p.a_in.matvec(&v(&[3.0, 4.0, 5.0, 6.0])).iter().zip(&p.b_in).map(|(a, b)| b.0 - a.0).collect();
    assert_eq!(s, vec![5.0, 3.0, 1.0, 6.0, 4.0, 1.0]);
    assert!(cones.len() == 2 && cones.iter().all(|c| matches!(c, NsCone::Exp)));
    let (w, _) = weighted_entropy::<F>(3, F(2.0));
    assert_eq!(w.q.len(), 6);
    assert_eq!(w.q[3], F(-1.0));
    assert_eq!(w.q[0], F(0.0));
    assert!((w.q[1].0 + 2.0).abs() < 1e-12 && (w.q[2].0 + 4.0).abs() < 1e-12);
    let (m, _) = moment_entropy::<F>(2, F(0.5));
    assert_eq!(m.b_eq, v(&[1.0, 0.5]));
    assert_eq!(m.a_eq.nrows, 2);
}

#[test]
fn power_programs_have_their_shape() {
    let (p, cones) = pow_proj::<F>(F(0.3));
    assert_eq!(p.q, v(&[-1.0, -1.0, 0.0]));
    assert_eq!(p.a_in.matvec(&v(&[1.0, 2.0, 3.0])), v(&[-1.0, -2.0, -3.0]));
    assert!(matches!(cones[0], NsCone::Power(a) if a == F(0.3)));
    let (e, _) = pow_eq::<F>(F(0.3));
    assert_eq!((e.q, e.b_eq), (v(&[0.0, 0.0, -1.0]), v(&[1.0])));
    let (g, cones) = genpow_geomean::<F>(4, 2);
    assert_eq!(g.q.len(), 6);
    match &cones[0] {
        NsCone::GenPower(alpha, tail) => {
            assert_eq!(alpha, &v(&[0.25; 4]));
            assert_eq!(*tail, 2);
        },
        _ => unreachable!(),
    }
    let draws: Vec<f64> = (0..6).map(|i| i as f64).collect();
    // The draws come from the generator with the seed 1000 + n + m.
    assert_eq!(log_sum_exp_seed(1, 3), 1004);
    let (l, cones) = log_sum_exp(1, 3, F(1.0), |seed: u64, k: usize| {
        assert_eq!((seed, k), (1004, 6));
        v(&draws)
    });
    assert_eq!(l.b_in, log_sum_exp_of(1, 3, F(1.0), &v(&draws)).0.b_in);
    assert_eq!((l.a_in.get(0, 0), l.b_in[0]), (F(0.0), F(0.5)));
    assert_eq!((l.a_in.get(3, 0), l.b_in[3]), (F(-2.0), F(1.5)));
    assert_eq!(l.q.len(), 4);
    assert!(matches!(cones[cones.len() - 1], NsCone::NonNeg(2)) || matches!(cones[0], NsCone::NonNeg(2)));
}

#[test]
fn solutions_carry_their_parts() {
    let sol = QpSolution::new(Status::Solved, v(&[1.0]), v(&[2.0]), v(&[3.0]), v(&[4.0]), F(5.0), 6);
    assert_eq!((sol.tau, sol.kappa), (F(1.0), F(0.0)));
    let scaled = QpSolution { tau: F(0.5), kappa: F(0.25), ..sol.cloned() };
    let again = scaled.cloned();
    assert_eq!((again.tau, again.kappa), (F(0.5), F(0.25)));
    let copy = sol.cloned();
    assert_eq!((copy.status, copy.x, copy.obj_val, copy.iters), (Status::Solved, v(&[1.0]), F(5.0), 6));
    let other = sol.with_duals(v(&[7.0]), v(&[8.0]), v(&[9.0]));
    assert_eq!((other.x, other.y, other.s, other.z), (v(&[1.0]), v(&[7.0]), v(&[8.0]), v(&[9.0])));
}
