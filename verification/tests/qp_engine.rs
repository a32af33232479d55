use iconic_ipm::cone::{Cone, ConeScaling};
use iconic_ipm::conic_plan::ConicTools;
use iconic_ipm::conic_solve::solve_orthant_qp_warm;
use iconic_ipm::conic_step::{Iterate, Verdict};
use iconic_ipm::curved::Algebra;
use iconic_ipm::kkt::assemble_augmented_kkt;
use iconic_ipm::lowrank::LowRankDiag;
use iconic_ipm::lp_simplex::{classify_rows, try_sparse_lp_dual_simplex, BoxLp, Vertex};
use iconic_ipm::lr_cache::{duplicate_structure, Searches};
use iconic_ipm::matrix::DenseMatrix;
use iconic_ipm::ordering::Sorting;
use iconic_ipm::problem::{QpProblem, QpSolution, Status, TermScale, WarmStart};
use iconic_ipm::products::Form;
use iconic_ipm::qp_loop::{initial_state, qp_conclude, qp_judge, qp_regularize, Measures, QpState};
use iconic_ipm::qp_plan::{plan_newton, plan_qp, Factors, Plan};
use iconic_ipm::qp_setup::Settings;
use iconic_ipm::qp_solve::{solve_qp, solve_qp_with_termination, solve_qp_with_termination_warm};
use iconic_ipm::qp_systems::{definite_newton, rank_one_newton, Moment, Setting};
use iconic_ipm::factor::Method;
use iconic_ipm::sparse::CscMatrix;
use iconic_ipm::Scalar;

/// A double as the number type of the library.
#[derive(Clone, Copy, Debug, PartialEq, PartialOrd)]
struct F(f64);

impl Scalar for F {
    fn zero() -> Self {
        F(0.0)
    }
    fn spec_zero() -> Self {
        Self::zero()
    }
    fn one() -> Self {
        F(1.0)
    }
    fn spec_one() -> Self {
        Self::one()
    }
    fn infinity() -> Self {
        F(f64::INFINITY)
    }
    fn spec_infinity() -> Self {
        Self::infinity()
    }
    fn from_usize(k: usize) -> Self {
        F(k as f64)
    }
    fn spec_from_usize(k: usize) -> Self {
        Self::from_usize(k)
    }
    fn decimal(digits: u64, places: u64) -> Self {
        F(format!("{}e-{}", digits, places).parse().unwrap())
    }
    fn spec_decimal(digits: u64, places: u64) -> Self {
        Self::decimal(digits, places)
    }
    fn plus(self, o: Self) -> Self {
        F(self.0 + o.0)
    }
    fn spec_plus(self, o: Self) -> Self {
        Self::plus(self, o)
    }
    fn minus(self, o: Self) -> Self {
        F(self.0 - o.0)
    }
    fn spec_minus(self, o: Self) -> Self {
        Self::minus(self, o)
    }
    fn times(self, o: Self) -> Self {
        F(self.0 * o.0)
    }
    fn spec_times(self, o: Self) -> Self {
        Self::times(self, o)
    }
    fn over(self, o: Self) -> Self {
        F(self.0 / o.0)
    }
    fn spec_over(self, o: Self) -> Self {
        Self::over(self, o)
    }
    fn max(self, o: Self) -> Self {
        F(self.0.max(o.0))
    }
    fn spec_max(self, o: Self) -> Self {
        Self::max(self, o)
    }
    fn min(self, o: Self) -> Self {
        F(self.0.min(o.0))
    }
    fn spec_min(self, o: Self) -> Self {
        Self::min(self, o)
    }
    fn powf(self, o: Self) -> Self {
        F(self.0.powf(o.0))
    }
    fn spec_powf(self, o: Self) -> Self {
        Self::powf(self, o)
    }
    fn neg(self) -> Self {
        F(-self.0)
    }
    fn spec_neg(self) -> Self {
        Self::neg(self)
    }
    fn abs(self) -> Self {
        F(self.0.abs())
    }
    fn spec_abs(self) -> Self {
        Self::abs(self)
    }
    fn sqrt(self) -> Self {
        F(self.0.sqrt())
    }
    fn spec_sqrt(self) -> Self {
        Self::sqrt(self)
    }
    fn ln(self) -> Self {
        F(self.0.ln())
    }
    fn spec_ln(self) -> Self {
        Self::ln(self)
    }
    fn log10(self) -> Self {
        F(self.0.log10())
    }
    fn spec_log10(self) -> Self {
        Self::log10(self)
    }
    fn exp(self) -> Self {
        F(self.0.exp())
    }
    fn spec_exp(self) -> Self {
        Self::exp(self)
    }
    fn below(self, o: Self) -> bool {
        self.0 < o.0
    }
    fn spec_below(self, o: Self) -> bool {
        Self::below(self, o)
    }
    fn at_most(self, o: Self) -> bool {
        self.0 <= o.0
    }
    fn spec_at_most(self, o: Self) -> bool {
        Self::at_most(self, o)
    }
    fn equals(self, o: Self) -> bool {
        self.0 == o.0
    }
    fn spec_equals(self, o: Self) -> bool {
        Self::equals(self, o)
    }
    fn is_finite(self) -> bool {
        self.0.is_finite()
    }
    fn spec_is_finite(self) -> bool {
        Self::is_finite(self)
    }
    fn bits(self) -> u64 {
        self.0.to_bits()
    }
    fn spec_bits(self) -> u64 {
        Self::bits(self)
    }
    fn ceil_count(self) -> usize {
        self.0.ceil() as usize
    }
    fn spec_ceil_count(self) -> usize {
        Self::ceil_count(self)
    }
}


fn v(a: &[f64]) -> Vec<F> {
    a.iter().map(|&x| F(x)).collect()
}

/// A small generator of reproducible draws.
struct Draws(u64);

impl Draws {
    fn unit(&mut self) -> f64 {
        self.0 = self.0.wrapping_add(0x9E3779B97F4A7C15);
        let mut z = self.0;
        z = (z ^ (z >> 30)).wrapping_mul(0xBF58476D1CE4E5B9);
        z = (z ^ (z >> 27)).wrapping_mul(0x94D049BB133111EB);
        z ^= z >> 31;
        (z >> 11) as f64 / (1u64 << 53) as f64
    }

    fn signed(&mut self) -> f64 {
        2.0 * self.unit() - 1.0
    }
}

type Solve = Box<dyn Fn(&[F]) -> Vec<F>>;

/// Solves by elimination with partial pivoting; none where a pivot vanishes.
fn factor(m: &DenseMatrix<F>) -> Option<Solve> {
    let n = m.nrows;
    let mut a: Vec<Vec<f64>> = (0..n).map(|i| (0..n).map(|j| m.get(i, j).0).collect()).collect();
    let mut perm: Vec<usize> = (0..n).collect();
    for k in 0..n {
        let mut best = k;
        for i in k..n {
            if a[i][k].abs() > a[best][k].abs() {
                best = i;
            }
        }
        if !(a[best][k].abs() > 1e-300) || !a[best][k].is_finite() {
            return None;
        }
        a.swap(k, best);
        perm.swap(k, best);
        let top = a[k].clone();
        for i in k + 1..n {
            let l = a[i][k] / top[k];
            a[i][k] = l;
            if l != 0.0 {
                for j in k + 1..n {
                    a[i][j] -= l * top[j];
                }
            }
        }
    }
    Some(Box::new(move |b: &[F]| {
        let mut x: Vec<f64> = (0..n).map(|i| b[perm[i]].0).collect();
        for i in 0..n {
            for j in 0..i {
                x[i] -= a[i][j] * x[j];
            }
        }
        for i in (0..n).rev() {
            for j in i + 1..n {
                x[i] -= a[i][j] * x[j];
            }
            x[i] /= a[i][i];
        }
        x.iter().map(|&t| F(t)).collect()
    }))
}

/// The factor of a matrix by a method. The routines of a platform are not there.
fn factor_by(m: &DenseMatrix<F>, method: Method<F>) -> Option<Solve> {
    match method {
        Method::PlatformCholesky | Method::PlatformPivoted => None,
        Method::Plain { tolerance } => {
            assert_eq!(tolerance, F(1e-14));
            factor(m)
        },
        Method::Cholesky | Method::Unpivoted => factor(m),
    }
}

/// The factor of a matrix that must have one.
fn factor_always(m: &DenseMatrix<F>) -> Solve {
    factor(m).expect("a regular matrix")
}

/// The symmetric matrix whose upper triangle is stored; entries of the same place add up.
fn dense_of(k: &CscMatrix<F>) -> DenseMatrix<F> {
    let mut m: DenseMatrix<F> = DenseMatrix::zeros(k.n, k.n);
    for c in 0..k.n {
        for p in k.colptr[c]..k.colptr[c + 1] {
            let sum = F(m.get(k.rowval[p], c).0 + k.nzval[p].0);
            m.set(k.rowval[p], c, sum);
            m.set(c, k.rowval[p], sum);
        }
    }
    m
}

fn factor_sparse(k: &CscMatrix<F>, tolerance: F) -> Option<Solve> {
    assert_eq!(tolerance, F(1e-14));
    factor(&dense_of(k))
}

/// The upper triangle in the order of a permutation.
fn permute_upper(k: &CscMatrix<F>, perm: &[usize]) -> CscMatrix<F> {
    let mut inv = vec![0usize; perm.len()];
    for (p, &o) in perm.iter().enumerate() {
        inv[o] = p;
    }
    let mut cols: Vec<Vec<(usize, F)>> = vec![Vec::new(); k.n];
    for c in 0..k.n {
        for p in k.colptr[c]..k.colptr[c + 1] {
            let (a, b) = (inv[k.rowval[p]], inv[c]);
            cols[a.max(b)].push((a.min(b), k.nzval[p]));
        }
    }
    let mut r = CscMatrix { m: k.m, n: k.n, colptr: vec![0], rowval: vec![], nzval: vec![] };
    for col in cols.iter_mut() {
        col.sort_by_key(|e| e.0);
        for e in col.iter() {
            r.rowval.push(e.0);
            r.nzval.push(e.1);
        }
        r.colptr.push(r.rowval.len());
    }
    r
}

/// Eliminates from the last index to the first, in the complement of the equality rows the other way.
fn sorting() -> Sorting<
    impl Fn(&CscMatrix<F>) -> Vec<usize>,
    impl Fn(&CscMatrix<F>) -> Vec<usize>,
    impl Fn(&CscMatrix<F>, &[usize]) -> CscMatrix<F>,
> {
    Sorting {
        order: |k: &CscMatrix<F>| (0..k.n).rev().collect(),
        complement: |k: &CscMatrix<F>| (0..k.n).collect(),
        permute: permute_upper,
    }
}

fn factors() -> Factors<
    impl Fn(&DenseMatrix<F>, Method<F>) -> Option<Solve>,
    impl Fn(&DenseMatrix<F>) -> Solve,
    impl Fn(&CscMatrix<F>, F) -> Option<Solve>,
> {
    Factors { dense: factor_by, pivoted: factor_always, sparse: factor_sparse }
}

fn rows_of(prob: &QpProblem<F>) -> CscMatrix<F> {
    let mut c = CscMatrix { m: prob.q.len(), n: prob.b_in.len(), colptr: vec![0], rowval: vec![], nzval: vec![] };
    for r in 0..prob.b_in.len() {
        for j in 0..prob.q.len() {
            if prob.a_in.get(r, j).0 != 0.0 {
                c.rowval.push(j);
                c.nzval.push(prob.a_in.get(r, j));
            }
        }
        c.colptr.push(c.rowval.len());
    }
    c
}

/// The prepared system of a problem.
fn plan(prob: &QpProblem<F>, low: &Option<LowRankDiag<F>>) -> Plan<F> {
    let ones = v(&vec![1.0; prob.b_in.len()]);
    plan_qp(
        prob,
        &settings(),
        &classify_rows(prob),
        low,
        Some(&rows_of(prob)),
        F(1e-8),
        F(1e-8),
        &ones,
        &sorting(),
    )
}

/// The least vertex of a small linear program over a box, by trying every basis.
fn enumerate(lp: &BoxLp<F>) -> Option<Vertex<F>> {
    let (m, cols) = (lp.b.len(), lp.c.len());
    let mut best: Option<Vertex<F>> = None;
    for mask in 0u32..(1 << cols) {
        if mask.count_ones() as usize != m {
            continue;
        }
        let basis: Vec<usize> = (0..cols).filter(|j| mask >> j & 1 == 1).collect();
        let rest: Vec<usize> = (0..cols).filter(|j| mask >> j & 1 == 0).collect();
        let mut bm = DenseMatrix::zeros(m, m);
        let mut bt = DenseMatrix::zeros(m, m);
        for i in 0..m {
            for (k, &j) in basis.iter().enumerate() {
                bm.set(i, k, lp.a.get(i, j));
                bt.set(k, i, lp.a.get(i, j));
            }
        }
        let (solve, solve_t) = match (factor(&bm), factor(&bt)) {
            (Some(s), Some(t)) => (s, t),
            _ => continue,
        };
        for side in 0u32..(1 << rest.len()) {
            let mut x = vec![0.0; cols];
            let mut ok = true;
            for (k, &j) in rest.iter().enumerate() {
                x[j] = if side >> k & 1 == 1 { lp.upper[j].0 } else { lp.lower[j].0 };
                ok = ok && x[j].is_finite();
            }
            if !ok {
                continue;
            }
            let rhs: Vec<F> = (0..m)
                .map(|i| F(lp.b[i].0 - rest.iter().map(|&j| lp.a.get(i, j).0 * x[j]).sum::<f64>()))
                .collect();
            for (k, t) in solve(&rhs).iter().enumerate() {
                x[basis[k]] = t.0;
            }
            if (0..cols).any(|j| x[j] < lp.lower[j].0 - 1e-9 || x[j] > lp.upper[j].0 + 1e-9) {
                continue;
            }
            let obj: f64 = (0..cols).map(|j| lp.c[j].0 * x[j]).sum();
            if best.as_ref().map_or(true, |b| obj < b.obj.0 - 1e-12) {
                let cb: Vec<F> = basis.iter().map(|&j| lp.c[j]).collect();
                best = Some(Vertex { x: v(&x), pi: solve_t(&cb), obj: F(obj), iters: 1 });
            }
        }
    }
    best
}

/// The least vertex by the simplex method, from the basis of the last columns; the other columns start
/// at their lower bounds and have no upper bounds.
fn pivot_to_vertex(lp: &BoxLp<F>) -> Option<Vertex<F>> {
    let (m, cols) = (lp.b.len(), lp.c.len());
    let mut basis: Vec<usize> = (cols - m..cols).collect();
    for iters in 0..1000 {
        let mut bm = DenseMatrix::zeros(m, m);
        let mut bt = DenseMatrix::zeros(m, m);
        for i in 0..m {
            for (k, &j) in basis.iter().enumerate() {
                bm.set(i, k, lp.a.get(i, j));
                bt.set(k, i, lp.a.get(i, j));
            }
        }
        let (solve, solve_t) = (factor(&bm)?, factor(&bt)?);
        let rhs: Vec<F> = (0..m)
            .map(|i| {
                let rest = (0..cols).filter(|j| !basis.contains(j));
                F(lp.b[i].0 - rest.map(|j| lp.a.get(i, j).0 * lp.lower[j].0).sum::<f64>())
            })
            .collect();
        let xb = solve(&rhs);
        let cb: Vec<F> = basis.iter().map(|&j| lp.c[j]).collect();
        let pi = solve_t(&cb);
        let cost = |j: usize| lp.c[j].0 - (0..m).map(|i| pi[i].0 * lp.a.get(i, j).0).sum::<f64>();
        let enter = (0..cols).find(|j| !basis.contains(j) && cost(*j) < -1e-10);
        match enter {
            None => {
                let mut x: Vec<f64> = lp.lower.iter().map(|t| t.0).collect();
                for (k, &j) in basis.iter().enumerate() {
                    x[j] = xb[k].0;
                }
                let obj: f64 = (0..cols).map(|j| lp.c[j].0 * x[j]).sum();
                return Some(Vertex { x: v(&x), pi, obj: F(obj), iters });
            },
            Some(j) => {
                let col: Vec<F> = (0..m).map(|i| lp.a.get(i, j)).collect();
                let d = solve(&col);
                let mut leave = None;
                for k in 0..m {
                    if d[k].0 > 1e-10 {
                        let ratio = (xb[k].0 - lp.lower[basis[k]].0) / d[k].0;
                        if leave.map_or(true, |(_, r)| ratio < r) {
                            leave = Some((k, ratio));
                        }
                    }
                }
                basis[leave?.0] = j;
            },
        }
    }
    None
}

fn solve_from(
    prob: &QpProblem<F>,
    set: &Settings<F>,
    term: &TermScale<F>,
    init: Option<&WarmStart<F>>,
    low: &Option<LowRankDiag<F>>,
) -> QpSolution<F> {
    let simplex = |lp: &BoxLp<F>| if lp.c.len() <= 8 { enumerate(lp) } else { None };
    let detect = |_: &DenseMatrix<F>, _: F, _: usize| low.as_ref().map(duplicate_structure);
    let (sort, tools, engine, al) = (sorting(), factors(), engine(), algebra());
    let mut known = Searches::new();
    let kept = &mut known;
    match init {
        None => solve_qp_with_termination(
            prob, set, term, kept, &simplex, &detect, &sort, &tools, &inside, &engine, &al,
        ),
        Some(_) => solve_qp_with_termination_warm(
            prob, set, term, init, kept, &simplex, &detect, &sort, &tools, &inside, &engine, &al,
        ),
    }
}

fn identity(prob: &QpProblem<F>) -> TermScale<F> {
    TermScale::identity(prob.q.len(), prob.b_eq.len(), prob.b_in.len())
}

fn solve(prob: &QpProblem<F>, set: &Settings<F>) -> QpSolution<F> {
    solve_from(prob, set, &identity(prob), None, &None)
}

fn settings() -> Settings<F> {
    Settings { eps_abs: F(1e-8), max_iters: 200, hsd: false, dualize: false, dualize_ratio: F(4.0), sparse_kkt: false }
}

fn sparse_settings() -> Settings<F> {
    Settings { sparse_kkt: true, ..settings() }
}

fn matrix(rows: usize, cols: usize, data: &[f64]) -> DenseMatrix<F> {
    DenseMatrix::from_row_major(rows, cols, v(data))
}

fn problem(
    p: DenseMatrix<F>,
    q: Vec<F>,
    a_eq: DenseMatrix<F>,
    b_eq: Vec<F>,
    a_in: DenseMatrix<F>,
    b_in: Vec<F>,
) -> QpProblem<F> {
    QpProblem { p, q, a_eq, b_eq, a_in, b_in, a_eq_csr: None, a_in_csr: None }
}

/// The outside parts of the conic engine, which meets no curved cone here.
fn engine() -> ConicTools<
    impl Fn(Cone, &[F], &[F]) -> (ConeScaling<F>, Vec<F>),
    impl Fn(&CscMatrix<F>) -> Vec<usize>,
    impl Fn(&CscMatrix<F>, &[usize]) -> CscMatrix<F>,
    impl Fn(&DenseMatrix<F>, Method<F>) -> Option<Solve>,
    impl Fn(&DenseMatrix<F>) -> Solve,
    impl Fn(&[F], &[F]) -> (F, Vec<F>),
    impl Fn(&CscMatrix<F>, F) -> Option<Solve>,
    impl Fn(&[ConeScaling<F>], F) -> Solve,
> {
    ConicTools {
        scale: |_: Cone, _: &[F], _: &[F]| -> (ConeScaling<F>, Vec<F>) { unreachable!() },
        order: |k: &CscMatrix<F>| (0..k.n).rev().collect(),
        permute: permute_upper,
        dense: factor_by,
        pivoted: factor_always,
        soc: |_: &[F], _: &[F]| -> (F, Vec<F>) { unreachable!() },
        sparse: factor_sparse,
        structure: |_: &[ConeScaling<F>], _: F| -> Solve { unreachable!() },
    }
}

fn algebra() -> Algebra<
    impl Fn(Cone) -> Vec<F>,
    impl Fn(Cone, &[F], &[F]) -> F,
    impl Fn(&ConeScaling<F>, &[F], bool) -> Vec<F>,
    impl Fn(Cone, &[F], &[F]) -> Vec<F>,
    impl Fn(Cone, &[F], &[F]) -> Vec<F>,
    impl Fn(Cone, &[F], F, F) -> Vec<F>,
> {
    Algebra {
        identity: |_: Cone| -> Vec<F> { unreachable!() },
        ratio: |_: Cone, _: &[F], _: &[F]| -> F { unreachable!() },
        apply: |_: &ConeScaling<F>, _: &[F], _: bool| -> Vec<F> { unreachable!() },
        multiply: |_: Cone, _: &[F], _: &[F]| -> Vec<F> { unreachable!() },
        divide: |_: Cone, _: &[F], _: &[F]| -> Vec<F> { unreachable!() },
        displace: |_: Cone, _: &[F], _: F, _: F| -> Vec<F> { unreachable!() },
    }
}

/// The distance from the boundary of a curved cone.
fn inside(_: Cone, _: &[F]) -> F {
    unreachable!()
}

/// Solves over the nonnegative orthant with the conic engine.
fn conic_solution(prob: &QpProblem<F>, set: &Settings<F>, init: Option<&WarmStart<F>>) -> QpSolution<F> {
    let none = |_: &BoxLp<F>| None;
    solve_orthant_qp_warm(prob, set, init, &none, &inside, &engine(), &algebra())
}

#[test]
fn augmented_kkt_sparse_matches_dense() {
    let prob = problem(
        matrix(2, 2, &[2.0, 0.5, 0.5, 3.0]),
        v(&[0.0, 0.0]),
        matrix(1, 2, &[1.0, 1.0]),
        v(&[0.0]),
        matrix(1, 2, &[1.0, -1.0]),
        v(&[0.0]),
    );
    let rho = 1e-7;
    let delta = 1e-7;
    let dz = [2.0 / 3.0];
    let dim = 4;
    let kkt = assemble_augmented_kkt(&prob, F(rho), F(delta), &v(&dz));
    assert_eq!(kkt.n, dim);
    let mut dense = DenseMatrix::zeros(dim, dim);
    for i in 0..2 {
        for j in 0..2 {
            dense.set(i, j, prob.p.get(i, j));
        }
        dense.set(i, i, F(dense.get(i, i).0 + rho));
    }
    for i in 0..2 {
        let t = prob.a_eq.get(0, i);
        dense.set(i, 2, t);
        dense.set(2, i, t);
    }
    dense.set(2, 2, F(-delta));
    for i in 0..2 {
        let t = prob.a_in.get(0, i);
        dense.set(i, 3, t);
        dense.set(3, i, t);
    }
    dense.set(3, 3, F(-(dz[0] + delta)));
    let rhs = v(&[1.0, 2.0, 3.0, 4.0]);
    let sparse_x = factor_sparse(&kkt, F(1e-14)).unwrap()(&rhs);
    let dense_x = factor(&dense).unwrap()(&rhs);
    for i in 0..dim {
        assert!((sparse_x[i].0 - dense_x[i].0).abs() < 1e-10);
    }
}

#[test]
fn sparse_and_dense_paths_agree() {
    let prob = problem(
        matrix(2, 2, &[2.0, 0.0, 0.0, 2.0]),
        v(&[-2.0, -4.0]),
        matrix(1, 2, &[1.0, 1.0]),
        v(&[1.0]),
        matrix(1, 2, &[1.0, 0.0]),
        v(&[0.8]),
    );
    let d = solve(&prob, &settings());
    let s = solve(&prob, &sparse_settings());
    assert_eq!(d.status, Status::Solved);
    assert_eq!(s.status, Status::Solved);
    for i in 0..2 {
        assert!((d.x[i].0 - s.x[i].0).abs() < 1e-6, "x{}: {} vs {}", i, d.x[i].0, s.x[i].0);
    }
}

fn boxed_lp() -> QpProblem<F> {
    problem(
        DenseMatrix::zeros(2, 2),
        v(&[-1.0, -1.0]),
        DenseMatrix::zeros(0, 2),
        v(&[]),
        matrix(4, 2, &[1.0, 0.0, 0.0, 1.0, -1.0, 0.0, 0.0, -1.0]),
        v(&[1.0, 1.0, 0.0, 0.0]),
    )
}

#[test]
fn sparse_path_solves_bounded_lp() {
    let sol = solve(&boxed_lp(), &sparse_settings());
    assert_eq!(sol.status, Status::Solved);
    assert!((sol.x[0].0 - 1.0).abs() < 1e-6, "x0={}", sol.x[0].0);
    assert!((sol.x[1].0 - 1.0).abs() < 1e-6, "x1={}", sol.x[1].0);
}

#[test]
fn bounded_lp() {
    let sol = solve(&boxed_lp(), &settings());
    assert_eq!(sol.status, Status::Solved);
    assert!((sol.x[0].0 - 1.0).abs() < 1e-6, "x0={}", sol.x[0].0);
    assert!((sol.x[1].0 - 1.0).abs() < 1e-6, "x1={}", sol.x[1].0);
    assert!((sol.obj_val.0 + 2.0).abs() < 1e-6, "obj={}", sol.obj_val.0);
}

#[test]
fn sparse_lp_dual_recovery_matches_hand_computed() {
    let prob = problem(
        DenseMatrix::zeros(2, 2),
        v(&[-1.0, -2.0]),
        DenseMatrix::zeros(0, 2),
        v(&[]),
        matrix(5, 2, &[1.0, 0.0, 0.0, 1.0, -1.0, 0.0, 0.0, -1.0, 1.0, 1.0]),
        v(&[1.0, 1.0, 0.0, 0.0, 1.5]),
    );
    let sol = solve(&prob, &settings());
    assert_eq!(sol.status, Status::Solved);
    assert!((sol.x[0].0 - 0.5).abs() < 1e-6, "x0={}", sol.x[0].0);
    assert!((sol.x[1].0 - 1.0).abs() < 1e-6, "x1={}", sol.x[1].0);
    let expect = [0.0, 1.0, 0.0, 0.0, 1.0];
    for (i, &e) in expect.iter().enumerate() {
        assert!((sol.z[i].0 - e).abs() < 1e-6, "z[{}]={} expected {}", i, sol.z[i].0, e);
    }
}

#[test]
fn sparse_lp_dual_matches_ipm() {
    let n = 20;
    let mi_general = 12;
    let mut rnd = Draws(12345);
    let mut rows: Vec<f64> = Vec::new();
    let mut b = Vec::new();
    let x0: Vec<f64> = (0..n).map(|_| rnd.signed().abs()).collect();
    for _ in 0..mi_general {
        let mut row = vec![0.0; n];
        for _ in 0..8 {
            let i = (rnd.signed().abs() * n as f64) as usize % n;
            row[i] += rnd.signed().abs() + 0.5;
        }
        let ax: f64 = (0..n).map(|i| row[i] * x0[i]).sum();
        rows.extend(&row);
        b.push(ax + 0.5);
    }
    for j in 0..n {
        let mut row = vec![0.0; n];
        row[j] = -1.0;
        rows.extend(&row);
        b.push(0.0);
    }
    let q: Vec<F> = (0..n).map(|_| F(-rnd.signed().abs() - 0.1)).collect();
    let mi = n + mi_general;
    let prob = problem(DenseMatrix::zeros(n, n), q, DenseMatrix::zeros(0, n), v(&[]), matrix(mi, n, &rows), v(&b));
    let ipm = solve(&prob, &settings());
    let simplex = try_sparse_lp_dual_simplex(&prob, &pivot_to_vertex).expect("the simplex method solves it");
    assert_eq!(ipm.status, Status::Solved);
    assert_eq!(simplex.status, Status::Solved);
    assert!((ipm.obj_val.0 - simplex.obj_val.0).abs() < 1e-6 * (1.0 + ipm.obj_val.0.abs()));
    for i in 0..n {
        assert!((simplex.x[i].0 - ipm.x[i].0).abs() < 1e-6 * (1.0 + ipm.x[i].0.abs()));
    }
    for r in 0..mi {
        assert!(
            (simplex.z[r].0 - ipm.z[r].0).abs() < 1e-5 * (1.0 + ipm.z[r].0.abs()),
            "z[{}] simplex={} ipm={}",
            r,
            simplex.z[r].0,
            ipm.z[r].0
        );
    }
}

#[test]
fn dense_lp_routes_to_conic_engine_and_solves_fast() {
    let n = 80;
    let mi_general = 40;
    let mut rnd = Draws(4242);
    let x0: Vec<f64> = (0..n).map(|_| 0.5 * rnd.signed()).collect();
    let mi = mi_general + 2 * n;
    let mut a_in = DenseMatrix::zeros(mi, n);
    let mut b = vec![0.0; mi];
    for r in 0..mi_general {
        let mut ax = 0.0;
        for j in 0..n {
            let t = rnd.signed();
            a_in.set(r, j, F(t));
            ax += t * x0[j];
        }
        b[r] = ax + 0.5 + rnd.signed().abs();
    }
    for j in 0..n {
        a_in.set(mi_general + 2 * j, j, F(1.0));
        b[mi_general + 2 * j] = 10.0;
        a_in.set(mi_general + 2 * j + 1, j, F(-1.0));
        b[mi_general + 2 * j + 1] = 10.0;
    }
    let q: Vec<F> = (0..n).map(|_| F(rnd.signed())).collect();
    let prob = problem(DenseMatrix::zeros(n, n), q, DenseMatrix::zeros(0, n), v(&[]), a_in, v(&b));
    let sol = solve(&prob, &settings());
    assert_eq!(sol.status, Status::Solved);
    assert!(sol.iters < 30, "iters={}", sol.iters);
}

#[test]
fn small_sparse_lp_solves_via_ipm_in_few_iterations() {
    let rows = 30;
    let cols = 12;
    let n = cols + rows;
    let mut rnd = Draws(89 + rows as u64);
    let a_mat: Vec<Vec<f64>> = (0..rows).map(|_| (0..cols).map(|_| rnd.signed()).collect()).collect();
    let xt: Vec<f64> = (0..cols).map(|_| rnd.signed()).collect();
    let b: Vec<f64> = (0..rows)
        .map(|i| a_mat[i].iter().zip(&xt).map(|(a, x)| a * x).sum::<f64>() + 0.1 * rnd.signed().abs())
        .collect();
    let mi = 3 * rows;
    let mut a_in = DenseMatrix::zeros(mi, n);
    let mut b_in = vec![0.0; mi];
    for i in 0..rows {
        for j in 0..cols {
            a_in.set(i, j, F(a_mat[i][j]));
            a_in.set(rows + i, j, F(-a_mat[i][j]));
        }
        a_in.set(i, cols + i, F(-1.0));
        b_in[i] = b[i];
        a_in.set(rows + i, cols + i, F(-1.0));
        b_in[rows + i] = -b[i];
        a_in.set(2 * rows + i, cols + i, F(-1.0));
    }
    let mut q = vec![0.0; n];
    for i in 0..rows {
        q[cols + i] = 1.0;
    }
    let prob = problem(DenseMatrix::zeros(n, n), v(&q), DenseMatrix::zeros(0, n), v(&[]), a_in, v(&b_in));
    let sol = solve(&prob, &settings());
    assert_eq!(sol.status, Status::Solved);
    assert!(sol.iters < 40, "iters={}", sol.iters);
}

#[test]
fn dualized_wide_lp_matches_direct_solve() {
    let n = 5usize;
    let mi = 40usize;
    let mut rnd = Draws(777);
    let x0: Vec<F> = (0..n).map(|_| F(rnd.signed())).collect();
    let mut a_in = DenseMatrix::zeros(mi, n);
    for r in 0..mi {
        for j in 0..n {
            a_in.set(r, j, F(rnd.signed()));
        }
    }
    let ax0 = a_in.matvec(&x0);
    let b_in: Vec<F> = (0..mi).map(|r| F(ax0[r].0 + 0.5 + rnd.signed().abs())).collect();
    let q: Vec<F> = (0..n).map(|_| F(rnd.signed())).collect();
    let prob = problem(DenseMatrix::zeros(n, n), q, DenseMatrix::zeros(0, n), v(&[]), a_in, b_in);
    let tight = Settings { eps_abs: F(1e-9), ..settings() };
    let direct = solve(&prob, &tight);
    assert_eq!(direct.status, Status::Solved);
    let via_dual = solve(&prob, &Settings { dualize: true, ..tight });
    assert_eq!(via_dual.status, Status::Solved);
    for j in 0..n {
        assert!(
            (via_dual.x[j].0 - direct.x[j].0).abs() < 1e-6 * (1.0 + direct.x[j].0.abs()),
            "x[{}] dual={} direct={}",
            j,
            via_dual.x[j].0,
            direct.x[j].0
        );
    }
    for r in 0..mi {
        assert!(
            (via_dual.z[r].0 - direct.z[r].0).abs() < 1e-6 * (1.0 + direct.z[r].0.abs()),
            "z[{}] dual={} direct={}",
            r,
            via_dual.z[r].0,
            direct.z[r].0
        );
    }
    assert!((via_dual.obj_val.0 - direct.obj_val.0).abs() < 1e-6 * (1.0 + direct.obj_val.0.abs()));
}

#[test]
fn unconstrained_qp() {
    let prob = problem(
        matrix(2, 2, &[2.0, 0.0, 0.0, 2.0]),
        v(&[-2.0, -4.0]),
        DenseMatrix::zeros(0, 2),
        v(&[]),
        DenseMatrix::zeros(0, 2),
        v(&[]),
    );
    let sol = solve(&prob, &settings());
    assert_eq!(sol.status, Status::Solved);
    assert!((sol.x[0].0 - 1.0).abs() < 1e-7, "x0={}", sol.x[0].0);
    assert!((sol.x[1].0 - 2.0).abs() < 1e-7, "x1={}", sol.x[1].0);
}

#[test]
fn detects_unbounded() {
    let prob = problem(
        DenseMatrix::zeros(1, 1),
        v(&[1.0]),
        DenseMatrix::zeros(0, 1),
        v(&[]),
        matrix(1, 1, &[1.0]),
        v(&[5.0]),
    );
    let sol = solve(&prob, &settings());
    assert!(sol.status == Status::DualInfeasible || sol.status == Status::MaxIterations, "{:?}", sol.status);
}

#[test]
fn dense_augmented_kkt_matches_sparse_augmented_kkt() {
    let prob = problem(
        matrix(3, 3, &[2.0, 0.1, 0.0, 0.1, 2.0, 0.1, 0.0, 0.1, 2.0]),
        v(&[-1.0, -2.0, -0.5]),
        matrix(1, 3, &[1.0, 1.0, 1.0]),
        v(&[3.0]),
        matrix(2, 3, &[1.0, 1.0, 0.0, 0.0, 0.0, 1.0]),
        v(&[2.5, 2.0]),
    );
    let n = prob.q.len();
    let dense = solve(&prob, &settings());
    let sparse = solve(&prob, &sparse_settings());
    assert_eq!(dense.status, Status::Solved, "iters={}", dense.iters);
    assert_eq!(sparse.status, Status::Solved, "iters={}", sparse.iters);
    assert!((dense.obj_val.0 - sparse.obj_val.0).abs() < 1e-6 * (1.0 + sparse.obj_val.0.abs()));
    for i in 0..n {
        assert!((dense.x[i].0 - sparse.x[i].0).abs() < 1e-5);
    }
    let sum: f64 = dense.x.iter().map(|t| t.0).sum();
    assert!((sum - 3.0).abs() < 1e-5, "sum={}", sum);
    assert!(dense.x[0].0 + dense.x[1].0 <= 2.5 + 1e-5);
    assert!(dense.x[2].0 <= 2.0 + 1e-5);
}

#[test]
fn ill_conditioned_finite_optimum_solves() {
    let c = 1e-8;
    let prob = problem(
        matrix(2, 2, &[c, -c, -c, c]),
        v(&[-1.0, 1.0]),
        matrix(1, 2, &[1.0, 1.0]),
        v(&[2.0]),
        DenseMatrix::zeros(0, 2),
        v(&[]),
    );
    let sol = solve(&prob, &settings());
    assert_eq!(sol.status, Status::Solved, "iters={}", sol.iters);
    assert!((sol.x[0].0 + sol.x[1].0 - 2.0).abs() < 1e-4, "{:?}", sol.x);
    assert!((sol.x[0].0 - sol.x[1].0 - 1e8).abs() < 1e3, "{}", sol.x[0].0 - sol.x[1].0);
}

#[test]
fn genuine_unbounded_still_detected() {
    let prob = problem(
        matrix(2, 2, &[1.0, 0.0, 0.0, 0.0]),
        v(&[0.0, -1.0]),
        DenseMatrix::zeros(0, 2),
        v(&[]),
        DenseMatrix::zeros(0, 2),
        v(&[]),
    );
    let sol = solve(&prob, &settings());
    assert!(sol.status == Status::DualInfeasible || sol.status == Status::MaxIterations, "{:?}", sol.status);
}

#[test]
fn equality_qp() {
    let prob = problem(
        matrix(2, 2, &[1.0, 0.0, 0.0, 1.0]),
        v(&[0.0, 0.0]),
        matrix(1, 2, &[1.0, 1.0]),
        v(&[2.0]),
        DenseMatrix::zeros(0, 2),
        v(&[]),
    );
    let sol = solve(&prob, &settings());
    assert_eq!(sol.status, Status::Solved);
    assert!((sol.x[0].0 - 1.0).abs() < 1e-7);
    assert!((sol.x[1].0 - 1.0).abs() < 1e-7);
    assert!((sol.obj_val.0 - 1.0).abs() < 1e-7);
}

#[test]
fn inequality_qp() {
    let prob = problem(
        matrix(2, 2, &[1.0, 0.0, 0.0, 1.0]),
        v(&[0.0, 0.0]),
        DenseMatrix::zeros(0, 2),
        v(&[]),
        matrix(1, 2, &[-1.0, -1.0]),
        v(&[-2.0]),
    );
    let sol = solve(&prob, &settings());
    assert_eq!(sol.status, Status::Solved);
    assert!((sol.x[0].0 - 1.0).abs() < 1e-6, "x0={}", sol.x[0].0);
    assert!((sol.x[1].0 - 1.0).abs() < 1e-6, "x1={}", sol.x[1].0);
    assert!(sol.z[0].0 > 0.5, "z={}", sol.z[0].0);
}

#[test]
fn sparse_rangespace_matches_dense() {
    let nx = 4;
    let nu = 2;
    let h = 12;
    let n = nx * (h + 1) + nu * h;
    let me = nx * h;
    let mi = 2 * nu * h;
    let mut p = DenseMatrix::zeros(n, n);
    for i in 0..nx * (h + 1) {
        p.set(i, i, F(1.0));
    }
    for i in 0..nu * h {
        p.set(nx * (h + 1) + i, nx * (h + 1) + i, F(0.1));
    }
    let mut a_eq = DenseMatrix::zeros(me, n);
    let mut rnd = Draws(12345);
    for t in 0..h {
        for i in 0..nx {
            a_eq.set(t * nx + i, (t + 1) * nx + i, F(1.0));
            a_eq.set(t * nx + i, t * nx + i, F(-0.9));
            for j in 0..nu {
                a_eq.set(t * nx + i, nx * (h + 1) + t * nu + j, F(-rnd.signed()));
            }
        }
    }
    let mut a_in = DenseMatrix::zeros(mi, n);
    let b_in = vec![1.0; mi];
    for t in 0..h {
        for j in 0..nu {
            let idx = nx * (h + 1) + t * nu + j;
            let row = t * nu + j;
            a_in.set(row, idx, F(1.0));
            a_in.set(nu * h + row, idx, F(-1.0));
        }
    }
    let prob = problem(p, v(&vec![0.0; n]), a_eq, v(&vec![0.0; me]), a_in, v(&b_in));
    let sol = solve(&prob, &settings());
    assert!(residual(&prob, &sol) < 1e-2 || sol.status == Status::Solved, "{:?}", sol.status);
}

/// The largest residual of stationarity and feasibility.
fn residual(prob: &QpProblem<F>, sol: &QpSolution<F>) -> f64 {
    let px = prob.p.matvec(&sol.x);
    let aty = prob.a_eq.matvec_t(&sol.y);
    let atz = prob.a_in.matvec_t(&sol.z);
    let aeqx = prob.a_eq.matvec(&sol.x);
    let ainx = prob.a_in.matvec(&sol.x);
    let mut r: f64 = 0.0;
    for i in 0..prob.q.len() {
        r = r.max((px[i].0 + prob.q[i].0 + aty[i].0 + atz[i].0).abs());
    }
    for i in 0..prob.b_eq.len() {
        r = r.max((aeqx[i].0 - prob.b_eq[i].0).abs());
    }
    for i in 0..prob.b_in.len() {
        r = r.max((ainx[i].0 + sol.s[i].0 - prob.b_in[i].0).abs());
    }
    r
}

#[test]
fn singleton_equality_columns_solve_via_rangespace() {
    let m = 6usize;
    let k = 24usize;
    let n = m + k;
    let mut p = DenseMatrix::zeros(n, n);
    for i in 0..k {
        p.set(m + i, m + i, F(1.0));
    }
    let mut a_eq = DenseMatrix::zeros(k, n);
    let mut b_eq = vec![0.0; k];
    let mut next = Draws(53);
    for i in 0..k {
        for j in 0..m {
            a_eq.set(i, j, F(next.signed()));
        }
        a_eq.set(i, m + i, F(1.0));
        b_eq[i] = next.signed();
    }
    let prob = problem(p, v(&vec![0.0; n]), a_eq, v(&b_eq), DenseMatrix::zeros(0, n), v(&[]));
    let sol = solve(&prob, &settings());
    assert_eq!(sol.status, Status::Solved);
    assert!(sol.iters < 30, "iters={}", sol.iters);
    let other = solve(&prob, &sparse_settings());
    assert_eq!(other.status, Status::Solved);
    assert!((sol.obj_val.0 - other.obj_val.0).abs() <= 1e-6 * other.obj_val.0.abs().max(1.0));
}

#[test]
fn near_dependent_eq_rows_do_not_panic() {
    let n = 40usize;
    let me = 64usize;
    let scale = 1e8;
    let mut a_eq = DenseMatrix::zeros(me, n);
    let mut rnd = Draws(13);
    for r in 0..me {
        for j in 0..n {
            a_eq.set(r, j, F(scale * rnd.signed()));
        }
    }
    for j in 0..n {
        let sum = a_eq.get(0, j).0 + a_eq.get(1, j).0;
        a_eq.set(62, j, F(sum));
        a_eq.set(63, j, F(sum + scale * 1e-9));
    }
    let mut b_eq = vec![0.0; me];
    for r in 0..me {
        for j in 0..n {
            b_eq[r] += a_eq.get(r, j).0;
        }
    }
    let prob = problem(DenseMatrix::zeros(n, n), v(&vec![0.0; n]), a_eq, v(&b_eq), DenseMatrix::zeros(0, n), v(&[]));
    let sol = solve(&prob, &settings());
    assert!(
        matches!(sol.status, Status::Solved | Status::SolvedInaccurate | Status::MaxIterations),
        "{:?}",
        sol.status
    );
}

#[test]
fn sparse_rangespace_branch_fires() {
    let n = 165usize;
    let me = 40usize;
    let mi = 2 * n;
    let mut rnd = Draws(4242);
    let mut p = DenseMatrix::zeros(n, n);
    for i in 0..n {
        p.set(i, i, F(1.0));
    }
    let q: Vec<F> = (0..n).map(|_| F(rnd.signed())).collect();
    let mut a_eq = DenseMatrix::zeros(me, n);
    for r in 0..6 {
        for j in 0..81 {
            a_eq.set(r, j, F(rnd.signed()));
        }
    }
    for j in 81..n {
        let a = j % 29;
        a_eq.set(10 + a, j, F(1.0));
        a_eq.set(11 + a, j, F(-0.5));
    }
    let mut a_in = DenseMatrix::zeros(mi, n);
    for j in 0..n {
        a_in.set(j, j, F(1.0));
        a_in.set(n + j, j, F(-1.0));
    }
    let prob = problem(p, q, a_eq, v(&vec![0.0; me]), a_in, v(&vec![1.0; mi]));
    assert!(matches!(plan(&prob, &None), Plan::Range { .. }));
    let sol = solve(&prob, &settings());
    assert_eq!(sol.status, Status::Solved);
    let other = solve(&prob, &sparse_settings());
    assert_eq!(other.status, Status::Solved);
    assert!((sol.obj_val.0 - other.obj_val.0).abs() <= 1e-6 * other.obj_val.0.abs().max(1.0));
    assert!(residual(&prob, &sol) < 1e-6, "{}", residual(&prob, &sol));
}

#[test]
fn sparse_kkt_fold_patches_only_general_z_diags() {
    let (sup, dem) = (8usize, 8usize);
    let n = sup * dem;
    let idx = |i: usize, j: usize| i * dem + j;
    let mut p = DenseMatrix::zeros(n, n);
    let mut q = Vec::new();
    let mut supply = Vec::new();
    let mut demand = Vec::new();
    for i in 0..n {
        q.push(1.0 + ((i * 37) % 19) as f64);
        p.set(i, i, F(0.1));
    }
    let mut ts = 0.0;
    for i in 0..sup {
        let s = 10.0 + (i * 13 % 40) as f64;
        supply.push(s);
        ts += s;
    }
    for j in 0..dem {
        let d = 10.0 + (j * 17 % 40) as f64;
        demand.push(d * ts * 0.8 / supply.iter().sum::<f64>());
    }
    let mi = sup + dem + n;
    let mut a_in = DenseMatrix::zeros(mi, n);
    let mut b_in = vec![0.0; mi];
    for i in 0..sup {
        for j in 0..dem {
            a_in.set(i, idx(i, j), F(1.0));
        }
        b_in[i] = supply[i];
    }
    for j in 0..dem {
        for i in 0..sup {
            a_in.set(sup + j, idx(i, j), F(-1.0));
        }
        b_in[sup + j] = -demand[j];
    }
    for k in 0..n {
        a_in.set(sup + dem + k, k, F(-1.0));
    }
    let prob = problem(p, v(&q), DenseMatrix::zeros(0, n), v(&[]), a_in, v(&b_in));
    assert!(matches!(plan(&prob, &None), Plan::Sparse { folding: true, .. }));
    let sol = solve(&prob, &settings());
    assert_eq!(sol.status, Status::Solved);
    assert!(sol.iters <= 25, "iters={}", sol.iters);
    let other = solve(&prob, &Settings { sparse_kkt: false, ..settings() });
    assert_eq!(other.status, Status::Solved);
    assert!((sol.obj_val.0 - other.obj_val.0).abs() < 1e-6 * (1.0 + sol.obj_val.0.abs()));
}

fn warm_problem(n: usize, m: usize, seed: u64) -> QpProblem<F> {
    let mut rnd = Draws(seed);
    let mut p = DenseMatrix::zeros(n, n);
    for i in 0..n {
        for j in 0..n {
            p.set(i, j, F(0.3 * rnd.signed()));
        }
        p.set(i, i, F(p.get(i, i).0 + 2.0));
    }
    for i in 0..n {
        for j in 0..i {
            let t = p.get(i, j);
            p.set(j, i, t);
        }
    }
    let q: Vec<F> = (0..n).map(|_| F(rnd.signed() - 0.5)).collect();
    let mut a_in = DenseMatrix::zeros(m, n);
    for i in 0..m {
        for j in 0..n {
            a_in.set(i, j, F(rnd.signed() - 0.5));
        }
    }
    let x0: Vec<F> = (0..n).map(|_| F(rnd.signed() - 0.5)).collect();
    let b_in: Vec<F> = a_in.matvec(&x0).iter().map(|t| F(t.0 + 0.7)).collect();
    problem(p, q, DenseMatrix::zeros(0, n), v(&[]), a_in, b_in)
}

#[test]
fn warm_start_qp_exactness_and_savings() {
    let prob = warm_problem(40, 30, 1234);
    let term = identity(&prob);
    let base = solve(&prob, &settings());
    assert_eq!(base.status, Status::Solved);
    let seed = WarmStart { x: base.x.clone(), s: base.s.clone(), z: base.z.clone() };
    let scale = prob.b_in.iter().fold(0.0f64, |a, t| a.max(t.0.abs()));
    let mut pert = warm_problem(40, 30, 1234);
    for (i, t) in pert.b_in.iter_mut().enumerate() {
        t.0 += 1e-4 * scale * if i % 2 == 0 { 1.0 } else { -1.0 };
    }
    let cold = solve(&pert, &settings());
    let warm = solve_from(&pert, &settings(), &term, Some(&seed), &None);
    assert_eq!(warm.status, cold.status);
    let tol = 1e-8 * cold.obj_val.0.abs().max(1.0);
    assert!((warm.obj_val.0 - cold.obj_val.0).abs() <= tol, "{} vs {}", warm.obj_val.0, cold.obj_val.0);
    assert!(warm.iters <= cold.iters, "{} vs {}", warm.iters, cold.iters);
}

#[test]
fn warm_start_invalid_seed_falls_back_to_cold() {
    let prob = warm_problem(20, 15, 99);
    let term = identity(&prob);
    let cold = solve(&prob, &settings());
    let seeds = [
        WarmStart { x: v(&[0.0; 3]), s: v(&[0.0; 15]), z: v(&[0.0; 15]) },
        WarmStart { x: v(&[f64::NAN; 20]), s: v(&[1.0; 15]), z: v(&[1.0; 15]) },
        WarmStart { x: v(&[0.0; 20]), s: v(&[1.0; 15]), z: v(&[1.0; 15]) },
    ];
    for seed in seeds.iter() {
        let w = solve_from(&prob, &settings(), &term, Some(seed), &None);
        assert_eq!(w.iters, cold.iters);
        assert_eq!(w.obj_val, cold.obj_val);
    }
}

#[test]
fn woodbury_path_fires_for_portfolio() {
    let n = 72usize;
    let r = 7usize;
    let mi = 2 * n;
    let mut rnd = Draws(4242);
    let mut l = DenseMatrix::zeros(n, r);
    for i in 0..n {
        for t in 0..r {
            l.set(i, t, F(rnd.signed()));
        }
    }
    let d: Vec<F> = (0..n).map(|_| F(0.5 + rnd.signed().abs())).collect();
    let mut p = DenseMatrix::zeros(n, n);
    for i in 0..n {
        for j in 0..n {
            let mut acc = if i == j { d[i].0 } else { 0.0 };
            for t in 0..r {
                acc += l.get(i, t).0 * l.get(j, t).0;
            }
            p.set(i, j, F(acc));
        }
    }
    let q: Vec<F> = (0..n).map(|_| F(-rnd.signed().abs() * 0.1)).collect();
    let mut a_in = DenseMatrix::zeros(mi, n);
    let mut b_in = vec![0.0; mi];
    for j in 0..n {
        a_in.set(j, j, F(1.0));
        b_in[j] = 0.2;
        a_in.set(n + j, j, F(-1.0));
    }
    let prob = problem(p, q, matrix(1, n, &vec![1.0; n]), v(&[1.0]), a_in, v(&b_in));
    let low = Some(LowRankDiag { l, d, rank: r, offdiag_rel: F(0.0) });
    assert!(matches!(plan(&prob, &low), Plan::LowRank { .. }));
    let sol = solve_from(&prob, &settings(), &identity(&prob), None, &low);
    assert_eq!(sol.status, Status::Solved);
    let budget: f64 = sol.x.iter().map(|t| t.0).sum();
    assert!((budget - 1.0).abs() < 1e-4);
    let other = solve(&prob, &settings());
    assert_eq!(other.status, Status::Solved);
    assert!((sol.obj_val.0 - other.obj_val.0).abs() < 1e-6 * (1.0 + other.obj_val.0.abs()));
}

/// A diagonal Hessian with upper bounds and one general row over all unknowns.
fn one_row(n: usize, cap: f64) -> QpProblem<F> {
    let mut p = DenseMatrix::zeros(n, n);
    for i in 0..n {
        p.set(i, i, F(1.0 + i as f64 / 10.0));
    }
    let q: Vec<f64> = (0..n).map(|i| -1.0 - (i % 7) as f64).collect();
    let mut a_in = DenseMatrix::zeros(n + 1, n);
    let mut b_in = vec![0.5; n + 1];
    for j in 0..n {
        a_in.set(j, j, F(1.0));
        a_in.set(n, j, F(1.0));
    }
    b_in[n] = cap;
    problem(p, v(&q), DenseMatrix::zeros(0, n), v(&[]), a_in, v(&b_in))
}

#[test]
fn one_general_row_is_solved_in_closed_form() {
    let n = 70usize;
    let prob = one_row(n, 40.0);
    assert!(matches!(plan(&prob, &None), Plan::RankOne));
    let sol = solve(&prob, &settings());
    assert_eq!(sol.status, Status::Solved);
    for i in 0..n {
        let free = (1.0 + (i % 7) as f64) / (1.0 + i as f64 / 10.0);
        assert!((sol.x[i].0 - free.min(0.5)).abs() < 1e-4, "x[{}]={}", i, sol.x[i].0);
    }
}

#[test]
fn closed_form_agrees_with_the_definite_system() {
    let n = 6usize;
    let prob = one_row(n, 1.0);
    let classes = classify_rows(&prob);
    let c = Setting {
        prob: &prob,
        units: &classes.singleton,
        general: &classes.general,
        weak: false,
        rho0: F(1e-8),
        eps: F(1e-8),
        ain: Form::Dense,
        in_csr: None,
    };
    let it = Iterate { x: v(&[0.1; 6]), y: v(&[]), s: v(&[0.4, 0.5, 0.6, 0.7, 0.8, 0.9, 1.0]), z: v(&[0.5; 7]) };
    let m = Measures {
        r_d: v(&[0.1, -0.2, 0.3, -0.4, 0.5, -0.6]),
        r_b: v(&[]),
        r_h: v(&[0.1, 0.2, 0.3, 0.4, 0.5, 0.6, 0.7]),
        mu: F(0.35),
        min_sz: F(0.2),
        nd: F(1.0),
        nb: F(0.0),
        nh: F(1.0),
        nd_abs: F(1.0),
        nb_abs: F(0.0),
        nh_abs: F(1.0),
    };
    let t = Moment { it: &it, m: &m, rho: F(1e-6), delta: F(1e-8), correctors: 3, short: 0 };
    let (d, k) = rank_one_newton(&c, &t);
    let (e, l) = definite_newton(&c, &t, &factor_by, &factor_always).expect("a definite matrix");
    let planned = plan_newton(&c, &t, &None, &Plan::RankOne, &factors()).expect("a direction");
    assert!(planned.0.x == d.x && planned.1 == k);
    assert_eq!(k, l);
    for i in 0..n {
        assert!((d.x[i].0 - e.x[i].0).abs() < 1e-10);
    }
    for i in 0..n + 1 {
        assert!((d.s[i].0 - e.s[i].0).abs() < 1e-10);
        assert!((d.z[i].0 - e.z[i].0).abs() < 1e-10);
    }
}

#[test]
fn banded_equalities_take_the_condensed_system() {
    // A chain in which every unknown is its neighbour plus one.
    let n = 40usize;
    let me = n - 1;
    let mut p = DenseMatrix::zeros(n, n);
    for i in 0..n {
        p.set(i, i, F(1.0));
    }
    let mut a_eq = DenseMatrix::zeros(me, n);
    for r in 0..me {
        a_eq.set(r, r, F(-1.0));
        a_eq.set(r, r + 1, F(1.0));
    }
    let prob = problem(p, v(&vec![0.0; n]), a_eq, v(&vec![1.0; me]), DenseMatrix::zeros(0, n), v(&[]));
    assert!(matches!(plan(&prob, &None), Plan::Condensed { .. }));
    let sol = solve(&prob, &settings());
    assert_eq!(sol.status, Status::Solved);
    for i in 0..n {
        assert!((sol.x[i].0 - (i as f64 - 19.5)).abs() < 1e-5, "x[{}]={}", i, sol.x[i].0);
    }
}

#[test]
fn the_condensed_system_holds_the_whole_hessian() {
    // Neighbours are coupled in the objective, and every second pair adds up to one.
    let n = 40usize;
    let me = n / 2;
    let mut p = DenseMatrix::zeros(n, n);
    for i in 0..n {
        p.set(i, i, F(2.0 + (i % 3) as f64));
        if i + 1 < n {
            p.set(i, i + 1, F(-0.9));
            p.set(i + 1, i, F(-0.9));
        }
    }
    let mut a_eq = DenseMatrix::zeros(me, n);
    for r in 0..me {
        a_eq.set(r, 2 * r, F(1.0));
        a_eq.set(r, 2 * r + 1, F(1.0));
    }
    let q: Vec<f64> = (0..n).map(|i| (i % 5) as f64 - 2.0).collect();
    let prob = problem(p, v(&q), a_eq, v(&vec![1.0; me]), DenseMatrix::zeros(0, n), v(&[]));
    let (pattern, perm) = match plan(&prob, &None) {
        Plan::Condensed { pattern, perm, .. } => (pattern, perm),
        _ => panic!("the sparse condensed system"),
    };
    let mut inv = vec![0usize; perm.len()];
    for (k, &o) in perm.iter().enumerate() {
        inv[o] = k;
    }
    let filled = dense_of(&pattern);
    for c in 0..n {
        for i in 0..c {
            assert_eq!(filled.get(inv[i], inv[c]), prob.p.get(i, c));
        }
        for r in 0..me {
            assert_eq!(filled.get(inv[c], inv[n + r]), prob.a_eq.get(r, c));
        }
    }
    let sol = solve(&prob, &settings());
    let want = solve(&prob, &sparse_settings());
    assert_eq!((sol.status, want.status), (Status::Solved, Status::Solved));
    assert!(sol.iters <= 3, "iters={}", sol.iters);
    for i in 0..n {
        assert!((sol.x[i].0 - want.x[i].0).abs() < 1e-6, "x[{}] {} {}", i, sol.x[i].0, want.x[i].0);
    }
}

#[test]
fn every_system_is_taken() {
    let general = problem(
        matrix(2, 2, &[2.0, 0.0, 0.0, 2.0]),
        v(&[-2.0, -4.0]),
        DenseMatrix::zeros(0, 2),
        v(&[]),
        matrix(2, 2, &[1.0, 1.0, 1.0, -1.0]),
        v(&[1.0, 1.0]),
    );
    assert!(matches!(plan(&general, &None), Plan::Definite));
    let equal = problem(
        matrix(2, 2, &[1.0, 0.0, 0.0, 1.0]),
        v(&[0.0, 0.0]),
        matrix(1, 2, &[1.0, 1.0]),
        v(&[2.0]),
        DenseMatrix::zeros(0, 2),
        v(&[]),
    );
    assert!(matches!(plan(&equal, &None), Plan::Complement));
    let free = boxed_lp();
    assert!(matches!(plan(&free, &None), Plan::Reduced));
    let coupled = problem(
        matrix(2, 2, &[2.0, 1.0, 1.0, 2.0]),
        v(&[0.0, 0.0]),
        matrix(1, 2, &[1.0, 1.0]),
        v(&[2.0]),
        DenseMatrix::zeros(0, 2),
        v(&[]),
    );
    assert!(matches!(plan(&coupled, &None), Plan::Dense));
}

#[test]
fn contradicting_bounds_are_reported() {
    // min x^2 / 2 with x <= 1 and x >= 2.
    let prob = problem(
        matrix(1, 1, &[1.0]),
        v(&[0.0]),
        DenseMatrix::zeros(0, 1),
        v(&[]),
        matrix(2, 1, &[1.0, -1.0]),
        v(&[1.0, -2.0]),
    );
    assert_eq!(solve(&prob, &settings()).status, Status::PrimalInfeasible);
}

#[test]
fn no_iterations_do_not_count_as_solved() {
    // The starting point is far from the optimum.
    let prob = problem(
        matrix(2, 2, &[2.0, 0.5, 0.5, 2.0]),
        v(&[-200.0, -400.0]),
        matrix(1, 2, &[1.0, 1.0]),
        v(&[1.0]),
        matrix(1, 2, &[1.0, 0.5]),
        v(&[0.8]),
    );
    for few in 0..2 {
        let sol = solve(&prob, &Settings { max_iters: few, ..settings() });
        assert_eq!(sol.status, Status::MaxIterations);
        assert_eq!((sol.x.len(), sol.y.len(), sol.s.len(), sol.z.len()), (2, 1, 1, 1));
    }
}

#[test]
fn linear_programs_without_a_solution_are_named() {
    // min x with x >= 2 and x <= 1, and min y with y <= 5.
    let line = |rows: &[f64], b: &[f64]| {
        let a_in = matrix(rows.len(), 1, rows);
        problem(DenseMatrix::zeros(1, 1), v(&[1.0]), DenseMatrix::zeros(0, 1), v(&[]), a_in, v(b))
    };
    for hsd in [false, true] {
        let set = Settings { hsd, ..settings() };
        assert_eq!(solve(&line(&[-1.0, 1.0], &[-2.0, 1.0]), &set).status, Status::PrimalInfeasible);
        assert_eq!(solve(&line(&[1.0], &[5.0]), &set).status, Status::DualInfeasible);
    }
}

/// Measures of an iterate of the small program that is judged below.
fn measures(mu: f64, residual: f64) -> Measures<F> {
    Measures {
        r_d: v(&[residual]),
        r_b: v(&[]),
        r_h: v(&[residual]),
        mu: F(mu),
        min_sz: F(mu),
        nd: F(residual),
        nb: F(0.0),
        nh: F(residual),
        nd_abs: F(residual),
        nb_abs: F(0.0),
        nh_abs: F(residual),
    }
}

#[test]
fn a_stalled_run_gives_the_best_iterate() {
    let prob = problem(
        matrix(1, 1, &[1.0]),
        v(&[0.0]),
        DenseMatrix::zeros(0, 1),
        v(&[]),
        matrix(1, 1, &[1.0]),
        v(&[1.0]),
    );
    let point = |x: f64| Iterate { x: v(&[x]), y: v(&[]), s: v(&[1.0]), z: v(&[1.0]) };
    let mut st = initial_state(&point(0.5), F(1e-8));
    let judge = |k: usize, it: &Iterate<F>, m: &Measures<F>, st: &mut QpState<F>| {
        qp_judge(&prob, Form::Dense, None, Form::Dense, None, F(1.0), F(1e-8), k, 200, it, m, st)
    };
    assert_eq!(judge(20, &point(0.25), &measures(1.0, 0.5), &mut st), Verdict::Continue);
    assert_eq!(st.best_err, F(1.0));
    qp_regularize(false, &measures(1.0, 0.5), &mut st);
    // The complementarity no longer falls, and the residual grows.
    let mut last = Verdict::Continue;
    let mut k = 21;
    while last == Verdict::Continue {
        let m = measures(1.0, 2.0);
        last = judge(k, &point(7.0), &m, &mut st);
        assert_eq!(st.prev_mu, F(1.0));
        qp_regularize(false, &m, &mut st);
        k += 1;
    }
    assert_eq!((last, k), (Verdict::Restore(Status::SolvedInaccurate), 35));
    let sol = qp_conclude(&prob, false, F(0.0), last, point(7.0), st, F(1e-8), k);
    assert_eq!((sol.status, sol.x[0]), (Status::SolvedInaccurate, F(0.25)));
}

#[test]
fn a_run_that_ends_near_the_optimum_keeps_its_iterate() {
    let prob = problem(
        matrix(1, 1, &[1.0]),
        v(&[0.0]),
        DenseMatrix::zeros(0, 1),
        v(&[]),
        matrix(1, 1, &[1.0]),
        v(&[1.0]),
    );
    let point = |x: f64| Iterate { x: v(&[x]), y: v(&[]), s: v(&[1.0]), z: v(&[1.0]) };
    let mut st = initial_state(&point(0.5), F(1e-8));
    let m = measures(2e-8, 2e-8);
    let mut judge = |k: usize, x: f64| {
        qp_judge(&prob, Form::Dense, None, Form::Dense, None, F(1.0), F(1e-8), k, 200, &point(x), &m, &mut st)
    };
    assert_eq!(judge(179, 0.25), Verdict::Continue);
    assert_eq!(judge(180, 7.0), Verdict::Accept(Status::SolvedInaccurate));
    let sol = qp_conclude(
        &prob,
        false,
        F(0.0),
        Verdict::Accept(Status::SolvedInaccurate),
        point(7.0),
        st,
        F(1e-8),
        180,
    );
    assert_eq!((sol.status, sol.x[0]), (Status::SolvedInaccurate, F(7.0)));
}

#[test]
fn a_runaway_gap_raises_the_regularization() {
    let start = Iterate { x: v(&[0.0]), y: v(&[]), s: v(&[1.0]), z: v(&[1.0]) };
    let mut st = initial_state(&start, F(1e-8));
    qp_regularize(true, &measures(1e6, 1.0), &mut st);
    assert_eq!((st.prev_mu, st.rho, st.delta), (F(1e6), F(1e-8), F(1e-8)));
    // A hundredfold gap raises both a hundredfold.
    qp_regularize(false, &measures(1e8, 1.0), &mut st);
    assert_eq!((st.rho, st.delta), (F(1e-6), F(1e-6)));
    // A steady gap does not.
    qp_regularize(false, &measures(1e8, 1.0), &mut st);
    assert_eq!((st.rho, st.delta), (F(1e-6), F(1e-6)));
}

#[test]
fn primal_infeasibility_is_reported() {
    // x0 + x1 <= -1 and x0 + x1 >= 1.
    let prob = problem(
        matrix(2, 2, &[1.0, 0.0, 0.0, 1.0]),
        v(&[0.0, 0.0]),
        DenseMatrix::zeros(0, 2),
        v(&[]),
        matrix(2, 2, &[1.0, 1.0, -1.0, -1.0]),
        v(&[-1.0, -1.0]),
    );
    let sol = solve(&prob, &settings());
    assert!(sol.status != Status::Solved && sol.status != Status::SolvedInaccurate, "{:?}", sol.status);
}

#[test]
fn a_failing_factorization_is_a_numerical_error() {
    let prob = problem(
        matrix(2, 2, &[2.0, 0.0, 0.0, 2.0]),
        v(&[-2.0, -4.0]),
        DenseMatrix::zeros(0, 2),
        v(&[]),
        matrix(2, 2, &[1.0, 1.0, 1.0, -1.0]),
        v(&[1.0, 1.0]),
    );
    let tools = Factors { dense: |_: &DenseMatrix<F>, _: Method<F>| None, pivoted: factor_always, sparse: factor_sparse };
    let sol = solve_qp_with_termination(
        &prob,
        &settings(),
        &identity(&prob),
        &mut Searches::new(),
        &|_: &BoxLp<F>| None,
        &|_: &DenseMatrix<F>, _: F, _: usize| None,
        &sorting(),
        &tools,
        &inside,
        &engine(),
        &algebra(),
    );
    assert_eq!(sol.status, Status::NumericalError);
}

fn huber() -> QpProblem<F> {
    let n_x = 5usize;
    let m = 20usize;
    let delta = 0.5;
    let mut rng = Draws(42);
    let n = n_x + 3 * m;
    let mut p = DenseMatrix::zeros(n, n);
    for i in n_x..n_x + m {
        p.set(i, i, F(1.0));
    }
    let mut q = vec![0.0; n];
    for i in n_x + m..n {
        q[i] = delta;
    }
    let mut a_eq = DenseMatrix::zeros(m, n);
    for i in 0..m {
        for j in 0..n_x {
            a_eq.set(i, j, F(-rng.signed()));
        }
        a_eq.set(i, n_x + i, F(1.0));
        a_eq.set(i, n_x + m + i, F(1.0));
        a_eq.set(i, n_x + 2 * m + i, F(-1.0));
    }
    let mut a_in = DenseMatrix::zeros(2 * m, n);
    for i in 0..m {
        a_in.set(i, n_x + m + i, F(-1.0));
        a_in.set(m + i, n_x + 2 * m + i, F(-1.0));
    }
    problem(p, v(&q), a_eq, v(&vec![0.0; m]), a_in, v(&vec![0.0; 2 * m]))
}

#[test]
fn sparse_kkt_cache_permuted_index_maps_solve_huber_singletons() {
    let prob = huber();
    let reference = solve_qp(
        &prob,
        &settings(),
        &mut Searches::new(),
        &|_: &BoxLp<F>| None,
        &|_: &DenseMatrix<F>, _: F, _: usize| None,
        &sorting(),
        &factors(),
        &inside,
        &engine(),
        &algebra(),
    );
    assert_eq!(reference.status, Status::Solved);
    let sol = conic_solution(&prob, &settings(), None);
    assert_eq!(sol.status, Status::Solved, "iters={}", sol.iters);
    assert!((sol.obj_val.0 - reference.obj_val.0).abs() < 1e-6 * (1.0 + reference.obj_val.0.abs()));
}
