use iconic_ipm::condensed::CondensedScratch;
use iconic_ipm::cone::{cone_offsets, nt_dense_block, total_degree, Cone, ConeScaling};
use iconic_ipm::conic_backends::{ConicMoment, ConicSetting};
use iconic_ipm::conic_dir::conclude;
use iconic_ipm::conic_plan::{conic_plan_newton, plan_conic, scale_cones, ConicPlan, ConicTools};
use iconic_ipm::conic_solve::{solve_cone_qp, solve_cone_qp_warm};
use iconic_ipm::conic_route::initial_regularization;
use iconic_ipm::conic_step::{judge, Access, ConicState, Iterate, Residuals, Verdict};
use iconic_ipm::curved::{identities_of, Algebra};
use iconic_ipm::factor::Method;
use iconic_ipm::kron::kron_transform;
use iconic_ipm::lowrank::{lowrank_source, rank_cap, LowRankDiag, LowRankSource};
use iconic_ipm::lowrank_solve::solve_qp_lowrank;
use iconic_ipm::lp_simplex::BoxLp;
use iconic_ipm::lr_cache::{hash_p, lr_cache_lookup, lr_was_rejected, Searches};
use iconic_ipm::matrix::DenseMatrix;
use iconic_ipm::problem::{QpProblem, QpSolution, Status, WarmStart};
use iconic_ipm::products::Form;
use iconic_ipm::qp_setup::Settings;
use iconic_ipm::sparse::CscMatrix;
use iconic_ipm::Scalar;
use std::cell::Cell;

/// A double as the number type of the library.
#[derive(Clone, Copy, Debug, PartialEq, PartialOrd)]
struct F(f64);

impl Scalar for F {
    fn zero() -> Self {
        F(0.0)
    }
    fn spec_zero() -> Self {
        Self::zero()
    }
    fn one() -> Self {
        F(1.0)
    }
    fn spec_one() -> Self {
        Self::one()
    }
    fn infinity() -> Self {
        F(f64::INFINITY)
    }
    fn spec_infinity() -> Self {
        Self::infinity()
    }
    fn from_usize(k: usize) -> Self {
        F(k as f64)
    }
    fn spec_from_usize(k: usize) -> Self {
        Self::from_usize(k)
    }
    fn decimal(digits: u64, places: u64) -> Self {
        F(format!("{}e-{}", digits, places).parse().unwrap())
    }
    fn spec_decimal(digits: u64, places: u64) -> Self {
        Self::decimal(digits, places)
    }
    fn plus(self, o: Self) -> Self {
        F(self.0 + o.0)
    }
    fn spec_plus(self, o: Self) -> Self {
        Self::plus(self, o)
    }
    fn minus(self, o: Self) -> Self {
        F(self.0 - o.0)
    }
    fn spec_minus(self, o: Self) -> Self {
        Self::minus(self, o)
    }
    fn times(self, o: Self) -> Self {
        F(self.0 * o.0)
    }
    fn spec_times(self, o: Self) -> Self {
        Self::times(self, o)
    }
    fn over(self, o: Self) -> Self {
        F(self.0 / o.0)
    }
    fn spec_over(self, o: Self) -> Self {
        Self::over(self, o)
    }
    fn max(self, o: Self) -> Self {
        F(self.0.max(o.0))
    }
    fn spec_max(self, o: Self) -> Self {
        Self::max(self, o)
    }
    fn min(self, o: Self) -> Self {
        F(self.0.min(o.0))
    }
    fn spec_min(self, o: Self) -> Self {
        Self::min(self, o)
    }
    fn powf(self, o: Self) -> Self {
        F(self.0.powf(o.0))
    }
    fn spec_powf(self, o: Self) -> Self {
        Self::powf(self, o)
    }
    fn neg(self) -> Self {
        F(-self.0)
    }
    fn spec_neg(self) -> Self {
        Self::neg(self)
    }
    fn abs(self) -> Self {
        F(self.0.abs())
    }
    fn spec_abs(self) -> Self {
        Self::abs(self)
    }
    fn sqrt(self) -> Self {
        F(self.0.sqrt())
    }
    fn spec_sqrt(self) -> Self {
        Self::sqrt(self)
    }
    fn ln(self) -> Self {
        F(self.0.ln())
    }
    fn spec_ln(self) -> Self {
        Self::ln(self)
    }
    fn log10(self) -> Self {
        F(self.0.log10())
    }
    fn spec_log10(self) -> Self {
        Self::log10(self)
    }
    fn exp(self) -> Self {
        F(self.0.exp())
    }
    fn spec_exp(self) -> Self {
        Self::exp(self)
    }
    fn below(self, o: Self) -> bool {
        self.0 < o.0
    }
    fn spec_below(self, o: Self) -> bool {
        Self::below(self, o)
    }
    fn at_most(self, o: Self) -> bool {
        self.0 <= o.0
    }
    fn spec_at_most(self, o: Self) -> bool {
        Self::at_most(self, o)
    }
    fn equals(self, o: Self) -> bool {
        self.0 == o.0
    }
    fn spec_equals(self, o: Self) -> bool {
        Self::equals(self, o)
    }
    fn is_finite(self) -> bool {
        self.0.is_finite()
    }
    fn spec_is_finite(self) -> bool {
        Self::is_finite(self)
    }
    fn bits(self) -> u64 {
        self.0.to_bits()
    }
    fn spec_bits(self) -> u64 {
        Self::bits(self)
    }
    fn ceil_count(self) -> usize {
        self.0.ceil() as usize
    }
    fn spec_ceil_count(self) -> usize {
        Self::ceil_count(self)
    }
}


fn v(a: &[f64]) -> Vec<F> {
    a.iter().map(|&x| F(x)).collect()
}

/// A small generator of reproducible draws.
struct Draws(u64);

impl Draws {
    fn unit(&mut self) -> f64 {
        self.0 = self.0.wrapping_add(0x9E3779B97F4A7C15);
        let mut z = self.0;
        z = (z ^ (z >> 30)).wrapping_mul(0xBF58476D1CE4E5B9);
        z = (z ^ (z >> 27)).wrapping_mul(0x94D049BB133111EB);
        z ^= z >> 31;
        (z >> 11) as f64 / (1u64 << 53) as f64
    }

    fn signed(&mut self) -> f64 {
        2.0 * self.unit() - 1.0
    }
}

type Solve = Box<dyn Fn(&[F]) -> Vec<F>>;

/// Solves by elimination with partial pivoting; none where a pivot vanishes.
fn factor(m: &DenseMatrix<F>) -> Option<Solve> {
    let n = m.nrows;
    let mut a: Vec<Vec<f64>> = (0..n).map(|i| (0..n).map(|j| m.get(i, j).0).collect()).collect();
    let mut perm: Vec<usize> = (0..n).collect();
    for k in 0..n {
        let mut best = k;
        for i in k..n {
            if a[i][k].abs() > a[best][k].abs() {
                best = i;
            }
        }
        if !(a[best][k].abs() > 1e-300) || !a[best][k].is_finite() {
            return None;
        }
        a.swap(k, best);
        perm.swap(k, best);
        let top = a[k].clone();
        for i in k + 1..n {
            let l = a[i][k] / top[k];
            a[i][k] = l;
            if l != 0.0 {
                for j in k + 1..n {
                    a[i][j] -= l * top[j];
                }
            }
        }
    }
    Some(Box::new(move |b: &[F]| {
        let mut x: Vec<f64> = (0..n).map(|i| b[perm[i]].0).collect();
        for i in 0..n {
            for j in 0..i {
                x[i] -= a[i][j] * x[j];
            }
        }
        for i in (0..n).rev() {
            for j in i + 1..n {
                x[i] -= a[i][j] * x[j];
            }
            x[i] /= a[i][i];
        }
        x.iter().map(|&t| F(t)).collect()
    }))
}

/// The factor of a matrix by a method. The routines of a platform are not there.
fn factor_by(m: &DenseMatrix<F>, method: Method<F>) -> Option<Solve> {
    match method {
        Method::PlatformCholesky | Method::PlatformPivoted => None,
        Method::Plain { tolerance } => {
            assert_eq!(tolerance, F(1e-14));
            factor(m)
        },
        Method::Cholesky | Method::Unpivoted => factor(m),
    }
}

/// The factor of a matrix that must have one.
fn factor_always(m: &DenseMatrix<F>) -> Solve {
    factor(m).expect("a regular matrix")
}

/// The symmetric matrix whose upper triangle is stored; entries of the same place add up.
fn dense_of(k: &CscMatrix<F>) -> DenseMatrix<F> {
    let mut m: DenseMatrix<F> = DenseMatrix::zeros(k.n, k.n);
    for c in 0..k.n {
        for p in k.colptr[c]..k.colptr[c + 1] {
            let sum = F(m.get(k.rowval[p], c).0 + k.nzval[p].0);
            m.set(k.rowval[p], c, sum);
            m.set(c, k.rowval[p], sum);
        }
    }
    m
}

fn factor_sparse(k: &CscMatrix<F>, tolerance: F) -> Option<Solve> {
    assert_eq!(tolerance, F(1e-14));
    factor(&dense_of(k))
}

/// The upper triangle in the order of a permutation.
fn permute_upper(k: &CscMatrix<F>, perm: &[usize]) -> CscMatrix<F> {
    let mut inv = vec![0usize; perm.len()];
    for (p, &o) in perm.iter().enumerate() {
        inv[o] = p;
    }
    let mut cols: Vec<Vec<(usize, F)>> = vec![Vec::new(); k.n];
    for c in 0..k.n {
        for p in k.colptr[c]..k.colptr[c + 1] {
            let (a, b) = (inv[k.rowval[p]], inv[c]);
            cols[a.max(b)].push((a.min(b), k.nzval[p]));
        }
    }
    let mut r = CscMatrix { m: k.m, n: k.n, colptr: vec![0], rowval: vec![], nzval: vec![] };
    for col in cols.iter_mut() {
        col.sort_by_key(|e| e.0);
        for e in col.iter() {
            r.rowval.push(e.0);
            r.nzval.push(e.1);
        }
        r.colptr.push(r.rowval.len());
    }
    r
}

/// The order from the last index to the first.
fn reversed(n: usize) -> Vec<usize> {
    (0..n).rev().collect()
}

type Square = Vec<Vec<f64>>;

fn product(a: &Square, b: &Square) -> Square {
    let k = a.len();
    (0..k).map(|i| (0..k).map(|j| (0..k).map(|t| a[i][t] * b[t][j]).sum()).collect()).collect()
}

/// Eigenvalues and eigenvectors, one per column, by rotations.
fn eigen(m: &Square) -> (Vec<f64>, Square) {
    let k = m.len();
    let mut a = m.clone();
    let mut q: Square = (0..k).map(|i| (0..k).map(|j| if i == j { 1.0 } else { 0.0 }).collect()).collect();
    for _ in 0..60 {
        for i in 0..k {
            for j in i + 1..k {
                if a[i][j].abs() < 1e-300 {
                    continue;
                }
                let theta = (a[j][j] - a[i][i]) / (2.0 * a[i][j]);
                let t = theta.signum() / (theta.abs() + (theta * theta + 1.0).sqrt());
                let t = if theta == 0.0 { 1.0 } else { t };
                let c = 1.0 / (t * t + 1.0).sqrt();
                let s = t * c;
                for r in 0..k {
                    let (x, y) = (a[r][i], a[r][j]);
                    a[r][i] = c * x - s * y;
                    a[r][j] = s * x + c * y;
                }
                for r in 0..k {
                    let (x, y) = (a[i][r], a[j][r]);
                    a[i][r] = c * x - s * y;
                    a[j][r] = s * x + c * y;
                }
                for r in 0..k {
                    let (x, y) = (q[r][i], q[r][j]);
                    q[r][i] = c * x - s * y;
                    q[r][j] = s * x + c * y;
                }
            }
        }
    }
    ((0..k).map(|i| a[i][i]).collect(), q)
}

/// A function of a symmetric matrix.
fn spectral(m: &Square, f: &dyn Fn(f64) -> f64) -> Square {
    let k = m.len();
    let (d, q) = eigen(m);
    (0..k).map(|i| (0..k).map(|j| (0..k).map(|t| q[i][t] * f(d[t]) * q[j][t]).sum()).collect()).collect()
}

fn svec(m: &Square) -> Vec<f64> {
    let k = m.len();
    let mut r = Vec::new();
    for i in 0..k {
        for j in i..k {
            r.push(if i == j { m[i][i] } else { 2.0f64.sqrt() * m[i][j] });
        }
    }
    r
}

fn smat(u: &[f64]) -> Square {
    let mut k = 0;
    while k * (k + 1) / 2 < u.len() {
        k += 1;
    }
    let mut m = vec![vec![0.0; k]; k];
    let mut p = 0;
    for i in 0..k {
        for j in i..k {
            let t = if i == j { u[p] } else { u[p] / 2.0f64.sqrt() };
            m[i][j] = t;
            m[j][i] = t;
            p += 1;
        }
    }
    m
}

fn plain(a: &[F]) -> Vec<f64> {
    a.iter().map(|t| t.0).collect()
}

fn square_of(m: &DenseMatrix<F>) -> Square {
    (0..m.nrows).map(|i| (0..m.ncols).map(|j| m.get(i, j).0).collect()).collect()
}

fn dense_from(m: &Square) -> DenseMatrix<F> {
    let mut r = DenseMatrix::zeros(m.len(), m.len());
    for i in 0..m.len() {
        for j in 0..m.len() {
            r.set(i, j, F(m[i][j]));
        }
    }
    r
}

/// The scaling of a cone, with the block of it in the system.
/// The squared size and the direction of the scaling of a second-order cone.
fn soc_scaling(s: &[f64], z: &[f64]) -> (F, Vec<F>) {
    let det = |u: &[f64]| u[0] * u[0] - u[1..].iter().map(|t| t * t).sum::<f64>();
    let (ns, nz) = (det(s).sqrt(), det(z).sqrt());
    let inner: f64 = s.iter().zip(z).map(|(a, b)| a * b).sum::<f64>() / (ns * nz);
    let gamma = ((1.0 + inner) / 2.0).sqrt();
    let wbar: Vec<f64> = (0..s.len())
        .map(|i| (s[i] / ns + if i == 0 { z[0] / nz } else { -z[i] / nz }) / (2.0 * gamma))
        .collect();
    (F(ns / nz), v(&wbar))
}

fn scale(cone: &Cone, s: &[f64], z: &[f64]) -> (ConeScaling<F>, Vec<F>) {
    match cone {
        Cone::NonNeg(_) => {
            let ratio: Vec<f64> = s.iter().zip(z).map(|(a, b)| a / b).collect();
            (ConeScaling::NonNeg { w: v(&ratio.iter().map(|t| t.sqrt()).collect::<Vec<f64>>()) }, v(&ratio))
        },
        Cone::Soc(_) => {
            let (eta_sq, wbar) = soc_scaling(s, z);
            (ConeScaling::Soc { eta: F(eta_sq.0.sqrt()), wbar: wbar.clone() }, nt_dense_block(eta_sq, &wbar))
        },
        Cone::Psd(_) => {
            let half = spectral(&smat(s), &|t| t.sqrt());
            let inner = product(&product(&half, &smat(z)), &half);
            let w = product(&product(&half, &spectral(&inner, &|t| 1.0 / t.sqrt())), &half);
            let d = s.len();
            let mut block = vec![0.0; d * d];
            for c in 0..d {
                let mut e = vec![0.0; d];
                e[c] = 1.0;
                let col = svec(&product(&product(&w, &smat(&e)), &w));
                for r in 0..d {
                    block[r * d + c] = col[r];
                }
            }
            let wh = dense_from(&spectral(&w, &|t| t.sqrt()));
            let wih = dense_from(&spectral(&w, &|t| 1.0 / t.sqrt()));
            (ConeScaling::Psd { wh, wih }, v(&block))
        },
    }
}

fn scaled(sc: &ConeScaling<F>, u: &[f64], inverse: bool) -> Vec<f64> {
    match sc {
        ConeScaling::NonNeg { w } => {
            u.iter().zip(w).map(|(a, b)| if inverse { a / b.0 } else { a * b.0 }).collect()
        },
        ConeScaling::Soc { eta, wbar } => {
            let w = plain(wbar);
            let inner: f64 = w[1..].iter().zip(&u[1..]).map(|(a, b)| a * b).sum();
            let sign = if inverse { -1.0 } else { 1.0 };
            let length = if inverse { 1.0 / eta.0 } else { eta.0 };
            (0..u.len())
                .map(|i| {
                    length * if i == 0 {
                        w[0] * u[0] + sign * inner
                    } else {
                        sign * u[0] * w[i] + u[i] + inner / (1.0 + w[0]) * w[i]
                    }
                })
                .collect()
        },
        ConeScaling::Psd { wh, wih } => {
            let g = square_of(if inverse { wih } else { wh });
            svec(&product(&product(&g, &smat(u)), &g))
        },
    }
}

fn jordan(cone: &Cone, a: &[f64], b: &[f64]) -> Vec<f64> {
    match cone {
        Cone::NonNeg(_) => a.iter().zip(b).map(|(x, y)| x * y).collect(),
        Cone::Soc(_) => (0..a.len())
            .map(|i| if i == 0 { a.iter().zip(b).map(|(x, y)| x * y).sum() } else { a[0] * b[i] + b[0] * a[i] })
            .collect(),
        Cone::Psd(_) => {
            let (x, y) = (smat(a), smat(b));
            let (p, q) = (product(&x, &y), product(&y, &x));
            let k = x.len();
            svec(&(0..k).map(|i| (0..k).map(|j| 0.5 * (p[i][j] + q[i][j])).collect()).collect())
        },
    }
}

/// The element whose product with `lam` is `b`.
fn divided(cone: &Cone, lam: &[f64], b: &[f64]) -> Vec<f64> {
    match cone {
        Cone::NonNeg(_) => b.iter().zip(lam).map(|(x, y)| x / y).collect(),
        Cone::Soc(_) => {
            let tail: f64 = lam[1..].iter().map(|t| t * t).sum();
            let inner: f64 = lam[1..].iter().zip(&b[1..]).map(|(x, y)| x * y).sum();
            let x0 = (lam[0] * b[0] - inner) / (lam[0] * lam[0] - tail);
            (0..b.len()).map(|i| if i == 0 { x0 } else { (b[i] - x0 * lam[i]) / lam[0] }).collect()
        },
        Cone::Psd(_) => {
            let (d, q) = eigen(&smat(lam));
            let k = d.len();
            let t: Square = (0..k).map(|i| (0..k).map(|j| q[j][i]).collect()).collect();
            let m = product(&product(&t, &smat(b)), &q);
            let x: Square = (0..k).map(|i| (0..k).map(|j| 2.0 * m[i][j] / (d[i] + d[j])).collect()).collect();
            svec(&product(&product(&q, &x), &t))
        },
    }
}

fn neutral(cone: &Cone) -> Vec<f64> {
    match cone {
        Cone::NonNeg(d) => vec![1.0; *d],
        Cone::Soc(d) => (0..*d).map(|i| if i == 0 { 1.0 } else { 0.0 }).collect(),
        Cone::Psd(k) => svec(&(0..*k).map(|i| (0..*k).map(|j| if i == j { 1.0 } else { 0.0 }).collect()).collect()),
    }
}

/// The element with its spectral values moved into a band.
fn clamped(cone: &Cone, u: &[f64], lo: f64, hi: f64) -> Vec<f64> {
    match cone {
        Cone::NonNeg(_) => u.iter().map(|t| t.max(lo).min(hi)).collect(),
        Cone::Soc(_) => {
            let nrm = u[1..].iter().map(|t| t * t).sum::<f64>().sqrt();
            let (a, b) = ((u[0] + nrm).max(lo).min(hi), (u[0] - nrm).max(lo).min(hi));
            if a == u[0] + nrm && b == u[0] - nrm {
                return u.to_vec();
            }
            (0..u.len())
                .map(|i| if i == 0 { 0.5 * (a + b) } else if nrm > 0.0 { 0.5 * (a - b) * u[i] / nrm } else { 0.0 })
                .collect()
        },
        Cone::Psd(_) => {
            let m = smat(u);
            if eigen(&m).0.iter().all(|t| *t >= lo && *t <= hi) {
                return u.to_vec();
            }
            svec(&spectral(&m, &|t| t.max(lo).min(hi)))
        },
    }
}

/// How far an element lies inside its cone.
fn margin(cone: &Cone, u: &[f64]) -> f64 {
    match cone {
        Cone::NonNeg(_) => u.iter().fold(f64::INFINITY, |a, b| a.min(*b)),
        Cone::Soc(_) => u[0] - u[1..].iter().map(|t| t * t).sum::<f64>().sqrt(),
        Cone::Psd(_) => eigen(&smat(u)).0.iter().fold(f64::INFINITY, |a, b| a.min(*b)),
    }
}

/// The longest step that stays in the cone, at most 10, by halving.
fn longest(cone: &Cone, u: &[f64], du: &[f64]) -> f64 {
    let inside = |a: f64| margin(cone, &u.iter().zip(du).map(|(x, y)| x + a * y).collect::<Vec<f64>>()) >= 0.0;
    if inside(10.0) {
        return 10.0;
    }
    let (mut lo, mut hi) = (0.0, 10.0);
    for _ in 0..80 {
        let mid = 0.5 * (lo + hi);
        if inside(mid) {
            lo = mid;
        } else {
            hi = mid;
        }
    }
    lo
}

fn rows_of(a: &DenseMatrix<F>) -> CscMatrix<F> {
    let mut c = CscMatrix { m: a.ncols, n: a.nrows, colptr: vec![0], rowval: vec![], nzval: vec![] };
    for r in 0..a.nrows {
        for j in 0..a.ncols {
            if a.get(r, j).0 != 0.0 {
                c.rowval.push(j);
                c.nzval.push(a.get(r, j));
            }
        }
        c.colptr.push(c.rowval.len());
    }
    c
}

/// The outside parts of the backends.
fn tools() -> ConicTools<
    impl Fn(Cone, &[F], &[F]) -> (ConeScaling<F>, Vec<F>),
    impl Fn(&CscMatrix<F>) -> Vec<usize>,
    impl Fn(&CscMatrix<F>, &[usize]) -> CscMatrix<F>,
    impl Fn(&DenseMatrix<F>, Method<F>) -> Option<Solve>,
    impl Fn(&DenseMatrix<F>) -> Solve,
    impl Fn(&[F], &[F]) -> (F, Vec<F>),
    impl Fn(&CscMatrix<F>, F) -> Option<Solve>,
    impl Fn(&[ConeScaling<F>], F) -> Solve,
> {
    ConicTools {
        scale: |c: Cone, s: &[F], z: &[F]| scale(&c, &plain(s), &plain(z)),
        order: |k: &CscMatrix<F>| reversed(k.n),
        permute: permute_upper,
        dense: factor_by,
        pivoted: factor_always,
        soc: |s: &[F], z: &[F]| soc_scaling(&plain(s), &plain(z)),
        sparse: factor_sparse,
        structure: |sc: &[ConeScaling<F>], shift: F| {
            let d = match &sc[0] {
                ConeScaling::Psd { wh, .. } => wh.nrows * (wh.nrows + 1) / 2,
                _ => unreachable!(),
            };
            let mut m = DenseMatrix::zeros(d, d);
            for c in 0..d {
                let mut e = vec![0.0; d];
                e[c] = 1.0;
                let col = scaled(&sc[0], &scaled(&sc[0], &e, false), false);
                for r in 0..d {
                    m.set(r, c, F(col[r] + if r == c { shift.0 } else { 0.0 }));
                }
            }
            factor_always(&m)
        },
    }
}

/// The algebra of the cones.
fn algebra() -> Algebra<
    impl Fn(Cone) -> Vec<F>,
    impl Fn(Cone, &[F], &[F]) -> F,
    impl Fn(&ConeScaling<F>, &[F], bool) -> Vec<F>,
    impl Fn(Cone, &[F], &[F]) -> Vec<F>,
    impl Fn(Cone, &[F], &[F]) -> Vec<F>,
    impl Fn(Cone, &[F], F, F) -> Vec<F>,
> {
    Algebra {
        identity: |c: Cone| v(&neutral(&c)),
        ratio: |c: Cone, u: &[F], du: &[F]| F(longest(&c, &plain(u), &plain(du))),
        apply: |sc: &ConeScaling<F>, u: &[F], inverse: bool| v(&scaled(sc, &plain(u), inverse)),
        multiply: |c: Cone, a: &[F], b: &[F]| v(&jordan(&c, &plain(a), &plain(b))),
        divide: |c: Cone, a: &[F], b: &[F]| v(&divided(&c, &plain(a), &plain(b))),
        displace: |c: Cone, u: &[F], lo: F, hi: F| {
            let band = clamped(&c, &plain(u), lo.0, hi.0);
            band.iter().zip(u).map(|(x, y)| F(x - y.0)).collect()
        },
    }
}

/// Solves a conic program, from a starting point where one is given.
fn solve_with(
    prob: &QpProblem<F>,
    cones: &[Cone],
    set: &Settings<F>,
    init: Option<&WarmStart<F>>,
) -> QpSolution<F> {
    let inside = |c: Cone, u: &[F]| F(margin(&c, &plain(u)));
    let none = |_: &BoxLp<F>| None;
    let (tools, al) = (tools(), algebra());
    match init {
        None => solve_cone_qp(prob, cones, set, &none, &inside, &tools, &al),
        Some(_) => solve_cone_qp_warm(prob, cones, set, init, &none, &inside, &tools, &al),
    }
}

fn solve(prob: &QpProblem<F>, cones: &[Cone]) -> QpSolution<F> {
    solve_with(prob, cones, &settings(), None)
}

fn settings() -> Settings<F> {
    Settings { eps_abs: F(1e-8), max_iters: 200, hsd: false, dualize: false, dualize_ratio: F(4.0), sparse_kkt: false }
}

fn matrix(rows: usize, cols: usize, data: &[f64]) -> DenseMatrix<F> {
    DenseMatrix::from_row_major(rows, cols, v(data))
}

fn diagonal(n: usize, t: f64) -> DenseMatrix<F> {
    let mut m = DenseMatrix::zeros(n, n);
    for i in 0..n {
        m.set(i, i, F(t));
    }
    m
}

fn problem(
    p: DenseMatrix<F>,
    q: Vec<F>,
    a_eq: DenseMatrix<F>,
    b_eq: Vec<F>,
    a_in: DenseMatrix<F>,
    b_in: Vec<F>,
) -> QpProblem<F> {
    QpProblem { p, q, a_eq, b_eq, a_in, b_in, a_eq_csr: None, a_in_csr: None }
}

#[test]
fn kronecker_sdp_min_eigenvalue() {
    let q = svec(&vec![vec![2.0, 1.0, 0.0], vec![1.0, 2.0, 0.0], vec![0.0, 0.0, 3.0]]);
    let m = 6;
    let trace = neutral(&Cone::Psd(3));
    let prob = problem(
        DenseMatrix::zeros(m, m),
        v(&q),
        matrix(1, m, &trace),
        v(&[1.0]),
        diagonal(m, -1.0),
        v(&vec![0.0; m]),
    );
    assert!(kron_transform(&prob, &[Cone::Psd(3)]).is_some());
    let sol = solve(&prob, &[Cone::Psd(3)]);
    assert_eq!(sol.status, Status::Solved, "iters={}", sol.iters);
    assert!((sol.obj_val.0 - 1.0).abs() < 1e-6, "obj={}", sol.obj_val.0);
}

fn boxed_lp() -> QpProblem<F> {
    problem(
        DenseMatrix::zeros(2, 2),
        v(&[-1.0, -1.0]),
        DenseMatrix::zeros(0, 2),
        v(&[]),
        matrix(4, 2, &[1.0, 0.0, 0.0, 1.0, -1.0, 0.0, 0.0, -1.0]),
        v(&[1.0, 1.0, 0.0, 0.0]),
    )
}

#[test]
fn nonneg_cones_match_bounded_lp() {
    let sol = solve(&boxed_lp(), &[Cone::Soc(1), Cone::Soc(1), Cone::Soc(1), Cone::Soc(1)]);
    assert_eq!(sol.status, Status::Solved);
    assert!((sol.x[0].0 - 1.0).abs() < 1e-6, "x0={}", sol.x[0].0);
    assert!((sol.x[1].0 - 1.0).abs() < 1e-6, "x1={}", sol.x[1].0);
}

#[test]
fn nonneg_cone_through_conic_path() {
    let n = 3;
    let prob = problem(
        diagonal(n, 1.0),
        v(&vec![-2.0; n]),
        DenseMatrix::zeros(0, n),
        v(&[]),
        diagonal(n, -1.0),
        v(&vec![0.0; n]),
    );
    let sol = solve(&prob, &[Cone::NonNeg(n)]);
    assert_eq!(sol.status, Status::Solved, "iters={}", sol.iters);
    for i in 0..n {
        assert!((sol.x[i].0 - 2.0).abs() < 1e-6, "x{}={}", i, sol.x[i].0);
    }
    assert!((sol.obj_val.0 - (-6.0)).abs() < 1e-5, "obj={}", sol.obj_val.0);
}

fn projection() -> QpProblem<F> {
    problem(
        diagonal(3, 1.0),
        v(&[-1.0, -2.0, -2.0]),
        DenseMatrix::zeros(0, 3),
        v(&[]),
        diagonal(3, -1.0),
        v(&[0.0, 0.0, 0.0]),
    )
}

#[test]
fn socp_projection_onto_cone() {
    let sol = solve(&projection(), &[Cone::Soc(3)]);
    assert_eq!(sol.status, Status::Solved, "iters={}", sol.iters);
    let nrm = (sol.x[1].0 * sol.x[1].0 + sol.x[2].0 * sol.x[2].0).sqrt();
    assert!((sol.x[0].0 - nrm).abs() < 1e-5);
    let expected_x0 = (1.0 + 2.0 * 2.0_f64.sqrt()) / 2.0;
    assert!((sol.x[0].0 - expected_x0).abs() < 1e-5, "x0={} exp={}", sol.x[0].0, expected_x0);
}

/// Every backend gives the step of the dense one.
fn agree(prob: &QpProblem<F>, cones: &[Cone], s: &[f64], z: &[f64], rows: &[(usize, usize)]) {
    let (n, me, mi) = (prob.q.len(), prob.b_eq.len(), prob.b_in.len());
    let offsets = cone_offsets(cones);
    let (eq_rows, in_rows) = (rows_of(&prob.a_eq), rows_of(&prob.a_in));
    let identities = identities_of(cones, &algebra());
    let c = ConicSetting {
        prob,
        cones,
        offsets: &offsets,
        identities: &identities,
        ain: Form::Rows,
        eq_csr: Some(&eq_rows),
        in_csr: Some(&in_rows),
        degree: F(total_degree(cones) as f64),
        p_diag: prob.p.is_diagonal(),
    };
    let it = Iterate { x: v(&vec![0.1; n]), y: v(&vec![0.2; me]), s: v(s), z: v(z) };
    let gap: f64 = s.iter().zip(z).map(|(a, b)| a * b).sum();
    let r = Residuals {
        r_d: (0..n).map(|i| F(0.3 - 0.1 * i as f64)).collect(),
        r_b: (0..me).map(|i| F(0.2 + 0.1 * i as f64)).collect(),
        r_h: (0..mi).map(|i| F(0.1 * (i as f64 + 1.0))).collect(),
        mu: F(gap / total_degree(cones) as f64),
        min_sz: F(0.1),
        rel: F(1.0),
        nb: F(0.2),
    };
    let (tools, al) = (tools(), algebra());
    let (sc, blocks) = scale_cones(cones, &offsets, &it.s, &it.z, &tools.scale, &tools.soc);
    let t = ConicMoment { it: &it, r: &r, sc: &sc, blocks: &blocks, rho: F(1e-7), delta: F(1e-7), short: 0 };
    let chosen = plan_conic(&c, false, &sc, &blocks, F(1e-7), F(1e-7), &tools.order, &tools.permute);
    let aux: usize = cones.iter().map(|k| if matches!(k, Cone::Soc(d) if *d >= 2) { 2 } else { 0 }).sum();
    let mut plans = vec![
        chosen,
        ConicPlan::Condensed { scratch: CondensedScratch::new(prob, cones, &offsets), dense_schur: false },
        ConicPlan::Condensed { scratch: CondensedScratch::new(prob, cones, &offsets), dense_schur: true },
        ConicPlan::Arrow { perm: reversed(n + me + mi + aux) },
    ];
    if rows.len() > 0 {
        plans.push(ConicPlan::Folded { rows: rows.to_vec(), perm: reversed(n + me + mi - rows.len()) });
    }
    let (d, k) = conic_plan_newton(&c, &t, &ConicPlan::Dense, &tools, &al).expect("a step");
    for plan in plans.iter() {
        let (e, l) = conic_plan_newton(&c, &t, plan, &tools, &al).expect("a step");
        assert_eq!(k, l);
        assert!((d.ap.0 - e.ap.0).abs() < 1e-5 && (d.ad.0 - e.ad.0).abs() < 1e-5);
        for (a, b) in d.d.x.iter().zip(&e.d.x).chain(d.d.s.iter().zip(&e.d.s)).chain(d.d.z.iter().zip(&e.d.z)) {
            assert!((a.0 - b.0).abs() < 1e-5 * (1.0 + a.0.abs()), "{} {}", a.0, b.0);
        }
    }
}

#[test]
fn every_backend_gives_the_same_step() {
    agree(&projection(), &[Cone::Soc(3)], &[2.0, 0.3, -0.5], &[1.5, -0.2, 0.4], &[]);
    let rows = [(0, 0), (1, 1), (2, 0), (3, 1)];
    let mut boxed = boxed_lp();
    boxed.p = diagonal(2, 0.5);
    agree(&boxed, &[Cone::NonNeg(4)], &[0.5, 1.0, 1.5, 2.0], &[1.0, 0.5, 0.7, 0.3], &rows);
}

/// The verdict on an iterate that is far from the tolerances.
fn verdict(prob: &QpProblem<F>, cones: &[Cone], x: &[f64], z: &[f64]) -> Verdict {
    let point = || Iterate { x: v(x), y: v(&vec![0.0; prob.b_eq.len()]), s: v(&vec![1.0; z.len()]), z: v(z) };
    let r = Residuals {
        r_d: v(&vec![1.0; x.len()]),
        r_b: v(&vec![1.0; prob.b_eq.len()]),
        r_h: v(&vec![1.0; z.len()]),
        mu: F(1.0),
        min_sz: F(1.0),
        rel: F(1.0),
        nb: F(1.0),
    };
    let mut st = ConicState {
        best: point(),
        best_err: F(f64::INFINITY),
        outside: 0,
        reg: initial_regularization(cones),
        prev_rel: F(0.0),
        prev_nb: F(0.0),
        prev_mu: F(0.0),
        short_steps: 0,
    };
    let acc = Access { p_diagonal: false, eq: Form::Dense, ain: Form::Dense };
    let inside = |c: Cone, u: &[F]| F(margin(&c, &plain(u)));
    judge(prob, &acc, None, None, cones, &cone_offsets(cones), &inside, F(1e-8), &point(), &r, &mut st)
}

#[test]
fn infeasibility_takes_a_certificate_in_the_cone() {
    // x <= -1 and x >= 1: with z = (1, 1) the rows cancel and the right-hand sides add up to -2.
    let with = |b: [f64; 2]| {
        problem(
            DenseMatrix::zeros(1, 1),
            v(&[0.0]),
            DenseMatrix::zeros(0, 1),
            v(&[]),
            matrix(2, 1, &[1.0, -1.0]),
            v(&b),
        )
    };
    let cones = [Cone::NonNeg(2)];
    let infeasible = Verdict::Restore(Status::PrimalInfeasible);
    assert_eq!(verdict(&with([-1.0, -1.0]), &cones, &[0.0], &[1e13, 1e13]), infeasible);
    // x <= 1 and x >= -1 has solutions, though the multipliers are as large.
    assert_eq!(verdict(&with([1.0, 1.0]), &cones, &[0.0], &[1e13, 1e13]), Verdict::Continue);
    // Multipliers outside of the cone prove nothing.
    assert_eq!(verdict(&with([1.0, 1.0]), &cones, &[0.0], &[-1e13, -1e13]), Verdict::Continue);
    // The same rows as a second-order cone: (-1 - x, -1 + x) is never in it, as (1, 1) shows.
    assert_eq!(verdict(&with([-1.0, -1.0]), &[Cone::Soc(2)], &[0.0], &[1e13, 1e13]), infeasible);
}

#[test]
fn a_ray_has_to_stay_in_the_cone() {
    let with = |rows: [f64; 2]| {
        problem(
            DenseMatrix::zeros(1, 1),
            v(&[-1.0]),
            DenseMatrix::zeros(0, 1),
            v(&[]),
            matrix(2, 1, &rows),
            v(&[0.0, 0.0]),
        )
    };
    let unbounded = Verdict::Accept(Status::DualInfeasible);
    let (soc, orthant) = ([Cone::Soc(2)], [Cone::NonNeg(2)]);
    // The slacks move along (1, 0), which both cones hold.
    assert_eq!(verdict(&with([-1.0, 0.0]), &soc, &[1e7], &[1.0, 0.0]), unbounded);
    assert_eq!(verdict(&with([-1.0, 0.0]), &orthant, &[1e7], &[1.0, 0.0]), unbounded);
    // Along (0, 1) they stay in the orthant and leave the second-order cone.
    assert_eq!(verdict(&with([0.0, -1.0]), &soc, &[1e7], &[1.0, 0.0]), Verdict::Continue);
    assert_eq!(verdict(&with([0.0, -1.0]), &orthant, &[1e7], &[1.0, 0.0]), unbounded);
}

#[test]
fn a_refused_conic_start_is_a_cold_start() {
    let prob = projection();
    let cones = [Cone::Soc(3)];
    let inside = |c: Cone, u: &[F]| F(margin(&c, &plain(u)));
    let none = |_: &BoxLp<F>| None;
    let from = |ws: &WarmStart<F>| {
        solve_cone_qp_warm(&prob, &cones, &settings(), Some(ws), &none, &inside, &tools(), &algebra())
    };
    let cold = solve(&prob, &cones);
    let seed = |x: &[f64], s: &[f64], z: &[f64]| WarmStart { x: v(x), s: v(s), z: v(z) };
    let ok = [2.0, 0.0, 0.0];
    let refused = [
        // Another length.
        seed(&[2.0, 0.0], &ok, &ok),
        // An entry that is not finite.
        seed(&ok, &ok, &[f64::NAN, 0.0, 0.0]),
        // A row of A x + s = b that does not hold.
        seed(&ok, &[3.0, 0.0, 0.0], &ok),
        // A block that stays outside of its cone.
        seed(&[-2.0, 0.0, 0.0], &[-2.0, 0.0, 0.0], &ok),
    ];
    for ws in &refused {
        let sol = from(ws);
        assert_eq!((sol.status, sol.iters, &sol.x, &sol.z), (cold.status, cold.iters, &cold.x, &cold.z));
    }
    let used = from(&seed(&ok, &ok, &ok));
    assert_eq!(used.status, Status::Solved);
    assert!(used.x != cold.x, "the start leaves a trace");
}

#[test]
fn sdp_psd_projection() {
    let c = svec(&vec![vec![1.0, 2.0], vec![2.0, 1.0]]);
    let m = c.len();
    let q: Vec<f64> = c.iter().map(|t| -t).collect();
    let prob = problem(
        diagonal(m, 1.0),
        v(&q),
        DenseMatrix::zeros(0, m),
        v(&[]),
        diagonal(m, -1.0),
        v(&vec![0.0; m]),
    );
    let sol = solve(&prob, &[Cone::Psd(2)]);
    assert_eq!(sol.status, Status::Solved, "iters={}", sol.iters);
    for row in smat(&plain(&sol.x)).iter() {
        for t in row.iter() {
            assert!((t - 1.5).abs() < 1e-4, "{}", t);
        }
    }
}

#[test]
fn shape1_socp_centering_floor_converges() {
    for seed in [9u64, 19u64] {
        let mut rng = Draws(seed);
        let (n, n_cones, cone_dim) = (12usize, 5usize, 4usize);
        let mut l = vec![vec![0.0; n]; n];
        for i in 0..n {
            for j in 0..n {
                l[i][j] = rng.signed();
            }
        }
        let mut p = DenseMatrix::zeros(n, n);
        for i in 0..n {
            for j in 0..n {
                let acc: f64 = (0..n).map(|t| l[i][t] * l[j][t]).sum();
                p.set(i, j, F(acc / n as f64 + if i == j { 1.0 } else { 0.0 }));
            }
        }
        let q: Vec<F> = (0..n).map(|_| F(rng.signed())).collect();
        let m = n_cones * cone_dim;
        let mut a_in = DenseMatrix::zeros(m, n);
        for r in 0..m {
            for j in 0..n {
                a_in.set(r, j, F(rng.signed()));
            }
        }
        let x0: Vec<F> = (0..n).map(|_| F(rng.signed())).collect();
        let ax = a_in.matvec(&x0);
        let mut b_in = vec![0.0; m];
        for c in 0..n_cones {
            let off = c * cone_dim;
            let tail: Vec<f64> = (1..cone_dim).map(|_| 0.3 * rng.signed()).collect();
            let nrm: f64 = tail.iter().map(|t| t * t).sum();
            b_in[off] = ax[off].0 + nrm.sqrt() + 1.0;
            for (i, &ti) in tail.iter().enumerate() {
                b_in[off + 1 + i] = ax[off + 1 + i].0 + ti;
            }
        }
        let prob = problem(p, q, DenseMatrix::zeros(0, n), v(&[]), a_in, v(&b_in));
        let cones = vec![Cone::Soc(cone_dim); n_cones];
        let sol = solve(&prob, &cones);
        assert_eq!(sol.status, Status::Solved, "seed {}: iters={}", seed, sol.iters);
        assert!(sol.iters <= 12, "seed {}: iters={}", seed, sol.iters);
        assert!(sol.obj_val.0.is_finite());
    }
}

#[test]
fn warm_start_conic_exactness() {
    let mut lcg = Draws(2026);
    let n = 20usize;
    let mut a_in = DenseMatrix::zeros(12, n);
    let mut b_in = vec![0.0; 12];
    for r in 0..12 {
        for j in 0..n {
            a_in.set(r, j, F(lcg.signed()));
        }
    }
    for c in 0..4usize {
        let o = c * 3;
        let tail: Vec<f64> = (1..3).map(|_| 0.4 * lcg.signed()).collect();
        let nrm = tail.iter().map(|&t| t * t).sum::<f64>().sqrt();
        b_in[o] = nrm + 2.0;
        for (i, &t) in tail.iter().enumerate() {
            b_in[o + 1 + i] = t;
        }
    }
    let q: Vec<F> = (0..n).map(|_| F(lcg.signed())).collect();
    let prob = problem(diagonal(n, 1.0), q.clone(), DenseMatrix::zeros(0, n), v(&[]), a_in.duplicate(), v(&b_in));
    let cones = vec![Cone::Soc(3); 4];
    let base = solve(&prob, &cones);
    assert_eq!(base.status, Status::Solved);
    let seed = WarmStart { x: base.x.clone(), s: base.s.clone(), z: base.z.clone() };
    let scale = b_in.iter().fold(0.0f64, |a, &t| a.max(t.abs()));
    for (i, t) in b_in.iter_mut().enumerate() {
        *t += 1e-4 * scale * if i % 2 == 0 { 1.0 } else { -1.0 };
    }
    let pert = problem(diagonal(n, 1.0), q, DenseMatrix::zeros(0, n), v(&[]), a_in, v(&b_in));
    let cold = solve(&pert, &cones);
    let warm = solve_with(&pert, &cones, &settings(), Some(&seed));
    assert_eq!(warm.status, cold.status);
    let tol = 1e-8 * cold.obj_val.0.abs().max(1.0);
    assert!((warm.obj_val.0 - cold.obj_val.0).abs() <= tol, "{} vs {}", warm.obj_val.0, cold.obj_val.0);
    assert!(warm.iters <= cold.iters, "{} vs {}", warm.iters, cold.iters);
    let mut bad = WarmStart { x: seed.x.clone(), s: seed.s.clone(), z: seed.z.clone() };
    bad.s[0] = F(plain(&bad.s[1..3]).iter().fold(0.0f64, |a, &t| a.max(t.abs())));
    let fallback = solve_with(&pert, &cones, &settings(), Some(&bad));
    assert_eq!(fallback.iters, cold.iters);
    assert_eq!(fallback.obj_val, cold.obj_val);
}

#[test]
fn a_failing_conic_factorization_is_a_numerical_error() {
    let n = 60usize;
    let prob = problem(
        diagonal(n, 1.0),
        v(&vec![-1.0; n]),
        DenseMatrix::zeros(0, n),
        v(&[]),
        diagonal(n, 1.0),
        v(&vec![0.5; n]),
    );
    let cones = [Cone::NonNeg(n)];
    let solved = solve(&prob, &cones);
    assert_eq!(solved.status, Status::Solved);
    assert!(solved.x.iter().all(|x| (x.0 - 0.5).abs() < 1e-6));
    let good = tools();
    let tools = ConicTools {
        scale: good.scale,
        order: good.order,
        permute: good.permute,
        dense: good.dense,
        pivoted: good.pivoted,
        soc: good.soc,
        sparse: |_: &CscMatrix<F>, _: F| None::<Solve>,
        structure: good.structure,
    };
    let al = algebra();
    let sol = solve_cone_qp(
        &prob,
        &cones,
        &settings(),
        &|_: &BoxLp<F>| None,
        &|_: Cone, _: &[F]| F(0.0),
        &tools,
        &al,
    );
    assert_eq!(sol.status, Status::NumericalError);
}

#[test]
fn an_entry_that_is_not_finite_is_a_failure() {
    let eye = || diagonal(1, 1.0);
    let prob = problem(eye(), v(&[0.0]), eye(), v(&[1.0]), eye(), v(&[2.0]));
    for bad in 0..5usize {
        let at = |k: usize| v(&[if k == bad { f64::NAN } else { 1.0 }]);
        let it = Iterate { x: at(0), y: at(1), s: at(2), z: at(3) };
        let sol = conclude(&prob, true, it, Status::Solved, 7, None);
        assert_eq!(sol.status, if bad == 4 { Status::Solved } else { Status::NumericalError });
        assert_eq!(sol.iters, 7);
    }
}

#[test]
fn no_iterations_leave_the_start() {
    let set = Settings { max_iters: 0, ..settings() };
    let sol = solve_with(&boxed_lp(), &[Cone::NonNeg(4)], &set, None);
    assert!(sol.status != Status::Solved, "{:?}", sol.status);
}

/// Solves through the low-rank form of the Hessian, which `detect` finds.
fn solve_lowrank(
    prob: &QpProblem<F>,
    known: &mut Searches<F>,
    detect: &impl Fn(&DenseMatrix<F>, F, usize) -> Option<LowRankDiag<F>>,
) -> Option<QpSolution<F>> {
    let inside = |c: Cone, u: &[F]| F(margin(&c, &plain(u)));
    let none = |_: &BoxLp<F>| None;
    solve_qp_lowrank(prob, &settings(), known, detect, &none, &inside, &tools(), &algebra())
}

#[test]
fn lowrank_cvxpy_branch_rejects_offdiag_p() {
    let n = 100usize;
    let me = 64usize;
    let mut p: DenseMatrix<F> = DenseMatrix::zeros(n, n);
    let mut rnd = Draws(7);
    let pairs = n * (n - 1) / 2;
    let target = (0.4 * pairs as f64) as usize;
    let mut placed = 0usize;
    while placed < target {
        let i = ((rnd.signed().abs() * n as f64) as usize) % n;
        let j = ((rnd.signed().abs() * n as f64) as usize) % n;
        if i != j && p.get(i, j).0 == 0.0 {
            let t = F(rnd.signed());
            p.set(i, j, t);
            p.set(j, i, t);
            placed += 1;
        }
    }
    for i in 0..n {
        p.set(i, i, F(1.0 + rnd.signed().abs()));
    }
    let mut a_eq = DenseMatrix::zeros(me, n);
    for r in 0..5 {
        for j in 0..n {
            a_eq.set(r, j, F(rnd.signed()));
        }
    }
    let prob = problem(p, v(&vec![0.0; n]), a_eq, v(&vec![0.0; me]), DenseMatrix::zeros(0, n), v(&[]));
    assert_eq!(lowrank_source(&prob), LowRankSource::Equalities);
    let detect = |_: &DenseMatrix<F>, _: F, _: usize| unreachable!();
    assert!(solve_lowrank(&prob, &mut Searches::new(), &detect).is_none());
}

#[test]
fn dense_p_lowrank_detection_is_negatively_cached() {
    let n = 64usize;
    let mut p = DenseMatrix::zeros(n, n);
    for i in 0..n {
        for j in 0..n {
            let r = ((i * 7919 + j * 104729) % 97) as f64 / 97.0;
            p.set(i, j, F(0.5 + 0.01 * r));
        }
    }
    for i in 0..n {
        for j in 0..i {
            let t = p.get(i, j);
            p.set(j, i, t);
        }
    }
    let prob = problem(
        p,
        v(&vec![0.0; n]),
        DenseMatrix::zeros(0, n),
        v(&[]),
        DenseMatrix::zeros(0, n),
        v(&[]),
    );
    let ph = hash_p(&prob.p);
    let mut known = Searches::new();
    assert!(!lr_was_rejected(&known.rejected, ph));
    let searches = Cell::new(0);
    let search = |_: &DenseMatrix<F>, tolerance: F, cap: usize| {
        assert_eq!(tolerance, F(1e-10));
        assert_eq!(cap, rank_cap(n));
        searches.set(searches.get() + 1);
        None
    };
    assert!(solve_lowrank(&prob, &mut known, &search).is_none());
    assert!(lr_cache_lookup(&known.found, ph).is_some() || lr_was_rejected(&known.rejected, ph));
    assert!(solve_lowrank(&prob, &mut known, &search).is_none());
    assert_eq!(searches.get(), 1);
}

#[test]
fn low_rank_form_gives_the_solution() {
    let (n, r) = (32usize, 3usize);
    let mut rnd = Draws(11);
    let l: Vec<f64> = (0..n * r).map(|_| rnd.signed()).collect();
    let d: Vec<f64> = (0..n).map(|_| 0.5 + rnd.signed().abs()).collect();
    let mut p = DenseMatrix::zeros(n, n);
    for i in 0..n {
        for j in 0..n {
            let dot: f64 = (0..r).map(|t| l[i * r + t] * l[j * r + t]).sum();
            p.set(i, j, F(dot + if i == j { d[i] } else { 0.0 }));
        }
    }
    let q: Vec<f64> = (0..n).map(|_| rnd.signed()).collect();
    let mut a_in = DenseMatrix::zeros(2 * n, n);
    for i in 0..n {
        a_in.set(i, i, F(1.0));
        a_in.set(n + i, i, F(-1.0));
    }
    let prob = problem(p, v(&q), DenseMatrix::zeros(0, n), v(&[]), a_in, v(&vec![0.3; 2 * n]));
    let detect = |_: &DenseMatrix<F>, tolerance: F, cap: usize| {
        assert_eq!(tolerance, F(1e-10));
        assert_eq!(cap, rank_cap(n));
        Some(LowRankDiag { l: matrix(n, r, &l), d: v(&d), rank: r, offdiag_rel: F(0.0) })
    };
    let sol = solve_lowrank(&prob, &mut Searches::new(), &detect).expect("a solution");
    let want = solve(&prob, &[Cone::NonNeg(2 * n)]);
    assert_eq!((sol.status, want.status), (Status::Solved, Status::Solved));
    assert!((sol.obj_val.0 - want.obj_val.0).abs() < 1e-6, "{} {}", sol.obj_val.0, want.obj_val.0);
    assert!(sol.x.iter().zip(&want.x).all(|(a, b)| (a.0 - b.0).abs() < 1e-4));
    assert_eq!((sol.x.len(), sol.s.len(), sol.z.len()), (n, 2 * n, 2 * n));
}
