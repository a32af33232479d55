use iconic_ipm::genpow::{
    barrier, dual_margin, grad, hess, in_cone, margin, max_step, max_step_dual, phi, PowMargin,
};
use iconic_ipm::Scalar;

/// A double as the number type of the library.
#[derive(Clone, Copy, Debug, PartialEq, PartialOrd)]
struct F(f64);

impl Scalar for F {
    fn zero() -> Self {
        F(0.0)
    }
    fn spec_zero() -> Self {
        Self::zero()
    }
    fn one() -> Self {
        F(1.0)
    }
    fn spec_one() -> Self {
        Self::one()
    }
    fn infinity() -> Self {
        F(f64::INFINITY)
    }
    fn spec_infinity() -> Self {
        Self::infinity()
    }
    fn from_usize(k: usize) -> Self {
        F(k as f64)
    }
    fn spec_from_usize(k: usize) -> Self {
        Self::from_usize(k)
    }
    fn decimal(digits: u64, places: u64) -> Self {
        F(format!("{}e-{}", digits, places).parse().unwrap())
    }
    fn spec_decimal(digits: u64, places: u64) -> Self {
        Self::decimal(digits, places)
    }
    fn plus(self, o: Self) -> Self {
        F(self.0 + o.0)
    }
    fn spec_plus(self, o: Self) -> Self {
        Self::plus(self, o)
    }
    fn minus(self, o: Self) -> Self {
        F(self.0 - o.0)
    }
    fn spec_minus(self, o: Self) -> Self {
        Self::minus(self, o)
    }
    fn times(self, o: Self) -> Self {
        F(self.0 * o.0)
    }
    fn spec_times(self, o: Self) -> Self {
        Self::times(self, o)
    }
    fn over(self, o: Self) -> Self {
        F(self.0 / o.0)
    }
    fn spec_over(self, o: Self) -> Self {
        Self::over(self, o)
    }
    fn max(self, o: Self) -> Self {
        F(self.0.max(o.0))
    }
    fn spec_max(self, o: Self) -> Self {
        Self::max(self, o)
    }
    fn min(self, o: Self) -> Self {
        F(self.0.min(o.0))
    }
    fn spec_min(self, o: Self) -> Self {
        Self::min(self, o)
    }
    fn powf(self, o: Self) -> Self {
        F(self.0.powf(o.0))
    }
    fn spec_powf(self, o: Self) -> Self {
        Self::powf(self, o)
    }
    fn neg(self) -> Self {
        F(-self.0)
    }
    fn spec_neg(self) -> Self {
        Self::neg(self)
    }
    fn abs(self) -> Self {
        F(self.0.abs())
    }
    fn spec_abs(self) -> Self {
        Self::abs(self)
    }
    fn sqrt(self) -> Self {
        F(self.0.sqrt())
    }
    fn spec_sqrt(self) -> Self {
        Self::sqrt(self)
    }
    fn ln(self) -> Self {
        F(self.0.ln())
    }
    fn spec_ln(self) -> Self {
        Self::ln(self)
    }
    fn log10(self) -> Self {
        F(self.0.log10())
    }
    fn spec_log10(self) -> Self {
        Self::log10(self)
    }
    fn exp(self) -> Self {
        F(self.0.exp())
    }
    fn spec_exp(self) -> Self {
        Self::exp(self)
    }
    fn below(self, o: Self) -> bool {
        self.0 < o.0
    }
    fn spec_below(self, o: Self) -> bool {
        Self::below(self, o)
    }
    fn at_most(self, o: Self) -> bool {
        self.0 <= o.0
    }
    fn spec_at_most(self, o: Self) -> bool {
        Self::at_most(self, o)
    }
    fn equals(self, o: Self) -> bool {
        self.0 == o.0
    }
    fn spec_equals(self, o: Self) -> bool {
        Self::equals(self, o)
    }
    fn is_finite(self) -> bool {
        self.0.is_finite()
    }
    fn spec_is_finite(self) -> bool {
        Self::is_finite(self)
    }
    fn bits(self) -> u64 {
        self.0.to_bits()
    }
    fn spec_bits(self) -> u64 {
        Self::bits(self)
    }
    fn ceil_count(self) -> usize {
        self.0.ceil() as usize
    }
    fn spec_ceil_count(self) -> usize {
        Self::ceil_count(self)
    }
}

fn v(a: &[f64]) -> Vec<F> {
    a.iter().map(|&x| F(x)).collect()
}

fn grad_at(s: &[f64], alpha: &[f64]) -> Vec<f64> {
    grad(&v(s), &v(alpha)).iter().map(|x| x.0).collect()
}

fn hess_at(s: &[f64], alpha: &[f64]) -> Vec<f64> {
    hess(&v(s), &v(alpha)).iter().map(|x| x.0).collect()
}

fn log_barrier(x: &[f64], alpha: &[f64]) -> f64 {
    let p = phi(&v(x), &v(alpha)).0;
    let mut acc = -p.ln();
    for i in 0..alpha.len() {
        acc -= (1.0 - alpha[i]) * x[i].ln();
    }
    acc
}

/// The three-dimensional power cone's own derivatives, written out.
fn pow_grad(s: &[f64; 3], a: f64) -> [f64; 3] {
    let p = s[0].powf(2.0 * a) * s[1].powf(2.0 * (1.0 - a));
    let f = p - s[2] * s[2];
    [
        -2.0 * a * p / (s[0] * f) - (1.0 - a) / s[0],
        -2.0 * (1.0 - a) * p / (s[1] * f) - a / s[1],
        2.0 * s[2] / f,
    ]
}

#[test]
fn reduces_to_pow_3d() {
    let alpha1 = 0.3_f64;
    let alpha = [alpha1, 1.0 - alpha1];
    let s = [0.5_f64, 0.8, 0.1];
    let phi_gen = phi(&v(&s), &v(&alpha)).0;
    let phi_pow = s[0].powf(2.0 * alpha1) * s[1].powf(2.0 * (1.0 - alpha1)) - s[2] * s[2];
    assert!((phi_gen - phi_pow).abs() < 1e-12);
    let g_gen = grad_at(&s, &alpha);
    let g_pow = pow_grad(&s, alpha1);
    for k in 0..3 {
        assert!((g_gen[k] - g_pow[k]).abs() < 1e-10, "grad[{k}] gen={} pow={}", g_gen[k], g_pow[k]);
    }
    let h_gen = hess_at(&s, &alpha);
    let h = 1e-6;
    for a in 0..3 {
        for b in 0..3 {
            let mut sp = s;
            let mut sm = s;
            sp[b] += h;
            sm[b] -= h;
            let fd = (pow_grad(&sp, alpha1)[a] - pow_grad(&sm, alpha1)[a]) / (2.0 * h);
            assert!((h_gen[a * 3 + b] - fd).abs() < 1e-4, "H[{a}][{b}] gen={} pow={fd}", h_gen[a * 3 + b]);
        }
    }
}

#[test]
fn test_membership() {
    let alpha = [0.2_f64, 0.3, 0.5];
    assert!(in_cone(&v(&[1.0, 1.0, 1.0, 0.0]), &v(&alpha), F(1e-9)));
    assert!(!in_cone(&v(&[1.0, 1.0, 1.0, 1.5]), &v(&alpha), F(1e-9)));
    assert!(!in_cone(&v(&[-1.0, 1.0, 1.0, 0.0]), &v(&alpha), F(1e-9)));
}

fn check_gradient(s: &[f64], alpha: &[f64]) {
    let g = grad_at(s, alpha);
    let h = 1e-6;
    for k in 0..s.len() {
        let mut sp = s.to_vec();
        let mut sm = s.to_vec();
        sp[k] += h;
        sm[k] -= h;
        let fd = (log_barrier(&sp, alpha) - log_barrier(&sm, alpha)) / (2.0 * h);
        assert!((g[k] - fd).abs() < 1e-5, "grad[{k}]={} fd={fd}", g[k]);
    }
}

fn check_hessian(s: &[f64], alpha: &[f64]) {
    let d = s.len();
    let hmat = hess_at(s, alpha);
    let h = 1e-6;
    for a in 0..d {
        for b in 0..d {
            let mut sp = s.to_vec();
            let mut sm = s.to_vec();
            sp[b] += h;
            sm[b] -= h;
            let fd = (grad_at(&sp, alpha)[a] - grad_at(&sm, alpha)[a]) / (2.0 * h);
            assert!((hmat[a * d + b] - fd).abs() < 1e-4, "H[{a}][{b}]={} fd={fd}", hmat[a * d + b]);
        }
    }
}

#[test]
fn test_gradient_fd_n3_m2() {
    check_gradient(&[0.6_f64, 0.9, 0.4, 0.15, -0.1], &[0.2_f64, 0.3, 0.5]);
}

#[test]
fn test_hessian_fd_n3_m2() {
    check_hessian(&[0.6_f64, 0.9, 0.4, 0.15, -0.1], &[0.2_f64, 0.3, 0.5]);
}

#[test]
fn test_gradient_hessian_fd_larger_instance() {
    let alpha = [0.1_f64, 0.15, 0.25, 0.5];
    let s = [1.3_f64, 0.7, 2.1, 0.55, 0.3, -0.2, 0.1];
    check_gradient(&s, &alpha);
    check_hessian(&s, &alpha);
}

#[test]
fn margins_and_barrier_by_hand() {
    let alpha = v(&[0.5, 0.5]);
    // With both bases 2 and a tail of 1: phi = 2 * 2 - 1.
    let s = v(&[2.0, 2.0, 1.0]);
    assert!((phi(&s, &alpha).0 - 3.0).abs() < 1e-14);
    assert!((margin(&s, &alpha).0 - 2.0).abs() < 1e-14);
    assert_eq!(margin(&v(&[-1.0, 2.0, 1.0]), &alpha).0, -1.0);
    let want = -(3.0f64.ln()) - 0.5 * 2.0f64.ln() - 0.5 * 2.0f64.ln();
    assert!((barrier(&s, &alpha).0 - want).abs() < 1e-14);
    // The dual margin: sqrt(4 * 4) - 1 = 3.
    assert!((dual_margin(&s, &alpha).0 - 3.0).abs() < 1e-12);
    assert_eq!(dual_margin(&v(&[0.0, 2.0, 1.0]), &alpha).0, 0.0);
}

/// How far a ray stays where `inside` holds, by doubling and bisection.
fn bisect(inside: impl Fn(&[F]) -> bool, s: &[F], ds: &[F]) -> F {
    let pt = |a: f64| -> Vec<F> { (0..s.len()).map(|i| F(s[i].0 + a * ds[i].0)).collect() };
    let mut hi = 1.0;
    while inside(&pt(hi)) {
        hi *= 2.0;
        if hi > 1e10 {
            return F(1e10);
        }
    }
    let mut lo = 0.0;
    for _ in 0..60 {
        let mid = 0.5 * (lo + hi);
        if inside(&pt(mid)) {
            lo = mid;
        } else {
            hi = mid;
        }
    }
    F(lo)
}

fn search(m: &PowMargin<F>, s: &[F], ds: &[F]) -> F {
    bisect(|p| m.at(p).0 > 0.0, s, ds)
}

#[test]
fn test_step_stays_in_cone() {
    let alpha = v(&[0.4, 0.6]);
    let s = v(&[0.5, 0.5, 0.0]);
    let ds = v(&[0.1, 0.0, -0.1]);
    let a = max_step(&s, &ds, &alpha, search).0;
    assert!(a > 0.0 && a < 1e10);
    let inside: Vec<F> = (0..3).map(|i| F(s[i].0 + 0.99 * a * ds[i].0)).collect();
    assert!(in_cone(&inside, &alpha, F(1e-9)));
}

#[test]
fn dual_step_ends_at_the_dual_boundary() {
    // Along the tail alone the primal boundary is at the product of the bases' roots, and that of
    // the dual at the product of the bases over their exponents: 2 and 4 from the origin.
    let alpha = v(&[0.5, 0.5]);
    let s = v(&[2.0, 2.0, 0.0]);
    let ds = v(&[0.0, 0.0, 1.0]);
    assert!((max_step(&s, &ds, &alpha, search).0 - 2.0).abs() < 1e-12);
    assert!((max_step_dual(&s, &ds, &alpha, search).0 - 4.0).abs() < 1e-12);
}
