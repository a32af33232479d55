use iconic_ipm::cone::Side;
use iconic_ipm::exp::{
    barrier, grad, grad_dual, grad_floored, hess, hess_dual, hess_floored, in_cone,
    in_dual_cone, margin, max_step, max_step_dual, psi, scaling_point, step_closed, w0_positive,
    w_negative_roots, wright_omega, ExpMargin,
};
use iconic_ipm::Scalar;

/// A double as the number type of the library.
#[derive(Clone, Copy, Debug, PartialEq, PartialOrd)]
struct F(f64);

impl Scalar for F {
    fn zero() -> Self {
        F(0.0)
    }
    fn spec_zero() -> Self {
        Self::zero()
    }
    fn one() -> Self {
        F(1.0)
    }
    fn spec_one() -> Self {
        Self::one()
    }
    fn infinity() -> Self {
        F(f64::INFINITY)
    }
    fn spec_infinity() -> Self {
        Self::infinity()
    }
    fn from_usize(k: usize) -> Self {
        F(k as f64)
    }
    fn spec_from_usize(k: usize) -> Self {
        Self::from_usize(k)
    }
    fn decimal(digits: u64, places: u64) -> Self {
        F(format!("{}e-{}", digits, places).parse().unwrap())
    }
    fn spec_decimal(digits: u64, places: u64) -> Self {
        Self::decimal(digits, places)
    }
    fn plus(self, o: Self) -> Self {
        F(self.0 + o.0)
    }
    fn spec_plus(self, o: Self) -> Self {
        Self::plus(self, o)
    }
    fn minus(self, o: Self) -> Self {
        F(self.0 - o.0)
    }
    fn spec_minus(self, o: Self) -> Self {
        Self::minus(self, o)
    }
    fn times(self, o: Self) -> Self {
        F(self.0 * o.0)
    }
    fn spec_times(self, o: Self) -> Self {
        Self::times(self, o)
    }
    fn over(self, o: Self) -> Self {
        F(self.0 / o.0)
    }
    fn spec_over(self, o: Self) -> Self {
        Self::over(self, o)
    }
    fn max(self, o: Self) -> Self {
        F(self.0.max(o.0))
    }
    fn spec_max(self, o: Self) -> Self {
        Self::max(self, o)
    }
    fn min(self, o: Self) -> Self {
        F(self.0.min(o.0))
    }
    fn spec_min(self, o: Self) -> Self {
        Self::min(self, o)
    }
    fn powf(self, o: Self) -> Self {
        F(self.0.powf(o.0))
    }
    fn spec_powf(self, o: Self) -> Self {
        Self::powf(self, o)
    }
    fn neg(self) -> Self {
        F(-self.0)
    }
    fn spec_neg(self) -> Self {
        Self::neg(self)
    }
    fn abs(self) -> Self {
        F(self.0.abs())
    }
    fn spec_abs(self) -> Self {
        Self::abs(self)
    }
    fn sqrt(self) -> Self {
        F(self.0.sqrt())
    }
    fn spec_sqrt(self) -> Self {
        Self::sqrt(self)
    }
    fn ln(self) -> Self {
        F(self.0.ln())
    }
    fn spec_ln(self) -> Self {
        Self::ln(self)
    }
    fn log10(self) -> Self {
        F(self.0.log10())
    }
    fn spec_log10(self) -> Self {
        Self::log10(self)
    }
    fn exp(self) -> Self {
        F(self.0.exp())
    }
    fn spec_exp(self) -> Self {
        Self::exp(self)
    }
    fn below(self, o: Self) -> bool {
        self.0 < o.0
    }
    fn spec_below(self, o: Self) -> bool {
        Self::below(self, o)
    }
    fn at_most(self, o: Self) -> bool {
        self.0 <= o.0
    }
    fn spec_at_most(self, o: Self) -> bool {
        Self::at_most(self, o)
    }
    fn equals(self, o: Self) -> bool {
        self.0 == o.0
    }
    fn spec_equals(self, o: Self) -> bool {
        Self::equals(self, o)
    }
    fn is_finite(self) -> bool {
        self.0.is_finite()
    }
    fn spec_is_finite(self) -> bool {
        Self::is_finite(self)
    }
    fn bits(self) -> u64 {
        self.0.to_bits()
    }
    fn spec_bits(self) -> u64 {
        Self::bits(self)
    }
    fn ceil_count(self) -> usize {
        self.0.ceil() as usize
    }
    fn spec_ceil_count(self) -> usize {
        Self::ceil_count(self)
    }
}

fn v(a: &[f64]) -> Vec<F> {
    a.iter().map(|&x| F(x)).collect()
}

fn f3(a: &[F; 3]) -> [f64; 3] {
    [a[0].0, a[1].0, a[2].0]
}

fn barrier_at(s: &[f64; 3]) -> f64 {
    barrier(&v(s)).0
}

fn grad_at(s: &[f64; 3]) -> [f64; 3] {
    f3(&grad(&v(s)))
}

fn hess_at(s: &[f64; 3]) -> [[f64; 3]; 3] {
    let h = hess(&v(s));
    [f3(&h[0]), f3(&h[1]), f3(&h[2])]
}

/// A bisection on the sign of an indicator, for rays that have no closed form.
fn bisect(inside: impl Fn(&[F]) -> bool, s: &[F], ds: &[F]) -> F {
    let pt = |a: f64| -> Vec<F> { (0..s.len()).map(|i| F(s[i].0 + a * ds[i].0)).collect() };
    let mut hi = 1.0;
    while inside(&pt(hi)) {
        hi *= 2.0;
        if hi > 1e10 {
            return F(1e10);
        }
    }
    let mut lo = 0.0;
    for _ in 0..60 {
        let mid = 0.5 * (lo + hi);
        if inside(&pt(mid)) {
            lo = mid;
        } else {
            hi = mid;
        }
    }
    F(lo)
}

fn primal_step(s: &[f64], ds: &[f64]) -> f64 {
    max_step(&v(s), &v(ds), |m: &ExpMargin, p: &[F], d: &[F]| bisect(|q| m.at(q).0 > 0.0, p, d)).0
}

fn dual_step(d: &[f64], dd: &[f64]) -> f64 {
    max_step_dual(&v(d), &v(dd), |m: &ExpMargin, p: &[F], q: &[F]| bisect(|x| m.at(x).0 > 0.0, p, q)).0
}

/// A small deterministic generator of numbers in `[0, 1)`.
struct Draws(u64);

impl Draws {
    fn unit(&mut self) -> f64 {
        self.0 = self.0.wrapping_mul(6364136223846793005).wrapping_add(1442695040888963407);
        ((self.0 >> 11) as f64) / ((1u64 << 53) as f64)
    }

    fn signed(&mut self) -> f64 {
        2.0 * self.unit() - 1.0
    }
}

#[test]
fn membership() {
    // (x,y,z) with y log(z/y) - x >= 0. Take y=1, z=e, x=0.5: psi = log(e) - 0.5 = 0.5.
    let e = std::f64::consts::E;
    assert!(in_cone(&v(&[0.5, 1.0, e]), F(1e-9)));
    assert!(!in_cone(&v(&[2.0, 1.0, e]), F(1e-9)));
    assert!(!in_cone(&v(&[0.0, -1.0, e]), F(1e-9)));
}

#[test]
fn gradient_matches_finite_difference() {
    let s = [0.3_f64, 1.2, 2.5];
    let g = grad_at(&s);
    let h = 1e-6;
    for k in 0..3 {
        let mut sp = s;
        let mut sm = s;
        sp[k] += h;
        sm[k] -= h;
        let fd = (barrier_at(&sp) - barrier_at(&sm)) / (2.0 * h);
        assert!((g[k] - fd).abs() < 1e-5, "grad[{k}]={} fd={fd}", g[k]);
    }
}

#[test]
fn hessian_matches_finite_difference() {
    let s = [0.3_f64, 1.2, 2.5];
    let hmat = hess_at(&s);
    let h = 1e-6;
    for a in 0..3 {
        for b in 0..3 {
            let mut sp = s;
            let mut sm = s;
            sp[b] += h;
            sm[b] -= h;
            let fd = (grad_at(&sp)[a] - grad_at(&sm)[a]) / (2.0 * h);
            assert!((hmat[a][b] - fd).abs() < 1e-4, "H[{a}][{b}]={} fd={fd}", hmat[a][b]);
        }
    }
}

#[test]
fn barrier_is_logarithmically_homogeneous() {
    // f(t s) = f(s) - nu log(t) with nu = 3.
    let s = [0.3_f64, 1.2, 2.5];
    let t = 2.0_f64;
    let ts = [t * s[0], t * s[1], t * s[2]];
    let nu = 3.0;
    assert!((barrier_at(&ts) - (barrier_at(&s) - nu * t.ln())).abs() < 1e-12);
}

#[test]
fn line_search_step_stays_in_cone() {
    let e = std::f64::consts::E;
    let s = [0.5_f64, 1.0, e];
    let ds = [1.0_f64, 0.0, -0.5];
    let a = primal_step(&s, &ds);
    assert!(a > 0.0 && a < 1e10, "step {a}");
    let inside = [s[0] + 0.99 * a * ds[0], s[1] + 0.99 * a * ds[1], s[2] + 0.99 * a * ds[2]];
    assert!(in_cone(&v(&inside), F(1e-9)), "0.99 a not in cone");
    let past = [s[0] + 1.01 * a * ds[0], s[1] + 1.01 * a * ds[1], s[2] + 1.01 * a * ds[2]];
    assert!(!in_cone(&v(&past), F(1e-9)), "1.01 a still in cone");
}

#[test]
fn dual_membership() {
    // -grad at an interior primal point lies in the interior of the dual cone.
    let s = [0.3_f64, 1.2, 2.5];
    let g = grad_at(&s);
    let d = [-g[0], -g[1], -g[2]];
    assert!(in_dual_cone(&v(&d), F(1e-9)), "-grad not in dual cone: {d:?}");
}

/// A high-precision bisection of the margin: the exact boundary crossing.
fn fine_bisect(s: &[f64], ds: &[f64], big: f64) -> f64 {
    let pt = |a: f64| [s[0] + a * ds[0], s[1] + a * ds[1], s[2] + a * ds[2]];
    let mut hi = 1.0;
    while margin(&v(&pt(hi))).0 > 0.0 {
        hi *= 2.0;
        if hi > big {
            return big;
        }
    }
    let mut lo = 0.0;
    for _ in 0..60 {
        let mid = 0.5 * (lo + hi);
        if margin(&v(&pt(mid))).0 > 0.0 {
            lo = mid;
        } else {
            hi = mid;
        }
    }
    lo
}

#[test]
fn closed_form_step_matches_bisection() {
    let mut rng = Draws(7);
    let big = 1e10;
    let mut checked = 0usize;
    let mut unbounded = 0usize;
    let mut worst: f64 = 0.0;
    for _ in 0..60000 {
        let y = 1e-3 + rng.unit() * 3.0;
        let z = 1e-3 + rng.unit() * 3.0;
        let psi0 = 1e-6 + rng.unit() * 2.0;
        let x = y * (z / y).ln() - psi0;
        let s = [x, y, z];
        let ds = if rng.unit() < 0.25 {
            [0.0, 0.0, -2.0 + rng.unit() * 4.0]
        } else {
            [rng.signed(), rng.signed(), rng.signed()]
        };
        let closed = primal_step(&s, &ds);
        let want = fine_bisect(&s, &ds, big);
        if want >= big {
            unbounded += 1;
            assert!(closed >= big, "unbounded ray, closed={closed} s={s:?} ds={ds:?}");
            continue;
        }
        checked += 1;
        let err = (closed - want).abs() / want.max(1.0);
        worst = worst.max(err);
        assert!(err < 1e-8, "step mismatch: closed={closed} want={want} s={s:?} ds={ds:?}");
    }
    assert!(checked > 10000 && unbounded > 100, "sweep too small: {checked}/{unbounded}");
    assert!(worst < 1e-8, "worst step error {worst}");
}

#[test]
fn closed_form_dual_step_matches_bisection() {
    let mut rng = Draws(11);
    let big = 1e10;
    let e = std::f64::consts::E;
    let mut checked = 0usize;
    let mut unbounded = 0usize;
    let mut worst: f64 = 0.0;
    for _ in 0..60000 {
        let u = -0.05 - rng.unit() * 3.0;
        let w = 1e-3 + rng.unit() * 3.0;
        let gap = 1e-6 + rng.unit() * 1.5;
        let y = u * (w * e / -u).ln() + gap;
        let d = [u, y, w];
        let dd = [rng.signed(), rng.signed(), rng.signed()];
        let closed = dual_step(&d, &dd);
        let pt = |a: f64| [d[0] + a * dd[0], d[1] + a * dd[1], d[2] + a * dd[2]];
        let mut hi = 1.0;
        while in_dual_cone(&v(&pt(hi)), F(0.0)) {
            hi *= 2.0;
            if hi > big {
                break;
            }
        }
        let mut want = if hi > big { big } else { 0.0 };
        if want < big {
            let mut lo = 0.0;
            for _ in 0..60 {
                let mid = 0.5 * (lo + hi);
                if in_dual_cone(&v(&pt(mid)), F(0.0)) {
                    lo = mid;
                } else {
                    hi = mid;
                }
            }
            want = lo;
        }
        if want >= big {
            unbounded += 1;
            assert!(closed >= big, "unbounded dual ray, closed={closed} d={d:?} dd={dd:?}");
            continue;
        }
        checked += 1;
        let err = (closed - want).abs() / want.max(1.0);
        worst = worst.max(err);
        assert!(err < 1e-8, "dual step mismatch: closed={closed} want={want} d={d:?} dd={dd:?}");
    }
    assert!(checked > 10000 && unbounded > 100, "sweep too small: {checked}/{unbounded}");
    assert!(worst < 1e-8, "worst dual step error {worst}");
}

#[test]
fn lambert_w_roots() {
    // W0(1) = 0.5671432904097838: u + ln u = ln 1 = 0.
    let u = w0_positive(F(0.0)).expect("root").0;
    assert!((u - 0.5671432904097838).abs() < 1e-14, "W0(1)={u}");
    // W0(e) = 1.
    let u = w0_positive(F(1.0)).expect("root").0;
    assert!((u - 1.0).abs() < 1e-14, "W0(e)={u}");
    // W0(10) = 1.7455280027406994.
    let u = w0_positive(F(10.0_f64.ln())).expect("root").0;
    assert!((u - 1.7455280027406994).abs() < 1e-13, "W0(10)={u}");
    let a: f64 = -0.1;
    let (u0, um1) = w_negative_roots(F((-a).ln()));
    let (u0, um1) = (u0.0, um1.0);
    assert!(u0 > -1.0 && u0 < 0.0, "W0(-0.1)={u0}");
    assert!(um1 < -1.0, "W-1(-0.1)={um1}");
    for u in [u0, um1] {
        assert!((u * u.exp() - a).abs() < 1e-13, "u e^u={} want {a} (u={u})", u * u.exp());
    }
    // W-1(-0.1) = -3.577152063957297.
    assert!((um1 - (-3.577152063957297)).abs() < 1e-13, "W-1(-0.1)={um1}");
    // Branch point: both roots coincide at -1.
    let (u0, um1) = w_negative_roots(F(-1.0));
    assert!((u0.0 + 1.0).abs() < 1e-14 && (um1.0 + 1.0).abs() < 1e-14, "branch point: {u0:?} {um1:?}");
    // Large positive argument.
    let c = 1e6;
    let u = w0_positive(F(c)).expect("root").0;
    assert!((u + u.ln() - c).abs() < 1e-8 * c, "u+ln u={} want {c}", u + u.ln());
}

#[test]
fn scaling_point_secant_and_reproduction() {
    let mut rng = Draws(3);
    for _ in 0..20000 {
        let y = 0.05 + rng.unit() * 3.0;
        let z0 = 0.05 + rng.unit() * 3.0;
        let psi0 = 1e-4 + rng.unit() * 2.0;
        let x = y * (z0 / y).ln() - psi0;
        let s = [x, y, z0];
        let mu = 10f64.powf(-8.0 + rng.unit() * 10.0);
        let g = grad_at(&s);
        let z = [-mu * g[0], -mu * g[1], -mu * g[2]];
        let sbar = f3(&scaling_point(&v(&z), F(mu)).expect("central-path dual is interior"));
        assert!(
            (sbar[0] - s[0]).abs() < 1e-9 && (sbar[1] - s[1]).abs() < 1e-9 && (sbar[2] - s[2]).abs() < 1e-9,
            "reproduction failed: sbar={sbar:?} s={s:?}"
        );
        let h = hess_at(&sbar);
        let ms = [
            mu * (h[0][0] * sbar[0] + h[0][1] * sbar[1] + h[0][2] * sbar[2]),
            mu * (h[1][0] * sbar[0] + h[1][1] * sbar[1] + h[1][2] * sbar[2]),
            mu * (h[2][0] * sbar[0] + h[2][1] * sbar[1] + h[2][2] * sbar[2]),
        ];
        for i in 0..3 {
            assert!((ms[i] - z[i]).abs() < 1e-8 * mu.max(1.0), "secant failed at {i}: {} vs {}", ms[i], z[i]);
        }
    }
    assert!(scaling_point(&v(&[1.0, 0.0, 1.0]), F(1e-3)).is_none());
    assert!(scaling_point(&v(&[-1.0, 1.0, -1.0]), F(1e-3)).is_none());
    assert!(scaling_point(&v(&[-1.0, 1.0, 1e-12]), F(1e-3)).is_none());
    assert!(scaling_point(&v(&[-1.0, 1.0, 1.0]), F(0.0)).is_none());
}

#[test]
fn dual_barrier_matches_finite_difference_and_duality() {
    let fstar = |z: &[f64]| -> f64 {
        let (u, y, w) = (z[0], z[1], z[2]);
        let ps = y - u - u * (w / -u).ln();
        -ps.ln() - (-u).ln() - w.ln()
    };
    let gd = |z: &[f64; 3]| f3(&grad_dual(&v(z)));
    let mut rng = Draws(17);
    for _ in 0..5000 {
        let u = -0.02 - rng.unit() * 2.0;
        let w = 0.02 + rng.unit() * 2.0;
        let ps0 = 1e-3 + rng.unit() * 1.5;
        let y = u + u * (w / -u).ln() + ps0;
        let z = [u, y, w];
        let g = gd(&z);
        let h = 1e-6;
        for k in 0..3 {
            let mut zp = z;
            let mut zm = z;
            zp[k] += h;
            zm[k] -= h;
            let fd = (fstar(&zp) - fstar(&zm)) / (2.0 * h);
            let tol = 1e-4 * g[k].abs().max(fd.abs()).max(1.0);
            assert!((g[k] - fd).abs() < tol, "grad_dual[{k}]={} fd={fd} z={z:?}", g[k]);
        }
        let hd = hess_dual(&v(&z));
        let hmat = [f3(&hd[0]), f3(&hd[1]), f3(&hd[2])];
        for a in 0..3 {
            for b in 0..3 {
                let mut zp = z;
                let mut zm = z;
                zp[b] += h;
                zm[b] -= h;
                let fd = (gd(&zp)[a] - gd(&zm)[a]) / (2.0 * h);
                let tol = 1e-4 * hmat[a][b].abs().max(fd.abs()).max(1.0);
                assert!((hmat[a][b] - fd).abs() < tol, "hess_dual[{a}][{b}]={} fd={fd}", hmat[a][b]);
            }
        }
        for i in 0..3 {
            let mut acc = 0.0;
            for j in 0..3 {
                acc += hmat[i][j] * z[j];
            }
            let zscale = z.iter().fold(1.0f64, |a, &x| a.max(x.abs()));
            assert!((acc + g[i]).abs() < 1e-8 * zscale, "H z = {acc} vs -g = {} at z={z:?}", -g[i]);
        }
        let t = 2.0 + rng.unit();
        let fz = fstar(&z);
        let ftz = fstar(&[t * z[0], t * z[1], t * z[2]]);
        assert!((ftz - (fz - 3.0 * t.ln())).abs() < 1e-10, "f*(t z)={ftz} (z={z:?}, t={t})");
    }
}

#[test]
fn wright_omega_roots() {
    let w = |l: f64| wright_omega(F(l)).expect("root").0;
    assert!((w(1.0) - 1.0).abs() < 1e-14);
    // omega + ln omega = 0 gives omega = W(1).
    assert!((w(0.0) - 0.5671432904097838).abs() < 1e-13);
    // W(10) = 1.7455280027406994 solves omega + ln omega = ln 10.
    assert!((w(10f64.ln()) - 1.7455280027406994).abs() < 1e-13);
    for l in [-5.0f64, -1.0, 0.5, 2.0, 10.0, 100.0, 1e6] {
        let o = w(l);
        assert!((o + o.ln() - l).abs() < 1e-9 * l.abs().max(1.0), "omega + ln omega = {} want {l}", o + o.ln());
        assert!(o > 0.0, "principal branch: w={o}");
    }
    assert!((w(0.5) + w(0.5).ln() - 0.5).abs() < 1e-12);
}

#[test]
fn floors_hold_the_barrier_derivatives() {
    let s = v(&[0.3, 1.2, 2.5]);
    // Above the floor nothing changes; below it the floor takes the place of psi.
    assert_eq!(f3(&grad_floored(&s, F(1e-9))), f3(&grad(&s)));
    let p = psi(&s).0;
    let floored = f3(&grad_floored(&s, F(10.0 * p)));
    assert_eq!(floored[0], 1.0 / (10.0 * p));
    assert_eq!(f3(&hess_floored(&s, F(1e-9))[1]), f3(&hess(&s)[1]));
    assert_eq!(hess_floored(&s, F(10.0 * p))[0][0].0, 1.0 / (10.0 * p * (10.0 * p)));
}

#[test]
fn hessians_are_mirrored() {
    let h = hess_at(&[0.3, 1.2, 2.5]);
    let d = hess_dual(&v(&[-0.5, 1.0, 0.7]));
    for a in 0..3 {
        for b in 0..3 {
            assert_eq!(h[a][b], h[b][a]);
            assert_eq!(d[a][b].0, d[b][a].0);
        }
    }
}

#[test]
fn closed_steps_are_validated() {
    // A ray that never leaves has no crossing, and the margin tells a point outside by its face.
    assert_eq!(margin(&v(&[0.0, -1.0, 2.0])).0, -1.0);
    assert_eq!(ExpMargin { side: Side::Dual }.at(&v(&[-1.0, 1.0, 1e-12])).0, 0.0);
    let e = std::f64::consts::E;
    let a = step_closed(&v(&[0.5, 1.0, e]), &v(&[1.0, 0.0, 0.0]), true).expect("a crossing").0;
    assert!((a - 0.5).abs() < 1e-12, "psi = 0.5 - a vanishes at 0.5, got {a}");
}
