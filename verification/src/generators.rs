//! Exponential- and power-cone programs of fixed shape, for benchmarks and tests.
use crate::generator_laws::{
    corner, corner_is_projected, inner_point, inner_point_is_projected, maximizes_last, product_program_maximizes_last,
    projects,
};
use crate::matrix::DenseMatrix;
use crate::problem::QpProblem;
use crate::scalar::Scalar;
use crate::vector::{constant, filled};
use vstd::prelude::*;

verus! {

/// A cone block of a nonsymmetric program.
pub enum NsCone<T> {
    /// The exponential cone.
    Exp,
    /// The nonnegative orthant of a dimension.
    NonNeg(usize),
    /// The three-dimensional power cone of an exponent.
    Power(T),
    /// The generalized power cone of exponents and a tail dimension.
    GenPower(Vec<T>, usize),
}

/// The matrices of zeros fit.
pub open spec fn fits(rows: nat, cols: nat) -> bool {
    rows * cols <= usize::MAX
}

/// The rows of `n` entropy cones over `(x, t)`: `s = (t_i, x_i, 1)`.
pub open spec fn entropy_entry<T: Scalar>(n: nat) -> spec_fn(int, int) -> T {
    |r: int, c: int|
        if (r % 3 == 0 && c == n + r / 3) || (r % 3 == 1 && c == r / 3) {
            T::one().neg()
        } else {
            T::zero()
        }
}

/// The right-hand side of `n` entropy cones.
pub open spec fn entropy_rhs<T: Scalar>(n: nat) -> Seq<T> {
    Seq::new(
        3 * n,
        |r: int|
            if r % 3 == 2 {
                T::one()
            } else {
                T::zero()
            },
    )
}

/// The objective over `(x, t)` that maximizes the sum of `t`.
pub open spec fn entropy_cost<T: Scalar>(n: nat) -> Seq<T> {
    Seq::new(
        2 * n,
        |i: int|
            if i < n {
                T::zero()
            } else {
                T::one().neg()
            },
    )
}

/// The first equality row: the sum of `x`.
pub open spec fn simplex_entry<T: Scalar>(n: nat) -> spec_fn(int, int) -> T {
    |r: int, c: int|
        if c < n {
            T::one()
        } else {
            T::zero()
        }
}

/// The matrix is zero everywhere.
pub open spec fn nothing<T: Scalar>() -> spec_fn(int, int) -> T {
    |r: int, c: int| T::zero()
}

/// The cones are `n` exponential ones.
pub open spec fn all_exp<T>(cones: Seq<NsCone<T>>, n: nat) -> bool {
    cones.len() == n && forall|i: int| 0 <= i < n ==> (#[trigger] cones[i]) is Exp
}

/// The problem has no sparse rows.
pub open spec fn dense_only<T: Scalar>(prob: QpProblem<T>) -> bool {
    prob.a_eq_csr is None && prob.a_in_csr is None
}

proof fn lemma_thirds(r: int)
    ensures
        3 * (r / 3) + r % 3 == r,
        0 <= r % 3 < 3,
{
}

/// The rows of `n` entropy cones.
fn entropy_rows<T: Scalar>(n: usize) -> (r: (DenseMatrix<T>, Vec<T>))
    requires
        fits(3 * n as nat, 2 * n as nat),
        3 * n <= usize::MAX,
    ensures
        r.0.sized(3 * n as nat, 2 * n as nat),
        r.0.entries_are(entropy_entry(n as nat)),
        r.1@ == entropy_rhs::<T>(n as nat),
{
    let ghost f = entropy_entry::<T>(n as nat);
    let mut a: DenseMatrix<T> = DenseMatrix::zeros(3 * n, 2 * n);
    let mut b: Vec<T> = filled(T::zero(), 3 * n);
    let mut i: usize = 0;
    while i < n
        invariant
            3 * n <= usize::MAX,
            f == entropy_entry::<T>(n as nat),
            i <= n,
            a.sized(3 * n as nat, 2 * n as nat),
            b@.len() == 3 * n,
            forall|r: int, c: int|
                0 <= r < 3 * n && 0 <= c < 2 * n ==> #[trigger] a.at(r, c) == (if r < 3 * i {
                    f(r, c)
                } else {
                    T::zero()
                }),
            forall|r: int|
                0 <= r < 3 * n ==> #[trigger] b@[r] == (if r < 3 * i {
                    entropy_rhs::<T>(n as nat)[r]
                } else {
                    T::zero()
                }),
        decreases n - i,
    {
        let ghost before = a;
        a.set(3 * i, n + i, T::one().neg());
        a.set(3 * i + 1, i, T::one().neg());
        b[3 * i + 2] = T::one();
        i += 1;
        assert forall|r: int, c: int| 0 <= r < 3 * n && 0 <= c < 2 * n implies #[trigger] a.at(r, c) == (if r
            < 3 * i {
            f(r, c)
        } else {
            T::zero()
        }) by {
            lemma_thirds(r);
            assert(before.at(r, c) == (if r < 3 * (i - 1) {
                f(r, c)
            } else {
                T::zero()
            }));
        }
    }
    assert(b@ =~= entropy_rhs::<T>(n as nat));
    (a, b)
}

/// The objective that maximizes the sum of `t`.
fn entropy_objective<T: Scalar>(n: usize) -> (q: Vec<T>)
    requires
        2 * n <= usize::MAX,
    ensures
        q@ == entropy_cost::<T>(n as nat),
{
    let mut q: Vec<T> = filled(T::zero(), 2 * n);
    let mut i: usize = 0;
    while i < n
        invariant
            2 * n <= usize::MAX,
            i <= n,
            q@.len() == 2 * n,
            forall|j: int| 0 <= j < n + i ==> #[trigger] q@[j] == entropy_cost::<T>(n as nat)[j],
        decreases n - i,
    {
        q[n + i] = T::one().neg();
        i += 1;
    }
    assert(q@ =~= entropy_cost::<T>(n as nat));
    q
}

/// The equality rows that start with the sum of `x`.
fn simplex_rows<T: Scalar>(rows: usize, n: usize) -> (a: DenseMatrix<T>)
    requires
        1 <= rows,
        2 * n <= usize::MAX,
        fits(rows as nat, 2 * n as nat),
    ensures
        a.sized(rows as nat, 2 * n as nat),
        forall|r: int, c: int|
            0 <= r < rows && 0 <= c < 2 * n ==> #[trigger] a.at(r, c) == (if r == 0 {
                simplex_entry::<T>(n as nat)(r, c)
            } else {
                T::zero()
            }),
{
    let mut a: DenseMatrix<T> = DenseMatrix::zeros(rows, 2 * n);
    let mut i: usize = 0;
    while i < n
        invariant
            1 <= rows,
            2 * n <= usize::MAX,
            i <= n,
            a.sized(rows as nat, 2 * n as nat),
            forall|r: int, c: int|
                0 <= r < rows && 0 <= c < 2 * n ==> #[trigger] a.at(r, c) == (if r == 0 && c < i {
                    T::one()
                } else {
                    T::zero()
                }),
        decreases n - i,
    {
        a.set(0, i, T::one());
        i += 1;
    }
    a
}

fn exp_cones<T: Scalar>(n: usize) -> (cones: Vec<NsCone<T>>)
    ensures
        all_exp(cones@, n as nat),
{
    let mut cones: Vec<NsCone<T>> = Vec::with_capacity(n);
    let mut i: usize = 0;
    while i < n
        invariant
            i <= n,
            all_exp(cones@, i as nat),
        decreases n - i,
    {
        cones.push(NsCone::Exp);
        i += 1;
    }
    cones
}

proof fn lemma_entropy_sizes(n: nat)
    requires
        fits(3 * n, 2 * n),
    ensures
        fits(2 * n, 2 * n),
        fits(2, 2 * n),
        fits(1, 2 * n),
{
    assert(2 * n * (2 * n) <= 3 * n * (2 * n)) by (nonlinear_arith);
    if n > 0 {
        assert(2 * (2 * n) <= 2 * n * (2 * n)) by (nonlinear_arith)
            requires
                n >= 1,
        ;
    }
}

/// The entropy program's parts: the cones' rows, the simplex row and a zero Hessian.
pub open spec fn entropy_program<T: Scalar>(prob: QpProblem<T>, cones: Seq<NsCone<T>>, n: nat) -> bool {
    &&& prob.p.sized(2 * n, 2 * n)
    &&& prob.p.entries_are(nothing())
    &&& prob.q@.len() == 2 * n
    &&& prob.a_in.sized(3 * n, 2 * n)
    &&& prob.a_in.entries_are(entropy_entry(n))
    &&& prob.b_in@ == entropy_rhs::<T>(n)
    &&& dense_only(prob)
    &&& all_exp(cones, n)
}

/// The maximum-entropy program: maximize `-sum x_i log x_i` over the simplex. Its optimum is the
/// uniform distribution, with objective `-log n`.
pub fn max_entropy<T: Scalar>(n: usize) -> (r: (QpProblem<T>, Vec<NsCone<T>>))
    requires
        fits(3 * n as nat, 2 * n as nat),
        5 * n + 1 < usize::MAX,
    ensures
        r.0.wf(),
        entropy_program(r.0, r.1@, n as nat),
        r.0.q@ == entropy_cost::<T>(n as nat),
        r.0.a_eq.sized(1, 2 * n as nat),
        r.0.a_eq.entries_are(simplex_entry(n as nat)),
        r.0.b_eq@ == seq![T::one()],
{
    proof {
        lemma_entropy_sizes(n as nat);
    }
    let (a_in, b_in) = entropy_rows(n);
    let q = entropy_objective(n);
    let a_eq = simplex_rows(1, n);
    let p = DenseMatrix::zeros(2 * n, 2 * n);
    let mut b_eq: Vec<T> = Vec::with_capacity(1);
    b_eq.push(T::one());
    assert(b_eq@ =~= seq![T::one()]);
    let prob = QpProblem { p, q, a_eq, b_eq, a_in, b_in, a_eq_csr: None, a_in_csr: None };
    (prob, exp_cones(n))
}

/// The objective of the weighted entropy: `-ln w_i` on `x`, with `w_i = e^(skew i)`.
pub open spec fn weighted_cost<T: Scalar>(n: nat, skew: T) -> Seq<T> {
    Seq::new(
        2 * n,
        |i: int|
            if i < n {
                skew.times(T::from_usize(i as usize)).exp().ln().neg()
            } else {
                T::one().neg()
            },
    )
}

/// Maximizes `-sum x_i log(x_i / w_i)` over the simplex with `w_i = e^(skew i)`. The optimum is
/// proportional to `w`, with objective `-ln sum w_i`.
pub fn weighted_entropy<T: Scalar>(n: usize, skew: T) -> (r: (QpProblem<T>, Vec<NsCone<T>>))
    requires
        fits(3 * n as nat, 2 * n as nat),
        5 * n + 1 < usize::MAX,
    ensures
        r.0.wf(),
        entropy_program(r.0, r.1@, n as nat),
        r.0.q@ == weighted_cost(n as nat, skew),
        r.0.a_eq.sized(1, 2 * n as nat),
        r.0.a_eq.entries_are(simplex_entry(n as nat)),
        r.0.b_eq@ == seq![T::one()],
{
    let (mut prob, cones) = max_entropy(n);
    let mut i: usize = 0;
    while i < n
        invariant
            i <= n,
            5 * n + 1 < usize::MAX,
            prob.wf(),
            entropy_program(prob, cones@, n as nat),
            prob.a_eq.sized(1, 2 * n as nat),
            prob.a_eq.entries_are(simplex_entry(n as nat)),
            prob.b_eq@ == seq![T::one()],
            forall|j: int|
                0 <= j < 2 * n ==> #[trigger] prob.q@[j] == (if j < i {
                    weighted_cost(n as nat, skew)[j]
                } else {
                    entropy_cost::<T>(n as nat)[j]
                }),
        decreases n - i,
    {
        let w = skew.times(T::from_usize(i)).exp();
        prob.q[i] = w.ln().neg();
        i += 1;
    }
    assert(prob.q@ =~= weighted_cost(n as nat, skew));
    (prob, cones)
}

/// The second row of the moment program: `v_i = i / (n - 1)` on `x`.
pub open spec fn moment_entry<T: Scalar>(n: nat) -> spec_fn(int, int) -> T {
    |r: int, c: int|
        if c < n {
            if r == 0 {
                T::one()
            } else {
                T::from_usize(c as usize).over(T::from_usize(n as usize).minus(T::one()))
            }
        } else {
            T::zero()
        }
}

/// Maximizes the entropy over the simplex under the moment constraint `sum v_i x_i = c`.
pub fn moment_entropy<T: Scalar>(n: usize, c: T) -> (r: (QpProblem<T>, Vec<NsCone<T>>))
    requires
        fits(3 * n as nat, 2 * n as nat),
        5 * n + 2 < usize::MAX,
    ensures
        r.0.wf(),
        entropy_program(r.0, r.1@, n as nat),
        r.0.q@ == entropy_cost::<T>(n as nat),
        r.0.a_eq.sized(2, 2 * n as nat),
        r.0.a_eq.entries_are(moment_entry(n as nat)),
        r.0.b_eq@ == seq![T::one(), c],
{
    proof {
        lemma_entropy_sizes(n as nat);
    }
    let (a_in, b_in) = entropy_rows(n);
    let q = entropy_objective(n);
    let mut a_eq: DenseMatrix<T> = simplex_rows(2, n);
    let ghost f = moment_entry::<T>(n as nat);
    let mut i: usize = 0;
    while i < n
        invariant
            5 * n + 2 < usize::MAX,
            f == moment_entry::<T>(n as nat),
            i <= n,
            a_eq.sized(2, 2 * n as nat),
            forall|r: int, c: int|
                0 <= r < 2 && 0 <= c < 2 * n ==> #[trigger] a_eq.at(r, c) == (if r == 0 || c < i {
                    f(r, c)
                } else {
                    T::zero()
                }),
        decreases n - i,
    {
        a_eq.set(1, i, T::from_usize(i).over(T::from_usize(n).minus(T::one())));
        i += 1;
    }
    let p = DenseMatrix::zeros(2 * n, 2 * n);
    let mut b_eq: Vec<T> = Vec::with_capacity(2);
    b_eq.push(T::one());
    b_eq.push(c);
    assert(b_eq@ =~= seq![T::one(), c]);
    let prob = QpProblem { p, q, a_eq, b_eq, a_in, b_in, a_eq_csr: None, a_in_csr: None };
    (prob, exp_cones(n))
}

/// The rows of the boxed log-sum-exp program over `(x, t)`: `m` cones with
/// `s = (a_j'x + b_j, 1, t_j)`, then the box `-1 <= x_i <= 1`. `draws` holds, for each cone, the
/// coefficients of `x` and the offset.
pub open spec fn log_sum_entry<T: Scalar>(n: nat, m: nat, scale: T, draws: Seq<T>) -> spec_fn(int, int) -> T {
    |r: int, c: int|
        if r < 3 * m {
            if r % 3 == 0 && c < n {
                draws[(r / 3) * (n + 1) + c].neg().times(scale)
            } else if r % 3 == 2 && c == n + r / 3 {
                T::one().neg()
            } else {
                T::zero()
            }
        } else if c == (r - 3 * m) / 2 {
            if (r - 3 * m) % 2 == 0 {
                T::one()
            } else {
                T::one().neg()
            }
        } else {
            T::zero()
        }
}

/// The right-hand side of the boxed log-sum-exp program.
pub open spec fn log_sum_rhs<T: Scalar>(n: nat, m: nat, draws: Seq<T>) -> Seq<T> {
    Seq::new(
        3 * m + 2 * n,
        |r: int|
            if r < 3 * m && r % 3 == 0 {
                draws[(r / 3) * (n + 1) + n].times(T::decimal(5, 1))
            } else if r < 3 * m && r % 3 == 2 {
                T::zero()
            } else {
                T::one()
            },
    )
}

/// The objective of the boxed log-sum-exp program: the sum of `t`.
pub open spec fn log_sum_cost<T: Scalar>(n: nat, m: nat) -> Seq<T> {
    Seq::new(
        n + m,
        |i: int|
            if i < n {
                T::zero()
            } else {
                T::one()
            },
    )
}

/// The cones of the boxed log-sum-exp program: `m` exponential ones and the box.
pub open spec fn log_sum_cones<T>(cones: Seq<NsCone<T>>, n: nat, m: nat) -> bool {
    &&& cones.len() == m + 1
    &&& forall|j: int| 0 <= j < m ==> (#[trigger] cones[j]) is Exp
    &&& cones[m as int] matches NsCone::NonNeg(d) && d == 2 * n
}

proof fn lemma_draw(j: int, i: int, n: int, m: int)
    requires
        0 <= j < m,
        0 <= i <= n,
    ensures
        0 <= j * (n + 1) + i < m * (n + 1),
{
    assert(0 <= j * (n + 1) + i < m * (n + 1)) by (nonlinear_arith)
        requires
            0 <= j < m,
            0 <= i <= n,
    ;
}

/// The program and the cones are those of the boxed log-sum-exp program with these draws.
pub open spec fn is_log_sum<T: Scalar>(
    n: nat,
    m: nat,
    scale: T,
    draws: Seq<T>,
    prob: QpProblem<T>,
    cones: Seq<NsCone<T>>,
) -> bool {
    &&& prob.wf()
    &&& prob.p.entries_are(nothing())
    &&& prob.q@ == log_sum_cost::<T>(n, m)
    &&& prob.b_eq@.len() == 0
    &&& prob.a_in.entries_are(log_sum_entry(n, m, scale, draws))
    &&& prob.b_in@ == log_sum_rhs(n, m, draws)
    &&& dense_only(prob)
    &&& log_sum_cones(cones, n, m)
}

/// The seed of the draws of a boxed log-sum-exp program.
pub open spec fn log_sum_seed(n: nat, m: nat) -> nat {
    1000 + n + m
}

/// The seed of the draws of a boxed log-sum-exp program.
pub fn log_sum_exp_seed(n: usize, m: usize) -> (r: u64)
    requires
        log_sum_seed(n as nat, m as nat) <= u64::MAX,
    ensures
        r == log_sum_seed(n as nat, m as nat),
{
    1000 + n as u64 + m as u64
}

/// The boxed log-sum-exp program: minimize `sum t_j` subject to `exp(a_j'x + b_j) <= t_j` and
/// `-1 <= x_i <= 1`. `draw` gives the first numbers of a generator with a seed; the seed is fixed by the
/// size of the program.
pub fn log_sum_exp<T: Scalar, D: Fn(u64, usize) -> Vec<T>>(n: usize, m: usize, scale: T, draw: D) -> (r: (
    QpProblem<T>,
    Vec<NsCone<T>>,
))
    requires
        fits((3 * m + 2 * n) as nat, (n + m) as nat),
        fits((n + m) as nat, (n + m) as nat),
        3 * n + 4 * m < usize::MAX,
        log_sum_seed(n as nat, m as nat) <= u64::MAX,
        forall|seed: u64, k: usize| #[trigger] draw.requires((seed, k)),
        forall|seed: u64, k: usize, v: Vec<T>| #[trigger] draw.ensures((seed, k), v) ==> v@.len() == k,
    ensures
        exists|seed: u64, k: usize, draws: Vec<T>|
            {
                &&& seed == log_sum_seed(n as nat, m as nat)
                &&& k == m * (n + 1)
                &&& #[trigger] draw.ensures((seed, k), draws)
                &&& is_log_sum(n as nat, m as nat, scale, draws@, r.0, r.1@)
            },
{
    let seed: u64 = log_sum_exp_seed(n, m);
    assert(m * (n + 1) <= usize::MAX) by {
        lemma_draw_count(n as int, m as int);
    }
    let k: usize = m * (n + 1);
    let draws = draw(seed, k);
    assert(draw.ensures((seed, k), draws));
    log_sum_exp_of(n, m, scale, &draws)
}

proof fn lemma_draw_count(n: int, m: int)
    requires
        0 <= n,
        0 <= m,
    ensures
        m * (n + 1) <= (3 * m + 2 * n) * (n + m),
{
    assert(m * (n + 1) <= (3 * m + 2 * n) * (n + m)) by (nonlinear_arith)
        requires
            0 <= n,
            0 <= m,
    ;
}

/// The boxed log-sum-exp program with given draws.
pub fn log_sum_exp_of<T: Scalar>(n: usize, m: usize, scale: T, draws: &[T]) -> (r: (QpProblem<T>, Vec<NsCone<T>>))
    requires
        draws@.len() == m * (n + 1),
        fits((3 * m + 2 * n) as nat, (n + m) as nat),
        fits((n + m) as nat, (n + m) as nat),
        3 * n + 4 * m < usize::MAX,
    ensures
        is_log_sum(n as nat, m as nat, scale, draws@, r.0, r.1@),
{
    let nv: usize = n + m;
    let mi: usize = 3 * m + 2 * n;
    let total: usize = draws.len();
    let ghost f = log_sum_entry(n as nat, m as nat, scale, draws@);
    let ghost g = log_sum_rhs(n as nat, m as nat, draws@);
    let mut a_in: DenseMatrix<T> = DenseMatrix::zeros(mi, nv);
    let mut b_in: Vec<T> = filled(T::zero(), mi);
    let mut cones: Vec<NsCone<T>> = Vec::with_capacity(m + 1);
    let mut j: usize = 0;
    while j < m
        invariant
            nv == n + m,
            mi == 3 * m + 2 * n,
            3 * n + 4 * m < usize::MAX,
            total == draws@.len() == m * (n + 1),
            f == log_sum_entry(n as nat, m as nat, scale, draws@),
            g == log_sum_rhs(n as nat, m as nat, draws@),
            j <= m,
            all_exp(cones@, j as nat),
            a_in.sized(mi as nat, nv as nat),
            b_in@.len() == mi,
            forall|r: int, c: int|
                0 <= r < mi && 0 <= c < nv ==> #[trigger] a_in.at(r, c) == (if r < 3 * j {
                    f(r, c)
                } else {
                    T::zero()
                }),
            forall|r: int|
                0 <= r < mi ==> #[trigger] b_in@[r] == (if r < 3 * j {
                    g[r]
                } else {
                    T::zero()
                }),
        decreases m - j,
    {
        cones.push(NsCone::Exp);
        proof {
            lemma_draw(j as int, n as int, n as int, m as int);
        }
        let base: usize = j * (n + 1);
        let mut i: usize = 0;
        while i < n
            invariant
                nv == n + m,
                mi == 3 * m + 2 * n,
                3 * n + 4 * m < usize::MAX,
                total == draws@.len() == m * (n + 1),
                base == j * (n + 1),
                base + n < total,
                f == log_sum_entry(n as nat, m as nat, scale, draws@),
                j < m,
                i <= n,
                a_in.sized(mi as nat, nv as nat),
                forall|r: int, c: int|
                    0 <= r < mi && 0 <= c < nv ==> #[trigger] a_in.at(r, c) == (if r < 3 * j || (r == 3 * j && c
                        < i) {
                        f(r, c)
                    } else {
                        T::zero()
                    }),
            decreases n - i,
        {
            a_in.set(3 * j, i, draws[base + i].neg().times(scale));
            assert((3 * j) / 3 == j && (3 * j) % 3 == 0);
            i += 1;
        }
        b_in[3 * j] = draws[base + n].times(T::decimal(5, 1));
        b_in[3 * j + 1] = T::one();
        let ghost before = a_in;
        a_in.set(3 * j + 2, n + j, T::one().neg());
        j += 1;
        assert forall|r: int, c: int| 0 <= r < mi && 0 <= c < nv implies #[trigger] a_in.at(r, c) == (if r < 3
            * j {
            f(r, c)
        } else {
            T::zero()
        }) by {
            lemma_thirds(r);
            assert(before.at(r, c) == (if r < 3 * (j - 1) || (r == 3 * (j - 1) && c < n) {
                f(r, c)
            } else {
                T::zero()
            }));
        }
    }
    cones.push(NsCone::NonNeg(2 * n));
    let base: usize = 3 * m;
    let mut i: usize = 0;
    while i < n
        invariant
            nv == n + m,
            base == 3 * m,
            mi == 3 * m + 2 * n,
            3 * n + 4 * m < usize::MAX,
            f == log_sum_entry(n as nat, m as nat, scale, draws@),
            g == log_sum_rhs(n as nat, m as nat, draws@),
            i <= n,
            a_in.sized(mi as nat, nv as nat),
            b_in@.len() == mi,
            forall|r: int, c: int|
                0 <= r < mi && 0 <= c < nv ==> #[trigger] a_in.at(r, c) == (if r < base + 2 * i {
                    f(r, c)
                } else {
                    T::zero()
                }),
            forall|r: int|
                0 <= r < mi ==> #[trigger] b_in@[r] == (if r < base + 2 * i {
                    g[r]
                } else {
                    T::zero()
                }),
        decreases n - i,
    {
        let ghost before = a_in;
        b_in[base + 2 * i] = T::one();
        a_in.set(base + 2 * i, i, T::one());
        b_in[base + 2 * i + 1] = T::one();
        a_in.set(base + 2 * i + 1, i, T::one().neg());
        i += 1;
        assert forall|r: int, c: int| 0 <= r < mi && 0 <= c < nv implies #[trigger] a_in.at(r, c) == (if r < base
            + 2 * i {
            f(r, c)
        } else {
            T::zero()
        }) by {
            assert(before.at(r, c) == (if r < base + 2 * (i - 1) {
                f(r, c)
            } else {
                T::zero()
            }));
        }
    }
    let mut q: Vec<T> = filled(T::zero(), nv);
    j = 0;
    while j < m
        invariant
            nv == n + m,
            3 * n + 4 * m < usize::MAX,
            j <= m,
            q@.len() == nv,
            forall|k: int| 0 <= k < n + j ==> #[trigger] q@[k] == log_sum_cost::<T>(n as nat, m as nat)[k],
        decreases m - j,
    {
        q[n + j] = T::one();
        j += 1;
    }
    assert(q@ =~= log_sum_cost::<T>(n as nat, m as nat));
    assert(b_in@ =~= g);
    let p = DenseMatrix::zeros(nv, nv);
    let prob = QpProblem::inequality_only(p, q, a_in, b_in);
    (prob, cones)
}

/// The negated identity.
pub open spec fn minus_identity<T: Scalar>() -> spec_fn(int, int) -> T {
    |r: int, c: int|
        if r == c {
            T::one().neg()
        } else {
            T::zero()
        }
}

/// The identity.
pub open spec fn unit_entry<T: Scalar>() -> spec_fn(int, int) -> T {
    |r: int, c: int|
        if r == c {
            T::one()
        } else {
            T::zero()
        }
}

fn scaled_identity<T: Scalar>(d: usize, v: T) -> (m: DenseMatrix<T>)
    requires
        fits(d as nat, d as nat),
    ensures
        m.sized(d as nat, d as nat),
        forall|r: int, c: int|
            0 <= r < d && 0 <= c < d ==> #[trigger] m.at(r, c) == (if r == c {
                v
            } else {
                T::zero()
            }),
{
    let mut m: DenseMatrix<T> = DenseMatrix::zeros(d, d);
    let mut i: usize = 0;
    while i < d
        invariant
            i <= d,
            m.sized(d as nat, d as nat),
            forall|r: int, c: int|
                0 <= r < d && 0 <= c < d ==> #[trigger] m.at(r, c) == (if r == c && r < i {
                    v
                } else {
                    T::zero()
                }),
        decreases d - i,
    {
        m.set(i, i, v);
        i += 1;
    }
    m
}

/// The program's only cone is the power cone of exponent `alpha`.
pub open spec fn power_only<T>(cones: Seq<NsCone<T>>, alpha: T) -> bool {
    cones.len() == 1 && cones[0] == NsCone::Power(alpha)
}

/// The projection of `(1, 1, 0)` onto a power cone.
pub fn pow_proj<T: Scalar>(alpha: T) -> (r: (QpProblem<T>, Vec<NsCone<T>>))
    ensures
        r.0.wf(),
        r.0.p.entries_are(unit_entry()),
        r.0.q@ == seq![T::one().neg(), T::one().neg(), T::zero()],
        r.0.b_eq@.len() == 0,
        r.0.a_in.entries_are(minus_identity()),
        r.0.b_in@ == constant(T::zero(), 3),
        dense_only(r.0),
        power_only(r.1@, alpha),
        projects(r.0, corner()),
{
    let a_in = scaled_identity(3, T::one().neg());
    let p = scaled_identity(3, T::one());
    let mut q: Vec<T> = Vec::with_capacity(3);
    q.push(T::one().neg());
    q.push(T::one().neg());
    q.push(T::zero());
    assert(q@ =~= seq![T::one().neg(), T::one().neg(), T::zero()]);
    let prob = QpProblem::inequality_only(p, q, a_in, filled(T::zero(), 3));
    proof {
        corner_is_projected(prob);
    }
    let mut cones: Vec<NsCone<T>> = Vec::with_capacity(1);
    cones.push(NsCone::Power(alpha));
    (prob, cones)
}

/// Maximizes `x^alpha y^(1 - alpha)` over `x + y = 1` through a power cone.
pub fn pow_eq<T: Scalar>(alpha: T) -> (r: (QpProblem<T>, Vec<NsCone<T>>))
    ensures
        r.0.wf(),
        r.0.p.entries_are(nothing()),
        r.0.q@ == seq![T::zero(), T::zero(), T::one().neg()],
        r.0.a_eq.sized(1, 3),
        r.0.a_eq.at(0, 0) == T::one(),
        r.0.a_eq.at(0, 1) == T::one(),
        r.0.a_eq.at(0, 2) == T::zero(),
        r.0.b_eq@ == seq![T::one()],
        r.0.a_in.entries_are(minus_identity()),
        r.0.b_in@ == constant(T::zero(), 3),
        dense_only(r.0),
        power_only(r.1@, alpha),
        maximizes_last(r.0),
{
    let a_in = scaled_identity(3, T::one().neg());
    let p = DenseMatrix::zeros(3, 3);
    let mut q: Vec<T> = Vec::with_capacity(3);
    q.push(T::zero());
    q.push(T::zero());
    q.push(T::one().neg());
    assert(q@ =~= seq![T::zero(), T::zero(), T::one().neg()]);
    let mut a_eq: DenseMatrix<T> = DenseMatrix::zeros(1, 3);
    a_eq.set(0, 0, T::one());
    a_eq.set(0, 1, T::one());
    let mut b_eq: Vec<T> = Vec::with_capacity(1);
    b_eq.push(T::one());
    assert(b_eq@ =~= seq![T::one()]);
    let b_in = filled(T::zero(), 3);
    let prob = QpProblem { p, q, a_eq, b_eq, a_in, b_in, a_eq_csr: None, a_in_csr: None };
    proof {
        product_program_maximizes_last(prob);
    }
    let mut cones: Vec<NsCone<T>> = Vec::with_capacity(1);
    cones.push(NsCone::Power(alpha));
    (prob, cones)
}

/// The objective of the geometric-mean program: `-8` on the base, `-2` on the tail.
pub open spec fn geomean_cost<T: Scalar>(k: nat, tail: nat) -> Seq<T> {
    Seq::new(
        k + tail,
        |i: int|
            if i < k {
                T::from_usize(8).neg()
            } else {
                T::from_usize(2).neg()
            },
    )
}

/// The projection of a point strictly inside a generalized power cone: base entries 8, tail
/// entries 2, uniform exponents.
pub fn genpow_geomean<T: Scalar>(k: usize, tail: usize) -> (r: (QpProblem<T>, Vec<NsCone<T>>))
    requires
        2 * (k + tail) < usize::MAX,
        fits((k + tail) as nat, (k + tail) as nat),
    ensures
        r.0.wf(),
        r.0.p.entries_are(unit_entry()),
        r.0.q@ == geomean_cost::<T>(k as nat, tail as nat),
        r.0.b_eq@.len() == 0,
        r.0.a_in.entries_are(minus_identity()),
        r.0.b_in@ == constant(T::zero(), (k + tail) as nat),
        dense_only(r.0),
        r.1@.len() == 1,
        r.1@[0] matches NsCone::GenPower(alpha, t) && t == tail && alpha@ == constant(
            T::one().over(T::from_usize(k)),
            k as nat,
        ),
        projects(r.0, inner_point(k as nat)),
{
    let d: usize = k + tail;
    let a_in = scaled_identity(d, T::one().neg());
    let p = scaled_identity(d, T::one());
    let mut q: Vec<T> = Vec::with_capacity(d);
    let mut i: usize = 0;
    while i < d
        invariant
            d == k + tail,
            i <= d,
            q@ =~= geomean_cost::<T>(k as nat, tail as nat).subrange(0, i as int),
        decreases d - i,
    {
        if i < k {
            q.push(T::from_usize(8).neg());
        } else {
            q.push(T::from_usize(2).neg());
        }
        i += 1;
    }
    assert(q@ =~= geomean_cost::<T>(k as nat, tail as nat));
    let alpha = filled(T::one().over(T::from_usize(k)), k);
    let prob = QpProblem::inequality_only(p, q, a_in, filled(T::zero(), d));
    proof {
        inner_point_is_projected(prob, k as nat, tail as nat);
    }
    let mut cones: Vec<NsCone<T>> = Vec::with_capacity(1);
    cones.push(NsCone::GenPower(alpha, tail));
    (prob, cones)
}

} // verus!
