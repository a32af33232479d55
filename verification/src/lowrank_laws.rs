//! The low-rank reformulation, where the operations of the numbers are exact: what is restored from an
//! optimal point of the conic program is an optimal point of the quadratic one.
use crate::exact::{
    exact, lemma_sum_nonnegative, lemma_sum_plus, lemma_sum_same, lemma_sum_single, lemma_sum_split, lemma_sum_swap,
    lemma_sum_times, lemma_sum_zero, sum,
};
use crate::lowrank::{is_reformulation, reform_solution, restored, LowRankDiag};
use crate::optimum_laws::{across, along, entries, inner, program_of, Program, Reading};
use crate::problem::{QpProblem, QpSolution};
use crate::scalar::Scalar;
use vstd::prelude::*;

verus! {

/// `r + 2` entries from `o` on lie in the second-order cone.
pub open spec fn in_soc(x: spec_fn(int) -> real, o: int, r: nat) -> bool {
    x(o) >= 0real && x(o) * x(o) >= sum(|i: int| x(o + 1 + i) * x(o + 1 + i), r + 1)
}

/// The point meets the optimality conditions of the conic program: the first `mi` slacks lie in the
/// orthant and the others in the second-order cone.
pub open spec fn conic_optimal(c: Program, w: Reading, mi: nat, r: nat) -> bool {
    &&& forall|i: int| 0 <= i < mi ==> #[trigger] (w.s)(i) >= 0real && (w.z)(i) >= 0real
    &&& in_soc(w.s, mi as int, r)
    &&& in_soc(w.z, mi as int, r)
    &&& c.gap(w) == 0real
    &&& forall|i: int| 0 <= i < c.n ==> #[trigger] (c.dual_residual(w))(i) == 0real
    &&& forall|i: int| 0 <= i < c.me ==> #[trigger] (c.eq_residual(w))(i) == 0real
    &&& forall|i: int| 0 <= i < c.mi ==> #[trigger] (c.in_residual(w))(i) == 0real
}

/// The entry of the Hessian between `i` and `j` is that of `L L' + diag(d)`.
pub open spec fn decomposes<T: Scalar>(v: spec_fn(T) -> real, prob: QpProblem<T>, lr: LowRankDiag<T>) -> bool {
    forall|i: int, j: int|
        0 <= i < prob.n() && 0 <= j < prob.n() ==> v(#[trigger] prob.p.at(i, j)) == sum(
            |k: int| v(lr.l.at(i, k)) * v(lr.l.at(j, k)),
            lr.rank as nat,
        ) + if i == j {
            v(lr.d@[i])
        } else {
            0real
        }
}

/// The reading of a solution.
pub open spec fn reading_of_solution<T: Scalar>(v: spec_fn(T) -> real, sol: QpSolution<T>) -> Reading {
    Reading { x: entries(v, sol.x@), y: entries(v, sol.y@), s: entries(v, sol.s@), z: entries(v, sol.z@) }
}

/// The reading of the point that is restored from a solution of the reformulation.
pub open spec fn restored_reading<T: Scalar>(
    v: spec_fn(T) -> real,
    prob: QpProblem<T>,
    rank: nat,
    sol: QpSolution<T>,
) -> Reading {
    let back = restored(prob, rank, sol).unwrap();
    Reading { x: entries(v, back.1), y: entries(v, back.2), s: entries(v, back.3), z: entries(v, back.4) }
}


proof fn lemma_scaled(x: real)
    ensures
        0real * x == 0real,
        1real * x == x,
        (-1real) * x == -x,
{
    assert(0real * x == 0real) by (nonlinear_arith);
    assert(1real * x == x) by (nonlinear_arith);
    assert((-1real) * x == -x) by (nonlinear_arith);
}

/// A sum whose terms vanish behind the first `n`.
proof fn lemma_head(f: spec_fn(int) -> real, n: nat, m: nat)
    requires
        forall|i: int| n <= i < n + m ==> #[trigger] f(i) == 0real,
    ensures
        sum(f, n + m) == sum(f, n),
{
    lemma_sum_split(f, n, m);
    let g = |i: int| f(n + i);
    assert forall|i: int| 0 <= i < m implies #[trigger] g(i) == 0real by {
        assert(f(n + i) == 0real);
    }
    lemma_sum_zero(g, m);
}

/// A sum whose terms vanish behind the first `n` but for one.
proof fn lemma_head_and_one(f: spec_fn(int) -> real, n: nat, m: nat, k: int)
    requires
        n <= k < n + m,
        forall|i: int| n <= i < n + m && i != k ==> #[trigger] f(i) == 0real,
    ensures
        sum(f, n + m) == sum(f, n) + f(k),
{
    lemma_sum_split(f, n, m);
    let g = |i: int| f(n + i);
    assert forall|i: int| 0 <= i < m && i != k - n implies #[trigger] g(i) == 0real by {
        assert(f(n + i) == 0real);
    }
    lemma_sum_single(g, m, k - n);
}

/// The first term of a sum.
proof fn lemma_first(f: spec_fn(int) -> real, m: nat)
    ensures
        sum(f, m + 1) == f(0) + sum(|i: int| f(1 + i), m),
{
    lemma_sum_split(f, 1, m);
    assert(sum(f, 0) == 0real);
    assert(sum(f, 1) == sum(f, 0) + f(0));
    lemma_sum_same(|i: int| f(1nat + i), |i: int| f(1 + i), m);
}

proof fn lemma_square_of_sum(u: real, c: real, q: real)
    requires
        c * c == 2real,
    ensures
        (u + c * q) * (u + c * q) == u * u + ((c * u) * q + (c * u) * q) + (q * q + q * q),
{
    let p = c * q;
    assert((u + p) * (u + p) == u * u + (u * p + u * p) + p * p) by (nonlinear_arith);
    assert(u * (c * q) == (c * u) * q) by (nonlinear_arith);
    assert((c * q) * (c * q) == (c * c) * (q * q)) by (nonlinear_arith);
    let e = q * q;
    assert(2real * e == e + e) by (nonlinear_arith);
}

proof fn lemma_square_scaled(u: real, c: real)
    requires
        c * c == 2real,
    ensures
        (c * u) * (c * u) == u * u + u * u,
{
    assert((c * u) * (c * u) == (c * c) * (u * u)) by (nonlinear_arith);
    let e = u * u;
    assert(2real * e == e + e) by (nonlinear_arith);
}

proof fn lemma_square_sign(x: real)
    ensures
        x * x >= 0real,
        x * x == 0real ==> x == 0real,
{
    assert(x * x >= 0real) by (nonlinear_arith);
    if x != 0real {
        assert(x * x > 0real) by (nonlinear_arith)
            requires
                x != 0real,
        ;
    }
}

proof fn lemma_ends(t: real, z0: real, zl: real)
    requires
        z0 + zl == 1real,
    ensures
        (t + 1real) * (t + 1real) - (t - 1real) * (t - 1real) == t + t + t + t,
        z0 * z0 - zl * zl == z0 - zl,
        (t + 1real) * z0 + (t - 1real) * zl == t + z0 - zl,
{
    assert((t + 1real) * (t + 1real) == t * t + t + t + 1real) by (nonlinear_arith);
    assert((t - 1real) * (t - 1real) == t * t - t - t + 1real) by (nonlinear_arith);
    assert((1real - zl) * (1real - zl) == 1real - zl - zl + zl * zl) by (nonlinear_arith);
    assert(z0 == 1real - zl);
    assert((t + 1real) * z0 == t * z0 + z0) by (nonlinear_arith);
    assert((t - 1real) * zl == t * zl - zl) by (nonlinear_arith);
    assert(t * z0 + t * zl == t * (z0 + zl)) by (nonlinear_arith);
    assert(t * 1real == t) by (nonlinear_arith);
}

proof fn lemma_twice(f: spec_fn(int) -> real, n: nat)
    ensures
        sum(|i: int| f(i) + f(i), n) == sum(f, n) + sum(f, n),
{
    lemma_sum_plus(f, f, n);
}

/// The inner product of a slack `(t + 1, sqrt(2) u, t - 1)` and a multiplier, both in the cone, is at
/// least half of `|u + sqrt(2) q|^2`.
proof fn lemma_soc_gap(
    t: real,
    u: spec_fn(int) -> real,
    q: spec_fn(int) -> real,
    z0: real,
    zl: real,
    c: real,
    r: nat,
)
    requires
        c * c == 2real,
        z0 + zl == 1real,
        (t + 1real) * (t + 1real) >= sum(|i: int| (c * u(i)) * (c * u(i)), r) + (t - 1real) * (t - 1real),
        z0 * z0 >= sum(|i: int| q(i) * q(i), r) + zl * zl,
    ensures
        ({
            let gap = (t + 1real) * z0 + sum(|i: int| (c * u(i)) * q(i), r) + (t - 1real) * zl;
            gap + gap >= sum(|i: int| (u(i) + c * q(i)) * (u(i) + c * q(i)), r)
        }),
{
    let uu = |i: int| u(i) * u(i);
    let qq = |i: int| q(i) * q(i);
    let k = |i: int| (c * u(i)) * q(i);
    let cu = |i: int| (c * u(i)) * (c * u(i));
    let square = |i: int| (u(i) + c * q(i)) * (u(i) + c * q(i));
    lemma_ends(t, z0, zl);
    let uu2 = |i: int| uu(i) + uu(i);
    let k2 = |i: int| k(i) + k(i);
    let qq2 = |i: int| qq(i) + qq(i);
    assert forall|i: int| 0 <= i < r implies #[trigger] cu(i) == uu2(i) by {
        lemma_square_scaled(u(i), c);
    }
    lemma_sum_same(cu, uu2, r);
    lemma_twice(uu, r);
    lemma_twice(k, r);
    lemma_twice(qq, r);
    let a = |i: int| uu(i) + k2(i);
    let b = |i: int| a(i) + qq2(i);
    assert forall|i: int| 0 <= i < r implies #[trigger] square(i) == b(i) by {
        lemma_square_of_sum(u(i), c, q(i));
    }
    lemma_sum_same(square, b, r);
    lemma_sum_plus(a, qq2, r);
    lemma_sum_plus(uu, k2, r);
}

/// Squares whose sum is not positive vanish.
proof fn lemma_squares_vanish(f: spec_fn(int) -> real, r: nat)
    requires
        sum(|i: int| f(i) * f(i), r) <= 0real,
    ensures
        forall|i: int| 0 <= i < r ==> #[trigger] f(i) == 0real,
    decreases r,
{
    let g = |i: int| f(i) * f(i);
    if r > 0 {
        let k = (r - 1) as nat;
        assert forall|i: int| 0 <= i < k implies #[trigger] g(i) >= 0real by {
            lemma_square_sign(f(i));
        }
        lemma_sum_nonnegative(g, k);
        lemma_square_sign(f(k as int));
        lemma_squares_vanish(f, k);
    }
}

pub proof fn lemma_along_same(
    a: spec_fn(int, int) -> real,
    x: spec_fn(int) -> real,
    y: spec_fn(int) -> real,
    r: int,
    n: nat,
)
    requires
        forall|j: int| 0 <= j < n ==> #[trigger] x(j) == y(j),
    ensures
        along(a, x, r, n) == along(a, y, r, n),
{
    let f = |j: int| a(r, j) * x(j);
    let g = |j: int| a(r, j) * y(j);
    assert forall|j: int| 0 <= j < n implies #[trigger] f(j) == g(j) by {
        assert(x(j) == y(j));
    }
    lemma_sum_same(f, g, n);
}

pub proof fn lemma_across_same(
    a: spec_fn(int, int) -> real,
    x: spec_fn(int) -> real,
    y: spec_fn(int) -> real,
    c: int,
    m: nat,
)
    requires
        forall|j: int| 0 <= j < m ==> #[trigger] x(j) == y(j),
    ensures
        across(a, x, c, m) == across(a, y, c, m),
{
    let f = |j: int| a(j, c) * x(j);
    let g = |j: int| a(j, c) * y(j);
    assert forall|j: int| 0 <= j < m implies #[trigger] f(j) == g(j) by {
        assert(x(j) == y(j));
    }
    lemma_sum_same(f, g, m);
}

/// The rows of the reformulation's Hessian.
proof fn lemma_reform_hessian<T: Scalar>(
    v: spec_fn(T) -> real,
    prob: QpProblem<T>,
    lr: LowRankDiag<T>,
    out: QpProblem<T>,
    x: spec_fn(int) -> real,
    i: int,
)
    requires
        exact(v),
        is_reformulation(prob, lr, out),
        0 <= i < out.n(),
    ensures
        along(program_of(v, out).p, x, i, out.n()) == if i < prob.n() {
            v(lr.d@[i]) * x(i)
        } else {
            0real
        },
{
    let f = |j: int| (program_of(v, out).p)(i, j) * x(j);
    assert forall|j: int| 0 <= j < out.n() && j != i implies #[trigger] f(j) == 0real by {
        assert(out.p.at(i, j) == T::zero());
        lemma_scaled(x(j));
    }
    lemma_sum_single(f, out.n(), i);
    assert(i >= prob.n() ==> out.p.at(i, i) == T::zero());
    lemma_scaled(x(i));
}

/// The equality rows of the reformulation.
proof fn lemma_reform_eq_row<T: Scalar>(
    v: spec_fn(T) -> real,
    prob: QpProblem<T>,
    lr: LowRankDiag<T>,
    out: QpProblem<T>,
    x: spec_fn(int) -> real,
    i: int,
)
    requires
        exact(v),
        is_reformulation(prob, lr, out),
        0 <= i < out.me(),
    ensures
        along(program_of(v, out).a_eq, x, i, out.n()) == if i < lr.rank {
            sum(|j: int| v(lr.l.at(j, i)) * x(j), prob.n()) - x(prob.n() + 1 + i)
        } else {
            along(program_of(v, prob).a_eq, x, i - lr.rank, prob.n())
        },
{
    let n = prob.n();
    let m = (1 + lr.rank) as nat;
    let f = |j: int| (program_of(v, out).a_eq)(i, j) * x(j);
    if i < lr.rank {
        let one = n + 1 + i;
        let g = |j: int| v(lr.l.at(j, i)) * x(j);
        assert forall|j: int| n <= j < n + m && j != one implies #[trigger] f(j) == 0real by {
            assert(out.a_eq.at(i, j) == T::zero());
            lemma_scaled(x(j));
        }
        lemma_head_and_one(f, n, m, one);
        assert forall|j: int| 0 <= j < n implies #[trigger] f(j) == g(j) by {
            assert(out.a_eq.at(i, j) == lr.l.at(j, i));
        }
        lemma_sum_same(f, g, n);
        assert(out.a_eq.at(i, one) == T::one().neg());
        lemma_scaled(x(one));
    } else {
        let g = |j: int| (program_of(v, prob).a_eq)(i - lr.rank, j) * x(j);
        assert forall|j: int| n <= j < n + m implies #[trigger] f(j) == 0real by {
            assert(out.a_eq.at(i, j) == T::zero());
            lemma_scaled(x(j));
        }
        lemma_head(f, n, m);
        assert forall|j: int| 0 <= j < n implies #[trigger] f(j) == g(j) by {
            assert(out.a_eq.at(i, j) == prob.a_eq.at(i - lr.rank, j));
        }
        lemma_sum_same(f, g, n);
    }
}

/// The inequality rows of the reformulation.
proof fn lemma_reform_in_row<T: Scalar>(
    v: spec_fn(T) -> real,
    prob: QpProblem<T>,
    lr: LowRankDiag<T>,
    out: QpProblem<T>,
    x: spec_fn(int) -> real,
    i: int,
)
    requires
        exact(v),
        is_reformulation(prob, lr, out),
        0 <= i < out.mi(),
    ensures
        along(program_of(v, out).a_in, x, i, out.n()) == if i < prob.mi() {
            along(program_of(v, prob).a_in, x, i, prob.n())
        } else if i == prob.mi() || i == prob.mi() + 1 + lr.rank {
            -x(prob.n() as int)
        } else {
            -(v(T::decimal(2, 0).sqrt()) * x(prob.n() + (i - prob.mi())))
        },
{
    let n = prob.n();
    let m = (1 + lr.rank) as nat;
    let f = |j: int| (program_of(v, out).a_in)(i, j) * x(j);
    if i < prob.mi() {
        let g = |j: int| (program_of(v, prob).a_in)(i, j) * x(j);
        assert forall|j: int| n <= j < n + m implies #[trigger] f(j) == 0real by {
            assert(out.a_in.at(i, j) == T::zero());
            lemma_scaled(x(j));
        }
        lemma_head(f, n, m);
        assert forall|j: int| 0 <= j < n implies #[trigger] f(j) == g(j) by {
            assert(out.a_in.at(i, j) == prob.a_in.at(i, j));
        }
        lemma_sum_same(f, g, n);
    } else {
        let one = if i == prob.mi() || i == prob.mi() + 1 + lr.rank {
            n as int
        } else {
            n + (i - prob.mi())
        };
        assert forall|j: int| 0 <= j < n + m && j != one implies #[trigger] f(j) == 0real by {
            assert(out.a_in.at(i, j) == T::zero());
            lemma_scaled(x(j));
        }
        lemma_sum_single(f, n + m, one);
        lemma_scaled(x(one));
        let c = v(T::decimal(2, 0).sqrt());
        lemma_minus_times(c, x(one));
        assert(out.a_in.at(i, one) == if one == n {
            T::one().neg()
        } else {
            T::decimal(2, 0).sqrt().neg()
        });
    }
}

proof fn lemma_minus_times(c: real, x: real)
    ensures
        (-c) * x == -(c * x),
{
    assert((-c) * x == -(c * x)) by (nonlinear_arith);
}

/// The columns of the reformulation's equality matrix.
proof fn lemma_reform_eq_column<T: Scalar>(
    v: spec_fn(T) -> real,
    prob: QpProblem<T>,
    lr: LowRankDiag<T>,
    out: QpProblem<T>,
    y: spec_fn(int) -> real,
    j: int,
)
    requires
        exact(v),
        is_reformulation(prob, lr, out),
        0 <= j < out.n(),
    ensures
        across(program_of(v, out).a_eq, y, j, out.me()) == if j < prob.n() {
            sum(|i: int| v(lr.l.at(j, i)) * y(i), lr.rank as nat) + across(
                program_of(v, prob).a_eq,
                |i: int| y(lr.rank + i),
                j,
                prob.me(),
            )
        } else if j == prob.n() {
            0real
        } else {
            -y(j - prob.n() - 1)
        },
{
    let r = lr.rank as nat;
    let f = |i: int| (program_of(v, out).a_eq)(i, j) * y(i);
    if j < prob.n() {
        lemma_sum_split(f, r, prob.me());
        let g = |i: int| v(lr.l.at(j, i)) * y(i);
        assert forall|i: int| 0 <= i < r implies #[trigger] f(i) == g(i) by {
            assert(out.a_eq.at(i, j) == lr.l.at(j, i));
        }
        lemma_sum_same(f, g, r);
        let tail = |i: int| f(r + i);
        let shifted = |i: int| y(lr.rank + i);
        let h = |i: int| (program_of(v, prob).a_eq)(i, j) * shifted(i);
        assert forall|i: int| 0 <= i < prob.me() implies #[trigger] tail(i) == h(i) by {
            assert(out.a_eq.at(r + i, j) == prob.a_eq.at(i, j));
        }
        lemma_sum_same(tail, h, prob.me());
    } else if j == prob.n() {
        assert forall|i: int| 0 <= i < out.me() implies #[trigger] f(i) == 0real by {
            assert(out.a_eq.at(i, j) == T::zero());
            lemma_scaled(y(i));
        }
        lemma_sum_zero(f, out.me());
    } else {
        let one = j - prob.n() - 1;
        assert forall|i: int| 0 <= i < out.me() && i != one implies #[trigger] f(i) == 0real by {
            assert(out.a_eq.at(i, j) == T::zero());
            lemma_scaled(y(i));
        }
        lemma_sum_single(f, out.me(), one);
        assert(out.a_eq.at(one, j) == T::one().neg());
        lemma_scaled(y(one));
    }
}

/// The columns of the reformulation's inequality matrix.
proof fn lemma_reform_in_column<T: Scalar>(
    v: spec_fn(T) -> real,
    prob: QpProblem<T>,
    lr: LowRankDiag<T>,
    out: QpProblem<T>,
    z: spec_fn(int) -> real,
    j: int,
)
    requires
        exact(v),
        is_reformulation(prob, lr, out),
        0 <= j < out.n(),
    ensures
        across(program_of(v, out).a_in, z, j, out.mi()) == if j < prob.n() {
            across(program_of(v, prob).a_in, z, j, prob.mi())
        } else if j == prob.n() {
            -z(prob.mi() as int) - z(prob.mi() + 1 + lr.rank)
        } else {
            -(v(T::decimal(2, 0).sqrt()) * z(prob.mi() + (j - prob.n())))
        },
{
    let r = lr.rank as nat;
    let mi = prob.mi();
    let f = |i: int| (program_of(v, out).a_in)(i, j) * z(i);
    if j < prob.n() {
        assert forall|i: int| mi <= i < mi + (r + 2) implies #[trigger] f(i) == 0real by {
            assert(out.a_in.at(i, j) == T::zero());
            lemma_scaled(z(i));
        }
        lemma_head(f, mi, r + 2);
        let g = |i: int| (program_of(v, prob).a_in)(i, j) * z(i);
        assert forall|i: int| 0 <= i < mi implies #[trigger] f(i) == g(i) by {
            assert(out.a_in.at(i, j) == prob.a_in.at(i, j));
        }
        lemma_sum_same(f, g, mi);
    } else if j == prob.n() {
        let short = mi + r + 1;
        let last = mi + 1 + r;
        assert forall|i: int| 0 <= i < short && i != mi implies #[trigger] f(i) == 0real by {
            assert(out.a_in.at(i, j) == T::zero());
            lemma_scaled(z(i));
        }
        lemma_sum_single(f, short, mi as int);
        assert(sum(f, out.mi()) == sum(f, short) + f(last as int));
        assert(out.a_in.at(mi as int, j) == T::one().neg());
        assert(out.a_in.at(last as int, j) == T::one().neg());
        lemma_scaled(z(mi as int));
        lemma_scaled(z(last as int));
    } else {
        let one = mi + (j - prob.n());
        assert forall|i: int| 0 <= i < out.mi() && i != one implies #[trigger] f(i) == 0real by {
            assert(out.a_in.at(i, j) == T::zero());
            lemma_scaled(z(i));
        }
        lemma_sum_single(f, out.mi(), one);
        assert(out.a_in.at(one, j) == T::decimal(2, 0).sqrt().neg());
        lemma_minus_times(v(T::decimal(2, 0).sqrt()), z(one));
    }
}

proof fn lemma_nonnegative_product(a: real, b: real)
    requires
        a >= 0real,
        b >= 0real,
    ensures
        a * b >= 0real,
{
    assert(a * b >= 0real) by (nonlinear_arith)
        requires
            a >= 0real,
            b >= 0real,
    ;
}

/// The slacks of the second-order cone are `(t + 1, sqrt(2) u, t - 1)`, and the multipliers that belong
/// to `t` and `u` are balanced.
proof fn lemma_reform_cone<T: Scalar>(
    v: spec_fn(T) -> real,
    prob: QpProblem<T>,
    lr: LowRankDiag<T>,
    out: QpProblem<T>,
    w: Reading,
)
    requires
        exact(v),
        is_reformulation(prob, lr, out),
        conic_optimal(program_of(v, out), w, prob.mi(), lr.rank as nat),
    ensures
        ({
            let (n, mi, c) = (prob.n(), prob.mi(), v(T::decimal(2, 0).sqrt()));
            let t = (w.x)(n as int);
            &&& (w.s)(mi as int) == t + 1real
            &&& (w.s)(mi + 1 + lr.rank) == t - 1real
            &&& forall|i: int| 0 <= i < lr.rank ==> #[trigger] (w.s)(mi + 1 + i) == c * (w.x)(n + 1 + i)
            &&& (w.z)(mi as int) + (w.z)(mi + 1 + lr.rank) == 1real
            &&& forall|i: int| 0 <= i < lr.rank ==> #[trigger] (w.y)(i) == -(c * (w.z)(mi + 1 + i))
        }),
{
    let p = program_of(v, out);
    let (n, mi, c) = (prob.n(), prob.mi(), v(T::decimal(2, 0).sqrt()));
    let last = mi + 1 + lr.rank;
    assert((p.in_residual(w))(mi as int) == 0real);
    lemma_reform_in_row(v, prob, lr, out, w.x, mi as int);
    assert(out.b_in@[mi as int] == T::one());
    assert((p.in_residual(w))(last as int) == 0real);
    lemma_reform_in_row(v, prob, lr, out, w.x, last as int);
    assert(out.b_in@[last as int] == T::one().neg());
    assert forall|i: int| 0 <= i < lr.rank implies #[trigger] (w.s)(mi + 1 + i) == c * (w.x)(n + 1 + i) by {
        assert((p.in_residual(w))(mi + 1 + i) == 0real);
        lemma_reform_in_row(v, prob, lr, out, w.x, mi + 1 + i);
        assert(out.b_in@[mi + 1 + i] == T::zero());
    }
    assert((p.dual_residual(w))(n as int) == 0real);
    lemma_reform_hessian(v, prob, lr, out, w.x, n as int);
    lemma_reform_eq_column(v, prob, lr, out, w.y, n as int);
    lemma_reform_in_column(v, prob, lr, out, w.z, n as int);
    assert(out.q@[n as int] == T::one());
    assert forall|i: int| 0 <= i < lr.rank implies #[trigger] (w.y)(i) == -(c * (w.z)(mi + 1 + i)) by {
        let j = n + 1 + i;
        assert((p.dual_residual(w))(j) == 0real);
        lemma_reform_hessian(v, prob, lr, out, w.x, j);
        lemma_reform_eq_column(v, prob, lr, out, w.y, j);
        lemma_reform_in_column(v, prob, lr, out, w.z, j);
        assert(out.q@[j] == T::zero());
    }
}

/// The multipliers of `L' x = u` are `u`, and the orthant's part of the gap vanishes.
proof fn lemma_reform_multipliers<T: Scalar>(
    v: spec_fn(T) -> real,
    prob: QpProblem<T>,
    lr: LowRankDiag<T>,
    out: QpProblem<T>,
    w: Reading,
)
    requires
        exact(v),
        is_reformulation(prob, lr, out),
        conic_optimal(program_of(v, out), w, prob.mi(), lr.rank as nat),
    ensures
        forall|i: int| 0 <= i < lr.rank ==> #[trigger] (w.y)(i) == (w.x)(prob.n() + 1 + i),
        inner(w.s, w.z, prob.mi()) == 0real,
{
    let (n, mi, c) = (prob.n(), prob.mi(), v(T::decimal(2, 0).sqrt()));
    let r = lr.rank as nat;
    lemma_reform_cone(v, prob, lr, out, w);
    let t = (w.x)(n as int);
    let u = |i: int| (w.x)(n + 1 + i);
    let q = |i: int| (w.z)(mi + 1 + i);
    let (z0, zl) = ((w.z)(mi as int), (w.z)(mi + 1 + lr.rank));
    assert(c * c == 2real);
    // Both ends of the gap lie in the cone.
    let ss = |i: int| (w.s)(mi + 1 + i) * (w.s)(mi + 1 + i);
    let cu = |i: int| (c * u(i)) * (c * u(i));
    assert forall|i: int| 0 <= i < r implies #[trigger] ss(i) == cu(i) by {
        assert((w.s)(mi + 1 + i) == c * (w.x)(n + 1 + i));
    }
    lemma_sum_same(ss, cu, r);
    assert(sum(ss, r + 1) == sum(ss, r) + ss(r as int));
    let zz = |i: int| (w.z)(mi + 1 + i) * (w.z)(mi + 1 + i);
    let qq = |i: int| q(i) * q(i);
    lemma_sum_same(zz, qq, r);
    assert(sum(zz, r + 1) == sum(zz, r) + zz(r as int));
    lemma_soc_gap(t, u, q, z0, zl, c, r);
    // The gap in its parts.
    let f = |i: int| (w.s)(i) * (w.z)(i);
    lemma_sum_split(f, mi, r + 2);
    let g = |i: int| f(mi + i);
    lemma_first(g, r + 1);
    let h = |i: int| g(1 + i);
    assert(sum(h, r + 1) == sum(h, r) + h(r as int));
    let k = |i: int| (c * u(i)) * q(i);
    assert forall|i: int| 0 <= i < r implies #[trigger] h(i) == k(i) by {
        assert((w.s)(mi + 1 + i) == c * (w.x)(n + 1 + i));
    }
    lemma_sum_same(h, k, r);
    assert forall|i: int| 0 <= i < mi implies #[trigger] f(i) >= 0real by {
        assert((w.s)(i) >= 0real);
        lemma_nonnegative_product((w.s)(i), (w.z)(i));
    }
    lemma_sum_nonnegative(f, mi);
    let e = |i: int| u(i) + c * q(i);
    let ee = |i: int| e(i) * e(i);
    let square = |i: int| (u(i) + c * q(i)) * (u(i) + c * q(i));
    lemma_sum_same(ee, square, r);
    assert forall|i: int| 0 <= i < r implies #[trigger] ee(i) >= 0real by {
        lemma_square_sign(e(i));
    }
    lemma_sum_nonnegative(ee, r);
    assert(program_of(v, out).gap(w) == sum(f, mi + (r + 2)));
    lemma_squares_vanish(e, r);
    assert forall|i: int| 0 <= i < lr.rank implies #[trigger] (w.y)(i) == (w.x)(n + 1 + i) by {
        assert(e(i) == 0real);
    }
}

proof fn lemma_reorder(a: real, b: real, x: real)
    ensures
        x * (a * b) == a * (b * x),
        (a * b) * x == a * (b * x),
{
    assert(x * (a * b) == a * (b * x)) by (nonlinear_arith);
    assert((a * b) * x == a * (b * x)) by (nonlinear_arith);
}

proof fn lemma_part_times(s: real, d: real, x: real)
    ensures
        (s + d) * x == x * s + d * x,
{
    assert((s + d) * x == x * s + d * x) by (nonlinear_arith);
}

/// `P x` is `L (L' x) + d x`.
pub proof fn lemma_decomposed<T: Scalar>(
    v: spec_fn(T) -> real,
    prob: QpProblem<T>,
    lr: LowRankDiag<T>,
    x: spec_fn(int) -> real,
    j: int,
)
    requires
        decomposes(v, prob, lr),
        0 <= j < prob.n(),
    ensures
        along(program_of(v, prob).p, x, j, prob.n()) == v(lr.d@[j]) * x(j) + sum(
            |i: int| v(lr.l.at(j, i)) * sum(|k: int| v(lr.l.at(k, i)) * x(k), prob.n()),
            lr.rank as nat,
        ),
{
    let n = prob.n();
    let r = lr.rank as nat;
    let whole = |k: int| (program_of(v, prob).p)(j, k) * x(k);
    let term = |k: int, i: int| v(lr.l.at(j, i)) * (v(lr.l.at(k, i)) * x(k));
    let by_col = |k: int| sum(|i: int| term(k, i), r);
    let diagonal = |k: int|
        if k == j {
            v(lr.d@[j]) * x(j)
        } else {
            0real
        };
    assert forall|k: int| 0 <= k < n implies #[trigger] whole(k) == by_col(k) + diagonal(k) by {
        let f = |i: int| v(lr.l.at(j, i)) * v(lr.l.at(k, i));
        let g = |i: int| x(k) * f(i);
        let h = |i: int| term(k, i);
        assert(v(prob.p.at(j, k)) == sum(f, r) + if j == k {
            v(lr.d@[j])
        } else {
            0real
        });
        lemma_part_times(sum(f, r), if j == k {
            v(lr.d@[j])
        } else {
            0real
        }, x(k));
        lemma_sum_times(x(k), f, r);
        assert forall|i: int| 0 <= i < r implies #[trigger] g(i) == h(i) by {
            lemma_reorder(v(lr.l.at(j, i)), v(lr.l.at(k, i)), x(k));
        }
        lemma_sum_same(g, h, r);
        lemma_scaled(x(k));
    }
    lemma_sum_plus(by_col, diagonal, n);
    lemma_sum_same(whole, |k: int| by_col(k) + diagonal(k), n);
    lemma_sum_single(diagonal, n, j);
    lemma_sum_swap(term, n, r);
    let by_row = |i: int| sum(|k: int| term(k, i), n);
    let goal = |i: int| v(lr.l.at(j, i)) * sum(|k: int| v(lr.l.at(k, i)) * x(k), n);
    assert forall|i: int| 0 <= i < r implies #[trigger] by_row(i) == goal(i) by {
        let f = |k: int| v(lr.l.at(k, i)) * x(k);
        lemma_sum_times(v(lr.l.at(j, i)), f, n);
        lemma_sum_same(|k: int| v(lr.l.at(j, i)) * f(k), |k: int| term(k, i), n);
    }
    lemma_sum_same(by_row, goal, r);
}

/// What is restored from a solution of the reformulation answers the original problem: where the
/// Hessian is `L L' + diag(d)` and the solution meets the optimality conditions of the conic program,
/// the restored point meets those of the quadratic program.
pub proof fn restored_point_is_optimal<T: Scalar>(
    v: spec_fn(T) -> real,
    prob: QpProblem<T>,
    lr: LowRankDiag<T>,
    out: QpProblem<T>,
    sol: QpSolution<T>,
)
    requires
        exact(v),
        decomposes(v, prob, lr),
        is_reformulation(prob, lr, out),
        reform_solution(prob, lr.rank as nat, sol),
        restored(prob, lr.rank as nat, sol) is Some,
        conic_optimal(program_of(v, out), reading_of_solution(v, sol), prob.mi(), lr.rank as nat),
    ensures
        program_of(v, prob).optimal(restored_reading(v, prob, lr.rank as nat, sol)),
{
    let r = lr.rank as nat;
    let (n, me, mi) = (prob.n(), prob.me(), prob.mi());
    let w = reading_of_solution(v, sol);
    let b = restored_reading(v, prob, r, sol);
    let (p, c) = (program_of(v, out), program_of(v, prob));
    lemma_reform_multipliers(v, prob, lr, out, w);
    assert forall|i: int| 0 <= i < n implies #[trigger] (b.x)(i) == (w.x)(i) by {}
    let shifted = |i: int| (w.y)(lr.rank + i);
    assert forall|i: int| 0 <= i < me implies #[trigger] (b.y)(i) == shifted(i) by {}
    assert forall|i: int| 0 <= i < mi implies #[trigger] (b.z)(i) == (w.z)(i) by {}
    assert forall|i: int| 0 <= i < mi implies #[trigger] (b.s)(i) == (w.s)(i) by {}
    assert(c.signed(b)) by {
        assert forall|i: int| 0 <= i < mi implies #[trigger] (b.s)(i) >= 0real && (b.z)(i) >= 0real by {
            assert((w.s)(i) >= 0real && (b.z)(i) == (w.z)(i));
        }
    }
    let f = |i: int| (b.s)(i) * (b.z)(i);
    let g = |i: int| (w.s)(i) * (w.z)(i);
    assert forall|i: int| 0 <= i < mi implies #[trigger] f(i) == g(i) by {
        assert((b.s)(i) == (w.s)(i) && (b.z)(i) == (w.z)(i));
    }
    lemma_sum_same(f, g, mi);
    assert forall|i: int| 0 <= i < me implies #[trigger] (c.eq_residual(b))(i) == 0real by {
        assert((p.eq_residual(w))(r + i) == 0real);
        lemma_reform_eq_row(v, prob, lr, out, w.x, r + i);
        lemma_along_same(c.a_eq, b.x, w.x, i, n);
        assert(out.b_eq@[r + i] == prob.b_eq@[i]);
    }
    assert forall|i: int| 0 <= i < mi implies #[trigger] (c.in_residual(b))(i) == 0real by {
        assert((p.in_residual(w))(i) == 0real);
        lemma_reform_in_row(v, prob, lr, out, w.x, i);
        lemma_along_same(c.a_in, b.x, w.x, i, n);
        assert(out.b_in@[i] == prob.b_in@[i]);
        assert((b.s)(i) == (w.s)(i));
    }
    assert forall|j: int| 0 <= j < n implies #[trigger] (c.dual_residual(b))(j) == 0real by {
        assert((p.dual_residual(w))(j) == 0real);
        lemma_reform_hessian(v, prob, lr, out, w.x, j);
        lemma_reform_eq_column(v, prob, lr, out, w.y, j);
        lemma_reform_in_column(v, prob, lr, out, w.z, j);
        lemma_across_same(c.a_eq, b.y, shifted, j, me);
        lemma_across_same(c.a_in, b.z, w.z, j, mi);
        lemma_along_same(c.p, b.x, w.x, j, n);
        lemma_decomposed(v, prob, lr, w.x, j);
        assert(out.q@[j] == prob.q@[j]);
        let lu = |i: int| v(lr.l.at(j, i)) * sum(|k: int| v(lr.l.at(k, i)) * (w.x)(k), n);
        let ly = |i: int| v(lr.l.at(j, i)) * (w.y)(i);
        assert forall|i: int| 0 <= i < r implies #[trigger] lu(i) == ly(i) by {
            assert((p.eq_residual(w))(i) == 0real);
            lemma_reform_eq_row(v, prob, lr, out, w.x, i);
            assert(out.b_eq@[i] == T::zero());
            assert((w.y)(i) == (w.x)(n + 1 + i));
        }
        lemma_sum_same(lu, ly, r);
    }
}

} // verus!
