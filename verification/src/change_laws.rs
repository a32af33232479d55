//! The change of variables of a semidefinite program, and the dual of a linear one, where the operations of
//! the numbers are exact: the problems have the same points, seen in other variables.
use crate::exact::{exact, inv, lemma_over, lemma_sum_same, lemma_sum_single, lemma_sum_zero, sum};
use crate::fac::permutation;
use crate::kron::{generalized_permutation, is_changed, is_perm_of, kron_structure, perm_col, Changed};
use crate::matrix::zero_matrix;
use crate::optimum_laws::{along, entries, inner, program_of, Program};
use crate::problem::QpProblem;
use crate::scalar::Scalar;
use crate::schur_laws::lemma_one_entry;
use crate::system_laws::lemma_sum_permuted;
use vstd::prelude::*;

verus! {

/// `u` is `x` in the new variables: entry `i` is `g[i]` times entry `sigma[i]` of `x`.
pub open spec fn same_point<T: Scalar>(
    v: spec_fn(T) -> real,
    sigma: Seq<usize>,
    g: Seq<T>,
    x: spec_fn(int) -> real,
    u: spec_fn(int) -> real,
) -> bool {
    forall|i: int| 0 <= i < sigma.len() ==> #[trigger] u(i) == v(g[i]) * x(sigma[i] as int)
}

/// Two programs say the same of the points `x` and `u`: the slacks of the inequality rows, the residuals of
/// the equality rows and the objectives agree.
pub open spec fn same_program(a: Program, b: Program, x: spec_fn(int) -> real, u: spec_fn(int) -> real) -> bool {
    &&& a.n == b.n && a.me == b.me && a.mi == b.mi
    &&& forall|r: int|
        0 <= r < a.mi ==> #[trigger] (a.b_in)(r) - along(a.a_in, x, r, a.n) == (b.b_in)(r) - along(b.a_in, u, r, b.n)
    &&& forall|r: int|
        0 <= r < a.me ==> along(a.a_eq, x, r, a.n) - #[trigger] (a.b_eq)(r) == along(b.a_eq, u, r, b.n) - (b.b_eq)(r)
    &&& inner(a.q, x, a.n) == inner(b.q, u, b.n)
    &&& inner(x, |i: int| along(a.p, x, i, a.n), a.n) == inner(u, |i: int| along(b.p, u, i, b.n), b.n)
}

/// The problem in new variables is the given one, however the numbers are read: whatever is said of a point
/// is said of its image.
pub open spec fn changes_variables<T: Scalar>(prob: QpProblem<T>, c: Changed<T>) -> bool {
    forall|v: spec_fn(T) -> real, x: spec_fn(int) -> real, u: spec_fn(int) -> real|
        exact(v) && #[trigger] same_point(v, c.sigma@, c.g@, x, u) ==> same_program(
            program_of(v, prob),
            program_of(v, c.prob),
            x,
            u,
        )
}

proof fn lemma_products(a: real, g: real, x: real, q: real)
    ensures
        (-g) * x == -(g * x),
        q * g == a ==> q * (g * x) == a * x,
        0real * x == 0real,
        (-1real) * x == -x,
{
    assert((-g) * x == -(g * x)) by (nonlinear_arith);
    assert(q * (g * x) == (q * g) * x) by (nonlinear_arith);
    assert(0real * x == 0real) by (nonlinear_arith);
    assert((-1real) * x == -x) by (nonlinear_arith);
}

/// A sum of products over the permuted and divided entries is the sum over the entries.
proof fn lemma_changed_sum<T: Scalar>(
    v: spec_fn(T) -> real,
    a: spec_fn(int) -> T,
    sigma: Seq<usize>,
    g: Seq<T>,
    x: spec_fn(int) -> real,
    u: spec_fn(int) -> real,
)
    requires
        exact(v),
        permutation(sigma),
        same_point(v, sigma, g, x, u),
        forall|i: int| 0 <= i < sigma.len() ==> v(#[trigger] g[i]) != 0real,
    ensures
        sum(|i: int| v(a(sigma[i] as int).over(g[i])) * u(i), sigma.len()) == sum(|j: int| v(a(j)) * x(j), sigma.len()),
{
    let f = |j: int| v(a(j)) * x(j);
    let placed = |i: int| f(sigma[i] as int);
    let h = |i: int| v(a(sigma[i] as int).over(g[i])) * u(i);
    assert forall|i: int| 0 <= i < sigma.len() implies #[trigger] h(i) == placed(i) by {
        let j = sigma[i] as int;
        assert(v(g[i]) != 0real);
        assert(u(i) == v(g[i]) * x(j));
        lemma_over(v, a(j), g[i]);
        lemma_products(v(a(j)), v(g[i]), x(j), v(a(j).over(g[i])));
    }
    lemma_sum_same(h, placed, sigma.len());
    lemma_sum_permuted(f, sigma);
}

proof fn lemma_no_curvature<T: Scalar>(v: spec_fn(T) -> real, prob: QpProblem<T>, x: spec_fn(int) -> real)
    requires
        exact(v),
        prob.p.sized(prob.n(), prob.n()),
        zero_matrix(prob.p),
    ensures
        inner(x, |i: int| along(program_of(v, prob).p, x, i, prob.n()), prob.n()) == 0real,
{
    let px = |i: int| along(program_of(v, prob).p, x, i, prob.n());
    let f = |i: int| x(i) * px(i);
    assert forall|i: int| 0 <= i < prob.n() implies #[trigger] f(i) == 0real by {
        let g = |j: int| (program_of(v, prob).p)(i, j) * x(j);
        assert forall|j: int| 0 <= j < prob.n() implies #[trigger] g(j) == 0real by {
            assert(prob.p.at(i, j).equals(T::zero()));
            lemma_products(0real, 0real, x(j), 0real);
        }
        lemma_sum_zero(g, prob.n());
        assert(x(i) * 0real == 0real) by (nonlinear_arith);
    }
    lemma_sum_zero(f, prob.n());
}

/// The change of variables is an equivalence: slacks, residuals and objective of a point are those of its
/// image in the changed problem.
pub proof fn changed_problem_is_equivalent<T: Scalar>(prob: QpProblem<T>, c: Changed<T>)
    requires
        prob.wf(),
        prob.mi() == prob.n(),
        zero_matrix(prob.p),
        generalized_permutation(prob.a_in),
        is_perm_of(prob.a_in, c.sigma@, c.g@),
        is_changed(prob, c.sigma@, c.g@, c.prob),
    ensures
        changes_variables(prob, c),
{
    let (sigma, g, out) = (c.sigma@, c.g@, c.prob);
    let n = prob.n();
    assert forall|v: spec_fn(T) -> real, x: spec_fn(int) -> real, u: spec_fn(int) -> real|
        exact(v) && #[trigger] same_point(v, sigma, g, x, u) implies same_program(
        program_of(v, prob),
        program_of(v, out),
        x,
        u,
    ) by {
        let (a, b) = (program_of(v, prob), program_of(v, out));
        assert(permutation(sigma));
        assert forall|i: int| 0 <= i < sigma.len() implies v(#[trigger] g[i]) != 0real by {
            lemma_entry(v, prob, sigma, i);
            assert(g[i] == prob.a_in.at(i, sigma[i] as int).neg());
        }
        assert forall|r: int| 0 <= r < a.mi implies #[trigger] (a.b_in)(r) - along(a.a_in, x, r, a.n) == (b.b_in)(r)
            - along(b.a_in, u, r, b.n) by {
            let col = sigma[r] as int;
            lemma_entry(v, prob, sigma, r);
            let f = |j: int| (a.a_in)(r, j) * x(j);
            assert forall|j: int| 0 <= j < n && j != col implies #[trigger] f(j) == 0real by {
                assert(v(prob.a_in.at(r, j)) == 0real);
                lemma_products(0real, 0real, x(j), 0real);
            }
            lemma_sum_single(f, n, col);
            assert(g[r] == prob.a_in.at(r, col).neg());
            lemma_products(0real, v(g[r]), x(col), 0real);
            let h = |j: int| (b.a_in)(r, j) * u(j);
            assert forall|j: int| 0 <= j < n && j != r implies #[trigger] h(j) == 0real by {
                assert(out.a_in.at(r, j) == T::zero());
                lemma_products(0real, 0real, u(j), 0real);
            }
            lemma_sum_single(h, n, r);
            assert(out.a_in.at(r, r) == T::one().neg());
            lemma_products(0real, 0real, u(r), 0real);
            assert(u(r) == v(g[r]) * x(col));
        }
        assert forall|r: int| 0 <= r < a.me implies along(a.a_eq, x, r, a.n) - #[trigger] (a.b_eq)(r) == along(
            b.a_eq,
            u,
            r,
            b.n,
        ) - (b.b_eq)(r) by {
            let row = |j: int| prob.a_eq.at(r, j);
            lemma_changed_sum(v, row, sigma, g, x, u);
            let f = |i: int| v(row(sigma[i] as int).over(g[i])) * u(i);
            let h = |i: int| (b.a_eq)(r, i) * u(i);
            assert forall|i: int| 0 <= i < n implies #[trigger] f(i) == h(i) by {
                assert(out.a_eq.at(r, i) == prob.a_eq.at(r, sigma[i] as int).over(g[i]));
            }
            lemma_sum_same(f, h, n);
            lemma_sum_same(|j: int| v(row(j)) * x(j), |j: int| (a.a_eq)(r, j) * x(j), n);
        }
        let q = |j: int| prob.q@[j];
        lemma_changed_sum(v, q, sigma, g, x, u);
        lemma_sum_same(|i: int| v(q(sigma[i] as int).over(g[i])) * u(i), |i: int| (b.q)(i) * u(i), n);
        lemma_sum_same(|j: int| v(q(j)) * x(j), |j: int| (a.q)(j) * x(j), n);
        lemma_no_curvature(v, prob, x);
        assert(zero_matrix(out.p)) by {
            assert forall|i: int, j: int| 0 <= i < out.p.nrows && 0 <= j < out.p.ncols implies (#[trigger] out.p.at(
                i,
                j,
            )).equals(T::zero()) by {
                assert(out.p.at(i, j) == T::zero());
            }
        }
        lemma_no_curvature(v, out, u);
    }
}

/// The entry of row `i` stands in column `sigma[i]`, and is the only one.
proof fn lemma_entry<T: Scalar>(v: spec_fn(T) -> real, prob: QpProblem<T>, sigma: Seq<usize>, i: int)
    requires
        exact(v),
        prob.wf(),
        prob.mi() == prob.n(),
        generalized_permutation(prob.a_in),
        0 <= i < prob.n(),
        sigma.len() == prob.n(),
        sigma[i] == perm_col(prob.a_in, i),
    ensures
        sigma[i] < prob.n(),
        v(prob.a_in.at(i, sigma[i] as int)) != 0real,
        forall|j: int| 0 <= j < prob.n() && j != sigma[i] ==> v(#[trigger] prob.a_in.at(i, j)) == 0real,
{
    let row = prob.a_in.row(i);
    let n = prob.n();
    assert(crate::matrix::nonzero_count(prob.a_in.row(i), prob.a_in.ncols as nat) == 1);
    lemma_one_entry(row, n);
    crate::lp_simplex::lemma_last_nonzero(row, n);
    assert(row[sigma[i] as int] == prob.a_in.at(i, sigma[i] as int));
    assert forall|j: int| 0 <= j < n && j != sigma[i] implies v(#[trigger] prob.a_in.at(i, j)) == 0real by {
        assert(row[j] == prob.a_in.at(i, j));
        assert(row[j].equals(T::zero()));
    }
}

/// What undoes the change gives the point that the new variables stand for: where entry `sigma[i]` of `x`
/// is `u[i] / g[i]`, the changed problem says of `u` what the given one says of `x`.
pub proof fn undone_change_is_the_point<T: Scalar>(
    v: spec_fn(T) -> real,
    prob: QpProblem<T>,
    c: Changed<T>,
    x: Seq<T>,
    u: Seq<T>,
)
    requires
        exact(v),
        prob.wf(),
        prob.mi() == prob.n(),
        generalized_permutation(prob.a_in),
        is_perm_of(prob.a_in, c.sigma@, c.g@),
        changes_variables(prob, c),
        forall|i: int| 0 <= i < prob.n() ==> x[#[trigger] c.sigma@[i] as int] == u[i].over(c.g@[i]),
    ensures
        same_program(program_of(v, prob), program_of(v, c.prob), entries(v, x), entries(v, u)),
{
    let (sigma, g) = (c.sigma@, c.g@);
    let (xv, uv) = (entries(v, x), entries(v, u));
    assert forall|i: int| 0 <= i < sigma.len() implies #[trigger] uv(i) == v(g[i]) * xv(sigma[i] as int) by {
        lemma_entry(v, prob, sigma, i);
        assert(g[i] == prob.a_in.at(i, sigma[i] as int).neg());
        lemma_over(v, u[i], g[i]);
        let (a, b) = (v(u[i].over(g[i])), v(g[i]));
        assert(a * b == b * a) by (nonlinear_arith);
        assert(x[sigma[i] as int] == u[i].over(g[i]));
    }
    assert(same_point(v, sigma, g, xv, uv));
}

} // verus!
