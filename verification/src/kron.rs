//! Semidefinite programs over a single cone whose slack is a generalized permutation of the
//! unknowns, changed to variables in which the inequality matrix is the negated identity.
use crate::change_laws::{changed_problem_is_equivalent, changes_variables};
use crate::cone::Cone;
use crate::dualize::{minus_identity, negated_identity};
use crate::lp_simplex::{last_nonzero, lemma_last_nonzero};
use crate::matrix::{nonzero_count, zero_matrix, DenseMatrix};
use crate::problem::QpProblem;
use crate::scalar::Scalar;
use crate::vector::{copied, filled};
use vstd::prelude::*;

verus! {

/// The column of the nonzero entry of row `i`.
pub open spec fn perm_col<T: Scalar>(a: DenseMatrix<T>, i: int) -> int {
    last_nonzero(a.row(i), a.ncols as nat) as int
}

/// The matrix is square and not empty, and has exactly one nonzero entry in each row and at most
/// one in each column.
pub open spec fn generalized_permutation<T: Scalar>(a: DenseMatrix<T>) -> bool {
    &&& a.nrows == a.ncols
    &&& a.nrows > 0
    &&& forall|i: int| 0 <= i < a.nrows ==> nonzero_count(#[trigger] a.row(i), a.ncols as nat) == 1
    &&& forall|i: int, k: int|
        0 <= i < k < a.nrows ==> #[trigger] perm_col(a, i) != #[trigger] perm_col(a, k)
}

/// The columns of the nonzero entries, and the negated entries.
pub open spec fn is_perm_of<T: Scalar>(a: DenseMatrix<T>, sigma: Seq<usize>, g: Seq<T>) -> bool {
    &&& sigma.len() == a.nrows
    &&& g.len() == a.nrows
    &&& forall|i: int| 0 <= i < a.nrows ==> #[trigger] sigma[i] == perm_col(a, i) && sigma[i] < a.ncols
    &&& forall|i: int| 0 <= i < a.nrows ==> #[trigger] g[i] == a.at(i, sigma[i] as int).neg()
    &&& forall|i: int, k: int| 0 <= i < k < a.nrows ==> #[trigger] sigma[i] != #[trigger] sigma[k]
}

/// Where `a_in` is a generalized permutation, the column of the nonzero entry of each row, and
/// each such entry negated; else nothing.
pub fn detect_gen_perm<T: Scalar>(a_in: &DenseMatrix<T>) -> (r: Option<(Vec<usize>, Vec<T>)>)
    requires
        a_in.wf(),
    ensures
        r is Some == generalized_permutation(*a_in),
        r matches Some(p) ==> is_perm_of(*a_in, p.0@, p.1@),
{
    let m: usize = a_in.nrows;
    if m != a_in.ncols || m == 0 {
        return None;
    }
    let mut sigma: Vec<usize> = Vec::with_capacity(m);
    let mut g: Vec<T> = Vec::with_capacity(m);
    let mut used: Vec<bool> = filled(false, m);
    let mut i: usize = 0;
    while i < m
        invariant
            a_in.wf(),
            m == a_in.nrows == a_in.ncols,
            i <= m,
            sigma@.len() == i,
            g@.len() == i,
            used@.len() == m,
            forall|k: int|
                0 <= k < i ==> nonzero_count(#[trigger] a_in.row(k), m as nat) == 1,
            forall|k: int| 0 <= k < i ==> #[trigger] sigma@[k] == perm_col(*a_in, k) && sigma@[k] < m,
            forall|k: int| 0 <= k < i ==> #[trigger] g@[k] == a_in.at(k, sigma@[k] as int).neg(),
            forall|k: int, l: int| 0 <= k < l < i ==> #[trigger] sigma@[k] != #[trigger] sigma@[l],
            forall|c: int|
                0 <= c < m ==> (#[trigger] used@[c] <==> exists|k: int|
                    0 <= k < i && #[trigger] sigma@[k] == c),
        decreases m - i,
    {
        let ghost row = a_in.row(i as int);
        let mut count: usize = 0;
        let mut col: usize = 0;
        let mut j: usize = 0;
        while j < m
            invariant
                a_in.wf(),
                m == a_in.nrows == a_in.ncols,
                i < m,
                row == a_in.row(i as int),
                j <= m,
                count <= 1,
                count == nonzero_count(row, j as nat),
                col == last_nonzero(row, j as nat),
            decreases m - j,
        {
            let v = a_in.get(i, j);
            if !v.equals(T::zero()) {
                if count == 1 {
                    proof {
                        lemma_count_grows(row, (j + 1) as nat, m as nat);
                        assert(nonzero_count(a_in.row(i as int), m as nat) != 1);
                    }
                    return None;
                }
                count += 1;
                col = j;
            }
            j += 1;
        }
        if count == 0 {
            assert(nonzero_count(a_in.row(i as int), m as nat) != 1);
            return None;
        }
        proof {
            lemma_last_nonzero(row, m as nat);
        }
        if used[col] {
            proof {
                let k = choose|k: int| 0 <= k < i && #[trigger] sigma@[k] == col;
                assert(perm_col(*a_in, k) == perm_col(*a_in, i as int));
            }
            return None;
        }
        let ghost before = used@;
        let ghost sigma0 = sigma@;
        used[col] = true;
        sigma.push(col);
        g.push(a_in.get(i, col).neg());
        proof {
            assert forall|c: int| 0 <= c < m implies (#[trigger] used@[c] <==> exists|k: int|
                0 <= k < i + 1 && #[trigger] sigma@[k] == c) by {
                if c == col {
                    assert(sigma@[i as int] == c);
                } else {
                    assert(used@[c] == before[c]);
                    if before[c] {
                        let k = choose|k: int| 0 <= k < i && #[trigger] sigma0[k] == c;
                        assert(sigma@[k] == c);
                    }
                }
            }
            assert forall|k: int, l: int| 0 <= k < l < i + 1 implies #[trigger] sigma@[k]
                != #[trigger] sigma@[l] by {
                if l == i && sigma@[k] == sigma@[l] {
                    assert(sigma0[k] == col);
                    assert(before[col as int]);
                }
            }
        }
        i += 1;
    }
    proof {
        assert forall|i: int, k: int| 0 <= i < k < m implies #[trigger] perm_col(*a_in, i)
            != #[trigger] perm_col(*a_in, k) by {
            assert(sigma@[i] != sigma@[k]);
        }
    }
    Some((sigma, g))
}

proof fn lemma_count_grows<T: Scalar>(v: Seq<T>, a: nat, b: nat)
    requires
        a <= b,
    ensures
        nonzero_count(v, a) <= nonzero_count(v, b),
    decreases b - a,
{
    if a < b {
        lemma_count_grows(v, a, (b - 1) as nat);
    }
}

/// The problem has the structure: one semidefinite cone, as many slack entries as unknowns, no
/// Hessian, and a generalized permutation as its inequality matrix.
pub open spec fn kron_structure<T: Scalar>(prob: QpProblem<T>, cones: Seq<Cone>) -> bool {
    &&& cones.len() == 1
    &&& cones[0] is Psd
    &&& prob.mi() == prob.n()
    &&& zero_matrix(prob.p)
    &&& generalized_permutation(prob.a_in)
}

/// The equality matrix in the new variables.
pub open spec fn changed_eq<T: Scalar>(prob: QpProblem<T>, sigma: Seq<usize>, g: Seq<T>) -> spec_fn(int, int) -> T {
    |r: int, a: int| prob.a_eq.at(r, sigma[a] as int).over(g[a])
}

/// `out` is the problem in the variables `-A_in x`: objective and equality columns permuted and
/// divided by the entries, the inequality matrix the negated identity, the rest unchanged.
pub open spec fn is_changed<T: Scalar>(
    prob: QpProblem<T>,
    sigma: Seq<usize>,
    g: Seq<T>,
    out: QpProblem<T>,
) -> bool {
    let n = prob.n();
    &&& out.p.sized(n, n)
    &&& out.p.entries_are(|i: int, j: int| T::zero())
    &&& out.q@ == Seq::new(n, |a: int| prob.q@[sigma[a] as int].over(g[a]))
    &&& out.a_eq.sized(prob.me(), n)
    &&& out.a_eq.entries_are(changed_eq(prob, sigma, g))
    &&& out.b_eq@ == prob.b_eq@
    &&& out.a_in.sized(n, n)
    &&& out.a_in.entries_are(minus_identity())
    &&& out.b_in@ == prob.b_in@
    &&& out.a_eq_csr is None
    &&& out.a_in_csr is None
}

/// A problem in new variables, with what undoes the change.
pub struct Changed<T> {
    pub prob: QpProblem<T>,
    pub sigma: Vec<usize>,
    pub g: Vec<T>,
}

/// Changes the problem to variables in which its inequality matrix is the negated identity; none
/// where it does not have the structure.
pub fn kron_transform<T: Scalar>(prob: &QpProblem<T>, cones: &[Cone]) -> (r: Option<Changed<T>>)
    requires
        prob.wf(),
    ensures
        r is Some == kron_structure(*prob, cones@),
        r matches Some(c) ==> {
            &&& is_perm_of(prob.a_in, c.sigma@, c.g@)
            &&& is_changed(*prob, c.sigma@, c.g@, c.prob)
            &&& changes_variables(*prob, c)
            &&& c.prob.wf()
        },
{
    if cones.len() != 1 {
        return None;
    }
    let psd = matches!(cones[0], Cone::Psd(_));
    if !psd {
        return None;
    }
    let n: usize = prob.q.len();
    let mi: usize = prob.b_in.len();
    let me: usize = prob.b_eq.len();
    if mi != n {
        return None;
    }
    if !prob.p.is_zero() {
        return None;
    }
    let (sigma, g) = match detect_gen_perm(&prob.a_in) {
        Some(p) => p,
        None => {
            return None;
        },
    };
    let total: usize = prob.p.data.len();
    let total_eq: usize = prob.a_eq.data.len();
    let mut q: Vec<T> = Vec::with_capacity(n);
    let mut a: usize = 0;
    while a < n
        invariant
            prob.wf(),
            n == prob.n(),
            n == prob.a_in.nrows == prob.a_in.ncols,
            is_perm_of(prob.a_in, sigma@, g@),
            a <= n,
            q@ =~= Seq::new(a as nat, |a: int| prob.q@[sigma@[a] as int].over(g@[a])),
        decreases n - a,
    {
        assert(sigma@[a as int] < n);
        q.push(prob.q[sigma[a]].over(g[a]));
        a += 1;
    }
    let ghost f = changed_eq(*prob, sigma@, g@);
    let mut a_eq: DenseMatrix<T> = DenseMatrix::zeros(me, n);
    let mut r: usize = 0;
    while r < me
        invariant
            prob.wf(),
            n == prob.n(),
            me == prob.me(),
            n == prob.a_in.nrows == prob.a_in.ncols,
            is_perm_of(prob.a_in, sigma@, g@),
            f == changed_eq(*prob, sigma@, g@),
            r <= me,
            a_eq.sized(me as nat, n as nat),
            forall|i: int, j: int| 0 <= i < r && 0 <= j < n ==> #[trigger] a_eq.at(i, j) == f(i, j),
        decreases me - r,
    {
        let mut a: usize = 0;
        while a < n
            invariant
                prob.wf(),
                n == prob.n(),
                me == prob.me(),
                n == prob.a_in.nrows == prob.a_in.ncols,
                is_perm_of(prob.a_in, sigma@, g@),
                f == changed_eq(*prob, sigma@, g@),
                r < me,
                a <= n,
                a_eq.sized(me as nat, n as nat),
                forall|i: int, j: int|
                    0 <= i < me && 0 <= j < n && (i < r || (i == r && j < a)) ==> #[trigger] a_eq.at(i, j)
                        == f(i, j),
            decreases n - a,
        {
            assert(sigma@[a as int] < n);
            a_eq.set(r, a, prob.a_eq.get(r, sigma[a]).over(g[a]));
            a += 1;
        }
        r += 1;
    }
    let out = QpProblem {
        p: DenseMatrix::zeros(n, n),
        q,
        a_eq,
        b_eq: copied(&prob.b_eq),
        a_in: negated_identity(n),
        b_in: copied(&prob.b_in),
        a_eq_csr: None,
        a_in_csr: None,
    };
    let c = Changed { prob: out, sigma, g };
    proof {
        changed_problem_is_equivalent(*prob, c);
    }
    Some(c)
}

/// `r` holds the unknowns `x` in the original variables: entry `sigma[i]` is `x[i] / g[i]`.
pub open spec fn is_undone<T: Scalar>(sigma: Seq<usize>, g: Seq<T>, x: Seq<T>, r: Seq<T>, n: nat) -> bool {
    forall|i: int| 0 <= i < n ==> r[#[trigger] sigma[i] as int] == x[i].over(g[i])
}

/// The unknowns in the original variables: entry `sigma[i]` is `x[i] / g[i]`.
pub fn undo_change<T: Scalar>(x: &[T], sigma: &[usize], g: &[T]) -> (r: Vec<T>)
    requires
        sigma@.len() == x@.len(),
        g@.len() == x@.len(),
        forall|i: int| 0 <= i < sigma@.len() ==> (#[trigger] sigma@[i]) < x@.len(),
        forall|i: int, k: int| 0 <= i < k < sigma@.len() ==> #[trigger] sigma@[i] != #[trigger] sigma@[k],
    ensures
        r@.len() == x@.len(),
        forall|i: int| 0 <= i < x@.len() ==> r@[#[trigger] sigma@[i] as int] == x@[i].over(g@[i]),
{
    let n: usize = x.len();
    let mut r: Vec<T> = filled(T::zero(), n);
    let mut i: usize = 0;
    while i < n
        invariant
            n == x@.len(),
            sigma@.len() == n,
            g@.len() == n,
            forall|i: int| 0 <= i < n ==> (#[trigger] sigma@[i]) < n,
            forall|i: int, k: int| 0 <= i < k < n ==> #[trigger] sigma@[i] != #[trigger] sigma@[k],
            r@.len() == n,
            i <= n,
            forall|k: int| 0 <= k < i ==> r@[#[trigger] sigma@[k] as int] == x@[k].over(g@[k]),
        decreases n - i,
    {
        let at: usize = sigma[i];
        r[at] = x[i].over(g[i]);
        assert forall|k: int| 0 <= k < i + 1 implies r@[#[trigger] sigma@[k] as int] == x@[k].over(
            g@[k],
        ) by {
            if k < i {
                assert(sigma@[k] != sigma@[i as int]);
            }
        }
        i += 1;
    }
    r
}

} // verus!
