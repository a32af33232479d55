//! Linear programs with many more rows than unknowns, through their dual.
use crate::dual_laws::{
    dual_problem_mirrors_the_program, mirrors, recovered_solution_is_of_the_program, recovers_truly,
};
use crate::matrix::DenseMatrix;
use crate::problem::{QpProblem, QpSolution, Status};
use crate::scalar::Scalar;
use crate::vector::{constant, copied, dot, dot_spec, filled, negated, negated_of};
use vstd::prelude::*;

verus! {

/// The entry of the transposed inequality matrix.
pub open spec fn transposed<T: Scalar>(a: DenseMatrix<T>) -> spec_fn(int, int) -> T {
    |i: int, j: int| a.at(j, i)
}

/// The entry of the negated identity.
pub open spec fn minus_identity<T: Scalar>() -> spec_fn(int, int) -> T {
    |i: int, j: int|
        if i == j {
            T::one().neg()
        } else {
            T::zero()
        }
}

/// `dual` is the dual of the linear program `min q'x` subject to `A x <= b`: maximize `-b'z`, so
/// minimize `b'z`, subject to `A'z = -q` and `z >= 0`.
pub open spec fn is_dual_of<T: Scalar>(prob: QpProblem<T>, dual: QpProblem<T>) -> bool {
    let n = prob.n();
    let mi = prob.mi();
    &&& dual.p.sized(mi, mi)
    &&& dual.p.entries_are(|i: int, j: int| T::zero())
    &&& dual.q@ == prob.b_in@
    &&& dual.a_eq.sized(n, mi)
    &&& dual.a_eq.entries_are(transposed(prob.a_in))
    &&& dual.b_eq@ == negated(prob.q@)
    &&& dual.a_in.sized(mi, mi)
    &&& dual.a_in.entries_are(minus_identity())
    &&& dual.b_in@ == constant(T::zero(), mi)
    &&& dual.a_eq_csr is None
    &&& dual.a_in_csr is None
}

/// The negated identity matrix.
pub fn negated_identity<T: Scalar>(n: usize) -> (a: DenseMatrix<T>)
    requires
        n * n <= usize::MAX,
    ensures
        a.sized(n as nat, n as nat),
        a.entries_are(minus_identity()),
{
    let mut a: DenseMatrix<T> = DenseMatrix::zeros(n, n);
    let mut i: usize = 0;
    while i < n
        invariant
            i <= n,
            a.sized(n as nat, n as nat),
            forall|r: int, c: int|
                0 <= r < n && 0 <= c < n ==> #[trigger] a.at(r, c) == (if r == c && r < i {
                    T::one().neg()
                } else {
                    T::zero()
                }),
        decreases n - i,
    {
        a.set(i, i, T::one().neg());
        i += 1;
    }
    a
}

/// The dual of a linear program without equality rows.
pub fn dual_problem<T: Scalar>(prob: &QpProblem<T>) -> (dual: QpProblem<T>)
    requires
        prob.wf(),
        prob.mi() * prob.mi() <= usize::MAX,
        prob.n() * prob.mi() <= usize::MAX,
    ensures
        is_dual_of(*prob, dual),
        mirrors(*prob, dual),
{
    let n: usize = prob.q.len();
    let mi: usize = prob.b_in.len();
    let mut a_eq: DenseMatrix<T> = DenseMatrix::zeros(n, mi);
    let mut j: usize = 0;
    while j < n
        invariant
            prob.wf(),
            n == prob.n(),
            mi == prob.mi(),
            j <= n,
            a_eq.sized(n as nat, mi as nat),
            forall|r: int, c: int| 0 <= r < j && 0 <= c < mi ==> #[trigger] a_eq.at(r, c) == prob.a_in.at(c, r),
        decreases n - j,
    {
        let mut r: usize = 0;
        while r < mi
            invariant
                prob.wf(),
                n == prob.n(),
                mi == prob.mi(),
                j < n,
                r <= mi,
                a_eq.sized(n as nat, mi as nat),
                forall|a: int, c: int|
                    0 <= a < n && 0 <= c < mi && (a < j || (a == j && c < r)) ==> #[trigger] a_eq.at(a, c)
                        == prob.a_in.at(c, a),
            decreases mi - r,
        {
            a_eq.set(j, r, prob.a_in.get(r, j));
            r += 1;
        }
        j += 1;
    }
    let dual = QpProblem {
        p: DenseMatrix::zeros(mi, mi),
        q: copied(&prob.b_in),
        a_eq,
        b_eq: negated_of(&prob.q),
        a_in: negated_identity(mi),
        b_in: filled(T::zero(), mi),
        a_eq_csr: None,
        a_in_csr: None,
    };
    proof {
        dual_problem_mirrors_the_program(*prob, dual);
    }
    dual
}

/// The slacks `b - A x` of the inequality rows.
pub open spec fn slack_at<T: Scalar>(prob: QpProblem<T>, x: Seq<T>) -> Seq<T> {
    Seq::new(prob.mi(), |r: int| prob.b_in@[r].minus(dot_spec(prob.a_in.row(r), x)))
}

/// The slacks `b - A x` of the inequality rows.
pub fn slacks_at<T: Scalar>(prob: &QpProblem<T>, x: &[T]) -> (s: Vec<T>)
    requires
        prob.wf(),
        x@.len() == prob.n(),
    ensures
        s@ == slack_at(*prob, x@),
{
    let mi: usize = prob.b_in.len();
    let mut s: Vec<T> = Vec::with_capacity(mi);
    let mut r: usize = 0;
    while r < mi
        invariant
            prob.wf(),
            mi == prob.mi(),
            x@.len() == prob.n(),
            r <= mi,
            s@ =~= slack_at(*prob, x@).subrange(0, r as int),
        decreases mi - r,
    {
        s.push(prob.b_in[r].minus(prob.a_in.row_dot(r, x)));
        r += 1;
    }
    assert(s@ =~= slack_at(*prob, x@));
    s
}

/// The primal solution from a solution of the dual: the unknowns are the multipliers of the dual's
/// equality rows as a maximization has them, which are the negated multipliers of the
/// minimization; the multipliers are the dual's unknowns.
pub open spec fn primal_from_dual<T: Scalar>(prob: QpProblem<T>, sol: QpSolution<T>) -> Option<
    (Status, Seq<T>, Seq<T>, Seq<T>, Seq<T>, T, usize),
> {
    let x = negated(sol.y@);
    if sol.status == Status::Solved {
        Some(
            (
                Status::Solved,
                x,
                Seq::empty(),
                slack_at(prob, x),
                sol.x@,
                dot_spec(prob.q@, x),
                sol.iters,
            ),
        )
    } else {
        None
    }
}

/// `r` is the solution of the primal that the dual's solution `sol` stands for, where it has one.
pub open spec fn recovers<T: Scalar>(prob: QpProblem<T>, sol: QpSolution<T>, r: Option<QpSolution<T>>) -> bool {
    &&& r is Some == primal_from_dual(prob, sol) is Some
    &&& r matches Some(out) ==> out.parts() == primal_from_dual(prob, sol)->0 && out.plain()
}

/// The solution of a linear program without equality rows from that of its dual. None where the dual
/// is not solved.
pub fn recover_primal<T: Scalar>(prob: &QpProblem<T>, sol: &QpSolution<T>) -> (r: Option<QpSolution<T>>)
    requires
        prob.wf(),
        sol.y@.len() == prob.n(),
    ensures
        recovers(*prob, *sol, r),
        r matches Some(out) ==> recovers_truly(*prob, *sol, out),
{
    if sol.status != Status::Solved {
        return None;
    }
    let x = negated_of(&sol.y);
    let z = copied(&sol.x);
    let s = slacks_at(prob, &x);
    let obj = dot(&prob.q, &x);
    let y: Vec<T> = Vec::new();
    assert(y@ =~= Seq::<T>::empty());
    let out = QpSolution::new(Status::Solved, x, y, s, z, obj, sol.iters);
    proof {
        recovered_solution_is_of_the_program(*prob, *sol, out);
    }
    Some(out)
}

} // verus!
