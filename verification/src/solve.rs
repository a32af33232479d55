//! Which solutions a factored linear system may give.
use crate::fac::{gather, gathered, permutation, scatter};
use crate::scalar::Scalar;
use vstd::prelude::*;

verus! {

/// `v` is a solution that the system may give for the right-hand side `a`.
pub open spec fn yields<T>(system: spec_fn(Seq<T>, Seq<T>) -> bool, a: Seq<T>, v: Seq<T>) -> bool {
    system(a, v)
}

/// The solutions that the solve `f` may give.
pub open spec fn solved_by<T, F: Fn(&[T]) -> Vec<T>>(f: F) -> spec_fn(Seq<T>, Seq<T>) -> bool {
    |a: Seq<T>, v: Seq<T>|
        exists|s: &[T], r: Vec<T>| s@ == a && #[trigger] f.ensures((s,), r) && r@ == v
}

/// The solutions of a system whose permuted form is solved: right-hand side and solution correspond
/// in the order of the permutation.
pub open spec fn solved_through<T>(
    system: spec_fn(Seq<T>, Seq<T>) -> bool,
    perm: Seq<usize>,
) -> spec_fn(Seq<T>, Seq<T>) -> bool {
    |a: Seq<T>, v: Seq<T>| v.len() == perm.len() && yields(system, gathered(perm, a), gathered(perm, v))
}

/// A right-hand side of length `dim` may be handed to `f`, which gives a solution of that length.
pub open spec fn solves_at<T, F: Fn(&[T]) -> Vec<T>>(f: F, dim: nat) -> bool {
    &&& forall|a: &[T]| a@.len() == dim ==> #[trigger] f.requires((a,))
    &&& forall|a: &[T], v: Vec<T>| a@.len() == dim && #[trigger] f.ensures((a,), v) ==> v@.len() == dim
}

/// `solve` takes right-hand sides of length `dim` and gives solutions that `solves` describes.
pub open spec fn gives_solutions<T, S: Fn(&[T]) -> Vec<T>>(
    solve: S,
    solves: spec_fn(Seq<T>, Seq<T>) -> bool,
    dim: nat,
) -> bool {
    &&& forall|a: &[T]| a@.len() == dim ==> #[trigger] solve.requires((a,))
    &&& forall|a: &[T], v: Vec<T>|
        a@.len() == dim && #[trigger] solve.ensures((a,), v) ==> v@.len() == dim && yields(solves, a@, v@)
}

/// What `value` is of `a`.
pub open spec fn value_at<T>(value: spec_fn(Seq<T>) -> Seq<T>, a: Seq<T>) -> Seq<T> {
    value(a)
}

/// `f` takes vectors of length `dim` and computes `value`, of the same length.
pub open spec fn computes<T, F: Fn(&[T]) -> Vec<T>>(f: F, value: spec_fn(Seq<T>) -> Seq<T>, dim: nat) -> bool {
    &&& forall|a: &[T]| a@.len() == dim ==> #[trigger] f.requires((a,))
    &&& forall|a: &[T], v: Vec<T>|
        a@.len() == dim && #[trigger] f.ensures((a,), v) ==> v@.len() == dim && v@ == value(a@)
}

/// Solves a system through the solve `f` of its permuted form.
pub(crate) fn solve_through<T: Scalar, F: Fn(&[T]) -> Vec<T>>(f: &F, perm: &[usize], a: &[T]) -> (v: Vec<T>)
    requires
        permutation(perm@),
        a@.len() == perm@.len(),
        solves_at(*f, perm@.len()),
    ensures
        v@.len() == a@.len(),
        yields(solved_through(solved_by(*f), perm@), a@, v@),
{
    let p = gather(perm, a);
    let arg: &[T] = p.as_slice();
    let w = f(arg);
    assert(f.ensures((arg,), w));
    assert(yields(solved_by(*f), arg@, w@));
    scatter(perm, &w)
}

} // verus!
