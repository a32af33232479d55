//! Sparse systems in the order in which they are eliminated.
use crate::fac::{lemma_surjective, permutation};
use crate::qp_sparse::injects;
use crate::range_space::{find_pos, invert_permutation};
use crate::scalar::Scalar;
use crate::sparse::CscMatrix;
use vstd::prelude::*;

verus! {

/// How sparse systems are ordered before they are factored.
pub struct Sorting<O, R, U> {
    /// The order of elimination of a system.
    pub order: O,
    /// The order of elimination of the complement of the equality rows.
    pub complement: R,
    /// The upper triangle of a system in the order of a permutation.
    pub permute: U,
}

/// `pinv` is the inverse of the permutation.
pub open spec fn inverts(perm: Seq<usize>, pinv: Seq<usize>) -> bool {
    &&& pinv.len() == perm.len()
    &&& forall|k: int| 0 <= k < perm.len() ==> pinv[#[trigger] perm[k] as int] == k
    &&& forall|i: int| 0 <= i < pinv.len() ==> (#[trigger] pinv[i]) < perm.len()
}

/// The permuted upper triangle `s` has a place for the coupling of the indices `a` and `b`.
pub open spec fn has_place<T: Scalar>(s: CscMatrix<T>, pinv: Seq<usize>, a: int, b: int) -> bool {
    if pinv[a] <= pinv[b] {
        find_pos(s, pinv[b] as int, pinv[a] as int) is Some
    } else {
        find_pos(s, pinv[a] as int, pinv[b] as int) is Some
    }
}

/// `s` is the upper triangle `k` in the order of the permutation: it has a place for every entry.
pub open spec fn keeps_places<T: Scalar>(k: CscMatrix<T>, pinv: Seq<usize>, s: CscMatrix<T>) -> bool {
    forall|c: int, i: int|
        0 <= c < k.n && 0 <= i < k.cols()[c].len() ==> has_place(s, pinv, (#[trigger] k.cols()[c][i]).0 as int, c)
}

/// The matrix is square.
pub open spec fn squared<T: Scalar>(k: CscMatrix<T>) -> bool {
    k.wf() && k.m == k.n
}

/// `order` takes square matrices and gives permutations.
pub open spec fn gives_orders<T: Scalar, O: Fn(&CscMatrix<T>) -> Vec<usize>>(order: O) -> bool {
    &&& forall|k: &CscMatrix<T>| squared(*k) ==> #[trigger] order.requires((k,))
    &&& forall|k: &CscMatrix<T>, perm: Vec<usize>|
        squared(*k) && #[trigger] order.ensures((k,), perm) ==> permutation(perm@) && perm@.len() == k.n
}

/// `permute` takes a square matrix with a permutation and keeps the places of the entries.
pub open spec fn permutes<T: Scalar, U: Fn(&CscMatrix<T>, &[usize]) -> CscMatrix<T>>(permute: U) -> bool {
    &&& forall|k: &CscMatrix<T>, p: &[usize]|
        squared(*k) && permutation(p@) && p@.len() == k.n ==> #[trigger] permute.requires((k, p))
    &&& forall|k: &CscMatrix<T>, p: &[usize], s: CscMatrix<T>|
        squared(*k) && permutation(p@) && p@.len() == k.n && #[trigger] permute.ensures((k, p), s) ==> {
            &&& squared(s)
            &&& s.n == k.n
            &&& forall|pinv: Seq<usize>| #[trigger] inverts(p@, pinv) ==> keeps_places(*k, pinv, s)
        }
}

/// The orderings take every system and keep its places.
pub open spec fn sorting_fits<
    T: Scalar,
    O: Fn(&CscMatrix<T>) -> Vec<usize>,
    R: Fn(&CscMatrix<T>) -> Vec<usize>,
    U: Fn(&CscMatrix<T>, &[usize]) -> CscMatrix<T>,
>(sort: Sorting<O, R, U>) -> bool {
    gives_orders(sort.order) && gives_orders(sort.complement) && permutes(sort.permute)
}

/// `s` is the system `k` in the order `perm` that was found for it.
pub open spec fn sorted_by<
    T: Scalar,
    O: Fn(&CscMatrix<T>) -> Vec<usize>,
    U: Fn(&CscMatrix<T>, &[usize]) -> CscMatrix<T>,
>(order: O, permute: U, k: CscMatrix<T>, perm: Vec<usize>, s: CscMatrix<T>) -> bool {
    &&& order.ensures((&k,), perm)
    &&& exists|p: &[usize]| p@ == perm@ && #[trigger] permute.ensures((&k, p), s)
}

/// Orders a system.
pub(crate) fn sort_system<
    T: Scalar,
    O: Fn(&CscMatrix<T>) -> Vec<usize>,
    U: Fn(&CscMatrix<T>, &[usize]) -> CscMatrix<T>,
>(order: &O, permute: &U, k: &CscMatrix<T>) -> (r: (Vec<usize>, Vec<usize>, CscMatrix<T>))
    requires
        squared(*k),
        gives_orders(*order),
        permutes(*permute),
    ensures
        permutation(r.0@),
        r.0@.len() == k.n,
        inverts(r.0@, r.1@),
        injects(r.1@, k.n as nat),
        squared(r.2),
        r.2.n == k.n,
        keeps_places(*k, r.1@, r.2),
        sorted_by(*order, *permute, *k, r.0, r.2),
{
    let perm = order(k);
    assert(order.ensures((k,), perm));
    let pinv = invert_permutation(&perm);
    let p: &[usize] = perm.as_slice();
    let s = permute(k, p);
    assert(permute.ensures((k, p), s));
    assert(inverts(p@, pinv@));
    assert forall|i: int, j: int| 0 <= i < j < pinv@.len() implies #[trigger] pinv@[i] != #[trigger] pinv@[j] by {
        lemma_surjective(perm@, i);
        lemma_surjective(perm@, j);
        let a = choose|a: int| 0 <= a < perm@.len() && #[trigger] perm@[a] == i;
        let b = choose|b: int| 0 <= b < perm@.len() && #[trigger] perm@[b] == j;
        assert(pinv@[perm@[a] as int] == a && pinv@[perm@[b] as int] == b);
    }
    (perm, pinv, s)
}

} // verus!
