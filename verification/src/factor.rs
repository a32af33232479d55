//! How a dense matrix is factored: the methods, the order in which they are tried, and the factor
//! that comes out.
use crate::matrix::DenseMatrix;
use crate::scalar::Scalar;
use crate::solve::solves_at;
use vstd::prelude::*;

verus! {

/// A method that may fail on a symmetric matrix.
pub enum Method<T> {
    /// `L D L'` in the numbers themselves, without pivoting; fails on a pivot within the tolerance.
    Plain { tolerance: T },
    /// `L L'` by the routines of the platform, where there are any.
    PlatformCholesky,
    /// `L L'`.
    Cholesky,
    /// `L D L'` without pivoting.
    Unpivoted,
    /// `L B L'` with pivoting by the routines of the platform, where there are any.
    PlatformPivoted,
}

impl<T: Copy> Clone for Method<T> {
    fn clone(&self) -> (r: Self)
        ensures
            r == *self,
    {
        *self
    }
}

impl<T: Copy> Copy for Method<T> {

}

/// A pivot within this tolerance counts as zero.
pub open spec fn pivot_tolerance<T: Scalar>() -> T {
    T::decimal(1, 14)
}

/// The tolerance of the pivots.
pub fn tolerance_of_pivots<T: Scalar>() -> (r: T)
    ensures
        r == pivot_tolerance::<T>(),
{
    T::decimal(1, 14)
}

/// The plain method with the tolerance of the pivots.
pub open spec fn plain<T: Scalar>() -> Method<T> {
    Method::Plain { tolerance: pivot_tolerance() }
}

/// `factor` takes square matrices of dimension `dim` by every method, and what it gives solves systems
/// of that dimension.
pub open spec fn factors_at<
    T: Scalar,
    F: Fn(&[T]) -> Vec<T>,
    K: Fn(&DenseMatrix<T>, Method<T>) -> Option<F>,
>(factor: K, dim: nat) -> bool {
    &&& forall|h: &DenseMatrix<T>, k: Method<T>| h.sized(dim, dim) ==> #[trigger] factor.requires((h, k))
    &&& forall|h: &DenseMatrix<T>, k: Method<T>, f: F|
        h.sized(dim, dim) && #[trigger] factor.ensures((h, k), Some(f)) ==> solves_at(f, dim)
}

/// `factor` takes every square matrix of dimension `dim`, and what it gives solves systems of that
/// dimension.
pub open spec fn always_factors_at<T: Scalar, F: Fn(&[T]) -> Vec<T>, K: Fn(&DenseMatrix<T>) -> F>(
    factor: K,
    dim: nat,
) -> bool {
    &&& forall|h: &DenseMatrix<T>| h.sized(dim, dim) ==> #[trigger] factor.requires((h,))
    &&& forall|h: &DenseMatrix<T>, f: F|
        h.sized(dim, dim) && #[trigger] factor.ensures((h,), f) ==> solves_at(f, dim)
}

/// `o` is what the methods of `order` make of `m`, tried one after the other: the first factor that
/// comes out, or none.
pub open spec fn tried<T: Scalar, F, K: Fn(&DenseMatrix<T>, Method<T>) -> Option<F>>(
    factor: K,
    order: Seq<Method<T>>,
    m: DenseMatrix<T>,
    o: Option<F>,
) -> bool
    decreases order.len(),
{
    if order.len() == 0 {
        o is None
    } else {
        exists|h: &DenseMatrix<T>, first: Option<F>|
            {
                &&& *h == m
                &&& #[trigger] factor.ensures((h, order[0]), first)
                &&& match first {
                    Some(_) => o == first,
                    None => tried(factor, order.drop_first(), m, o),
                }
            }
    }
}

/// `f` is the pivoted factor of `m`.
pub open spec fn pivots<T: Scalar, F, P: Fn(&DenseMatrix<T>) -> F>(pivot: P, m: DenseMatrix<T>, f: F) -> bool {
    exists|h: &DenseMatrix<T>| *h == m && #[trigger] pivot.ensures((h,), f)
}

/// `f` is the factor of `m` that the methods of `order` give, or else the pivoted one.
pub open spec fn secured<
    T: Scalar,
    F,
    K: Fn(&DenseMatrix<T>, Method<T>) -> Option<F>,
    P: Fn(&DenseMatrix<T>) -> F,
>(factor: K, pivot: P, order: Seq<Method<T>>, m: DenseMatrix<T>, f: F) -> bool {
    exists|o: Option<F>| #[trigger]
        tried(factor, order, m, o) && match o {
            Some(g) => f == g,
            None => pivots(pivot, m, f),
        }
}

/// What comes out of the methods solves systems of the matrix's dimension.
pub proof fn lemma_tried_solves<
    T: Scalar,
    F: Fn(&[T]) -> Vec<T>,
    K: Fn(&DenseMatrix<T>, Method<T>) -> Option<F>,
>(factor: K, order: Seq<Method<T>>, m: DenseMatrix<T>, f: F, dim: nat)
    requires
        factors_at(factor, dim),
        m.sized(dim, dim),
        tried(factor, order, m, Some(f)),
    ensures
        solves_at(f, dim),
    decreases order.len(),
{
    let (h, first) = choose|h: &DenseMatrix<T>, first: Option<F>|
        {
            &&& *h == m
            &&& #[trigger] factor.ensures((h, order[0]), first)
            &&& match first {
                Some(_) => Some(f) == first,
                None => tried(factor, order.drop_first(), m, Some(f)),
            }
        };
    match first {
        Some(g) => {
            assert(factor.ensures((h, order[0]), Some(g)));
        },
        None => {
            lemma_tried_solves(factor, order.drop_first(), m, f, dim);
        },
    }
}

/// Tries the methods of `order` one after the other.
pub fn try_in_order<
    T: Scalar,
    F: Fn(&[T]) -> Vec<T>,
    K: Fn(&DenseMatrix<T>, Method<T>) -> Option<F>,
>(factor: &K, order: &[Method<T>], m: &DenseMatrix<T>) -> (o: Option<F>)
    requires
        m.wf(),
        m.nrows == m.ncols,
        factors_at(*factor, m.nrows as nat),
    ensures
        tried(*factor, order@, *m, o),
        o matches Some(f) ==> solves_at(f, m.nrows as nat),
{
    let ghost dim = m.nrows as nat;
    let mut i: usize = 0;
    assert(order@.skip(0) =~= order@);
    while i < order.len()
        invariant
            i <= order@.len(),
            dim == m.nrows,
            m.sized(dim, dim),
            factors_at(*factor, dim),
            forall|fin: Option<F>|
                tried(*factor, order@.skip(i as int), *m, fin) ==> #[trigger] tried(*factor, order@, *m, fin),
        decreases order@.len() - i,
    {
        let ghost rest = order@.skip(i as int);
        let o = factor(m, order[i]);
        assert(rest[0] == order@[i as int]);
        assert(factor.ensures((m, rest[0]), o));
        assert(rest.drop_first() =~= order@.skip(i + 1));
        if o.is_some() {
            assert(tried(*factor, rest, *m, o));
            return o;
        }
        proof {
            assert forall|fin: Option<F>| tried(*factor, order@.skip(i + 1), *m, fin) implies #[trigger] tried(
                *factor,
                order@,
                *m,
                fin,
            ) by {
                assert(factor.ensures((m, rest[0]), None));
                assert(tried(*factor, rest, *m, fin));
            }
        }
        i += 1;
    }
    assert(order@.skip(i as int) =~= Seq::empty());
    assert(tried(*factor, order@.skip(i as int), *m, None::<F>));
    None
}

/// The factor that the methods of `order` give, or else the pivoted one.
pub fn factor_surely<
    T: Scalar,
    F: Fn(&[T]) -> Vec<T>,
    K: Fn(&DenseMatrix<T>, Method<T>) -> Option<F>,
    P: Fn(&DenseMatrix<T>) -> F,
>(factor: &K, pivot: &P, order: &[Method<T>], m: &DenseMatrix<T>) -> (f: F)
    requires
        m.wf(),
        m.nrows == m.ncols,
        factors_at(*factor, m.nrows as nat),
        always_factors_at(*pivot, m.nrows as nat),
    ensures
        secured(*factor, *pivot, order@, *m, f),
        solves_at(f, m.nrows as nat),
{
    let o = try_in_order(factor, order, m);
    match o {
        Some(f) => {
            assert(tried(*factor, order@, *m, Some(f)));
            f
        },
        None => {
            let f = pivot(m);
            assert(tried(*factor, order@, *m, None::<F>));
            assert(pivots(*pivot, *m, f));
            f
        },
    }
}

} // verus!
