use crate::scalar::Scalar;
use vstd::prelude::*;

verus! {

/// The sum of the products of the first `k` entries, accumulated from the left.
pub open spec fn dot_upto<T: Scalar>(a: Seq<T>, b: Seq<T>, k: nat) -> T
    decreases k,
{
    if k == 0 {
        T::zero()
    } else {
        dot_upto(a, b, (k - 1) as nat).plus(a[k - 1].times(b[k - 1]))
    }
}

/// The inner product of two vectors of the same length.
pub open spec fn dot_spec<T: Scalar>(a: Seq<T>, b: Seq<T>) -> T {
    dot_upto(a, b, a.len())
}

/// The largest absolute value among the first `k` entries, and zero where there is none.
pub open spec fn inf_norm_upto<T: Scalar>(a: Seq<T>, k: nat) -> T
    decreases k,
{
    if k == 0 {
        T::zero()
    } else {
        inf_norm_upto(a, (k - 1) as nat).max(a[k - 1].abs())
    }
}

/// The largest absolute value of the entries.
pub open spec fn inf_norm_spec<T: Scalar>(a: Seq<T>) -> T {
    inf_norm_upto(a, a.len())
}

/// Whether every entry is finite.
pub open spec fn all_finite<T: Scalar>(a: Seq<T>) -> bool {
    forall|i: int| 0 <= i < a.len() ==> (#[trigger] a[i]).is_finite()
}

/// The vector of `n` copies of `v`.
pub open spec fn constant<T>(v: T, n: nat) -> Seq<T> {
    Seq::new(n, |i: int| v)
}

/// `a + t * d`, entry by entry.
pub open spec fn moved<T: Scalar>(a: Seq<T>, t: T, d: Seq<T>) -> Seq<T> {
    Seq::new(a.len(), |i: int| a[i].plus(t.times(d[i])))
}

/// `a / t`, entry by entry.
pub open spec fn divided<T: Scalar>(a: Seq<T>, t: T) -> Seq<T> {
    Seq::new(a.len(), |i: int| a[i].over(t))
}

/// The negated vector.
pub open spec fn negated<T: Scalar>(a: Seq<T>) -> Seq<T> {
    Seq::new(a.len(), |i: int| a[i].neg())
}

/// The inner product of two vectors of the same length.
pub fn dot<T: Scalar>(a: &[T], b: &[T]) -> (r: T)
    requires
        a@.len() == b@.len(),
    ensures
        r == dot_spec(a@, b@),
{
    let mut acc = T::zero();
    let mut i: usize = 0;
    while i < a.len()
        invariant
            i <= a@.len() == b@.len(),
            acc == dot_upto(a@, b@, i as nat),
        decreases a@.len() - i,
    {
        acc = acc.plus(a[i].times(b[i]));
        i += 1;
    }
    acc
}

/// The largest absolute value of the entries, zero for the empty vector.
pub fn inf_norm<T: Scalar>(a: &[T]) -> (r: T)
    ensures
        r == inf_norm_spec(a@),
{
    let mut acc = T::zero();
    let mut i: usize = 0;
    while i < a.len()
        invariant
            i <= a@.len(),
            acc == inf_norm_upto(a@, i as nat),
        decreases a@.len() - i,
    {
        acc = acc.max(a[i].abs());
        i += 1;
    }
    acc
}

/// Whether every entry is finite.
pub fn is_all_finite<T: Scalar>(a: &[T]) -> (r: bool)
    ensures
        r == all_finite(a@),
{
    let mut i: usize = 0;
    while i < a.len()
        invariant
            i <= a@.len(),
            forall|k: int| 0 <= k < i ==> (#[trigger] a@[k]).is_finite(),
        decreases a@.len() - i,
    {
        if !a[i].is_finite() {
            return false;
        }
        i += 1;
    }
    true
}

/// The vector of `n` copies of `v`.
pub fn filled<T: Copy>(v: T, n: usize) -> (r: Vec<T>)
    ensures
        r@ == constant(v, n as nat),
{
    let mut r: Vec<T> = Vec::with_capacity(n);
    let mut i: usize = 0;
    while i < n
        invariant
            i <= n,
            r@ =~= constant(v, i as nat),
        decreases n - i,
    {
        r.push(v);
        i += 1;
    }
    r
}

/// A copy of the vector.
pub fn copied<T: Copy>(a: &[T]) -> (r: Vec<T>)
    ensures
        r@ == a@,
{
    let mut r: Vec<T> = Vec::with_capacity(a.len());
    let mut i: usize = 0;
    while i < a.len()
        invariant
            i <= a@.len(),
            r@ =~= a@.subrange(0, i as int),
        decreases a@.len() - i,
    {
        r.push(a[i]);
        i += 1;
    }
    assert(a@.subrange(0, a@.len() as int) =~= a@);
    r
}

/// A copy of the entries from `lo` up to `hi`.
pub fn slice_of<T: Copy>(a: &[T], lo: usize, hi: usize) -> (r: Vec<T>)
    requires
        lo <= hi <= a@.len(),
    ensures
        r@ == a@.subrange(lo as int, hi as int),
{
    let mut r: Vec<T> = Vec::with_capacity(hi - lo);
    let mut i: usize = lo;
    while i < hi
        invariant
            lo <= i <= hi <= a@.len(),
            r@ =~= a@.subrange(lo as int, i as int),
        decreases hi - i,
    {
        r.push(a[i]);
        i += 1;
    }
    r
}

/// `a + t * d`, entry by entry.
pub fn moved_by<T: Scalar>(a: &[T], t: T, d: &[T]) -> (r: Vec<T>)
    requires
        a@.len() == d@.len(),
    ensures
        r@ == moved(a@, t, d@),
{
    let mut r: Vec<T> = Vec::with_capacity(a.len());
    let mut i: usize = 0;
    while i < a.len()
        invariant
            i <= a@.len() == d@.len(),
            r@ =~= moved(a@, t, d@).subrange(0, i as int),
        decreases a@.len() - i,
    {
        r.push(a[i].plus(t.times(d[i])));
        i += 1;
    }
    assert(r@ =~= moved(a@, t, d@));
    r
}

/// `a / t`, entry by entry.
pub fn divided_by<T: Scalar>(a: &[T], t: T) -> (r: Vec<T>)
    ensures
        r@ == divided(a@, t),
{
    let mut r: Vec<T> = Vec::with_capacity(a.len());
    let mut i: usize = 0;
    while i < a.len()
        invariant
            i <= a@.len(),
            r@ =~= divided(a@, t).subrange(0, i as int),
        decreases a@.len() - i,
    {
        r.push(a[i].over(t));
        i += 1;
    }
    assert(r@ =~= divided(a@, t));
    r
}

/// The negated vector.
pub fn negated_of<T: Scalar>(a: &[T]) -> (r: Vec<T>)
    ensures
        r@ == negated(a@),
{
    let mut r: Vec<T> = Vec::with_capacity(a.len());
    let mut i: usize = 0;
    while i < a.len()
        invariant
            i <= a@.len(),
            r@ =~= negated(a@).subrange(0, i as int),
        decreases a@.len() - i,
    {
        r.push(a[i].neg());
        i += 1;
    }
    assert(r@ =~= negated(a@));
    r
}

} // verus!
