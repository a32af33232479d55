//! What earlier searches for a low-rank structure found, keyed by the contents of the Hessian.
use crate::lowrank::LowRankDiag;
use crate::matrix::DenseMatrix;
use crate::problem::QpProblem;
use crate::qp_setup::{is_low_rank_candidate, low_rank_candidate, suits_condensed};
use crate::scalar::Scalar;
use crate::vector::copied;
use std::collections::hash_map::DefaultHasher;
use std::collections::{HashMap, HashSet};
use std::hash::Hasher;
use vstd::bytes::{spec_u64_to_le_bytes, u64_to_le_bytes};
use vstd::prelude::*;
use vstd::std_specs::hash::DefaultHasherAdditionalSpecFns;

verus! {

broadcast use vstd::std_specs::hash::group_hash_axioms;

/// The relative size below which a search counts what remains of a Hessian as nothing.
pub open spec fn search_tolerance<T: Scalar>() -> T {
    T::decimal(1, 10)
}

fn tolerance_of_search<T: Scalar>() -> (r: T)
    ensures
        r == search_tolerance::<T>(),
{
    T::decimal(1, 10)
}

/// What is hashed of a matrix: its numbers of rows and columns, then the bit patterns of its
/// first `k` entries.
pub open spec fn hashed<T: Scalar>(p: DenseMatrix<T>, k: nat) -> Seq<Seq<u8>>
    decreases k,
{
    if k == 0 {
        seq![spec_u64_to_le_bytes(p.nrows as u64), spec_u64_to_le_bytes(p.ncols as u64)]
    } else {
        hashed(p, (k - 1) as nat).push(spec_u64_to_le_bytes(p.data@[k - 1].bits()))
    }
}

/// The hash of a matrix by its contents.
pub open spec fn hash_of<T: Scalar>(p: DenseMatrix<T>) -> u64 {
    DefaultHasher::spec_finish(hashed(p, p.data@.len()))
}

/// The hash of a matrix by its contents.
pub fn hash_p<T: Scalar>(p: &DenseMatrix<T>) -> (r: u64)
    ensures
        r == hash_of(*p),
{
    let mut h = DefaultHasher::new();
    let rows = u64_to_le_bytes(p.nrows as u64);
    h.write(rows.as_slice());
    let cols = u64_to_le_bytes(p.ncols as u64);
    h.write(cols.as_slice());
    assert(h@ =~= hashed(*p, 0));
    let mut k: usize = 0;
    while k < p.data.len()
        invariant
            k <= p.data@.len(),
            h@ == hashed(*p, k as nat),
        decreases p.data@.len() - k,
    {
        let bytes = u64_to_le_bytes(p.data[k].bits());
        h.write(bytes.as_slice());
        k += 1;
    }
    h.finish()
}

/// Matrices with the same sizes and the same entries have the same hash.
pub proof fn equal_contents_hash_equally<T: Scalar>(p: DenseMatrix<T>, q: DenseMatrix<T>, k: nat)
    requires
        p.nrows == q.nrows,
        p.ncols == q.ncols,
        p.data@ == q.data@,
    ensures
        hashed(p, k) == hashed(q, k),
    decreases k,
{
    if k > 0 {
        equal_contents_hash_equally(p, q, (k - 1) as nat);
    }
}

/// The hashes of matrices in which no structure was found: none at first.
pub fn lr_rejected() -> (r: HashSet<u64>)
    ensures
        r@ == Set::<u64>::empty(),
{
    HashSet::new()
}

/// Whether a matrix with this hash was searched in vain before.
pub fn lr_was_rejected(rejected: &HashSet<u64>, h: u64) -> (r: bool)
    ensures
        r == rejected@.contains(h),
{
    rejected.contains(&h)
}

/// Records that a matrix with this hash was searched in vain.
pub fn lr_mark_rejected(rejected: &mut HashSet<u64>, h: u64)
    ensures
        final(rejected)@ == old(rejected)@.insert(h),
{
    rejected.insert(h);
}

/// The structures that were found, by hash: none at first.
pub fn lr_cache<T: Scalar>() -> (r: HashMap<u64, LowRankDiag<T>>)
    ensures
        r@ == Map::<u64, LowRankDiag<T>>::empty(),
{
    HashMap::new()
}

/// What earlier searches found: the hashes of matrices that are not searched again, and the structures
/// of others.
pub struct Searches<T> {
    /// The hashes of matrices in which no structure was found that can be used.
    pub rejected: HashSet<u64>,
    /// The structures that were found, by hash.
    pub found: HashMap<u64, LowRankDiag<T>>,
}

/// The contents of what earlier searches found.
#[verifier::ext_equal]
pub ghost struct SearchesView<T> {
    pub rejected: Set<u64>,
    pub found: Map<u64, LowRankDiag<T>>,
}

impl<T: Scalar> View for Searches<T> {
    type V = SearchesView<T>;

    open spec fn view(&self) -> SearchesView<T> {
        SearchesView { rejected: self.rejected@, found: self.found@ }
    }
}

impl<T: Scalar> Searches<T> {
    /// Nothing was searched yet.
    pub fn new() -> (r: Self)
        ensures
            r@ == (SearchesView { rejected: Set::<u64>::empty(), found: Map::<u64, LowRankDiag<T>>::empty() }),
    {
        Searches { rejected: lr_rejected(), found: lr_cache() }
    }
}

/// Two decompositions have the same contents.
pub open spec fn same_structure<T: Scalar>(a: LowRankDiag<T>, b: LowRankDiag<T>) -> bool {
    &&& a.l.nrows == b.l.nrows
    &&& a.l.ncols == b.l.ncols
    &&& a.l.data@ == b.l.data@
    &&& a.d@ == b.d@
    &&& a.rank == b.rank
    &&& a.offdiag_rel == b.offdiag_rel
}

/// A copy of a decomposition.
pub fn duplicate_structure<T: Scalar>(a: &LowRankDiag<T>) -> (r: LowRankDiag<T>)
    ensures
        same_structure(r, *a),
{
    LowRankDiag {
        l: a.l.duplicate(),
        d: copied(&a.d),
        rank: a.rank,
        offdiag_rel: a.offdiag_rel,
    }
}

/// The structure that was stored under this hash, if there is one.
pub fn lr_cache_lookup<T: Scalar>(cache: &HashMap<u64, LowRankDiag<T>>, h: u64) -> (r: Option<LowRankDiag<T>>)
    ensures
        r is Some == cache@.contains_key(h),
        r matches Some(lr) ==> same_structure(lr, cache@[h]),
{
    match cache.get(&h) {
        Some(lr) => Some(duplicate_structure(lr)),
        None => None,
    }
}

/// Stores a structure under this hash.
pub fn lr_cache_store<T: Scalar>(cache: &mut HashMap<u64, LowRankDiag<T>>, h: u64, lr: &LowRankDiag<T>)
    ensures
        final(cache)@ == old(cache)@.insert(h, final(cache)@[h]),
        same_structure(final(cache)@[h], *lr),
{
    cache.insert(h, duplicate_structure(lr));
    assert(cache@.dom() =~= old(cache)@.dom().insert(h));
}

/// The matrix with the hash `h` is not searched again.
pub open spec fn rejects<T: Scalar>(before: SearchesView<T>, h: u64, after: SearchesView<T>) -> bool {
    after == SearchesView { rejected: before.rejected.insert(h), ..before }
}

/// The structure `lr` is kept under the hash `h`.
pub open spec fn keeps<T: Scalar>(
    before: SearchesView<T>,
    h: u64,
    lr: LowRankDiag<T>,
    after: SearchesView<T>,
) -> bool {
    &&& after.rejected == before.rejected
    &&& after.found == before.found.insert(h, after.found[h])
    &&& same_structure(after.found[h], lr)
}

/// `r` is the structure of the Hessian `p` with the hash `h`, where `before` is known and `after` is known
/// then: none where it was rejected, else the structure that is known of it or what `detect` finds,
/// whose outcome is recorded. A structure of another order belongs to another matrix with this hash, and
/// nothing is made of it.
pub open spec fn structure_for<T: Scalar, D: Fn(&DenseMatrix<T>, T, usize) -> Option<LowRankDiag<T>>>(
    p: DenseMatrix<T>,
    h: u64,
    cap: usize,
    before: SearchesView<T>,
    detect: D,
    after: SearchesView<T>,
    r: Option<LowRankDiag<T>>,
) -> bool {
    if before.rejected.contains(h) {
        r is None && after == before
    } else if before.found.contains_key(h) {
        &&& r is Some == before.found[h].fits(p.nrows as nat)
        &&& r matches Some(lr) ==> same_structure(lr, before.found[h])
        &&& after == before
    } else {
        &&& detect.ensures((&p, search_tolerance(), cap), r)
        &&& match r {
            None => rejects(before, h, after),
            Some(lr) => keeps(before, h, lr, after),
        }
    }
}

/// Looks for the structure of the Hessian `p`, whose hash is `h`: a matrix that was searched in
/// vain before is not searched again, and a structure that was found before is taken from the
/// cache. Otherwise `detect` searches, and its outcome is recorded.
pub fn detect_cached<T: Scalar, D: Fn(&DenseMatrix<T>, T, usize) -> Option<LowRankDiag<T>>>(
    p: &DenseMatrix<T>,
    h: u64,
    cap: usize,
    known: &mut Searches<T>,
    detect: &D,
) -> (r: Option<LowRankDiag<T>>)
    requires
        detect.requires((p, search_tolerance(), cap)),
    ensures
        structure_for(*p, h, cap, old(known)@, *detect, final(known)@, r),
{
    if lr_was_rejected(&known.rejected, h) {
        return None;
    }
    match lr_cache_lookup(&known.found, h) {
        Some(lr) => if lr.has_order(p.nrows) {
            Some(lr)
        } else {
            None
        },
        None => match detect(p, tolerance_of_search(), cap) {
            Some(lr) => {
                lr_cache_store(&mut known.found, h, &lr);
                Some(lr)
            },
            None => {
                lr_mark_rejected(&mut known.rejected, h);
                None
            },
        },
    }
}

/// A Hessian is searched once: what a search gave is recorded, whatever it was, and looking again gives
/// the same without a search.
pub proof fn searched_once<T: Scalar, D: Fn(&DenseMatrix<T>, T, usize) -> Option<LowRankDiag<T>>>(
    p: DenseMatrix<T>,
    h: u64,
    caps: (usize, usize),
    before: SearchesView<T>,
    detects: (D, D),
    after: SearchesView<T>,
    first: Option<LowRankDiag<T>>,
    last: SearchesView<T>,
    second: Option<LowRankDiag<T>>,
)
    requires
        structure_for(p, h, caps.0, before, detects.0, after, first),
        first matches Some(lr) ==> lr.fits(p.nrows as nat),
        structure_for(p, h, caps.1, after, detects.1, last, second),
    ensures
        after.rejected.contains(h) || after.found.contains_key(h),
        last == after,
        match (first, second) {
            (Some(a), Some(b)) => same_structure(a, b),
            (None, None) => true,
            _ => false,
        },
{
}

/// The structure is worth using: its rank is a third of the dimension at most, and little is left off
/// its diagonal.
pub open spec fn suitable<T: Scalar>(lr: LowRankDiag<T>, n: nat) -> bool {
    lr.rank > 0 && lr.rank <= n / 3 && lr.offdiag_rel.at_most(T::decimal(1, 4))
}

/// The largest rank that the search of the orthant engine admits.
pub open spec fn search_cap(n: nat) -> nat {
    let half = n / 2;
    let cap = if half < 4 {
        4
    } else {
        half
    };
    if cap < n - 1 {
        cap
    } else {
        (n - 1) as nat
    }
}

/// `r` is the structure that the orthant engine uses for a problem with this number of rows that are not
/// bounds, where `before` is known and `after` is known then: none where the problem is no candidate
/// or its Hessian was rejected, else the structure that is known of it or that `detect` finds, where it
/// is suitable and of the Hessian's order.
pub open spec fn low_rank_for<T: Scalar, D: Fn(&DenseMatrix<T>, T, usize) -> Option<LowRankDiag<T>>>(
    prob: QpProblem<T>,
    general: nat,
    before: SearchesView<T>,
    detect: D,
    after: SearchesView<T>,
    r: Option<LowRankDiag<T>>,
) -> bool {
    let h = hash_of(prob.p);
    if !low_rank_candidate(prob.n(), prob.me(), general) || before.rejected.contains(h) {
        r is None && after == before
    } else if before.found.contains_key(h) {
        &&& r is Some == (before.found[h].fits(prob.n()) && suitable(before.found[h], prob.n()))
        &&& r matches Some(lr) ==> same_structure(lr, before.found[h])
        &&& after == before
    } else {
        exists|o: Option<LowRankDiag<T>>|
            {
                &&& #[trigger] detect.ensures((&prob.p, search_tolerance(), search_cap(prob.n()) as usize), o)
                &&& match o {
                    None => r is None && after == before,
                    Some(lr) => if suitable(lr, prob.n()) {
                        r == o && keeps(before, h, lr, after)
                    } else {
                        r is None && rejects(before, h, after)
                    },
                }
            }
    }
}

/// Looks for a low-rank structure of the Hessian that the orthant engine can use, in a problem whose
/// rows are bounds. A suitable structure is kept; a matrix whose structure is not suitable is rejected
/// for good.
pub fn find_low_rank<T: Scalar, D: Fn(&DenseMatrix<T>, T, usize) -> Option<LowRankDiag<T>>>(
    prob: &QpProblem<T>,
    general: usize,
    known: &mut Searches<T>,
    detect: &D,
) -> (r: Option<LowRankDiag<T>>)
    requires
        prob.wf(),
        low_rank_candidate(prob.n(), prob.me(), general as nat) ==> detect.requires(
            (&prob.p, search_tolerance(), search_cap(prob.n()) as usize),
        ),
    ensures
        low_rank_for(*prob, general as nat, old(known)@, *detect, final(known)@, r),
{
    let n: usize = prob.q.len();
    if !is_low_rank_candidate(n, prob.b_eq.len(), general) {
        return None;
    }
    let h: u64 = hash_p(&prob.p);
    if lr_was_rejected(&known.rejected, h) {
        return None;
    }
    if let Some(lr) = lr_cache_lookup(&known.found, h) {
        return if lr.has_order(n) && suits_condensed(lr.rank, lr.offdiag_rel, n) {
            Some(lr)
        } else {
            None
        };
    }
    let half: usize = n / 2;
    let least: usize = if half < 4 {
        4
    } else {
        half
    };
    let cap: usize = if least < n - 1 {
        least
    } else {
        n - 1
    };
    let pr: &DenseMatrix<T> = &prob.p;
    let o = detect(pr, tolerance_of_search(), cap);
    assert(detect.ensures((pr, search_tolerance(), cap), o));
    match o {
        None => None,
        Some(lr) => {
            if suits_condensed(lr.rank, lr.offdiag_rel, n) {
                lr_cache_store(&mut known.found, h, &lr);
                Some(lr)
            } else {
                lr_mark_rejected(&mut known.rejected, h);
                None
            }
        },
    }
}

} // verus!
