//! The sparse complement `A_eq H^-1 A_eq' + delta I` of the equality rows over a diagonal block of
//! the unknowns.
use crate::fac::{gather, gathered, permutation, scatter};
use crate::matrix::DenseMatrix;
use crate::problem::QpProblem;
use crate::qp_matrices::{rows_fit, units_added};
use crate::scalar::Scalar;
use crate::solve::{gives_solutions, yields};
use crate::sparse::{lemma_nonzeros, nonzeros, Columns, CscMatrix};
use crate::vector::{constant, copied, filled};
use vstd::prelude::*;

verus! {

/// The columns of the equality matrix, each as its nonzero entries.
pub open spec fn is_columns_of<T: Scalar>(a_eq: DenseMatrix<T>, cols: Seq<Vec<(usize, T)>>) -> bool {
    &&& cols.len() == a_eq.ncols
    &&& forall|j: int|
        0 <= j < cols.len() ==> (#[trigger] cols[j])@ == nonzeros(a_eq.column(j), a_eq.nrows as nat)
}

/// The columns of the equality matrix, each as its nonzero entries.
pub fn equality_columns<T: Scalar>(a_eq: &DenseMatrix<T>) -> (cols: Vec<Vec<(usize, T)>>)
    requires
        a_eq.wf(),
    ensures
        is_columns_of(*a_eq, cols@),
{
    let mut cols: Vec<Vec<(usize, T)>> = Vec::with_capacity(a_eq.ncols);
    let mut j: usize = 0;
    while j < a_eq.ncols
        invariant
            a_eq.wf(),
            j <= a_eq.ncols,
            cols@.len() == j,
            forall|k: int|
                0 <= k < j ==> (#[trigger] cols@[k])@ == nonzeros(a_eq.column(k), a_eq.nrows as nat),
        decreases a_eq.ncols - j,
    {
        let mut col: Vec<(usize, T)> = Vec::new();
        let mut r: usize = 0;
        while r < a_eq.nrows
            invariant
                a_eq.wf(),
                j < a_eq.ncols,
                r <= a_eq.nrows,
                col@ =~= nonzeros(a_eq.column(j as int), r as nat),
            decreases a_eq.nrows - r,
        {
            let v = a_eq.get(r, j);
            assert(a_eq.column(j as int)[r as int] == v);
            if !v.equals(T::zero()) {
                col.push((r, v));
            }
            r += 1;
        }
        cols.push(col);
        j += 1;
    }
    cols
}

/// The rows of every column are below `me`.
pub open spec fn cols_fit<T>(cols: Seq<Vec<(usize, T)>>, me: nat) -> bool {
    forall|j: int, i: int|
        0 <= j < cols.len() && 0 <= i < cols[j]@.len() ==> (#[trigger] cols[j]@[i]).0 < me
}

/// The columns of the equality matrix name rows of it.
pub proof fn lemma_columns_fit<T: Scalar>(a_eq: DenseMatrix<T>, cols: Seq<Vec<(usize, T)>>)
    requires
        a_eq.wf(),
        is_columns_of(a_eq, cols),
    ensures
        cols_fit(cols, a_eq.nrows as nat),
{
    assert forall|j: int, i: int| 0 <= j < cols.len() && 0 <= i < cols[j]@.len() implies (
    #[trigger] cols[j]@[i]).0 < a_eq.nrows by {
        lemma_nonzeros(a_eq.column(j), a_eq.nrows as nat);
        assert(cols[j]@ == nonzeros(a_eq.column(j), a_eq.nrows as nat));
    }
}

/// The smaller of two indices.
pub open spec fn lesser(a: usize, b: usize) -> usize {
    if a <= b {
        a
    } else {
        b
    }
}

/// The larger of two indices.
pub open spec fn greater(a: usize, b: usize) -> usize {
    if a <= b {
        b
    } else {
        a
    }
}

/// The pair is coupled: some column with at least two entries holds both rows.
pub open spec fn coupled<T>(cols: Seq<Vec<(usize, T)>>, pair: (usize, usize)) -> bool {
    exists|j: int, a: int, b: int|
        #![trigger cols[j]@[a], cols[j]@[b]]
        0 <= j < cols.len() && 0 <= a <= b < cols[j]@.len() && cols[j]@.len() >= 2 && pair == (
            lesser(cols[j]@[a].0, cols[j]@[b].0),
            greater(cols[j]@[a].0, cols[j]@[b].0),
        )
}

/// The pair comes before the other in lexicographic order.
pub open spec fn precedes(a: (usize, usize), b: (usize, usize)) -> bool {
    a.0 < b.0 || (a.0 == b.0 && a.1 < b.1)
}

/// The pairs ascend strictly.
pub open spec fn ascending(pairs: Seq<(usize, usize)>) -> bool {
    forall|i: int, j: int| 0 <= i < j < pairs.len() ==> precedes(#[trigger] pairs[i], #[trigger] pairs[j])
}

/// Inserts a pair into ascending pairs, unless it is among them.
pub fn insert_pair(pairs: &mut Vec<(usize, usize)>, lo: usize, hi: usize)
    requires
        ascending(old(pairs)@),
    ensures
        ascending(final(pairs)@),
        forall|p: (usize, usize)| #[trigger]
            final(pairs)@.contains(p) <==> old(pairs)@.contains(p) || p == (lo, hi),
{
    let ghost before = pairs@;
    let mut i: usize = 0;
    while i < pairs.len() && (pairs[i].0 < lo || (pairs[i].0 == lo && pairs[i].1 < hi))
        invariant
            pairs@ == before,
            i <= pairs@.len(),
            forall|k: int| 0 <= k < i ==> precedes(#[trigger] before[k], (lo, hi)),
        decreases pairs@.len() - i,
    {
        i += 1;
    }
    if i < pairs.len() && pairs[i].0 == lo && pairs[i].1 == hi {
        assert(before[i as int] == (lo, hi));
        return;
    }
    pairs.insert(i, (lo, hi));
    proof {
        let after = pairs@;
        assert(after == before.insert(i as int, (lo, hi)));
        assert forall|p: (usize, usize)| #[trigger]
            after.contains(p) <==> before.contains(p) || p == (lo, hi) by {
            if before.contains(p) {
                let k = choose|k: int| 0 <= k < before.len() && before[k] == p;
                if k < i {
                    assert(after[k] == p);
                } else {
                    assert(after[k + 1] == p);
                }
            }
            if p == (lo, hi) {
                assert(after[i as int] == p);
            }
            if after.contains(p) {
                let k = choose|k: int| 0 <= k < after.len() && after[k] == p;
                if k < i {
                    assert(before[k] == p);
                } else if k > i {
                    assert(before[k - 1] == p);
                }
            }
        }
        assert forall|a: int, b: int| 0 <= a < b < after.len() implies precedes(
            #[trigger] after[a],
            #[trigger] after[b],
        ) by {
            if a < i && b > i {
                assert(precedes(before[a], before[b - 1]));
            } else if a < i && b < i {
                assert(precedes(before[a], before[b]));
            } else if a > i {
                assert(precedes(before[a - 1], before[b - 1]));
            } else if a == i {
                if b - 1 > i {
                    assert(precedes(before[i as int], before[b - 1]));
                }
            }
        }
    }
}

/// The coupled pairs of equality rows, in ascending order.
pub fn coupled_pairs<T: Scalar>(cols: &[Vec<(usize, T)>]) -> (pairs: Vec<(usize, usize)>)
    ensures
        ascending(pairs@),
        forall|p: (usize, usize)| #[trigger] pairs@.contains(p) <==> coupled(cols@, p),
{
    let mut pairs: Vec<(usize, usize)> = Vec::new();
    let mut j: usize = 0;
    while j < cols.len()
        invariant
            j <= cols@.len(),
            ascending(pairs@),
            forall|p: (usize, usize)| #[trigger]
                pairs@.contains(p) <==> coupled(cols@.subrange(0, j as int), p),
        decreases cols@.len() - j,
    {
        let rows = &cols[j];
        let ghost done = pairs@;
        let ghost front = cols@.subrange(0, j as int);
        let ghost more = cols@.subrange(0, j + 1);
        if rows.len() >= 2 {
            let mut a: usize = 0;
            while a < rows.len()
                invariant
                    j < cols@.len(),
                    *rows == cols@[j as int],
                    a <= rows@.len(),
                    ascending(pairs@),
                    forall|p: (usize, usize)| #[trigger]
                        pairs@.contains(p) <==> done.contains(p) || row_pairs(rows@, a as int, a as int, p),
                decreases rows@.len() - a,
            {
                let r1: usize = rows[a].0;
                let mut b: usize = a;
                while b < rows.len()
                    invariant
                        j < cols@.len(),
                        *rows == cols@[j as int],
                        a < rows@.len(),
                        r1 == rows@[a as int].0,
                        a <= b <= rows@.len(),
                        ascending(pairs@),
                        forall|p: (usize, usize)| #[trigger]
                            pairs@.contains(p) <==> done.contains(p) || row_pairs(
                                rows@,
                                a as int,
                                b as int,
                                p,
                            ),
                    decreases rows@.len() - b,
                {
                    let r2: usize = rows[b].0;
                    let (lo, hi) = if r1 <= r2 {
                        (r1, r2)
                    } else {
                        (r2, r1)
                    };
                    let ghost old_pairs = pairs@;
                    insert_pair(&mut pairs, lo, hi);
                    proof {
                        assert forall|p: (usize, usize)| #[trigger]
                            pairs@.contains(p) <==> done.contains(p) || row_pairs(
                                rows@,
                                a as int,
                                b + 1,
                                p,
                            ) by {
                            lemma_row_pairs(rows@, a as int, b as int, p);
                            assert(old_pairs.contains(p) <==> done.contains(p) || row_pairs(
                                rows@,
                                a as int,
                                b as int,
                                p,
                            ));
                        }
                    }
                    b += 1;
                }
                proof {
                    assert forall|p: (usize, usize)| #[trigger]
                        pairs@.contains(p) <==> done.contains(p) || row_pairs(
                            rows@,
                            a + 1,
                            a + 1,
                            p,
                        ) by {
                        lemma_row_end(rows@, a as int, p);
                    }
                }
                a += 1;
            }
        }
        proof {
            assert forall|p: (usize, usize)| #[trigger] pairs@.contains(p) <==> coupled(more, p) by {
                lemma_coupled_step(cols@, j as int, p);
                assert(done.contains(p) <==> coupled(front, p));
            }
        }
        j += 1;
    }
    assert(cols@.subrange(0, cols@.len() as int) =~= cols@);
    pairs
}

/// The pair is one of entries `a2 <= b2` of a column with `a2 < a`, or `a2 == a` and `b2 < b`.
spec fn row_pairs<T>(rows: Seq<(usize, T)>, a: int, b: int, p: (usize, usize)) -> bool {
    exists|a2: int, b2: int|
        #![trigger rows[a2], rows[b2]]
        0 <= a2 <= b2 < rows.len() && (a2 < a || (a2 == a && b2 < b)) && p == (
            lesser(rows[a2].0, rows[b2].0),
            greater(rows[a2].0, rows[b2].0),
        )
}

proof fn lemma_row_pairs<T>(rows: Seq<(usize, T)>, a: int, b: int, p: (usize, usize))
    requires
        0 <= a <= b < rows.len(),
    ensures
        row_pairs(rows, a, b + 1, p) <==> row_pairs(rows, a, b, p) || p == (
            lesser(rows[a].0, rows[b].0),
            greater(rows[a].0, rows[b].0),
        ),
{
    if row_pairs(rows, a, b, p) {
        let (a2, b2) = choose|a2: int, b2: int|
            #![trigger rows[a2], rows[b2]]
            0 <= a2 <= b2 < rows.len() && (a2 < a || (a2 == a && b2 < b)) && p == (
                lesser(rows[a2].0, rows[b2].0),
                greater(rows[a2].0, rows[b2].0),
            );
        assert(rows[a2] == rows[a2] && rows[b2] == rows[b2]);
    }
    if p == (lesser(rows[a].0, rows[b].0), greater(rows[a].0, rows[b].0)) {
        assert(rows[a] == rows[a] && rows[b] == rows[b]);
    }
}

proof fn lemma_row_end<T>(rows: Seq<(usize, T)>, a: int, p: (usize, usize))
    requires
        0 <= a < rows.len(),
    ensures
        row_pairs(rows, a + 1, a + 1, p) <==> row_pairs(rows, a, rows.len() as int, p),
{
    if row_pairs(rows, a, rows.len() as int, p) {
        let (a2, b2) = choose|a2: int, b2: int|
            #![trigger rows[a2], rows[b2]]
            0 <= a2 <= b2 < rows.len() && (a2 < a || (a2 == a && b2 < rows.len())) && p == (
                lesser(rows[a2].0, rows[b2].0),
                greater(rows[a2].0, rows[b2].0),
            );
        assert(rows[a2] == rows[a2] && rows[b2] == rows[b2]);
    }
    if row_pairs(rows, a + 1, a + 1, p) {
        let (a2, b2) = choose|a2: int, b2: int|
            #![trigger rows[a2], rows[b2]]
            0 <= a2 <= b2 < rows.len() && (a2 < a + 1 || (a2 == a + 1 && b2 < a + 1)) && p == (
                lesser(rows[a2].0, rows[b2].0),
                greater(rows[a2].0, rows[b2].0),
            );
        assert(rows[a2] == rows[a2] && rows[b2] == rows[b2]);
    }
}

proof fn lemma_coupled_step<T>(cols: Seq<Vec<(usize, T)>>, j: int, p: (usize, usize))
    requires
        0 <= j < cols.len(),
    ensures
        coupled(cols.subrange(0, j + 1), p) <==> coupled(cols.subrange(0, j), p) || (cols[j]@.len() >= 2
            && row_pairs(cols[j]@, cols[j]@.len() as int, cols[j]@.len() as int, p)),
{
    let more = cols.subrange(0, j + 1);
    let front = cols.subrange(0, j);
    if coupled(front, p) {
        let (k, a, b) = choose|k: int, a: int, b: int|
            #![trigger front[k]@[a], front[k]@[b]]
            0 <= k < front.len() && 0 <= a <= b < front[k]@.len() && front[k]@.len() >= 2 && p == (
                lesser(front[k]@[a].0, front[k]@[b].0),
                greater(front[k]@[a].0, front[k]@[b].0),
            );
        assert(more[k]@[a] == front[k]@[a] && more[k]@[b] == front[k]@[b]);
    }
    let rows = cols[j]@;
    if rows.len() >= 2 && row_pairs(rows, rows.len() as int, rows.len() as int, p) {
        let (a, b) = choose|a: int, b: int|
            #![trigger rows[a], rows[b]]
            0 <= a <= b < rows.len() && (a < rows.len() || (a == rows.len() && b < rows.len())) && p == (
                lesser(rows[a].0, rows[b].0),
                greater(rows[a].0, rows[b].0),
            );
        assert(more[j]@[a] == rows[a] && more[j]@[b] == rows[b]);
    }
    if coupled(more, p) {
        let (k, a, b) = choose|k: int, a: int, b: int|
            #![trigger more[k]@[a], more[k]@[b]]
            0 <= k < more.len() && 0 <= a <= b < more[k]@.len() && more[k]@.len() >= 2 && p == (
                lesser(more[k]@[a].0, more[k]@[b].0),
                greater(more[k]@[a].0, more[k]@[b].0),
            );
        if k < j {
            assert(front[k]@[a] == more[k]@[a] && front[k]@[b] == more[k]@[b]);
        } else {
            assert(rows[a] == more[k]@[a] && rows[b] == more[k]@[b]);
        }
    }
}

/// The complement is too dense: it would hold more than a fifth of its triangle.
pub open spec fn too_dense(me: nat, pairs: nat) -> bool {
    me + pairs > (me * (me + 1) / 2) / 5
}

/// Whether the complement is too dense.
pub fn is_too_dense(me: usize, pairs: usize) -> (r: bool)
    ensures
        r == too_dense(me as nat, pairs as nat),
{
    proof {
        let m = me as int;
        assert(0 <= m * (m + 1) <= 0xffff_ffff_ffff_ffff * 0x1_0000_0000_0000_0000) by (nonlinear_arith)
            requires
                0 <= m <= 0xffff_ffff_ffff_ffff,
        ;
    }
    let area: u128 = (me as u128) * ((me as u128) + 1) / 2;
    (me as u128) + (pairs as u128) > area / 5
}

/// The rows of the pairs whose second row is `c`, among the first `k`.
pub open spec fn partners(pairs: Seq<(usize, usize)>, c: int, k: nat) -> Seq<usize>
    decreases k,
{
    if k == 0 {
        Seq::empty()
    } else {
        let front = partners(pairs, c, (k - 1) as nat);
        if pairs[k - 1].1 == c {
            front.push(pairs[k - 1].0)
        } else {
            front
        }
    }
}

/// A pair makes its first row a partner of its second.
pub proof fn lemma_partner_of(pairs: Seq<(usize, usize)>, c: int, k: nat, a: int) -> (i: int)
    requires
        0 <= a < k <= pairs.len(),
        pairs[a].1 == c,
    ensures
        0 <= i < partners(pairs, c, k).len(),
        partners(pairs, c, k)[i] == pairs[a].0,
    decreases k,
{
    if a == k - 1 {
        partners(pairs, c, (k - 1) as nat).len() as int
    } else {
        lemma_partner_of(pairs, c, (k - 1) as nat, a)
    }
}

/// Column `c` of the pattern: the diagonal, then the rows that are coupled to it, with no values
/// yet.
pub open spec fn pattern_col<T: Scalar>(pairs: Seq<(usize, usize)>, c: int) -> Seq<(usize, T)> {
    let rows = seq![c as usize] + partners(pairs, c, pairs.len());
    Seq::new(rows.len(), |i: int| (rows[i], T::zero()))
}

/// The pattern of the complement, with no values yet.
pub fn complement_pattern<T: Scalar>(me: usize, pairs: &[(usize, usize)]) -> (s: CscMatrix<T>)
    requires
        forall|i: int| 0 <= i < pairs@.len() ==> (#[trigger] pairs@[i]).0 < me,
    ensures
        s.wf(),
        s.m == me,
        s.n == me,
        s.cols() == Seq::new(me as nat, |c: int| pattern_col::<T>(pairs@, c)),
{
    let ghost all = Seq::new(me as nat, |c: int| pattern_col::<T>(pairs@, c));
    let mut out: Columns<T> = Columns::new();
    let mut c: usize = 0;
    while c < me
        invariant
            c <= me,
            all == Seq::new(me as nat, |c: int| pattern_col::<T>(pairs@, c)),
            out.wf(),
            out.open_col() == Seq::<(usize, T)>::empty(),
            out.closed() =~= all.subrange(0, c as int),
        decreases me - c,
    {
        out.push(c, T::zero());
        let mut k: usize = 0;
        while k < pairs.len()
            invariant
                c < me,
                k <= pairs@.len(),
                out.wf(),
                out.closed() =~= all.subrange(0, c as int),
                out.open_col() =~= Seq::new(
                    1 + partners(pairs@, c as int, k as nat).len(),
                    |i: int|
                        ((seq![c as usize] + partners(pairs@, c as int, k as nat))[i], T::zero()),
                ),
            decreases pairs@.len() - k,
        {
            if pairs[k].1 == c {
                out.push(pairs[k].0, T::zero());
            }
            k += 1;
        }
        assert(out.open_col() =~= all[c as int]);
        out.close();
        c += 1;
    }
    proof {
        assert(out.closed() =~= all);
        assert forall|c: int, k: int|
            0 <= c < out.closed().len() && 0 <= k < out.closed()[c].len() implies (
        #[trigger] out.closed()[c][k]).0 < me by {
            lemma_partners(pairs@, c, pairs@.len(), me as nat);
        }
    }
    out.finish(me)
}

proof fn lemma_partners(pairs: Seq<(usize, usize)>, c: int, k: nat, me: nat)
    requires
        k <= pairs.len(),
        forall|i: int| 0 <= i < pairs.len() ==> (#[trigger] pairs[i]).0 < me,
    ensures
        forall|i: int| 0 <= i < partners(pairs, c, k).len() ==> (#[trigger] partners(pairs, c, k)[i]) < me,
    decreases k,
{
    if k > 0 {
        lemma_partners(pairs, c, (k - 1) as nat, me);
        let front = partners(pairs, c, (k - 1) as nat);
        assert(pairs[k - 1].0 < me);
        assert forall|i: int| 0 <= i < partners(pairs, c, k).len() implies (#[trigger] partners(
            pairs,
            c,
            k,
        )[i]) < me by {
            if i < front.len() {
                assert(front[i] < me);
            }
        }
    }
}

/// The first position from `p` on in column `c` that holds row `r`.
pub open spec fn find_from<T: Scalar>(s: CscMatrix<T>, c: int, r: int, p: int) -> Option<int>
    decreases s.colptr@[c + 1] - p,
{
    if p >= s.colptr@[c + 1] {
        None
    } else if s.rowval@[p] == r {
        Some(p)
    } else {
        find_from(s, c, r, p + 1)
    }
}

/// The first position in column `c` that holds row `r`.
pub open spec fn find_pos<T: Scalar>(s: CscMatrix<T>, c: int, r: int) -> Option<int> {
    find_from(s, c, r, s.colptr@[c] as int)
}

/// A position that was found lies in its column and holds the row.
pub proof fn lemma_find<T: Scalar>(s: CscMatrix<T>, c: int, r: int, p: int)
    requires
        s.wf(),
        0 <= c < s.n,
        s.colptr@[c] <= p,
    ensures
        find_from(s, c, r, p) matches Some(q) ==> p <= q < s.colptr@[c + 1] && q < s.rowval@.len()
            && s.rowval@[q] == r,
    decreases s.colptr@[c + 1] - p,
{
    assert(s.colptr@[c + 1] <= s.colptr@[s.n as int]);
    if p < s.colptr@[c + 1] && s.rowval@[p] != r {
        lemma_find(s, c, r, p + 1);
    }
}

/// The first position in column `c` that holds row `r`.
pub fn find_position<T: Scalar>(s: &CscMatrix<T>, c: usize, r: usize) -> (q: Option<usize>)
    requires
        s.wf(),
        c < s.n,
    ensures
        q is Some == find_pos(*s, c as int, r as int) is Some,
        q matches Some(p) ==> p == find_pos(*s, c as int, r as int)->0 && p < s.rowval@.len(),
{
    let lo: usize = s.colptr[c];
    let hi: usize = s.colptr[c + 1];
    proof {
        assert(s.colptr@[c as int] <= s.colptr@[c + 1]);
        assert(s.colptr@[c + 1] <= s.colptr@[s.n as int]);
    }
    let mut p: usize = lo;
    while p < hi
        invariant
            s.wf(),
            c < s.n,
            hi == s.colptr@[c + 1],
            s.colptr@[c as int] <= p <= hi <= s.rowval@.len(),
            find_pos(*s, c as int, r as int) == find_from(*s, c as int, r as int, p as int),
        decreases hi - p,
    {
        if s.rowval[p] == r {
            return Some(p);
        }
        p += 1;
    }
    None
}

/// Where the permuted complement takes the contribution of two entries: the position of the pair of
/// their rows in the upper triangle, as the permutation orders them.
pub open spec fn pair_pos<T: Scalar>(s: CscMatrix<T>, pinv: Seq<usize>, r1: usize, r2: usize) -> Option<int> {
    let a = pinv[r1 as int];
    let b = pinv[r2 as int];
    find_pos(s, greater(a, b) as int, lesser(a, b) as int)
}

/// The contributions of a column to the diagonal: position and entry.
pub open spec fn diag_list<T: Scalar>(s: CscMatrix<T>, pinv: Seq<usize>, rows: Seq<(usize, T)>) -> Seq<(usize, T)> {
    Seq::new(
        rows.len(),
        |i: int| (pair_pos(s, pinv, rows[i].0, rows[i].0)->0 as usize, rows[i].1),
    )
}

/// The contributions of a column off the diagonal: position and both entries, over the pairs of
/// entries before `(a, b)`.
pub open spec fn off_list<T: Scalar>(
    s: CscMatrix<T>,
    pinv: Seq<usize>,
    rows: Seq<(usize, T)>,
    a: nat,
    b: nat,
) -> Seq<(usize, T, T)>
    decreases a, b,
{
    if b > a {
        let front = off_list(s, pinv, rows, a, (b - 1) as nat);
        let (r1, v1) = rows[a as int];
        let (r2, v2) = rows[b - 1];
        if r1 == r2 {
            front
        } else {
            front.push((pair_pos(s, pinv, r1, r2)->0 as usize, v1, v2))
        }
    } else if a > 0 {
        off_list(s, pinv, rows, (a - 1) as nat, rows.len())
    } else {
        Seq::empty()
    }
}

/// Every contribution of a column has its position.
pub open spec fn placed<T: Scalar>(s: CscMatrix<T>, pinv: Seq<usize>, rows: Seq<(usize, T)>) -> bool {
    &&& forall|i: int|
        0 <= i < rows.len() ==> pair_pos(s, pinv, (#[trigger] rows[i]).0, rows[i].0) is Some
    &&& rows.len() >= 2 ==> forall|a: int, b: int|
        #![trigger rows[a], rows[b]]
        0 <= a <= b < rows.len() && rows[a].0 != rows[b].0 ==> pair_pos(
            s,
            pinv,
            rows[a].0,
            rows[b].0,
        ) is Some
}

/// Where the complement takes the contributions of the columns, and where its diagonal stands.
pub struct RangeMaps<T> {
    pub off: Vec<Vec<(usize, T, T)>>,
    pub diag: Vec<Vec<(usize, T)>>,
    pub dpos: Vec<usize>,
}

/// The maps are those of the columns.
pub open spec fn maps_of<T: Scalar>(
    s: CscMatrix<T>,
    pinv: Seq<usize>,
    cols: Seq<Vec<(usize, T)>>,
    m: RangeMaps<T>,
) -> bool {
    &&& m.off@.len() == cols.len()
    &&& m.diag@.len() == cols.len()
    &&& m.dpos@.len() == pinv.len()
    &&& forall|j: int| 0 <= j < cols.len() ==> (#[trigger] m.diag@[j])@ == diag_list(s, pinv, cols[j]@)
    &&& forall|j: int|
        0 <= j < cols.len() ==> (#[trigger] m.off@[j])@ == (if cols[j]@.len() >= 2 {
            off_list(s, pinv, cols[j]@, cols[j]@.len(), cols[j]@.len())
        } else {
            Seq::empty()
        })
    &&& forall|r: int|
        0 <= r < pinv.len() ==> #[trigger] m.dpos@[r] == find_pos(s, pinv[r] as int, pinv[r] as int)->0
}

/// Every contribution and every diagonal entry has its position.
pub open spec fn all_placed<T: Scalar>(s: CscMatrix<T>, pinv: Seq<usize>, cols: Seq<Vec<(usize, T)>>) -> bool {
    &&& forall|j: int| 0 <= j < cols.len() ==> placed(s, pinv, (#[trigger] cols[j])@)
    &&& forall|r: int|
        0 <= r < pinv.len() ==> find_pos(s, (#[trigger] pinv[r]) as int, pinv[r] as int) is Some
}

/// The positions of the contributions of one column; none where one is missing.
fn place_column<T: Scalar>(s: &CscMatrix<T>, pinv: &[usize], rows: &[(usize, T)]) -> (r: Option<
    (Vec<(usize, T)>, Vec<(usize, T, T)>),
>)
    requires
        s.wf(),
        s.n == pinv@.len(),
        forall|i: int| 0 <= i < pinv@.len() ==> (#[trigger] pinv@[i]) < s.n,
        forall|i: int| 0 <= i < rows@.len() ==> (#[trigger] rows@[i]).0 < pinv@.len(),
    ensures
        r is Some == placed(*s, pinv@, rows@),
        r matches Some(l) ==> l.0@ == diag_list(*s, pinv@, rows@) && l.1@ == (if rows@.len() >= 2 {
            off_list(*s, pinv@, rows@, rows@.len(), rows@.len())
        } else {
            Seq::empty()
        }),
{
    let mut diag: Vec<(usize, T)> = Vec::new();
    let mut off: Vec<(usize, T, T)> = Vec::new();
    let mut i: usize = 0;
    while i < rows.len()
        invariant
            s.wf(),
            s.n == pinv@.len(),
            forall|i: int| 0 <= i < pinv@.len() ==> (#[trigger] pinv@[i]) < s.n,
            forall|i: int| 0 <= i < rows@.len() ==> (#[trigger] rows@[i]).0 < pinv@.len(),
            i <= rows@.len(),
            forall|k: int|
                0 <= k < i ==> pair_pos(*s, pinv@, (#[trigger] rows@[k]).0, rows@[k].0) is Some,
            diag@ =~= diag_list(*s, pinv@, rows@).subrange(0, i as int),
        decreases rows@.len() - i,
    {
        let (r, v) = rows[i];
        assert(rows@[i as int].0 < pinv@.len());
        let pr: usize = pinv[r];
        match find_position(s, pr, pr) {
            Some(p) => {
                diag.push((p, v));
            },
            None => {
                assert(pair_pos(*s, pinv@, rows@[i as int].0, rows@[i as int].0) is None);
                return None;
            },
        }
        i += 1;
    }
    assert(diag@ =~= diag_list(*s, pinv@, rows@));
    if rows.len() >= 2 {
        let mut a: usize = 0;
        while a < rows.len()
            invariant
                s.wf(),
                s.n == pinv@.len(),
                forall|i: int| 0 <= i < pinv@.len() ==> (#[trigger] pinv@[i]) < s.n,
                forall|i: int| 0 <= i < rows@.len() ==> (#[trigger] rows@[i]).0 < pinv@.len(),
                rows@.len() >= 2,
                a <= rows@.len(),
                forall|k: int, l: int|
                    #![trigger rows@[k], rows@[l]]
                    0 <= k < a && k <= l < rows@.len() && rows@[k].0 != rows@[l].0 ==> pair_pos(
                        *s,
                        pinv@,
                        rows@[k].0,
                        rows@[l].0,
                    ) is Some,
                off@ == off_list(*s, pinv@, rows@, a as nat, a as nat),
            decreases rows@.len() - a,
        {
            let (r1, v1) = rows[a];
            let mut b: usize = a;
            while b < rows.len()
                invariant
                    s.wf(),
                    s.n == pinv@.len(),
                    forall|i: int| 0 <= i < pinv@.len() ==> (#[trigger] pinv@[i]) < s.n,
                    forall|i: int| 0 <= i < rows@.len() ==> (#[trigger] rows@[i]).0 < pinv@.len(),
                    rows@.len() >= 2,
                    a < rows@.len(),
                    (r1, v1) == rows@[a as int],
                    a <= b <= rows@.len(),
                    forall|l: int|
                        a <= l < b && r1 != (#[trigger] rows@[l]).0 ==> pair_pos(
                            *s,
                            pinv@,
                            r1,
                            rows@[l].0,
                        ) is Some,
                    off@ == off_list(*s, pinv@, rows@, a as nat, b as nat),
                decreases rows@.len() - b,
            {
                let (r2, v2) = rows[b];
                assert(rows@[a as int].0 < pinv@.len());
                assert(rows@[b as int].0 < pinv@.len());
                if r1 != r2 {
                    let (p1, p2): (usize, usize) = (pinv[r1], pinv[r2]);
                    let (lo, hi): (usize, usize) = if p1 <= p2 {
                        (p1, p2)
                    } else {
                        (p2, p1)
                    };
                    match find_position(s, hi, lo) {
                        Some(p) => {
                            off.push((p, v1, v2));
                        },
                        None => {
                            assert(pair_pos(*s, pinv@, rows@[a as int].0, rows@[b as int].0) is None);
                            return None;
                        },
                    }
                }
                b += 1;
            }
            a += 1;
        }
    }
    Some((diag, off))
}

/// The maps of the permuted complement `s`, where `pinv[r]` is the permuted index of equality row
/// `r`; none where a contribution has no position.
pub fn range_maps<T: Scalar>(s: &CscMatrix<T>, pinv: &[usize], cols: &[Vec<(usize, T)>]) -> (r: Option<RangeMaps<T>>)
    requires
        s.wf(),
        s.n == pinv@.len(),
        forall|i: int| 0 <= i < pinv@.len() ==> (#[trigger] pinv@[i]) < s.n,
        cols_fit(cols@, pinv@.len()),
    ensures
        r is Some == all_placed(*s, pinv@, cols@),
        r matches Some(m) ==> maps_of(*s, pinv@, cols@, m),
{
    let mut off: Vec<Vec<(usize, T, T)>> = Vec::with_capacity(cols.len());
    let mut diag: Vec<Vec<(usize, T)>> = Vec::with_capacity(cols.len());
    let mut j: usize = 0;
    while j < cols.len()
        invariant
            s.wf(),
            s.n == pinv@.len(),
            forall|i: int| 0 <= i < pinv@.len() ==> (#[trigger] pinv@[i]) < s.n,
            cols_fit(cols@, pinv@.len()),
            j <= cols@.len(),
            off@.len() == j,
            diag@.len() == j,
            forall|k: int| 0 <= k < j ==> placed(*s, pinv@, (#[trigger] cols@[k])@),
            forall|k: int| 0 <= k < j ==> (#[trigger] diag@[k])@ == diag_list(*s, pinv@, cols@[k]@),
            forall|k: int|
                0 <= k < j ==> (#[trigger] off@[k])@ == (if cols@[k]@.len() >= 2 {
                    off_list(*s, pinv@, cols@[k]@, cols@[k]@.len(), cols@[k]@.len())
                } else {
                    Seq::empty()
                }),
        decreases cols@.len() - j,
    {
        assert forall|i: int| 0 <= i < cols@[j as int]@.len() implies (#[trigger] cols@[j as int]@[i]).0
            < pinv@.len() by {}
        match place_column(s, pinv, cols[j].as_slice()) {
            Some((d, o)) => {
                diag.push(d);
                off.push(o);
            },
            None => {
                assert(!placed(*s, pinv@, cols@[j as int]@));
                return None;
            },
        }
        j += 1;
    }
    let mut dpos: Vec<usize> = Vec::with_capacity(pinv.len());
    let mut r: usize = 0;
    while r < pinv.len()
        invariant
            s.wf(),
            s.n == pinv@.len(),
            forall|i: int| 0 <= i < pinv@.len() ==> (#[trigger] pinv@[i]) < s.n,
            r <= pinv@.len(),
            dpos@.len() == r,
            forall|k: int|
                0 <= k < r ==> find_pos(*s, (#[trigger] pinv@[k]) as int, pinv@[k] as int) is Some,
            forall|k: int|
                0 <= k < r ==> #[trigger] dpos@[k] == find_pos(*s, pinv@[k] as int, pinv@[k] as int)->0,
        decreases pinv@.len() - r,
    {
        match find_position(s, pinv[r], pinv[r]) {
            Some(p) => {
                dpos.push(p);
            },
            None => {
                assert(find_pos(*s, pinv@[r as int] as int, pinv@[r as int] as int) is None);
                return None;
            },
        }
        r += 1;
    }
    Some(RangeMaps { off, diag, dpos })
}

/// The inverse of a permutation.
pub fn invert_permutation(perm: &[usize]) -> (pinv: Vec<usize>)
    requires
        permutation(perm@),
    ensures
        pinv@.len() == perm@.len(),
        forall|k: int| 0 <= k < perm@.len() ==> pinv@[#[trigger] perm@[k] as int] == k,
        forall|i: int| 0 <= i < pinv@.len() ==> (#[trigger] pinv@[i]) < perm@.len(),
{
    let m: usize = perm.len();
    let mut pinv: Vec<usize> = filled(0usize, m);
    let mut k: usize = 0;
    while k < m
        invariant
            permutation(perm@),
            m == perm@.len(),
            pinv@.len() == m,
            k <= m,
            forall|a: int| 0 <= a < k ==> pinv@[#[trigger] perm@[a] as int] == a,
            forall|i: int| 0 <= i < m ==> (#[trigger] pinv@[i]) < m,
        decreases m - k,
    {
        let at: usize = perm[k];
        pinv[at] = k;
        assert forall|a: int| 0 <= a < k + 1 implies pinv@[#[trigger] perm@[a] as int] == a by {
            if a < k {
                assert(perm@[a] != perm@[k as int]);
            }
        }
        k += 1;
    }
    pinv
}

/// The plan of the sparse complement before it is ordered: its pattern, where it is sparse enough.
pub fn plan_complement<T: Scalar>(me: usize, cols: &[Vec<(usize, T)>]) -> (r: Option<CscMatrix<T>>)
    requires
        cols_fit(cols@, me as nat),
    ensures
        exists|pairs: Seq<(usize, usize)>|
            {
                &&& #[trigger] ascending(pairs)
                &&& forall|p: (usize, usize)| #[trigger] pairs.contains(p) <==> coupled(cols@, p)
                &&& r is None <==> too_dense(me as nat, pairs.len())
                &&& r matches Some(s) ==> s.wf() && s.m == me && s.n == me && s.cols() == Seq::new(
                    me as nat,
                    |c: int| pattern_col::<T>(pairs, c),
                )
            },
{
    let pairs = coupled_pairs(cols);
    proof {
        assert forall|i: int| 0 <= i < pairs@.len() implies (#[trigger] pairs@[i]).0 < me by {
            assert(pairs@.contains(pairs@[i]));
            let p = pairs@[i];
            let (j, a, b) = choose|j: int, a: int, b: int|
                #![trigger cols@[j]@[a], cols@[j]@[b]]
                0 <= j < cols@.len() && 0 <= a <= b < cols@[j]@.len() && cols@[j]@.len() >= 2 && p == (
                    lesser(cols@[j]@[a].0, cols@[j]@[b].0),
                    greater(cols@[j]@[a].0, cols@[j]@[b].0),
                );
            assert(cols@[j]@[a].0 < me);
            assert(cols@[j]@[b].0 < me);
        }
        assert(ascending(pairs@));
    }
    if is_too_dense(me, pairs.len()) {
        return None;
    }
    Some(complement_pattern(me, &pairs))
}

/// The inverse diagonal of the unknowns' block: `P + rho I` and the bound rows.
pub open spec fn range_hinv<T: Scalar>(prob: QpProblem<T>, units: Seq<(usize, usize, T)>, zs: Seq<T>, rho: T) -> Seq<
    T,
> {
    Seq::new(
        prob.n(),
        |j: int|
            T::one().over(units_added(units, zs, prob.p.at(j, j).plus(rho), j, units.len())),
    )
}

/// The inverse diagonal of the unknowns' block.
pub fn range_inverse<T: Scalar>(prob: &QpProblem<T>, units: &[(usize, usize, T)], zs: &[T], rho: T) -> (h: Vec<T>)
    requires
        prob.wf(),
        rows_fit(*prob, units@, Seq::empty()),
        zs@.len() == prob.mi(),
    ensures
        h@ == range_hinv(*prob, units@, zs@, rho),
{
    let n: usize = prob.q.len();
    let mut h: Vec<T> = Vec::with_capacity(n);
    let mut j: usize = 0;
    while j < n
        invariant
            prob.wf(),
            n == prob.n(),
            rows_fit(*prob, units@, Seq::empty()),
            zs@.len() == prob.mi(),
            j <= n,
            h@ =~= range_hinv(*prob, units@, zs@, rho).subrange(0, j as int),
        decreases n - j,
    {
        let start = prob.p.get(j, j).plus(rho);
        let mut d = start;
        let mut k: usize = 0;
        while k < units.len()
            invariant
                rows_fit(*prob, units@, Seq::empty()),
                zs@.len() == prob.mi(),
                k <= units@.len(),
                d == units_added(units@, zs@, start, j as int, k as nat),
            decreases units@.len() - k,
        {
            let (r, c, v) = units[k];
            assert(units@[k as int].0 < zs@.len());
            if c == j {
                d = d.plus(zs[r].times(v).times(v));
            }
            k += 1;
        }
        h.push(T::one().over(d));
        j += 1;
    }
    assert(h@ =~= range_hinv(*prob, units@, zs@, rho));
    h
}

/// `nz` with the dual regularization on the first `k` diagonal positions.
pub open spec fn delta_placed<T: Scalar>(nz: Seq<T>, dpos: Seq<usize>, delta: T, k: nat) -> Seq<T>
    decreases k,
{
    if k == 0 {
        nz
    } else {
        delta_placed(nz, dpos, delta, (k - 1) as nat).update(dpos[k - 1] as int, delta)
    }
}

/// `nz` with the first `k` diagonal contributions of a column added.
pub open spec fn diag_added<T: Scalar>(nz: Seq<T>, list: Seq<(usize, T)>, h: T, k: nat) -> Seq<T>
    decreases k,
{
    if k == 0 {
        nz
    } else {
        let front = diag_added(nz, list, h, (k - 1) as nat);
        let (p, v) = list[k - 1];
        front.update(p as int, front[p as int].plus(h.times(v).times(v)))
    }
}

/// `nz` with the first `k` contributions of a column off the diagonal added.
pub open spec fn off_added<T: Scalar>(nz: Seq<T>, list: Seq<(usize, T, T)>, h: T, k: nat) -> Seq<T>
    decreases k,
{
    if k == 0 {
        nz
    } else {
        let front = off_added(nz, list, h, (k - 1) as nat);
        let (p, a, b) = list[k - 1];
        front.update(p as int, front[p as int].plus(h.times(a).times(b)))
    }
}

/// The values of the complement after the contributions of the first `k` columns. A column whose
/// inverse is zero contributes nothing.
pub open spec fn complement_values<T: Scalar>(
    m: RangeMaps<T>,
    nnz: nat,
    hinv: Seq<T>,
    delta: T,
    k: nat,
) -> Seq<T>
    decreases k,
{
    if k == 0 {
        delta_placed(constant(T::zero(), nnz), m.dpos@, delta, m.dpos@.len())
    } else {
        let front = complement_values(m, nnz, hinv, delta, (k - 1) as nat);
        let h = hinv[k - 1];
        if h.equals(T::zero()) {
            front
        } else {
            let d = m.diag@[k - 1]@;
            let o = m.off@[k - 1]@;
            off_added(diag_added(front, d, h, d.len()), o, h, o.len())
        }
    }
}

/// Every position of the maps is below `nnz`.
pub open spec fn maps_fit<T>(m: RangeMaps<T>, nnz: nat, n: nat) -> bool {
    &&& m.diag@.len() == n
    &&& m.off@.len() == n
    &&& forall|r: int| 0 <= r < m.dpos@.len() ==> (#[trigger] m.dpos@[r]) < nnz
    &&& forall|j: int, i: int|
        0 <= j < n && 0 <= i < m.diag@[j]@.len() ==> (#[trigger] m.diag@[j]@[i]).0 < nnz
    &&& forall|j: int, i: int|
        0 <= j < n && 0 <= i < m.off@[j]@.len() ==> (#[trigger] m.off@[j]@[i]).0 < nnz
}

/// Maps that were found lie within the complement.
pub proof fn found_maps_fit<T: Scalar>(
    s: CscMatrix<T>,
    pinv: Seq<usize>,
    cols: Seq<Vec<(usize, T)>>,
    m: RangeMaps<T>,
)
    requires
        s.wf(),
        s.n == pinv.len(),
        forall|i: int| 0 <= i < pinv.len() ==> (#[trigger] pinv[i]) < s.n,
        cols_fit(cols, pinv.len()),
        all_placed(s, pinv, cols),
        maps_of(s, pinv, cols, m),
    ensures
        maps_fit(m, s.nzval@.len(), cols.len()),
{
    assert forall|r: int| 0 <= r < m.dpos@.len() implies (#[trigger] m.dpos@[r]) < s.nzval@.len() by {
        assert(pinv[r] < s.n);
        lemma_find(s, pinv[r] as int, pinv[r] as int, s.colptr@[pinv[r] as int] as int);
    }
    assert forall|j: int, i: int| 0 <= j < cols.len() && 0 <= i < m.diag@[j]@.len() implies (
    #[trigger] m.diag@[j]@[i]).0 < s.nzval@.len() by {
        let rows = cols[j]@;
        assert(m.diag@[j]@ == diag_list(s, pinv, rows));
        assert(placed(s, pinv, cols[j]@));
        let r = cols[j]@[i].0;
        assert(r < pinv.len());
        let c = pinv[r as int];
        assert(c < s.n);
        assert(pair_pos(s, pinv, rows[i].0, rows[i].0) is Some);
        lemma_find(s, c as int, c as int, s.colptr@[c as int] as int);
    }
    assert forall|j: int, i: int| 0 <= j < cols.len() && 0 <= i < m.off@[j]@.len() implies (
    #[trigger] m.off@[j]@[i]).0 < s.nzval@.len() by {
        let rows = cols[j]@;
        assert(placed(s, pinv, cols[j]@));
        assert(m.off@[j]@ == off_list(s, pinv, rows, rows.len(), rows.len()));
        assert forall|k: int| 0 <= k < rows.len() implies (#[trigger] rows[k]).0 < pinv.len() by {
            assert(cols[j]@[k].0 < pinv.len());
        }
        lemma_off_list(s, pinv, rows, rows.len(), rows.len());
    }
}

proof fn lemma_off_list<T: Scalar>(
    s: CscMatrix<T>,
    pinv: Seq<usize>,
    rows: Seq<(usize, T)>,
    a: nat,
    b: nat,
)
    requires
        s.wf(),
        s.n == pinv.len(),
        forall|i: int| 0 <= i < pinv.len() ==> (#[trigger] pinv[i]) < s.n,
        forall|i: int| 0 <= i < rows.len() ==> (#[trigger] rows[i]).0 < pinv.len(),
        placed(s, pinv, rows),
        rows.len() >= 2,
        a <= rows.len(),
        b <= rows.len(),
    ensures
        forall|i: int|
            0 <= i < off_list(s, pinv, rows, a, b).len() ==> (#[trigger] off_list(
                s,
                pinv,
                rows,
                a,
                b,
            )[i]).0 < s.nzval@.len(),
    decreases a, b,
{
    if b > a {
        lemma_off_list(s, pinv, rows, a, (b - 1) as nat);
        let front = off_list(s, pinv, rows, a, (b - 1) as nat);
        let r1 = rows[a as int].0;
        let r2 = rows[b - 1].0;
        if r1 != r2 {
            let c = greater(pinv[r1 as int], pinv[r2 as int]) as int;
            let r = lesser(pinv[r1 as int], pinv[r2 as int]) as int;
            assert(pair_pos(s, pinv, rows[a as int].0, rows[b - 1].0) is Some);
            lemma_find(s, c, r, s.colptr@[c] as int);
        }
        assert forall|i: int| 0 <= i < off_list(s, pinv, rows, a, b).len() implies (
        #[trigger] off_list(s, pinv, rows, a, b)[i]).0 < s.nzval@.len() by {
            if i < front.len() {
                assert(front[i].0 < s.nzval@.len());
            }
        }
    } else if a > 0 {
        lemma_off_list(s, pinv, rows, (a - 1) as nat, rows.len());
        let front = off_list(s, pinv, rows, (a - 1) as nat, rows.len());
        assert(off_list(s, pinv, rows, a, b) == front);
        assert forall|i: int| 0 <= i < off_list(s, pinv, rows, a, b).len() implies (
        #[trigger] off_list(s, pinv, rows, a, b)[i]).0 < s.nzval@.len() by {
            assert(front[i].0 < s.nzval@.len());
        }
    }
}

/// The values of the complement for one iteration.
pub fn fill_complement<T: Scalar>(m: &RangeMaps<T>, nnz: usize, hinv: &[T], delta: T) -> (nz: Vec<T>)
    requires
        maps_fit(*m, nnz as nat, hinv@.len()),
    ensures
        nz@ == complement_values(*m, nnz as nat, hinv@, delta, hinv@.len()),
        nz@.len() == nnz,
{
    let mut nz: Vec<T> = filled(T::zero(), nnz);
    let mut r: usize = 0;
    while r < m.dpos.len()
        invariant
            maps_fit(*m, nnz as nat, hinv@.len()),
            r <= m.dpos@.len(),
            nz@.len() == nnz,
            nz@ == delta_placed(constant(T::zero(), nnz as nat), m.dpos@, delta, r as nat),
        decreases m.dpos@.len() - r,
    {
        let at: usize = m.dpos[r];
        nz[at] = delta;
        r += 1;
    }
    let mut j: usize = 0;
    while j < hinv.len()
        invariant
            maps_fit(*m, nnz as nat, hinv@.len()),
            j <= hinv@.len(),
            nz@.len() == nnz,
            nz@ == complement_values(*m, nnz as nat, hinv@, delta, j as nat),
        decreases hinv@.len() - j,
    {
        let h = hinv[j];
        if !h.equals(T::zero()) {
            let ghost start = nz@;
            let d = &m.diag[j];
            let mut i: usize = 0;
            while i < d.len()
                invariant
                    maps_fit(*m, nnz as nat, hinv@.len()),
                    j < hinv@.len(),
                    *d == m.diag@[j as int],
                    i <= d@.len(),
                    nz@.len() == nnz,
                    nz@ == diag_added(start, d@, h, i as nat),
                decreases d@.len() - i,
            {
                let (p, v) = d[i];
                assert(m.diag@[j as int]@[i as int].0 < nnz);
                let t = nz[p].plus(h.times(v).times(v));
                nz[p] = t;
                i += 1;
            }
            let ghost mid = nz@;
            let o = &m.off[j];
            i = 0;
            while i < o.len()
                invariant
                    maps_fit(*m, nnz as nat, hinv@.len()),
                    j < hinv@.len(),
                    *o == m.off@[j as int],
                    i <= o@.len(),
                    nz@.len() == nnz,
                    nz@ == off_added(mid, o@, h, i as nat),
                decreases o@.len() - i,
            {
                let (p, a, b) = o[i];
                assert(m.off@[j as int]@[i as int].0 < nnz);
                let t = nz[p].plus(h.times(a).times(b));
                nz[p] = t;
                i += 1;
            }
        }
        j += 1;
    }
    nz
}

/// `A_eq x` through the columns of the equality matrix, over the first `j` columns and the first `i`
/// entries of the next. A column without a step is passed over.
pub open spec fn projected<T: Scalar>(
    a_eq: DenseMatrix<T>,
    cols: Seq<Vec<(usize, T)>>,
    x: Seq<T>,
    me: nat,
    j: nat,
    i: nat,
) -> Seq<T>
    decreases j, i,
{
    if i > 0 {
        let front = projected(a_eq, cols, x, me, j, (i - 1) as nat);
        let r = cols[j as int]@[i - 1].0 as int;
        front.update(r, front[r].plus(a_eq.at(r, j as int).times(x[j as int])))
    } else if j > 0 {
        let c = j - 1;
        if x[c].equals(T::zero()) {
            projected(a_eq, cols, x, me, c as nat, 0)
        } else {
            projected(a_eq, cols, x, me, c as nat, cols[c]@.len())
        }
    } else {
        constant(T::zero(), me)
    }
}

/// `A_eq' y` in coordinate `j`, over the first `k` entries of the column.
pub open spec fn column_times<T: Scalar>(
    a_eq: DenseMatrix<T>,
    rows: Seq<(usize, T)>,
    y: Seq<T>,
    j: int,
    k: nat,
) -> T
    decreases k,
{
    if k == 0 {
        T::zero()
    } else {
        let r = rows[k - 1].0 as int;
        column_times(a_eq, rows, y, j, (k - 1) as nat).plus(a_eq.at(r, j).times(y[r]))
    }
}

/// The right-hand side of the complement: the projection and the equality residual; a corrector
/// leaves the residual out.
pub open spec fn range_rhs<T: Scalar>(proj: Seq<T>, r_b: Seq<T>, corrector: bool) -> Seq<T> {
    if corrector {
        proj
    } else {
        Seq::new(proj.len(), |i: int| proj[i].plus(r_b[i]))
    }
}

/// `out` solves for the unknowns and the equality multipliers through the sparse complement, which
/// is factored in the order `perm`.
pub open spec fn range_solved<T: Scalar>(
    a_eq: DenseMatrix<T>,
    cols: Seq<Vec<(usize, T)>>,
    hinv: Seq<T>,
    perm: Seq<usize>,
    r_b: Seq<T>,
    corrector: bool,
    solves: spec_fn(Seq<T>, Seq<T>) -> bool,
) -> spec_fn(Seq<T>, Seq<T>) -> bool {
    let n = hinv.len();
    |rhs: Seq<T>, out: Seq<T>|
        {
            let x = Seq::new(n, |i: int| hinv[i].times(rhs[i]));
            let proj = projected(a_eq, cols, x, r_b.len(), n, 0);
            let dy = out.subrange(n as int, (n + r_b.len()) as int);
            &&& out.len() == n + r_b.len()
            &&& yields(
                solves,
                gathered(perm, range_rhs(proj, r_b, corrector)),
                gathered(perm, dy),
            )
            &&& out.subrange(0, n as int) == Seq::new(
                n,
                |j: int| x[j].minus(hinv[j].times(column_times(a_eq, cols[j]@, dy, j, cols[j]@.len()))),
            )
        }
}

/// Solves for the unknowns and the equality multipliers through the sparse complement; `inner` is
/// the solve against its factor.
pub(crate) fn solve_range<T: Scalar, S: Fn(&[T]) -> Vec<T>>(
    a_eq: &DenseMatrix<T>,
    cols: &[Vec<(usize, T)>],
    hinv: &[T],
    perm: &[usize],
    r_b: &[T],
    corrector: bool,
    rhs: &[T],
    inner: &S,
    Ghost(solves): Ghost<spec_fn(Seq<T>, Seq<T>) -> bool>,
) -> (out: Vec<T>)
    requires
        a_eq.sized(r_b@.len(), hinv@.len()),
        cols@.len() == hinv@.len(),
        cols_fit(cols@, r_b@.len()),
        rhs@.len() == hinv@.len() + r_b@.len(),
        permutation(perm@),
        perm@.len() == r_b@.len(),
        gives_solutions(*inner, solves, r_b@.len()),
    ensures
        yields(range_solved(*a_eq, cols@, hinv@, perm@, r_b@, corrector, solves), rhs@, out@),
        out@.len() == rhs@.len(),
{
    let n: usize = hinv.len();
    let me: usize = r_b.len();
    let ghost x_spec = Seq::new(n as nat, |i: int| hinv@[i].times(rhs@[i]));
    let mut x: Vec<T> = Vec::with_capacity(n);
    let mut j: usize = 0;
    while j < n
        invariant
            n == hinv@.len() <= rhs@.len(),
            x_spec == Seq::new(n as nat, |i: int| hinv@[i].times(rhs@[i])),
            j <= n,
            x@ =~= x_spec.subrange(0, j as int),
        decreases n - j,
    {
        x.push(hinv[j].times(rhs[j]));
        j += 1;
    }
    assert(x@ =~= x_spec);
    let mut proj: Vec<T> = filled(T::zero(), me);
    j = 0;
    while j < n
        invariant
            a_eq.sized(r_b@.len(), hinv@.len()),
            cols@.len() == hinv@.len(),
            cols_fit(cols@, r_b@.len()),
            n == hinv@.len(),
            me == r_b@.len(),
            x@.len() == n,
            j <= n,
            proj@.len() == me,
            proj@ == projected(*a_eq, cols@, x@, me as nat, j as nat, 0),
        decreases n - j,
    {
        let t = x[j];
        if !t.equals(T::zero()) {
            let rows = &cols[j];
            let mut i: usize = 0;
            while i < rows.len()
                invariant
                    a_eq.sized(r_b@.len(), hinv@.len()),
                    cols@.len() == hinv@.len(),
                    cols_fit(cols@, r_b@.len()),
                    n == hinv@.len(),
                    me == r_b@.len(),
                    x@.len() == n,
                    j < n,
                    t == x@[j as int],
                    *rows == cols@[j as int],
                    i <= rows@.len(),
                    proj@.len() == me,
                    proj@ == projected(*a_eq, cols@, x@, me as nat, j as nat, i as nat),
                decreases rows@.len() - i,
            {
                let r: usize = rows[i].0;
                assert(cols@[j as int]@[i as int].0 < me);
                let v = proj[r].plus(a_eq.get(r, j).times(t));
                proj[r] = v;
                i += 1;
            }
        }
        j += 1;
    }
    let rhs_s: Vec<T>;
    if corrector {
        rhs_s = proj;
    } else {
        let mut sum: Vec<T> = Vec::with_capacity(me);
        let mut i: usize = 0;
        while i < me
            invariant
                me == r_b@.len() == proj@.len(),
                i <= me,
                sum@ =~= Seq::new(i as nat, |k: int| proj@[k].plus(r_b@[k])),
            decreases me - i,
        {
            sum.push(proj[i].plus(r_b[i]));
            i += 1;
        }
        rhs_s = sum;
    }
    let ghost proj_spec = projected(*a_eq, cols@, x_spec, me as nat, n as nat, 0);
    assert(rhs_s@ =~= range_rhs(proj_spec, r_b@, corrector));
    let p = gather(perm, &rhs_s);
    let a: &[T] = p.as_slice();
    let v = inner(a);
    assert(yields(solves, a@, v@));
    let dy = scatter(perm, &v);
    let ghost dx_spec = Seq::new(
        n as nat,
        |j: int|
            x_spec[j].minus(
                hinv@[j].times(column_times(*a_eq, cols@[j]@, dy@, j, cols@[j]@.len())),
            ),
    );
    let mut dx: Vec<T> = Vec::with_capacity(n);
    j = 0;
    while j < n
        invariant
            a_eq.sized(r_b@.len(), hinv@.len()),
            cols@.len() == hinv@.len(),
            cols_fit(cols@, r_b@.len()),
            n == hinv@.len(),
            me == r_b@.len(),
            x@ == x_spec,
            x@.len() == n,
            dy@.len() == me,
            dx_spec == Seq::new(
                n as nat,
                |j: int|
                    x_spec[j].minus(
                        hinv@[j].times(column_times(*a_eq, cols@[j]@, dy@, j, cols@[j]@.len())),
                    ),
            ),
            j <= n,
            dx@ =~= dx_spec.subrange(0, j as int),
        decreases n - j,
    {
        let rows = &cols[j];
        let mut acc = T::zero();
        let mut i: usize = 0;
        while i < rows.len()
            invariant
                a_eq.sized(r_b@.len(), hinv@.len()),
                cols@.len() == hinv@.len(),
                cols_fit(cols@, r_b@.len()),
                n == hinv@.len(),
                me == r_b@.len(),
                dy@.len() == me,
                j < n,
                *rows == cols@[j as int],
                i <= rows@.len(),
                acc == column_times(*a_eq, rows@, dy@, j as int, i as nat),
            decreases rows@.len() - i,
        {
            let r: usize = rows[i].0;
            assert(cols@[j as int]@[i as int].0 < me);
            acc = acc.plus(a_eq.get(r, j).times(dy[r]));
            i += 1;
        }
        dx.push(x[j].minus(hinv[j].times(acc)));
        j += 1;
    }
    assert(dx@ =~= dx_spec);
    let mut out = dx;
    let mut tail = copied(&dy);
    out.append(&mut tail);
    assert(out@.subrange(0, n as int) =~= dx_spec);
    assert(out@.subrange(n as int, (n + me) as int) =~= dy@);
    out
}

} // verus!
