use crate::cone::{lemma_block_bounds, offsets_of, size_upto, total_size, Cone};
use crate::conic_kkt::{block_entry, blocks_fit, cone_cols, conic_cols, conic_problem, z_cols, z_entries};
use crate::kkt::{
    a_row, diagonal_last, lemma_a_row, opt_deref, push_a_row, push_y_cols, source_fits, upper_triangular,
    x_cols, y_cols,
};
use crate::matrix::{raw_get, DenseMatrix};
use crate::problem::QpProblem;
use crate::scalar::Scalar;
use crate::sparse::{lemma_nonzeros, nonzeros, push_raw_column, Columns, CscMatrix};
use crate::vector::filled;
use vstd::prelude::*;

verus! {

/// Row `r` is among the folded rows.
pub open spec fn folded(fold_rows: Seq<(usize, usize)>, r: int) -> bool {
    exists|i: int| 0 <= i < fold_rows.len() && (#[trigger] fold_rows[i]).0 == r
}

/// What the first `k` folded rows add to the diagonal of unknown `c`: `a^2 / (eta^2 + delta)` for
/// each row whose single entry stands in column `c`.
pub open spec fn fold_sum<T: Scalar>(
    a_in: DenseMatrix<T>,
    fold_rows: Seq<(usize, usize)>,
    hinv: Seq<T>,
    c: int,
    k: nat,
) -> T
    decreases k,
{
    if k == 0 {
        T::zero()
    } else {
        let front = fold_sum(a_in, fold_rows, hinv, c, (k - 1) as nat);
        let (r, col) = fold_rows[k - 1];
        if col == c {
            let a = a_in.at(r as int, c);
            front.plus(a.times(a).times(hinv[k - 1]))
        } else {
            front
        }
    }
}

/// The number of rows before `r` that are not folded.
pub open spec fn kept_before(fold_rows: Seq<(usize, usize)>, r: nat) -> nat
    decreases r,
{
    if r == 0 {
        0
    } else {
        kept_before(fold_rows, (r - 1) as nat) + if folded(fold_rows, r - 1) {
            0nat
        } else {
            1nat
        }
    }
}

pub proof fn lemma_kept_monotone(fold_rows: Seq<(usize, usize)>, a: nat, b: nat)
    requires
        a <= b,
    ensures
        kept_before(fold_rows, a) <= kept_before(fold_rows, b),
        kept_before(fold_rows, b) <= kept_before(fold_rows, a) + (b - a),
    decreases b - a,
{
    if a < b {
        lemma_kept_monotone(fold_rows, a, (b - 1) as nat);
    }
}

/// The position of row `r` among the rows that are kept, and 0 for a folded row.
pub open spec fn kept_index(fold_rows: Seq<(usize, usize)>, r: nat) -> nat {
    if folded(fold_rows, r as int) {
        0
    } else {
        kept_before(fold_rows, r)
    }
}

/// The folded columns of the unknowns.
pub open spec fn folded_x_cols<T: Scalar>(
    prob: QpProblem<T>,
    rho: T,
    p_diag: bool,
    fold_rows: Seq<(usize, usize)>,
    hinv: Seq<T>,
) -> Seq<Seq<(usize, T)>> {
    let n = prob.n();
    Seq::new(
        n,
        |c: int|
            {
                let above = if p_diag {
                    Seq::empty()
                } else {
                    nonzeros(prob.p.column(c), c as nat)
                };
                above.push(
                    (
                        c as usize,
                        prob.p.at(c, c).plus(rho).plus(
                            fold_sum(prob.a_in, fold_rows, hinv, c, fold_rows.len()),
                        ),
                    ),
                )
            },
    )
}

/// The entries of column `l` of one cone's block, with the rows renumbered among those kept.
pub open spec fn kept_entries<T: Scalar>(
    fold_rows: Seq<(usize, usize)>,
    cone: Cone,
    zoff: nat,
    off: nat,
    l: int,
    blk: Seq<T>,
    delta: T,
) -> Seq<(usize, T)> {
    if cone is NonNeg {
        seq![
            (
                (zoff + kept_index(fold_rows, (off + l) as nat)) as usize,
                blk[l].plus(delta).neg(),
            ),
        ]
    } else {
        Seq::new(
            (l + 1) as nat,
            |lp: int|
                (
                    (zoff + kept_index(fold_rows, (off + lp) as nat)) as usize,
                    block_entry(blk, cone.size(), lp, l, delta),
                ),
        )
    }
}

/// The columns of the rows kept among the first `l` of cone `c`.
pub open spec fn kept_cone_cols<T: Scalar>(
    csr: Option<CscMatrix<T>>,
    a_in: DenseMatrix<T>,
    n: nat,
    zoff: nat,
    cones: Seq<Cone>,
    blocks: Seq<Vec<T>>,
    delta: T,
    fold_rows: Seq<(usize, usize)>,
    c: int,
    l: nat,
) -> Seq<Seq<(usize, T)>>
    decreases l,
{
    if l == 0 {
        Seq::empty()
    } else {
        let front = kept_cone_cols(
            csr,
            a_in,
            n,
            zoff,
            cones,
            blocks,
            delta,
            fold_rows,
            c,
            (l - 1) as nat,
        );
        let off = size_upto(cones, c as nat);
        if folded(fold_rows, off + l - 1) {
            front
        } else {
            front.push(
                a_row(csr, a_in, off + l - 1, n) + kept_entries(
                    fold_rows,
                    cones[c],
                    zoff,
                    off,
                    l - 1,
                    blocks[c]@,
                    delta,
                ),
            )
        }
    }
}

/// The columns of the rows kept in the first `k` cones.
pub open spec fn kept_cols<T: Scalar>(
    csr: Option<CscMatrix<T>>,
    a_in: DenseMatrix<T>,
    n: nat,
    zoff: nat,
    cones: Seq<Cone>,
    blocks: Seq<Vec<T>>,
    delta: T,
    fold_rows: Seq<(usize, usize)>,
    k: nat,
) -> Seq<Seq<(usize, T)>>
    decreases k,
{
    if k == 0 {
        Seq::empty()
    } else {
        kept_cols(csr, a_in, n, zoff, cones, blocks, delta, fold_rows, (k - 1) as nat)
            + kept_cone_cols(
            csr,
            a_in,
            n,
            zoff,
            cones,
            blocks,
            delta,
            fold_rows,
            k - 1,
            cones[k - 1].size(),
        )
    }
}

/// The columns of the conic augmented system from which the folded rows were eliminated.
pub open spec fn folded_cols<T: Scalar>(
    prob: QpProblem<T>,
    cones: Seq<Cone>,
    blocks: Seq<Vec<T>>,
    rho: T,
    delta: T,
    aeq_csr: Option<CscMatrix<T>>,
    ain_csr: Option<CscMatrix<T>>,
    p_diag: bool,
    fold_rows: Seq<(usize, usize)>,
    hinv: Seq<T>,
) -> Seq<Seq<(usize, T)>> {
    let n = prob.n();
    let me = prob.me();
    folded_x_cols(prob, rho, p_diag, fold_rows, hinv) + y_cols(aeq_csr, prob.a_eq, n, me, delta)
        + kept_cols(ain_csr, prob.a_in, n, n + me, cones, blocks, delta, fold_rows, cones.len())
}

/// The fold list names rows and columns of the inequality matrix.
pub open spec fn fold_fits(fold_rows: Seq<(usize, usize)>, mi: nat, n: nat) -> bool {
    forall|i: int|
        0 <= i < fold_rows.len() ==> (#[trigger] fold_rows[i]).0 < mi && fold_rows[i].1 < n
}

/// Every column of the kept rows reaches down to its diagonal.
pub proof fn lemma_kept_cols<T: Scalar>(
    csr: Option<CscMatrix<T>>,
    a_in: DenseMatrix<T>,
    n: nat,
    zoff: nat,
    cones: Seq<Cone>,
    blocks: Seq<Vec<T>>,
    delta: T,
    fold_rows: Seq<(usize, usize)>,
    k: nat,
    l: nat,
)
    requires
        k < cones.len() && l <= cones[k as int].size() || k == cones.len() && l == 0,
        source_fits(csr, a_in, total_size(cones), n),
        n <= zoff,
        zoff + total_size(cones) <= usize::MAX,
    ensures
        ({
            let all = kept_cols(csr, a_in, n, zoff, cones, blocks, delta, fold_rows, k)
                + kept_cone_cols(csr, a_in, n, zoff, cones, blocks, delta, fold_rows, k as int, l);
            &&& all.len() == kept_before(fold_rows, size_upto(cones, k) + l)
            &&& forall|r: int|
                0 <= r < all.len() ==> {
                    let col = #[trigger] all[r];
                    &&& col.len() > 0
                    &&& col.last().0 == zoff + r
                    &&& forall|j: int| 0 <= j < col.len() ==> (#[trigger] col[j]).0 <= zoff + r
                }
        }),
    decreases k, l,
{
    let done = kept_cols(csr, a_in, n, zoff, cones, blocks, delta, fold_rows, k);
    let part = kept_cone_cols(csr, a_in, n, zoff, cones, blocks, delta, fold_rows, k as int, l);
    let all = done + part;
    if l > 0 {
        let prev = (l - 1) as nat;
        lemma_kept_cols(csr, a_in, n, zoff, cones, blocks, delta, fold_rows, k, prev);
        let shorter = done + kept_cone_cols(
            csr,
            a_in,
            n,
            zoff,
            cones,
            blocks,
            delta,
            fold_rows,
            k as int,
            prev,
        );
        let off = size_upto(cones, k);
        lemma_block_bounds(cones, k as int);
        if folded(fold_rows, off + l - 1) {
            assert(all =~= shorter);
        } else {
            let ar = a_row(csr, a_in, off + l - 1, n);
            let ze = kept_entries(fold_rows, cones[k as int], zoff, off, l - 1, blocks[k as int]@, delta);
            assert(all =~= shorter.push(ar + ze));
            lemma_a_row(csr, a_in, total_size(cones), n, off + l - 1);
            lemma_kept_monotone(fold_rows, 0, (off + l - 1) as nat);
            assert forall|r: int| 0 <= r < all.len() implies {
                let col = #[trigger] all[r];
                &&& col.len() > 0
                &&& col.last().0 == zoff + r
                &&& forall|j: int| 0 <= j < col.len() ==> (#[trigger] col[j]).0 <= zoff + r
            } by {
                if r == shorter.len() {
                    assert(all[r] == ar + ze);
                    assert((ar + ze).last() == ze.last());
                    assert forall|j: int| 0 <= j < (ar + ze).len() implies (#[trigger] (ar
                        + ze)[j]).0 <= zoff + r by {
                        if j >= ar.len() && !(cones[k as int] is NonNeg) {
                            lemma_kept_monotone(
                                fold_rows,
                                (off + (j - ar.len())) as nat,
                                (off + l - 1) as nat,
                            );
                        }
                    }
                } else {
                    assert(all[r] == shorter[r]);
                }
            }
        }
    } else if k > 0 {
        lemma_kept_cols(
            csr,
            a_in,
            n,
            zoff,
            cones,
            blocks,
            delta,
            fold_rows,
            (k - 1) as nat,
            cones[k - 1].size(),
        );
        assert(all =~= done);
    } else {
        assert(all =~= Seq::<Seq<(usize, T)>>::empty());
    }
}

/// The folded system has one column per unknown, per equality row and per kept row, reaches down
/// to the diagonal, and the diagonal ends every column.
pub proof fn folded_is_upper_triangular<T: Scalar>(
    prob: QpProblem<T>,
    cones: Seq<Cone>,
    blocks: Seq<Vec<T>>,
    rho: T,
    delta: T,
    aeq_csr: Option<CscMatrix<T>>,
    ain_csr: Option<CscMatrix<T>>,
    p_diag: bool,
    fold_rows: Seq<(usize, usize)>,
    hinv: Seq<T>,
)
    requires
        conic_problem(prob, cones),
        source_fits(aeq_csr, prob.a_eq, prob.me(), prob.n()),
        source_fits(ain_csr, prob.a_in, prob.mi(), prob.n()),
    ensures
        ({
            let cols = folded_cols(
                prob,
                cones,
                blocks,
                rho,
                delta,
                aeq_csr,
                ain_csr,
                p_diag,
                fold_rows,
                hinv,
            );
            &&& cols.len() == prob.n() + prob.me() + kept_before(fold_rows, prob.mi())
            &&& upper_triangular(cols)
            &&& diagonal_last(cols)
        }),
{
    let n = prob.n();
    let me = prob.me();
    let cols = folded_cols(
        prob,
        cones,
        blocks,
        rho,
        delta,
        aeq_csr,
        ain_csr,
        p_diag,
        fold_rows,
        hinv,
    );
    let kept = kept_cols(
        ain_csr,
        prob.a_in,
        n,
        n + me,
        cones,
        blocks,
        delta,
        fold_rows,
        cones.len(),
    );
    lemma_kept_cols(
        ain_csr,
        prob.a_in,
        n,
        n + me,
        cones,
        blocks,
        delta,
        fold_rows,
        cones.len(),
        0,
    );
    assert(kept + kept_cone_cols(
        ain_csr,
        prob.a_in,
        n,
        n + me,
        cones,
        blocks,
        delta,
        fold_rows,
        cones.len() as int,
        0,
    ) =~= kept);
    assert forall|c: int| 0 <= c < cols.len() implies {
        &&& (#[trigger] cols[c]).len() > 0
        &&& cols[c][cols[c].len() - 1].0 == c
        &&& forall|k: int| 0 <= k < cols[c].len() ==> (#[trigger] cols[c][k]).0 <= c
    } by {
        if c < n {
            lemma_nonzeros(prob.p.column(c), c as nat);
        } else if c < n + me {
            lemma_a_row(aeq_csr, prob.a_eq, me, n, c - n);
        } else {
            assert(cols[c] == kept[c - n - me]);
        }
    }
}

/// Marks the folded rows.
pub fn mark_folded(fold_rows: &[(usize, usize)], mi: usize, n: usize) -> (r: Vec<bool>)
    requires
        fold_fits(fold_rows@, mi as nat, n as nat),
    ensures
        r@.len() == mi,
        forall|k: int| 0 <= k < mi ==> #[trigger] r@[k] == folded(fold_rows@, k),
{
    let mut marks: Vec<bool> = filled(false, mi);
    let mut i: usize = 0;
    while i < fold_rows.len()
        invariant
            fold_fits(fold_rows@, mi as nat, n as nat),
            i <= fold_rows@.len(),
            marks@.len() == mi,
            forall|k: int|
                0 <= k < mi ==> (#[trigger] marks@[k] <==> exists|j: int|
                    0 <= j < i && (#[trigger] fold_rows@[j]).0 == k),
        decreases fold_rows@.len() - i,
    {
        let row: usize = fold_rows[i].0;
        let ghost before = marks@;
        marks[row] = true;
        proof {
            assert forall|k: int| 0 <= k < mi implies (#[trigger] marks@[k] <==> exists|j: int|
                0 <= j < i + 1 && (#[trigger] fold_rows@[j]).0 == k) by {
                if k == row {
                    assert(fold_rows@[i as int].0 == k);
                } else {
                    assert(marks@[k] == before[k]);
                }
            }
        }
        i += 1;
    }
    marks
}

/// What the folded rows add to the diagonal of each unknown.
pub fn fold_diagonal<T: Scalar>(
    a_in: &DenseMatrix<T>,
    fold_rows: &[(usize, usize)],
    fold_hinv: &[T],
) -> (r: Vec<T>)
    requires
        a_in.wf(),
        fold_fits(fold_rows@, a_in.nrows as nat, a_in.ncols as nat),
        fold_hinv@.len() >= fold_rows@.len(),
    ensures
        r@.len() == a_in.ncols,
        forall|c: int|
            0 <= c < a_in.ncols ==> #[trigger] r@[c] == fold_sum(
                *a_in,
                fold_rows@,
                fold_hinv@,
                c,
                fold_rows@.len(),
            ),
{
    let mut d: Vec<T> = filled(T::zero(), a_in.ncols);
    let mut i: usize = 0;
    while i < fold_rows.len()
        invariant
            a_in.wf(),
            fold_fits(fold_rows@, a_in.nrows as nat, a_in.ncols as nat),
            fold_hinv@.len() >= fold_rows@.len(),
            i <= fold_rows@.len(),
            d@.len() == a_in.ncols,
            forall|c: int|
                0 <= c < a_in.ncols ==> #[trigger] d@[c] == fold_sum(
                    *a_in,
                    fold_rows@,
                    fold_hinv@,
                    c,
                    i as nat,
                ),
        decreases fold_rows@.len() - i,
    {
        let (row, col) = fold_rows[i];
        assert(fold_rows@[i as int].0 < a_in.nrows);
        let a = a_in.get(row, col);
        let sum = d[col].plus(a.times(a).times(fold_hinv[i]));
        d[col] = sum;
        i += 1;
    }
    d
}

/// The position of each row among the rows that are kept, and their number.
fn number_kept(is_folded: &[bool], Ghost(fold_rows): Ghost<Seq<(usize, usize)>>) -> (r: (
    Vec<usize>,
    usize,
))
    requires
        forall|k: int|
            0 <= k < is_folded@.len() ==> #[trigger] is_folded@[k] == folded(fold_rows, k),
    ensures
        r.0@.len() == is_folded@.len(),
        forall|k: int|
            0 <= k < is_folded@.len() ==> #[trigger] r.0@[k] == kept_index(fold_rows, k as nat),
        r.1 == kept_before(fold_rows, is_folded@.len()),
{
    let mut z_map: Vec<usize> = Vec::with_capacity(is_folded.len());
    let mut zc: usize = 0;
    let mut r: usize = 0;
    while r < is_folded.len()
        invariant
            forall|k: int|
                0 <= k < is_folded@.len() ==> #[trigger] is_folded@[k] == folded(fold_rows, k),
            r <= is_folded@.len(),
            zc <= r,
            zc == kept_before(fold_rows, r as nat),
            z_map@.len() == r,
            forall|k: int| 0 <= k < r ==> #[trigger] z_map@[k] == kept_index(fold_rows, k as nat),
        decreases is_folded@.len() - r,
    {
        assert(is_folded@[r as int] == folded(fold_rows, r as int));
        if is_folded[r] {
            z_map.push(0);
        } else {
            z_map.push(zc);
            zc += 1;
        }
        r += 1;
    }
    (z_map, zc)
}

/// The conic augmented system from which the bound rows in `fold_rows` are eliminated: row
/// `fold_rows[i].0` has its single entry in column `fold_rows[i].1`, and adds
/// `a^2 * fold_hinv[i]` to the diagonal there.
pub fn assemble_conic_kkt_folded<T: Scalar>(
    prob: &QpProblem<T>,
    cones: &[Cone],
    offsets: &[usize],
    blocks: &[Vec<T>],
    rho: T,
    delta: T,
    aeq_csr: Option<&CscMatrix<T>>,
    ain_csr: Option<&CscMatrix<T>>,
    p_diag: bool,
    fold_rows: &[(usize, usize)],
    fold_hinv: &[T],
) -> (r: CscMatrix<T>)
    requires
        conic_problem(*prob, cones@),
        offsets_of(cones@, offsets@),
        blocks_fit(cones@, blocks@),
        source_fits(opt_deref(aeq_csr), prob.a_eq, prob.me(), prob.n()),
        source_fits(opt_deref(ain_csr), prob.a_in, prob.mi(), prob.n()),
        fold_fits(fold_rows@, prob.mi(), prob.n()),
        fold_hinv@.len() >= fold_rows@.len(),
    ensures
        r.wf(),
        r.m == prob.n() + prob.me() + kept_before(fold_rows@, prob.mi()),
        r.n == r.m,
        r.cols() == folded_cols(
            *prob,
            cones@,
            blocks@,
            rho,
            delta,
            opt_deref(aeq_csr),
            opt_deref(ain_csr),
            p_diag,
            fold_rows@,
            fold_hinv@,
        ),
{
    let n: usize = prob.q.len();
    let me: usize = prob.b_eq.len();
    let mi: usize = prob.b_in.len();
    let is_folded = mark_folded(fold_rows, mi, n);
    let fold_d = fold_diagonal(&prob.a_in, fold_rows, fold_hinv);
    let (z_map, zc) = number_kept(&is_folded, Ghost(fold_rows@));
    let ghost xs = folded_x_cols(*prob, rho, p_diag, fold_rows@, fold_hinv@);
    let mut out: Columns<T> = Columns::new();
    let mut c: usize = 0;
    while c < n
        invariant
            prob.wf(),
            n == prob.n(),
            c <= n,
            fold_d@.len() == n,
            forall|k: int|
                0 <= k < n ==> #[trigger] fold_d@[k] == fold_sum(
                    prob.a_in,
                    fold_rows@,
                    fold_hinv@,
                    k,
                    fold_rows@.len(),
                ),
            xs == folded_x_cols(*prob, rho, p_diag, fold_rows@, fold_hinv@),
            out.wf(),
            out.open_col() == Seq::<(usize, T)>::empty(),
            out.closed() =~= xs.subrange(0, c as int),
        decreases n - c,
    {
        if !p_diag {
            push_raw_column(&prob.p.data, n, n, c, c, &mut out);
        }
        out.push(c, prob.p.get(c, c).plus(rho).plus(fold_d[c]));
        assert(out.open_col() =~= xs[c as int]);
        out.close();
        c += 1;
    }
    assert(out.closed() =~= xs);
    push_y_cols(aeq_csr, &prob.a_eq, n, me, delta, &mut out);
    let ghost base = out.closed();
    let ghost ain = opt_deref(ain_csr);
    let zoff: usize = n + me;
    assert(base + kept_cols(
        ain,
        prob.a_in,
        n as nat,
        zoff as nat,
        cones@,
        blocks@,
        delta,
        fold_rows@,
        0,
    ) =~= base);
    let mut k: usize = 0;
    while k < cones.len()
        invariant
            conic_problem(*prob, cones@),
            offsets_of(cones@, offsets@),
            blocks_fit(cones@, blocks@),
            ain == opt_deref(ain_csr),
            source_fits(ain, prob.a_in, prob.mi(), prob.n()),
            n == prob.n(),
            me == prob.me(),
            mi == prob.mi(),
            zoff == n + me,
            is_folded@.len() == mi,
            z_map@.len() == mi,
            forall|j: int| 0 <= j < mi ==> #[trigger] is_folded@[j] == folded(fold_rows@, j),
            forall|j: int| 0 <= j < mi ==> #[trigger] z_map@[j] == kept_index(fold_rows@, j as nat),
            k <= cones@.len(),
            out.wf(),
            out.open_col() == Seq::<(usize, T)>::empty(),
            out.closed() == base + kept_cols(
                ain,
                prob.a_in,
                n as nat,
                zoff as nat,
                cones@,
                blocks@,
                delta,
                fold_rows@,
                k as nat,
            ),
        decreases cones@.len() - k,
    {
        let off: usize = offsets[k];
        let cone: Cone = cones[k];
        let dimc: usize = cone.dim();
        let ghost before = out.closed();
        proof {
            lemma_block_bounds(cones@, k as int);
            assert(before + Seq::<Seq<(usize, T)>>::empty() =~= before);
        }
        let mut l: usize = 0;
        while l < dimc
            invariant
                conic_problem(*prob, cones@),
                blocks_fit(cones@, blocks@),
                ain == opt_deref(ain_csr),
                source_fits(ain, prob.a_in, prob.mi(), prob.n()),
                n == prob.n(),
                me == prob.me(),
                mi == prob.mi(),
                zoff == n + me,
                is_folded@.len() == mi,
                z_map@.len() == mi,
                forall|j: int| 0 <= j < mi ==> #[trigger] is_folded@[j] == folded(fold_rows@, j),
                forall|j: int|
                    0 <= j < mi ==> #[trigger] z_map@[j] == kept_index(fold_rows@, j as nat),
                k < cones@.len(),
                cone == cones@[k as int],
                off == size_upto(cones@, k as nat),
                dimc == cone.size(),
                off + dimc <= mi,
                l <= dimc,
                out.wf(),
                out.open_col() == Seq::<(usize, T)>::empty(),
                out.closed() == before + kept_cone_cols(
                    ain,
                    prob.a_in,
                    n as nat,
                    zoff as nat,
                    cones@,
                    blocks@,
                    delta,
                    fold_rows@,
                    k as int,
                    l as nat,
                ),
            decreases dimc - l,
        {
            let r: usize = off + l;
            let ghost part = kept_cone_cols(
                ain,
                prob.a_in,
                n as nat,
                zoff as nat,
                cones@,
                blocks@,
                delta,
                fold_rows@,
                k as int,
                l as nat,
            );
            assert(is_folded@[r as int] == folded(fold_rows@, r as int));
            if !is_folded[r] {
                push_a_row(ain_csr, &prob.a_in, r, n, &mut out);
                push_kept_entries(&cone, zoff, off, l, &blocks[k], delta, &z_map, &mut out, Ghost(fold_rows@));
                let ghost col = out.open_col();
                assert(col =~= a_row(ain, prob.a_in, r as int, n as nat) + kept_entries(
                    fold_rows@,
                    cone,
                    zoff as nat,
                    off as nat,
                    l as int,
                    blocks@[k as int]@,
                    delta,
                ));
                out.close();
                assert((before + part).push(col) =~= before + part.push(col));
            }
            l += 1;
        }
        proof {
            assert(out.closed() =~= base + kept_cols(
                ain,
                prob.a_in,
                n as nat,
                zoff as nat,
                cones@,
                blocks@,
                delta,
                fold_rows@,
                (k + 1) as nat,
            ));
        }
        k += 1;
    }
    proof {
        lemma_kept_monotone(fold_rows@, 0, mi as nat);
        folded_is_upper_triangular(
            *prob,
            cones@,
            blocks@,
            rho,
            delta,
            opt_deref(aeq_csr),
            ain,
            p_diag,
            fold_rows@,
            fold_hinv@,
        );
    }
    out.finish(n + me + zc)
}

/// Appends the entries of column `l` of one cone's block, with renumbered rows, to the open
/// column.
fn push_kept_entries<T: Scalar>(
    cone: &Cone,
    zoff: usize,
    off: usize,
    l: usize,
    blk: &Vec<T>,
    delta: T,
    z_map: &[usize],
    out: &mut Columns<T>,
    Ghost(fold_rows): Ghost<Seq<(usize, usize)>>,
)
    requires
        cone.fits(),
        l < cone.size(),
        blk@.len() == cone.block_len(),
        off + cone.size() <= z_map@.len(),
        zoff + z_map@.len() <= usize::MAX,
        forall|j: int|
            0 <= j < z_map@.len() ==> #[trigger] z_map@[j] == kept_index(fold_rows, j as nat),
        old(out).wf(),
    ensures
        final(out).wf(),
        final(out).closed() == old(out).closed(),
        final(out).open_col() == old(out).open_col() + kept_entries(
            fold_rows,
            *cone,
            zoff as nat,
            off as nat,
            l as int,
            blk@,
            delta,
        ),
{
    let ghost start = out.open_col();
    let ghost all = kept_entries(fold_rows, *cone, zoff as nat, off as nat, l as int, blk@, delta);
    if let Cone::NonNeg(_) = cone {
        proof {
            lemma_kept_monotone(fold_rows, 0, (off + l) as nat);
        }
        out.push(zoff + z_map[off + l], blk[l].plus(delta).neg());
        assert(out.open_col() =~= start + all);
    } else {
        let d: usize = cone.dim();
        let mut lp: usize = 0;
        assert(start + all.subrange(0, 0) =~= start);
        while lp <= l
            invariant
                !(*cone is NonNeg),
                d == cone.size(),
                l < d,
                lp <= l + 1,
                blk@.len() == d * d,
                off + d <= z_map@.len(),
                zoff + z_map@.len() <= usize::MAX,
                forall|j: int|
                    0 <= j < z_map@.len() ==> #[trigger] z_map@[j] == kept_index(fold_rows, j as nat),
                all == kept_entries(
                    fold_rows,
                    *cone,
                    zoff as nat,
                    off as nat,
                    l as int,
                    blk@,
                    delta,
                ),
                out.wf(),
                out.closed() == old(out).closed(),
                out.open_col() == start + all.subrange(0, lp as int),
            decreases l + 1 - lp,
        {
            proof {
                lemma_kept_monotone(fold_rows, 0, (off + lp) as nat);
            }
            let hval = raw_get(blk, d, d, lp, l);
            let entry = if lp == l {
                hval.plus(delta).neg()
            } else {
                hval.neg()
            };
            let row: usize = zoff + z_map[off + lp];
            out.push(row, entry);
            proof {
                let done = all.subrange(0, lp as int);
                assert(all[lp as int] == (row, entry));
                assert((start + done).push((row, entry)) =~= start + all.subrange(0, lp + 1));
            }
            lp += 1;
        }
        assert(all.subrange(0, l + 1) =~= all);
    }
}

/// With nothing folded every row is kept in its place.
proof fn lemma_all_kept(fold_rows: Seq<(usize, usize)>, r: nat)
    requires
        fold_rows.len() == 0,
    ensures
        kept_before(fold_rows, r) == r,
        kept_index(fold_rows, r) == r,
    decreases r,
{
    if r > 0 {
        lemma_all_kept(fold_rows, (r - 1) as nat);
    }
}

/// With nothing folded the columns of one cone are those of the full system.
proof fn lemma_cone_kept<T: Scalar>(
    csr: Option<CscMatrix<T>>,
    a_in: DenseMatrix<T>,
    n: nat,
    zoff: nat,
    cones: Seq<Cone>,
    blocks: Seq<Vec<T>>,
    delta: T,
    fold_rows: Seq<(usize, usize)>,
    c: int,
    l: nat,
)
    requires
        fold_rows.len() == 0,
        0 <= c < cones.len(),
        l <= cones[c].size(),
    ensures
        kept_cone_cols(csr, a_in, n, zoff, cones, blocks, delta, fold_rows, c, l) == cone_cols(
            csr,
            a_in,
            n,
            zoff,
            cones,
            blocks,
            delta,
            c,
        ).subrange(0, l as int),
    decreases l,
{
    let full = cone_cols(csr, a_in, n, zoff, cones, blocks, delta, c);
    let part = kept_cone_cols(csr, a_in, n, zoff, cones, blocks, delta, fold_rows, c, l);
    if l > 0 {
        let off = size_upto(cones, c as nat);
        lemma_cone_kept(csr, a_in, n, zoff, cones, blocks, delta, fold_rows, c, (l - 1) as nat);
        lemma_all_kept(fold_rows, (off + l - 1) as nat);
        let mine = kept_entries(fold_rows, cones[c], zoff, off, l - 1, blocks[c]@, delta);
        let theirs = z_entries(cones[c], zoff + off, l - 1, blocks[c]@, delta);
        assert forall|k: int| 0 <= k < mine.len() implies mine[k] == theirs[k] by {
            lemma_all_kept(fold_rows, (off + k) as nat);
        }
        assert(mine =~= theirs);
        assert(part =~= full.subrange(0, l as int));
    } else {
        assert(part =~= full.subrange(0, 0));
    }
}

/// With nothing folded the columns of the cones are those of the full system.
proof fn lemma_cones_kept<T: Scalar>(
    csr: Option<CscMatrix<T>>,
    a_in: DenseMatrix<T>,
    n: nat,
    zoff: nat,
    cones: Seq<Cone>,
    blocks: Seq<Vec<T>>,
    delta: T,
    fold_rows: Seq<(usize, usize)>,
    k: nat,
)
    requires
        fold_rows.len() == 0,
        k <= cones.len(),
    ensures
        kept_cols(csr, a_in, n, zoff, cones, blocks, delta, fold_rows, k) == z_cols(
            csr,
            a_in,
            n,
            zoff,
            cones,
            blocks,
            delta,
            k,
        ),
    decreases k,
{
    if k > 0 {
        let size = cones[k - 1].size();
        lemma_cones_kept(csr, a_in, n, zoff, cones, blocks, delta, fold_rows, (k - 1) as nat);
        lemma_cone_kept(csr, a_in, n, zoff, cones, blocks, delta, fold_rows, k - 1, size);
        let full = cone_cols(csr, a_in, n, zoff, cones, blocks, delta, k - 1);
        assert(full.subrange(0, size as int) =~= full);
    }
}

/// With nothing folded the folded system is the conic augmented system. Only the zero that nothing
/// folded adds to the diagonal has to leave it as it is.
pub proof fn nothing_folded_is_the_conic_system<T: Scalar>(
    prob: QpProblem<T>,
    cones: Seq<Cone>,
    blocks: Seq<Vec<T>>,
    rho: T,
    delta: T,
    aeq_csr: Option<CscMatrix<T>>,
    ain_csr: Option<CscMatrix<T>>,
    p_diag: bool,
    fold_rows: Seq<(usize, usize)>,
    hinv: Seq<T>,
)
    requires
        prob.wf(),
        fold_rows.len() == 0,
        forall|c: int|
            0 <= c < prob.n() ==> (#[trigger] prob.p.at(c, c)).plus(rho).plus(T::zero()) == prob.p.at(
                c,
                c,
            ).plus(rho),
    ensures
        folded_cols(prob, cones, blocks, rho, delta, aeq_csr, ain_csr, p_diag, fold_rows, hinv)
            == conic_cols(prob, cones, blocks, rho, delta, aeq_csr, ain_csr, p_diag),
{
    let n = prob.n();
    let me = prob.me();
    lemma_cones_kept(ain_csr, prob.a_in, n, n + me, cones, blocks, delta, fold_rows, cones.len());
    let mine = folded_x_cols(prob, rho, p_diag, fold_rows, hinv);
    let theirs = x_cols(prob.p.data@, n, rho, p_diag);
    assert forall|c: int| 0 <= c < n implies #[trigger] mine[c] == theirs[c] by {
        assert(fold_sum(prob.a_in, fold_rows, hinv, c, fold_rows.len()) == T::zero());
        assert(prob.p.at(c, c).plus(rho).plus(T::zero()) == prob.p.at(c, c).plus(rho));
        assert(prob.p.at(c, c) == prob.p.data@[c * n + c]);
    }
    assert(mine =~= theirs);
}

} // verus!
