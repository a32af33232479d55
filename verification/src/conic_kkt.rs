use crate::cone::{cones_fit, lemma_block_bounds, offsets_of, size_upto, total_size, Cone};
use crate::kkt::{
    a_row, lemma_a_row, lemma_p_col, opt_deref, push_a_row, push_x_cols, push_y_cols, source_fits,
    upper_triangular, diagonal_last, x_cols, y_cols,
};
use crate::matrix::DenseMatrix;
use crate::problem::QpProblem;
use crate::scalar::Scalar;
use crate::sparse::{Columns, CscMatrix};
use vstd::prelude::*;

verus! {

/// The entry of `-(H + delta I)` in row `lp` and column `l` of a cone's scaling block.
pub open spec fn block_entry<T: Scalar>(blk: Seq<T>, d: nat, lp: int, l: int, delta: T) -> T {
    let h = blk[lp * d + l];
    if lp == l {
        h.plus(delta).neg()
    } else {
        h.neg()
    }
}

/// The entries of column `l` of one cone's block down to the diagonal: only the diagonal on an
/// orthant, the full triangle on any other cone. `base` is the index of the cone's first row.
pub open spec fn z_entries<T: Scalar>(cone: Cone, base: nat, l: int, blk: Seq<T>, delta: T) -> Seq<
    (usize, T),
> {
    if cone is NonNeg {
        seq![((base + l) as usize, blk[l].plus(delta).neg())]
    } else {
        Seq::new(
            (l + 1) as nat,
            |lp: int| ((base + lp) as usize, block_entry(blk, cone.size(), lp, l, delta)),
        )
    }
}

/// The columns of the inequality multipliers of the first `k` cones.
pub open spec fn z_cols<T: Scalar>(
    csr: Option<CscMatrix<T>>,
    a_in: DenseMatrix<T>,
    n: nat,
    zoff: nat,
    cones: Seq<Cone>,
    blocks: Seq<Vec<T>>,
    delta: T,
    k: nat,
) -> Seq<Seq<(usize, T)>>
    decreases k,
{
    if k == 0 {
        Seq::empty()
    } else {
        z_cols(csr, a_in, n, zoff, cones, blocks, delta, (k - 1) as nat) + cone_cols(
            csr,
            a_in,
            n,
            zoff,
            cones,
            blocks,
            delta,
            k - 1,
        )
    }
}

/// The columns of the inequality multipliers of cone `c`.
pub open spec fn cone_cols<T: Scalar>(
    csr: Option<CscMatrix<T>>,
    a_in: DenseMatrix<T>,
    n: nat,
    zoff: nat,
    cones: Seq<Cone>,
    blocks: Seq<Vec<T>>,
    delta: T,
    c: int,
) -> Seq<Seq<(usize, T)>> {
    let off = size_upto(cones, c as nat);
    Seq::new(
        cones[c].size(),
        |l: int|
            a_row(csr, a_in, off + l, n) + z_entries(cones[c], zoff + off, l, blocks[c]@, delta),
    )
}

/// The columns of the conic augmented system, down to the diagonal: unknowns, equality
/// multipliers, then inequality multipliers with one block `-(H + delta I)` per cone.
pub open spec fn conic_cols<T: Scalar>(
    prob: QpProblem<T>,
    cones: Seq<Cone>,
    blocks: Seq<Vec<T>>,
    rho: T,
    delta: T,
    aeq_csr: Option<CscMatrix<T>>,
    ain_csr: Option<CscMatrix<T>>,
    p_diag: bool,
) -> Seq<Seq<(usize, T)>> {
    let n = prob.n();
    let me = prob.me();
    x_cols(prob.p.data@, n, rho, p_diag) + y_cols(aeq_csr, prob.a_eq, n, me, delta) + z_cols(
        ain_csr,
        prob.a_in,
        n,
        n + me,
        cones,
        blocks,
        delta,
        cones.len(),
    )
}

/// There is one scaling block per cone, of the cone's size.
pub open spec fn blocks_fit<T>(cones: Seq<Cone>, blocks: Seq<Vec<T>>) -> bool {
    &&& blocks.len() == cones.len()
    &&& forall|c: int| 0 <= c < cones.len() ==> (#[trigger] blocks[c])@.len() == cones[c].block_len()
}

/// The problem's inequality rows are the slack entries of the cones.
pub open spec fn conic_problem<T: Scalar>(prob: QpProblem<T>, cones: Seq<Cone>) -> bool {
    prob.wf() && cones_fit(cones) && total_size(cones) == prob.mi()
}

/// There is one column per slack entry.
pub proof fn lemma_z_cols_len<T: Scalar>(
    csr: Option<CscMatrix<T>>,
    a_in: DenseMatrix<T>,
    n: nat,
    zoff: nat,
    cones: Seq<Cone>,
    blocks: Seq<Vec<T>>,
    delta: T,
    k: nat,
)
    ensures
        z_cols(csr, a_in, n, zoff, cones, blocks, delta, k).len() == size_upto(cones, k),
    decreases k,
{
    if k > 0 {
        lemma_z_cols_len(csr, a_in, n, zoff, cones, blocks, delta, (k - 1) as nat);
    }
}

/// The rows of one column of a cone's block lie within the block, and the diagonal ends it.
pub proof fn lemma_z_entries<T: Scalar>(cone: Cone, base: nat, l: int, blk: Seq<T>, delta: T)
    requires
        0 <= l < cone.size(),
        base + cone.size() <= usize::MAX,
    ensures
        z_entries(cone, base, l, blk, delta).len() > 0,
        z_entries(cone, base, l, blk, delta).last().0 == base + l,
        forall|k: int|
            0 <= k < z_entries(cone, base, l, blk, delta).len() ==> base <= (#[trigger] z_entries(
                cone,
                base,
                l,
                blk,
                delta,
            )[k]).0 <= base + l,
{
}

/// The columns of the cones reach down to the diagonal, which ends each of them.
pub proof fn lemma_z_cols_upper<T: Scalar>(
    csr: Option<CscMatrix<T>>,
    a_in: DenseMatrix<T>,
    n: nat,
    zoff: nat,
    cones: Seq<Cone>,
    blocks: Seq<Vec<T>>,
    delta: T,
    k: nat,
)
    requires
        k <= cones.len(),
        source_fits(csr, a_in, total_size(cones), n),
        n <= zoff,
        zoff + total_size(cones) <= usize::MAX,
    ensures
        z_cols(csr, a_in, n, zoff, cones, blocks, delta, k).len() == size_upto(cones, k),
        forall|r: int|
            0 <= r < size_upto(cones, k) ==> {
                let col = #[trigger] z_cols(csr, a_in, n, zoff, cones, blocks, delta, k)[r];
                &&& col.len() > 0
                &&& col.last().0 == zoff + r
                &&& forall|j: int| 0 <= j < col.len() ==> (#[trigger] col[j]).0 <= zoff + r
            },
    decreases k,
{
    if k > 0 {
        let c = k - 1;
        let off = size_upto(cones, c as nat);
        let all = z_cols(csr, a_in, n, zoff, cones, blocks, delta, k);
        lemma_z_cols_upper(csr, a_in, n, zoff, cones, blocks, delta, (k - 1) as nat);
        lemma_block_bounds(cones, c);
        assert forall|r: int| 0 <= r < size_upto(cones, k) implies {
            let col = #[trigger] all[r];
            &&& col.len() > 0
            &&& col.last().0 == zoff + r
            &&& forall|j: int| 0 <= j < col.len() ==> (#[trigger] col[j]).0 <= zoff + r
        } by {
            if r >= off {
                let l = r - off;
                let ar = a_row(csr, a_in, off + l, n);
                let ze = z_entries(cones[c], zoff + off, l, blocks[c]@, delta);
                lemma_a_row(csr, a_in, total_size(cones), n, off + l);
                lemma_z_entries(cones[c], zoff + off, l, blocks[c]@, delta);
                assert(all[r] == ar + ze);
                assert((ar + ze).last() == ze.last());
            } else {
                assert(all[r] == z_cols(
                    csr,
                    a_in,
                    n,
                    zoff,
                    cones,
                    blocks,
                    delta,
                    (k - 1) as nat,
                )[r]);
            }
        }
    }
}

/// The columns of the conic augmented system reach down to the diagonal, which ends each of
/// them.
pub proof fn conic_is_upper_triangular<T: Scalar>(
    prob: QpProblem<T>,
    cones: Seq<Cone>,
    blocks: Seq<Vec<T>>,
    rho: T,
    delta: T,
    aeq_csr: Option<CscMatrix<T>>,
    ain_csr: Option<CscMatrix<T>>,
    p_diag: bool,
)
    requires
        conic_problem(prob, cones),
        source_fits(aeq_csr, prob.a_eq, prob.me(), prob.n()),
        source_fits(ain_csr, prob.a_in, prob.mi(), prob.n()),
    ensures
        conic_cols(prob, cones, blocks, rho, delta, aeq_csr, ain_csr, p_diag).len() == prob.n()
            + prob.me() + prob.mi(),
        upper_triangular(conic_cols(prob, cones, blocks, rho, delta, aeq_csr, ain_csr, p_diag)),
        diagonal_last(conic_cols(prob, cones, blocks, rho, delta, aeq_csr, ain_csr, p_diag)),
{
    let n = prob.n();
    let me = prob.me();
    let cols = conic_cols(prob, cones, blocks, rho, delta, aeq_csr, ain_csr, p_diag);
    lemma_z_cols_upper(ain_csr, prob.a_in, n, n + me, cones, blocks, delta, cones.len());
    assert forall|c: int| 0 <= c < cols.len() implies {
        &&& (#[trigger] cols[c]).len() > 0
        &&& cols[c][cols[c].len() - 1].0 == c
        &&& forall|k: int| 0 <= k < cols[c].len() ==> (#[trigger] cols[c][k]).0 <= c
    } by {
        if c < n {
            lemma_p_col(prob.p.data@, n, c, rho, p_diag);
        } else if c < n + me {
            lemma_a_row(aeq_csr, prob.a_eq, me, n, c - n);
        } else {
            assert(cols[c] == z_cols(
                ain_csr,
                prob.a_in,
                n,
                n + me,
                cones,
                blocks,
                delta,
                cones.len(),
            )[c - n - me]);
        }
    }
}

/// The number of entries of each column, and their rows, are the same in both.
pub open spec fn same_pattern<T>(a: Seq<Seq<(usize, T)>>, b: Seq<Seq<(usize, T)>>) -> bool {
    &&& a.len() == b.len()
    &&& forall|c: int|
        0 <= c < a.len() ==> (#[trigger] a[c]).len() == b[c].len() && forall|k: int|
            0 <= k < a[c].len() ==> (#[trigger] a[c][k]).0 == b[c][k].0
}

proof fn lemma_z_pattern<T: Scalar>(
    csr: Option<CscMatrix<T>>,
    a_in: DenseMatrix<T>,
    n: nat,
    zoff: nat,
    cones: Seq<Cone>,
    first: (Seq<Vec<T>>, T),
    second: (Seq<Vec<T>>, T),
    k: nat,
)
    ensures
        same_pattern(
            z_cols(csr, a_in, n, zoff, cones, first.0, first.1, k),
            z_cols(csr, a_in, n, zoff, cones, second.0, second.1, k),
        ),
    decreases k,
{
    if k > 0 {
        lemma_z_pattern(csr, a_in, n, zoff, cones, first, second, (k - 1) as nat);
        let a = z_cols(csr, a_in, n, zoff, cones, first.0, first.1, (k - 1) as nat);
        let b = z_cols(csr, a_in, n, zoff, cones, second.0, second.1, (k - 1) as nat);
        let ca = cone_cols(csr, a_in, n, zoff, cones, first.0, first.1, k - 1);
        let cb = cone_cols(csr, a_in, n, zoff, cones, second.0, second.1, k - 1);
        assert forall|c: int| 0 <= c < (a + ca).len() implies (#[trigger] (a + ca)[c]).len() == (b
            + cb)[c].len() && (forall|j: int|
            0 <= j < (a + ca)[c].len() ==> (#[trigger] (a + ca)[c][j]).0 == (b + cb)[c][j].0) by {
            if c < a.len() {
                assert((a + ca)[c] == a[c]);
                assert((b + cb)[c] == b[c]);
            } else {
                assert((a + ca)[c] == ca[c - a.len()]);
                assert((b + cb)[c] == cb[c - a.len()]);
            }
        }
    }
}

/// The symbolic pattern of the conic augmented system does not depend on the regularization or
/// on the scaling blocks, so one symbolic analysis serves every iteration.
pub proof fn conic_pattern_is_fixed<T: Scalar>(
    prob: QpProblem<T>,
    cones: Seq<Cone>,
    first: (Seq<Vec<T>>, T, T),
    second: (Seq<Vec<T>>, T, T),
    aeq_csr: Option<CscMatrix<T>>,
    ain_csr: Option<CscMatrix<T>>,
    p_diag: bool,
)
    ensures
        same_pattern(
            conic_cols(prob, cones, first.0, first.1, first.2, aeq_csr, ain_csr, p_diag),
            conic_cols(prob, cones, second.0, second.1, second.2, aeq_csr, ain_csr, p_diag),
        ),
{
    let n = prob.n();
    let me = prob.me();
    lemma_z_pattern(
        ain_csr,
        prob.a_in,
        n,
        n + me,
        cones,
        (first.0, first.2),
        (second.0, second.2),
        cones.len(),
    );
    let a = conic_cols(prob, cones, first.0, first.1, first.2, aeq_csr, ain_csr, p_diag);
    let b = conic_cols(prob, cones, second.0, second.1, second.2, aeq_csr, ain_csr, p_diag);
    let za = z_cols(ain_csr, prob.a_in, n, n + me, cones, first.0, first.2, cones.len());
    let zb = z_cols(ain_csr, prob.a_in, n, n + me, cones, second.0, second.2, cones.len());
    assert forall|c: int| 0 <= c < a.len() implies (#[trigger] a[c]).len() == b[c].len() && (forall|
        j: int,
    |
        0 <= j < a[c].len() ==> (#[trigger] a[c][j]).0 == b[c][j].0) by {
        if c >= n + me {
            assert(a[c] == za[c - n - me]);
            assert(b[c] == zb[c - n - me]);
        }
    }
}

/// Appends the entries of column `l` of one cone's block to the open column.
fn push_z_entries<T: Scalar>(
    cone: &Cone,
    base: usize,
    l: usize,
    blk: &Vec<T>,
    delta: T,
    out: &mut Columns<T>,
)
    requires
        cone.fits(),
        l < cone.size(),
        blk@.len() == cone.block_len(),
        base + cone.size() <= usize::MAX,
        old(out).wf(),
    ensures
        final(out).wf(),
        final(out).closed() == old(out).closed(),
        final(out).open_col() == old(out).open_col() + z_entries(*cone, base as nat, l as int, blk@, delta),
{
    let ghost start = out.open_col();
    let ghost all = z_entries(*cone, base as nat, l as int, blk@, delta);
    if let Cone::NonNeg(_) = cone {
        out.push(base + l, blk[l].plus(delta).neg());
        assert(out.open_col() =~= start + all);
    } else {
        let d: usize = cone.dim();
        let mut lp: usize = 0;
        assert(start + all.subrange(0, 0) =~= start);
        while lp <= l
            invariant
                !(*cone is NonNeg),
                d == cone.size(),
                l < d,
                lp <= l + 1,
                blk@.len() == d * d,
                base + d <= usize::MAX,
                all == z_entries(*cone, base as nat, l as int, blk@, delta),
                out.wf(),
                out.closed() == old(out).closed(),
                out.open_col() == start + all.subrange(0, lp as int),
            decreases l + 1 - lp,
        {
            let hval = crate::matrix::raw_get(blk, d, d, lp, l);
            let entry = if lp == l {
                hval.plus(delta).neg()
            } else {
                hval.neg()
            };
            out.push(base + lp, entry);
            proof {
                let done = all.subrange(0, lp as int);
                assert((start + done).push((((base + lp) as usize), entry)) =~= start + all.subrange(
                    0,
                    lp + 1,
                ));
            }
            lp += 1;
        }
        assert(all.subrange(0, l + 1) =~= all);
    }
}

/// The conic augmented system. See [`conic_cols`] for its layout.
pub fn assemble_conic_kkt<T: Scalar>(
    prob: &QpProblem<T>,
    cones: &[Cone],
    offsets: &[usize],
    blocks: &[Vec<T>],
    rho: T,
    delta: T,
    aeq_csr: Option<&CscMatrix<T>>,
    ain_csr: Option<&CscMatrix<T>>,
    p_diag: bool,
) -> (r: CscMatrix<T>)
    requires
        conic_problem(*prob, cones@),
        offsets_of(cones@, offsets@),
        blocks_fit(cones@, blocks@),
        source_fits(opt_deref(aeq_csr), prob.a_eq, prob.me(), prob.n()),
        source_fits(opt_deref(ain_csr), prob.a_in, prob.mi(), prob.n()),
    ensures
        r.wf(),
        r.m == prob.n() + prob.me() + prob.mi(),
        r.n == r.m,
        r.cols() == conic_cols(
            *prob,
            cones@,
            blocks@,
            rho,
            delta,
            opt_deref(aeq_csr),
            opt_deref(ain_csr),
            p_diag,
        ),
{
    let n: usize = prob.q.len();
    let me: usize = prob.b_eq.len();
    let mi: usize = prob.b_in.len();
    let mut out: Columns<T> = Columns::new();
    push_x_cols(&prob.p.data, n, rho, p_diag, &mut out);
    push_y_cols(aeq_csr, &prob.a_eq, n, me, delta, &mut out);
    let ghost base = out.closed();
    let ghost ain = opt_deref(ain_csr);
    let zoff: usize = n + me;
    let mut c: usize = 0;
    assert(base + z_cols(ain, prob.a_in, n as nat, zoff as nat, cones@, blocks@, delta, 0) =~= base);
    while c < cones.len()
        invariant
            conic_problem(*prob, cones@),
            offsets_of(cones@, offsets@),
            blocks_fit(cones@, blocks@),
            ain == opt_deref(ain_csr),
            source_fits(ain, prob.a_in, prob.mi(), prob.n()),
            n == prob.n(),
            me == prob.me(),
            zoff == n + me,
            c <= cones@.len(),
            out.wf(),
            out.open_col() == Seq::<(usize, T)>::empty(),
            out.closed() == base + z_cols(
                ain,
                prob.a_in,
                n as nat,
                zoff as nat,
                cones@,
                blocks@,
                delta,
                c as nat,
            ),
        decreases cones@.len() - c,
    {
        let off: usize = offsets[c];
        let cone: Cone = cones[c];
        let dimc: usize = cone.dim();
        let ghost before = out.closed();
        let ghost these = cone_cols(
            ain,
            prob.a_in,
            n as nat,
            zoff as nat,
            cones@,
            blocks@,
            delta,
            c as int,
        );
        proof {
            lemma_block_bounds(cones@, c as int);
            assert(before + these.subrange(0, 0) =~= before);
        }
        let mut l: usize = 0;
        while l < dimc
            invariant
                conic_problem(*prob, cones@),
                offsets_of(cones@, offsets@),
                blocks_fit(cones@, blocks@),
                ain == opt_deref(ain_csr),
                source_fits(ain, prob.a_in, prob.mi(), prob.n()),
                n == prob.n(),
                me == prob.me(),
                zoff == n + me,
                c < cones@.len(),
                cone == cones@[c as int],
                off == size_upto(cones@, c as nat),
                dimc == cone.size(),
                off + dimc <= prob.mi(),
                l <= dimc,
                these == cone_cols(
                    ain,
                    prob.a_in,
                    n as nat,
                    zoff as nat,
                    cones@,
                    blocks@,
                    delta,
                    c as int,
                ),
                out.wf(),
                out.open_col() == Seq::<(usize, T)>::empty(),
                out.closed() == before + these.subrange(0, l as int),
            decreases dimc - l,
        {
            push_a_row(ain_csr, &prob.a_in, off + l, n, &mut out);
            push_z_entries(&cone, zoff + off, l, &blocks[c], delta, &mut out);
            assert(out.open_col() =~= these[l as int]);
            out.close();
            assert(out.closed() =~= before + these.subrange(0, l + 1));
            l += 1;
        }
        proof {
            assert(these.subrange(0, dimc as int) =~= these);
            assert(out.closed() =~= base + z_cols(
                ain,
                prob.a_in,
                n as nat,
                zoff as nat,
                cones@,
                blocks@,
                delta,
                (c + 1) as nat,
            ));
        }
        c += 1;
    }
    proof {
        conic_is_upper_triangular(*prob, cones@, blocks@, rho, delta, opt_deref(aeq_csr), ain, p_diag);
    }
    out.finish(n + me + mi)
}

} // verus!
