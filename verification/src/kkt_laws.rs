use crate::cone::{blocks_tile, lemma_block_bounds, size_upto, Cone};
use crate::conic_kkt::{
    block_entry, cone_cols, conic_cols, conic_problem, lemma_z_cols_len, z_cols, z_entries,
};
use crate::kkt::{a_row, p_col, sparse_and_dense_rows_agree};
use crate::kkt_cache::{
    in_block, indexed_entry, owner, lemma_owner_exists, patch_cone, patch_cones, patch_x, patch_y, Permuted,
    SparseKktCache,
};
use crate::matrix::{lemma_position, raw_column, DenseMatrix};
use crate::problem::QpProblem;
use crate::scalar::Scalar;
use crate::sparse::{is_row_form, lemma_nonzeros, nonzeros, CscMatrix};
use vstd::prelude::*;

verus! {

proof fn lemma_patch_x<T: Scalar>(
    prob: QpProblem<T>,
    rho: T,
    nz: Seq<T>,
    list: Seq<(usize, usize)>,
    k: nat,
    q: int,
    i: int,
)
    requires
        k <= list.len(),
        forall|j: int| 0 <= j < k ==> (#[trigger] list[j]).0 < nz.len(),
        0 <= q < nz.len(),
        forall|j: int| 0 <= j < k && (#[trigger] list[j]).0 == q ==> list[j].1 == i,
    ensures
        patch_x(prob, rho, nz, list, k).len() == nz.len(),
        patch_x(prob, rho, nz, list, k)[q] == (if exists|j: int|
            0 <= j < k && (#[trigger] list[j]).0 == q {
            prob.p.at(i, i).plus(rho)
        } else {
            nz[q]
        }),
    decreases k,
{
    if k > 0 {
        lemma_patch_x(prob, rho, nz, list, (k - 1) as nat, q, i);
        if list[k - 1].0 == q {
            assert(list[k - 1].1 == i);
        }
    }
}

proof fn lemma_patch_y<T: Scalar>(delta: T, nz: Seq<T>, list: Seq<(usize, usize)>, k: nat, q: int)
    requires
        k <= list.len(),
        forall|j: int| 0 <= j < k ==> (#[trigger] list[j]).0 < nz.len(),
        0 <= q < nz.len(),
    ensures
        patch_y(delta, nz, list, k).len() == nz.len(),
        patch_y(delta, nz, list, k)[q] == (if exists|j: int|
            0 <= j < k && (#[trigger] list[j]).0 == q {
            delta.neg()
        } else {
            nz[q]
        }),
    decreases k,
{
    if k > 0 {
        lemma_patch_y(delta, nz, list, (k - 1) as nat, q);
    }
}

proof fn lemma_patch_cone<T: Scalar>(
    cone: Cone,
    blk: Seq<T>,
    delta: T,
    nz: Seq<T>,
    list: Seq<(usize, usize)>,
    k: nat,
    q: int,
    i: int,
)
    requires
        k <= list.len(),
        forall|j: int| 0 <= j < k ==> (#[trigger] list[j]).0 < nz.len(),
        0 <= q < nz.len(),
        forall|j: int| 0 <= j < k && (#[trigger] list[j]).0 == q ==> list[j].1 == i,
    ensures
        patch_cone(cone, blk, delta, nz, list, k).len() == nz.len(),
        patch_cone(cone, blk, delta, nz, list, k)[q] == (if exists|j: int|
            0 <= j < k && (#[trigger] list[j]).0 == q {
            indexed_entry(cone, blk, i, delta)
        } else {
            nz[q]
        }),
    decreases k,
{
    if k > 0 {
        lemma_patch_cone(cone, blk, delta, nz, list, (k - 1) as nat, q, i);
        if list[k - 1].0 == q {
            assert(list[k - 1].1 == i);
        }
    }
}

/// Position `q` occurs in the list of cone `h` alone, and with the index `i` alone; any other
/// value of `h` says that it occurs in none.
proof fn lemma_patch_cones<T: Scalar>(
    cones: Seq<Cone>,
    blocks: Seq<Vec<T>>,
    delta: T,
    nz: Seq<T>,
    lists: Seq<Vec<(usize, usize)>>,
    k: nat,
    q: int,
    h: int,
    i: int,
)
    requires
        k <= cones.len() == lists.len(),
        forall|c: int, j: int|
            0 <= c < k && 0 <= j < lists[c]@.len() ==> (#[trigger] lists[c]@[j]).0 < nz.len(),
        0 <= q < nz.len(),
        forall|c: int, j: int|
            0 <= c < k && 0 <= j < lists[c]@.len() && (#[trigger] lists[c]@[j]).0 == q ==> c == h
                && lists[c]@[j].1 == i,
        0 <= h < cones.len() ==> exists|j: int| 0 <= j < lists[h]@.len() && (#[trigger] lists[h]@[j]).0 == q,
    ensures
        patch_cones(cones, blocks, delta, nz, lists, k).len() == nz.len(),
        patch_cones(cones, blocks, delta, nz, lists, k)[q] == (if 0 <= h < k {
            indexed_entry(cones[h], blocks[h]@, i, delta)
        } else {
            nz[q]
        }),
    decreases k,
{
    if k > 0 {
        lemma_patch_cones(cones, blocks, delta, nz, lists, (k - 1) as nat, q, h, i);
        let front = patch_cones(cones, blocks, delta, nz, lists, (k - 1) as nat);
        let list = lists[k - 1]@;
        lemma_patch_cone(cones[k - 1], blocks[k - 1]@, delta, front, list, list.len(), q, i);
    }
}

/// The index of a pair in a block determines the pair.
proof fn lemma_indexed_entry<T: Scalar>(cone: Cone, blk: Seq<T>, row: int, col: int, delta: T)
    requires
        !(cone is NonNeg),
        0 <= row < cone.size(),
        0 <= col < cone.size(),
    ensures
        indexed_entry(cone, blk, row * cone.size() + col, delta) == block_entry(
            blk,
            cone.size(),
            row,
            col,
            delta,
        ),
{
    vstd::arithmetic::div_mod::lemma_fundamental_div_mod_converse(
        row * cone.size() + col,
        cone.size() as int,
        row,
        col,
    );
}

/// Writing fresh values over a cached pattern gives at every position the entry that belongs
/// there: the regularized diagonal of the unknowns and of the equality multipliers, the entries
/// of the cones' blocks at their original indices, and the stored coupling everywhere else.
pub proof fn cached_update_refreshes<T: Scalar>(
    cache: SparseKktCache<T>,
    sys: Permuted<T>,
    prob: QpProblem<T>,
    blocks: Seq<Vec<T>>,
    rho: T,
    delta: T,
)
    requires
        sys.wf(),
        cache.describes(sys),
    ensures
        cache.updated(prob, sys.cones, blocks, rho, delta).len() == sys.nnz(),
        forall|p: int|
            0 <= p < sys.nnz() ==> #[trigger] cache.updated(prob, sys.cones, blocks, rho, delta)[p]
                == sys.refreshed(prob, blocks, rho, delta, p),
{
    let nz0 = cache.nzval_static@;
    let a = patch_x(prob, rho, nz0, cache.x_diag@, cache.x_diag@.len());
    let b = patch_y(delta, a, cache.y_diag@, cache.y_diag@.len());
    let u = patch_cones(sys.cones, blocks, delta, b, cache.cone_dyn@, sys.cones.len());
    assert(a.len() == nz0.len() && b.len() == nz0.len() && u.len() == nz0.len()) by {
        lemma_patch_lengths(cache, sys, prob, blocks, rho, delta);
    }
    assert forall|p: int| 0 <= p < sys.nnz() implies #[trigger] u[p] == sys.refreshed(
        prob,
        blocks,
        rho,
        delta,
        p,
    ) by {
        let q = p as usize;
        let o = sys.col_at(p);
        let xl = cache.x_diag@;
        let yl = cache.y_diag@;
        let cl = cache.cone_dyn@;
        assert(sys.kkt.rowval@.len() == sys.kkt.nzval@.len());
        assert(p <= usize::MAX) by {
            assert(sys.kkt.colptr@[sys.kkt.n as int] == sys.kkt.rowval@.len());
        }
        lemma_owner_exists(sys.kkt.colptr@, sys.nnz(), p);
        assert(sys.perm[owner(sys.kkt.colptr@, p)] < sys.kkt.n);
        // The unknowns.
        assert forall|j: int| 0 <= j < xl.len() && (#[trigger] xl[j]).0 == q implies xl[j].1 == o by {
            assert(xl.contains((xl[j].0, xl[j].1)));
        }
        lemma_patch_x(prob, rho, nz0, xl, xl.len(), p, o);
        assert((exists|j: int| 0 <= j < xl.len() && (#[trigger] xl[j]).0 == p) <==> sys.is_x(p)) by {
            if sys.is_x(p) {
                assert(xl.contains((q, o as usize)));
                let j = choose|j: int| 0 <= j < xl.len() && xl[j] == (q, o as usize);
                assert(xl[j].0 == p);
            }
            if exists|j: int| 0 <= j < xl.len() && (#[trigger] xl[j]).0 == p {
                let j = choose|j: int| 0 <= j < xl.len() && (#[trigger] xl[j]).0 == p;
                assert(xl.contains((xl[j].0, xl[j].1)));
            }
        }
        // The equality multipliers.
        lemma_patch_y(delta, a, yl, yl.len(), p);
        assert((exists|j: int| 0 <= j < yl.len() && (#[trigger] yl[j]).0 == p) <==> sys.is_y(p)) by {
            if sys.is_y(p) {
                assert(yl.contains((q, (o - sys.n) as usize)));
                let j = choose|j: int| 0 <= j < yl.len() && yl[j] == (q, (o - sys.n) as usize);
                assert(yl[j].0 == p);
            }
            if exists|j: int| 0 <= j < yl.len() && (#[trigger] yl[j]).0 == p {
                let j = choose|j: int| 0 <= j < yl.len() && (#[trigger] yl[j]).0 == p;
                assert(yl.contains((yl[j].0, yl[j].1)));
            }
        }
        // The cones.
        if sys.is_z(p) {
            let r = o - sys.zoff();
            blocks_tile(sys.cones, r as nat);
            let k = choose|k: int| 0 <= k < sys.cones.len() && #[trigger] in_block(sys.cones, k, r);
            let kk = choose|c: int|
                0 <= c < sys.cones.len() && #[trigger] size_upto(sys.cones, c as nat) <= r < size_upto(
                    sys.cones,
                    c as nat,
                ) + sys.cones[c].size();
            assert(in_block(sys.cones, kk, r));
            let row = sys.kkt.rowval@[p];
            let cone = sys.cones[k];
            let i = sys.block_index(p, k);
            let off = sys.zoff() + size_upto(sys.cones, k as nat);
            lemma_block_bounds(sys.cones, k);
            if !(cone is NonNeg) {
                lemma_position(sys.row_at(p) - off, o - off, cone.size() as int, cone.size() as int);
            }
            assert(cl[k]@.contains((q, i as usize)));
            let j = choose|j: int| 0 <= j < cl[k]@.len() && cl[k]@[j] == (q, i as usize);
            assert(cl[k]@[j].0 == p);
            assert forall|c: int, j: int|
                0 <= c < sys.cones.len() && 0 <= j < cl[c]@.len() && (#[trigger] cl[c]@[j]).0
                    == p implies c == k && cl[c]@[j].1 == i by {
                assert(cl[c]@.contains((cl[c]@[j].0, cl[c]@[j].1)));
                assert(in_block(sys.cones, c, r));
                assert(size_upto(sys.cones, c as nat) <= r);
                assert(size_upto(sys.cones, k as nat) <= r);
            }
            lemma_patch_cones(sys.cones, blocks, delta, b, cl, sys.cones.len(), p, k, i);
            if !(cone is NonNeg) {
                lemma_indexed_entry(cone, blocks[k]@, sys.row_at(p) - off, o - off, delta);
            }
        } else {
            assert forall|c: int, j: int|
                0 <= c < sys.cones.len() && 0 <= j < cl[c]@.len() && (#[trigger] cl[c]@[j]).0
                    == p implies c == -1 && cl[c]@[j].1 == 0 by {
                assert(cl[c]@.contains((cl[c]@[j].0, cl[c]@[j].1)));
            }
            lemma_patch_cones(sys.cones, blocks, delta, b, cl, sys.cones.len(), p, -1, 0);
        }
    }
}

proof fn lemma_patch_lengths<T: Scalar>(
    cache: SparseKktCache<T>,
    sys: Permuted<T>,
    prob: QpProblem<T>,
    blocks: Seq<Vec<T>>,
    rho: T,
    delta: T,
)
    requires
        cache.wf(sys.cones, sys.n),
    ensures
        ({
            let nz0 = cache.nzval_static@;
            let a = patch_x(prob, rho, nz0, cache.x_diag@, cache.x_diag@.len());
            let b = patch_y(delta, a, cache.y_diag@, cache.y_diag@.len());
            let u = patch_cones(sys.cones, blocks, delta, b, cache.cone_dyn@, sys.cones.len());
            a.len() == nz0.len() && b.len() == nz0.len() && u.len() == nz0.len()
        }),
{
    let nz0 = cache.nzval_static@;
    let a = patch_x(prob, rho, nz0, cache.x_diag@, cache.x_diag@.len());
    let b = patch_y(delta, a, cache.y_diag@, cache.y_diag@.len());
    lemma_x_len(prob, rho, nz0, cache.x_diag@, cache.x_diag@.len());
    lemma_y_len(delta, a, cache.y_diag@, cache.y_diag@.len());
    lemma_cones_len(sys.cones, blocks, delta, b, cache.cone_dyn@, sys.cones.len());
}

proof fn lemma_x_len<T: Scalar>(prob: QpProblem<T>, rho: T, nz: Seq<T>, list: Seq<(usize, usize)>, k: nat)
    requires
        k <= list.len(),
        forall|j: int| 0 <= j < k ==> (#[trigger] list[j]).0 < nz.len(),
    ensures
        patch_x(prob, rho, nz, list, k).len() == nz.len(),
    decreases k,
{
    if k > 0 {
        lemma_x_len(prob, rho, nz, list, (k - 1) as nat);
    }
}

proof fn lemma_y_len<T: Scalar>(delta: T, nz: Seq<T>, list: Seq<(usize, usize)>, k: nat)
    requires
        k <= list.len(),
        forall|j: int| 0 <= j < k ==> (#[trigger] list[j]).0 < nz.len(),
    ensures
        patch_y(delta, nz, list, k).len() == nz.len(),
    decreases k,
{
    if k > 0 {
        lemma_y_len(delta, nz, list, (k - 1) as nat);
    }
}

proof fn lemma_cone_len<T: Scalar>(
    cone: Cone,
    blk: Seq<T>,
    delta: T,
    nz: Seq<T>,
    list: Seq<(usize, usize)>,
    k: nat,
)
    requires
        k <= list.len(),
        forall|j: int| 0 <= j < k ==> (#[trigger] list[j]).0 < nz.len(),
    ensures
        patch_cone(cone, blk, delta, nz, list, k).len() == nz.len(),
    decreases k,
{
    if k > 0 {
        lemma_cone_len(cone, blk, delta, nz, list, (k - 1) as nat);
    }
}

proof fn lemma_cones_len<T: Scalar>(
    cones: Seq<Cone>,
    blocks: Seq<Vec<T>>,
    delta: T,
    nz: Seq<T>,
    lists: Seq<Vec<(usize, usize)>>,
    k: nat,
)
    requires
        k <= cones.len(),
        k <= lists.len(),
        forall|c: int, j: int|
            0 <= c < k && 0 <= j < lists[c]@.len() ==> (#[trigger] lists[c]@[j]).0 < nz.len(),
    ensures
        patch_cones(cones, blocks, delta, nz, lists, k).len() == nz.len(),
    decreases k,
{
    if k > 0 {
        lemma_cones_len(cones, blocks, delta, nz, lists, (k - 1) as nat);
        lemma_cone_len(
            cones[k - 1],
            blocks[k - 1]@,
            delta,
            patch_cones(cones, blocks, delta, nz, lists, (k - 1) as nat),
            lists[k - 1]@,
            lists[k - 1]@.len(),
        );
    }
}

/// The cone whose block holds slack entry `r`.
pub open spec fn cone_at(cones: Seq<Cone>, r: int) -> int {
    choose|k: int| 0 <= k < cones.len() && #[trigger] in_block(cones, k, r)
}

/// The entry of the conic augmented system in row `i` and column `j`, for `i` at most `j`.
pub open spec fn conic_value<T: Scalar>(
    prob: QpProblem<T>,
    cones: Seq<Cone>,
    blocks: Seq<Vec<T>>,
    rho: T,
    delta: T,
    i: int,
    j: int,
) -> T {
    let n = prob.n();
    let zoff = n + prob.me();
    if j < n {
        if i == j {
            prob.p.at(i, j).plus(rho)
        } else {
            prob.p.at(i, j)
        }
    } else if j < zoff {
        if i == j {
            delta.neg()
        } else if i < n {
            prob.a_eq.at(j - n, i)
        } else {
            T::zero()
        }
    } else if i < n {
        prob.a_in.at(j - zoff, i)
    } else if i < zoff {
        T::zero()
    } else {
        let k = cone_at(cones, j - zoff);
        let off = zoff + size_upto(cones, k as nat);
        if cones[k] is NonNeg {
            blocks[k]@[j - off].plus(delta).neg()
        } else {
            block_entry(blocks[k]@, cones[k].size(), i - off, j - off, delta)
        }
    }
}

/// The block of every curved cone is symmetric.
pub open spec fn blocks_symmetric<T>(cones: Seq<Cone>, blocks: Seq<Vec<T>>) -> bool {
    forall|k: int, a: int, b: int|
        0 <= k < cones.len() && !(cones[k] is NonNeg) && 0 <= a < cones[k].size() && 0 <= b
            < cones[k].size() ==> #[trigger] blocks[k]@[a * cones[k].size() + b] == blocks[k]@[b
            * cones[k].size() + a]
}

/// Every stored entry of the permuted system is the entry of the conic augmented system at the
/// original indices.
pub open spec fn permutes<T: Scalar>(
    sys: Permuted<T>,
    nz: Seq<T>,
    prob: QpProblem<T>,
    blocks: Seq<Vec<T>>,
    rho: T,
    delta: T,
) -> bool {
    forall|p: int|
        0 <= p < sys.nnz() ==> #[trigger] nz[p] == {
            let i = sys.row_at(p);
            let j = sys.col_at(p);
            if i <= j {
                conic_value(prob, sys.cones, blocks, rho, delta, i, j)
            } else {
                conic_value(prob, sys.cones, blocks, rho, delta, j, i)
            }
        }
}

/// A cache that was recorded from one permuted assembly reproduces, for any other regularization
/// and any other symmetric scaling blocks, the permuted fresh assembly entry by entry.
pub proof fn cached_update_is_fresh_assembly<T: Scalar>(
    cache: SparseKktCache<T>,
    sys: Permuted<T>,
    prob: QpProblem<T>,
    blocks0: Seq<Vec<T>>,
    rho0: T,
    delta0: T,
    blocks: Seq<Vec<T>>,
    rho: T,
    delta: T,
)
    requires
        sys.wf(),
        sys.n == prob.n(),
        sys.me == prob.me(),
        cache.describes(sys),
        permutes(sys, sys.kkt.nzval@, prob, blocks0, rho0, delta0),
        blocks_symmetric(sys.cones, blocks),
    ensures
        permutes(
            sys,
            cache.updated(prob, sys.cones, blocks, rho, delta),
            prob,
            blocks,
            rho,
            delta,
        ),
{
    let u = cache.updated(prob, sys.cones, blocks, rho, delta);
    cached_update_refreshes(cache, sys, prob, blocks, rho, delta);
    assert forall|p: int| 0 <= p < sys.nnz() implies #[trigger] u[p] == {
        let i = sys.row_at(p);
        let j = sys.col_at(p);
        if i <= j {
            conic_value(prob, sys.cones, blocks, rho, delta, i, j)
        } else {
            conic_value(prob, sys.cones, blocks, rho, delta, j, i)
        }
    } by {
        let i = sys.row_at(p);
        let j = sys.col_at(p);
        let own = owner(sys.kkt.colptr@, p);
        let row = sys.kkt.rowval@[p] as int;
        let zoff = sys.zoff();
        lemma_owner_exists(sys.kkt.colptr@, sys.nnz(), p);
        assert(sys.perm[own] < sys.kkt.n);
        assert(sys.kkt.rowval@[p] < sys.kkt.m);
        assert(sys.perm[row] < sys.kkt.n);
        assert((i == j) == (row == own)) by {
            if row < own {
                assert(sys.perm[row] != sys.perm[own]);
            }
            if own < row {
                assert(sys.perm[own] != sys.perm[row]);
            }
        }
        let v = sys.kkt.nzval@[p];
        if sys.is_z(p) {
            let r = j - zoff;
            blocks_tile(sys.cones, r as nat);
            let kk = choose|c: int|
                0 <= c < sys.cones.len() && #[trigger] size_upto(sys.cones, c as nat) <= r < size_upto(
                    sys.cones,
                    c as nat,
                ) + sys.cones[c].size();
            assert(in_block(sys.cones, kk, r));
            let k = cone_at(sys.cones, r);
            let cone = sys.cones[k];
            assert(in_block(sys.cones, k, i - zoff));
            let ki = cone_at(sys.cones, i - zoff);
            assert(in_block(sys.cones, ki, i - zoff));
            blocks_tile(sys.cones, (i - zoff) as nat);
            assert(size_upto(sys.cones, k as nat) <= i - zoff);
            assert(size_upto(sys.cones, ki as nat) <= i - zoff);
            assert(ki == k);
            let off = zoff + size_upto(sys.cones, k as nat);
            if !(cone is NonNeg) {
                assert(blocks[k]@[(i - off) * cone.size() + (j - off)] == blocks[k]@[(j - off)
                    * cone.size() + (i - off)]);
            }
        }
    }
}

/// Every entry of an assembled column is the entry of the system at its row and column.
pub proof fn assembled_entries<T: Scalar>(
    prob: QpProblem<T>,
    cones: Seq<Cone>,
    blocks: Seq<Vec<T>>,
    rho: T,
    delta: T,
    aeq_csr: Option<CscMatrix<T>>,
    ain_csr: Option<CscMatrix<T>>,
    p_diag: bool,
    j: int,
    e: int,
)
    requires
        conic_problem(prob, cones),
        aeq_csr matches Some(c) ==> is_row_form(c, prob.a_eq, prob.me(), prob.n()),
        ain_csr matches Some(c) ==> is_row_form(c, prob.a_in, prob.mi(), prob.n()),
        0 <= j < prob.n() + prob.me() + prob.mi(),
        0 <= e < conic_cols(prob, cones, blocks, rho, delta, aeq_csr, ain_csr, p_diag)[j].len(),
    ensures
        ({
            let (i, v) = conic_cols(prob, cones, blocks, rho, delta, aeq_csr, ain_csr, p_diag)[j][e];
            v == conic_value(prob, cones, blocks, rho, delta, i as int, j)
        }),
{
    let n = prob.n();
    let me = prob.me();
    let zoff = n + me;
    let cols = conic_cols(prob, cones, blocks, rho, delta, aeq_csr, ain_csr, p_diag);
    let zs = z_cols(ain_csr, prob.a_in, n, zoff, cones, blocks, delta, cones.len());
    lemma_z_cols_len(ain_csr, prob.a_in, n, zoff, cones, blocks, delta, cones.len());
    let (i, v) = cols[j][e];
    if j < n {
        assert(cols[j] == p_col(prob.p.data@, n, j, rho, p_diag));
        if !p_diag {
            lemma_nonzeros(raw_column(prob.p.data@, n, n, j), j as nat);
        }
        let col = raw_column(prob.p.data@, n, n, j);
        if e < cols[j].len() - 1 {
            let f = nonzeros(col, j as nat);
            assert(cols[j][e] == f[e]);
            assert(f[e].0 < j && f[e].1 == col[f[e].0 as int]);
        }
    } else if j < zoff {
        let r = j - n;
        let row = a_row(aeq_csr, prob.a_eq, r, n);
        assert(cols[j] == row.push((j as usize, delta.neg())));
        if aeq_csr is Some {
            sparse_and_dense_rows_agree(aeq_csr->0, prob.a_eq, me, n, r);
        }
        lemma_nonzeros(prob.a_eq.row(r), n);
        if e < row.len() {
            assert(cols[j][e] == row[e]);
            assert(row[e].1 == prob.a_eq.row(r)[row[e].0 as int]);
        }
    } else {
        let r = j - zoff;
        blocks_tile(cones, r as nat);
        let kk = choose|c: int|
            0 <= c < cones.len() && #[trigger] size_upto(cones, c as nat) <= r < size_upto(
                cones,
                c as nat,
            ) + cones[c].size();
        assert(in_block(cones, kk, r));
        let k = cone_at(cones, r);
        let off = size_upto(cones, k as nat);
        lemma_z_column(ain_csr, prob.a_in, n, zoff, cones, blocks, delta, cones.len(), k, r - off);
        let row = a_row(ain_csr, prob.a_in, r, n);
        let ze = z_entries(cones[k], zoff + off, r - off, blocks[k]@, delta);
        assert(cols[j] == zs[r]);
        assert(cols[j] == row + ze);
        lemma_block_bounds(cones, k);
        if ain_csr is Some {
            sparse_and_dense_rows_agree(ain_csr->0, prob.a_in, prob.mi(), n, r);
        }
        lemma_nonzeros(prob.a_in.row(r), n);
        if e < row.len() {
            assert(cols[j][e] == row[e]);
            assert(row[e].1 == prob.a_in.row(r)[row[e].0 as int]);
        } else {
            assert(cols[j][e] == ze[e - row.len()]);
        }
    }
}

proof fn lemma_z_column<T: Scalar>(
    csr: Option<CscMatrix<T>>,
    a_in: DenseMatrix<T>,
    n: nat,
    zoff: nat,
    cones: Seq<Cone>,
    blocks: Seq<Vec<T>>,
    delta: T,
    k: nat,
    c: int,
    l: int,
)
    requires
        0 <= c < k <= cones.len(),
        0 <= l < cones[c].size(),
    ensures
        z_cols(csr, a_in, n, zoff, cones, blocks, delta, k)[size_upto(cones, c as nat) + l]
            == cone_cols(csr, a_in, n, zoff, cones, blocks, delta, c)[l],
    decreases k,
{
    lemma_z_cols_len(csr, a_in, n, zoff, cones, blocks, delta, (k - 1) as nat);
    if c < k - 1 {
        lemma_z_column(csr, a_in, n, zoff, cones, blocks, delta, (k - 1) as nat, c, l);
        crate::cone::lemma_size_monotone(cones, (c + 1) as nat, (k - 1) as nat);
    }
}

} // verus!
