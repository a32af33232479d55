use crate::cone::{blocks_tile, cones_fit, lemma_block_bounds, offsets_of, size_upto, total_size, Cone};
use crate::conic_kkt::{block_entry, blocks_fit};
use crate::matrix::lemma_position;
use crate::problem::QpProblem;
use crate::scalar::Scalar;
use crate::sparse::{lemma_column_of, splits, CscMatrix};
use crate::vector::copied;
use vstd::prelude::*;

verus! {

/// The column that holds position `p`.
pub open spec fn owner(colptr: Seq<usize>, p: int) -> int {
    choose|c: int| 0 <= c < colptr.len() - 1 && colptr[c] <= p < #[trigger] colptr[c + 1]
}

/// The column that holds a position is the one whose range contains it.
pub proof fn lemma_owner(colptr: Seq<usize>, len: nat, c: int, p: int)
    requires
        splits(colptr, len),
        0 <= c < colptr.len() - 1,
        colptr[c] <= p < colptr[c + 1],
    ensures
        owner(colptr, p) == c,
{
    let o = owner(colptr, p);
    assert(colptr[c] <= p < colptr[c + 1]);
    if o < c {
        assert(colptr[o + 1] <= colptr[c]);
    }
    if c < o {
        assert(colptr[c + 1] <= colptr[o]);
    }
}

/// Every position has a column.
pub proof fn lemma_owner_exists(colptr: Seq<usize>, len: nat, p: int)
    requires
        splits(colptr, len),
        0 <= p < colptr[colptr.len() - 1],
    ensures
        0 <= owner(colptr, p) < colptr.len() - 1,
        colptr[owner(colptr, p)] <= p < colptr[owner(colptr, p) + 1],
{
    lemma_column_of(colptr, len, p);
}

/// Slack entry `r` belongs to the block of cone `k`.
pub open spec fn in_block(cones: Seq<Cone>, k: int, r: int) -> bool {
    size_upto(cones, k as nat) <= r < size_upto(cones, k as nat) + cones[k].size()
}

/// What remains of a vector's elements after one more is appended.
proof fn lemma_contains_push<A>(s: Seq<A>, e: A)
    ensures
        forall|x: A| #[trigger] s.push(e).contains(x) <==> s.contains(x) || x == e,
{
    assert forall|x: A| #[trigger] s.push(e).contains(x) <==> s.contains(x) || x == e by {
        if s.contains(x) {
            let i = choose|i: int| 0 <= i < s.len() && s[i] == x;
            assert(s.push(e)[i] == x);
        }
        if x == e {
            assert(s.push(e)[s.len() as int] == x);
        }
    }
}

/// A symmetric permutation of a conic system: column `c` of the permuted system holds the
/// unknown `perm[c]` of the original, where `n` unknowns come first, then `me` equality
/// multipliers, then the slack entries of the cones.
pub struct Permuted<T> {
    pub kkt: CscMatrix<T>,
    pub perm: Seq<usize>,
    pub cones: Seq<Cone>,
    pub n: nat,
    pub me: nat,
}

impl<T: Scalar> Permuted<T> {
    /// The original index of the column that holds position `p`.
    pub open spec fn col_at(self, p: int) -> int {
        self.perm[owner(self.kkt.colptr@, p)] as int
    }

    /// The original index of the row at position `p`.
    pub open spec fn row_at(self, p: int) -> int {
        self.perm[self.kkt.rowval@[p] as int] as int
    }

    /// The number of stored entries.
    pub open spec fn nnz(self) -> nat {
        self.kkt.rowval@.len()
    }

    /// Where the slack entries begin.
    pub open spec fn zoff(self) -> nat {
        self.n + self.me
    }

    /// The system is square over all the unknowns, the permutation is one, no row occurs twice in
    /// a column, and slack entries are coupled only within their cone, those of an orthant only
    /// to themselves.
    pub open spec fn wf(self) -> bool {
        &&& self.kkt.wf()
        &&& self.kkt.m == self.kkt.n
        &&& cones_fit(self.cones)
        &&& self.kkt.n == self.n + self.me + total_size(self.cones)
        &&& self.perm.len() == self.kkt.n
        &&& forall|c: int| 0 <= c < self.perm.len() ==> (#[trigger] self.perm[c]) < self.kkt.n
        &&& forall|a: int, b: int|
            0 <= a < b < self.perm.len() ==> #[trigger] self.perm[a] != #[trigger] self.perm[b]
        &&& forall|p: int, q: int|
            0 <= p < q < self.nnz() && owner(self.kkt.colptr@, p) == owner(self.kkt.colptr@, q)
                ==> #[trigger] self.kkt.rowval@[p] != #[trigger] self.kkt.rowval@[q]
        &&& forall|p: int, k: int|
            #![trigger self.kkt.rowval@[p], self.cones[k]]
            0 <= p < self.nnz() && 0 <= k < self.cones.len() && self.col_at(p) >= self.zoff()
                && self.row_at(p) >= self.zoff() && in_block(
                self.cones,
                k,
                self.col_at(p) - self.zoff(),
            ) ==> in_block(self.cones, k, self.row_at(p) - self.zoff()) && (self.cones[k] is NonNeg
                ==> self.row_at(p) == self.col_at(p))
        &&& forall|k: int|
            0 <= k < self.cones.len() && !(self.cones[k] is NonNeg) ==> (#[trigger] self.cones[k]).size()
                * self.cones[k].size() <= usize::MAX
    }

    /// Position `p` holds the diagonal of an unknown.
    pub open spec fn is_x(self, p: int) -> bool {
        self.col_at(p) < self.n && self.kkt.rowval@[p] == owner(self.kkt.colptr@, p)
    }

    /// Position `p` holds the diagonal of an equality multiplier.
    pub open spec fn is_y(self, p: int) -> bool {
        self.n <= self.col_at(p) < self.zoff() && self.kkt.rowval@[p] == owner(self.kkt.colptr@, p)
    }

    /// Position `p` couples two slack entries.
    pub open spec fn is_z(self, p: int) -> bool {
        self.col_at(p) >= self.zoff() && self.row_at(p) >= self.zoff()
    }

    /// The index of position `p` in the scaling block of cone `k`.
    pub open spec fn block_index(self, p: int, k: int) -> int {
        let off = self.zoff() + size_upto(self.cones, k as nat);
        if self.cones[k] is NonNeg {
            self.col_at(p) - off
        } else {
            (self.row_at(p) - off) * self.cones[k].size() + (self.col_at(p) - off)
        }
    }

    /// The entry at position `p` when `stored` stands there in the assembled system and the
    /// regularization and the scaling blocks are replaced.
    pub open spec fn refreshed(
        self,
        prob: QpProblem<T>,
        blocks: Seq<Vec<T>>,
        rho: T,
        delta: T,
        p: int,
    ) -> T {
        if self.is_x(p) {
            prob.p.at(self.col_at(p), self.col_at(p)).plus(rho)
        } else if self.is_y(p) {
            delta.neg()
        } else if self.is_z(p) {
            let k = choose|k: int|
                0 <= k < self.cones.len() && #[trigger] in_block(
                    self.cones,
                    k,
                    self.col_at(p) - self.zoff(),
                );
            let off = self.zoff() + size_upto(self.cones, k as nat);
            if self.cones[k] is NonNeg {
                blocks[k]@[self.col_at(p) - off].plus(delta).neg()
            } else {
                block_entry(
                    blocks[k]@,
                    self.cones[k].size(),
                    self.row_at(p) - off,
                    self.col_at(p) - off,
                    delta,
                )
            }
        } else {
            self.kkt.nzval@[p]
        }
    }
}

/// The pattern of a permuted conic system with the positions of the entries that change from one
/// iteration to the next.
pub struct SparseKktCache<T> {
    pub colptr: Vec<usize>,
    pub rowval: Vec<usize>,
    /// The entries that do not change; zero where they do.
    pub nzval_static: Vec<T>,
    /// Position and unknown of every diagonal entry of the unknowns.
    pub x_diag: Vec<(usize, usize)>,
    /// Position and equality row of every diagonal entry of the equality multipliers.
    pub y_diag: Vec<(usize, usize)>,
    /// For each cone, position and index in its scaling block of every entry of the block.
    pub cone_dyn: Vec<Vec<(usize, usize)>>,
    pub dim: usize,
}

/// The diagonal entries of the unknowns written over `nz`.
pub open spec fn patch_x<T: Scalar>(
    prob: QpProblem<T>,
    rho: T,
    nz: Seq<T>,
    list: Seq<(usize, usize)>,
    k: nat,
) -> Seq<T>
    decreases k,
{
    if k == 0 {
        nz
    } else {
        let (p, c) = list[k - 1];
        patch_x(prob, rho, nz, list, (k - 1) as nat).update(
            p as int,
            prob.p.at(c as int, c as int).plus(rho),
        )
    }
}

/// The diagonal entries of the equality multipliers written over `nz`.
pub open spec fn patch_y<T: Scalar>(delta: T, nz: Seq<T>, list: Seq<(usize, usize)>, k: nat) -> Seq<T>
    decreases k,
{
    if k == 0 {
        nz
    } else {
        patch_y(delta, nz, list, (k - 1) as nat).update(list[k - 1].0 as int, delta.neg())
    }
}

/// The entry of a cone's block at index `idx` of its scaling block.
pub open spec fn indexed_entry<T: Scalar>(cone: Cone, blk: Seq<T>, idx: int, delta: T) -> T {
    if cone is NonNeg || idx / (cone.size() as int) == idx % (cone.size() as int) {
        blk[idx].plus(delta).neg()
    } else {
        blk[idx].neg()
    }
}

/// The entries of one cone's block written over `nz`.
pub open spec fn patch_cone<T: Scalar>(
    cone: Cone,
    blk: Seq<T>,
    delta: T,
    nz: Seq<T>,
    list: Seq<(usize, usize)>,
    k: nat,
) -> Seq<T>
    decreases k,
{
    if k == 0 {
        nz
    } else {
        patch_cone(cone, blk, delta, nz, list, (k - 1) as nat).update(
            list[k - 1].0 as int,
            indexed_entry(cone, blk, list[k - 1].1 as int, delta),
        )
    }
}

/// The entries of the blocks of the first `k` cones written over `nz`.
pub open spec fn patch_cones<T: Scalar>(
    cones: Seq<Cone>,
    blocks: Seq<Vec<T>>,
    delta: T,
    nz: Seq<T>,
    lists: Seq<Vec<(usize, usize)>>,
    k: nat,
) -> Seq<T>
    decreases k,
{
    if k == 0 {
        nz
    } else {
        patch_cone(
            cones[k - 1],
            blocks[k - 1]@,
            delta,
            patch_cones(cones, blocks, delta, nz, lists, (k - 1) as nat),
            lists[k - 1]@,
            lists[k - 1]@.len(),
        )
    }
}

impl<T: Scalar> SparseKktCache<T> {
    /// Every recorded position exists, every recorded unknown is one of `n`, and every recorded
    /// block index lies in its block.
    pub open spec fn wf(self, cones: Seq<Cone>, n: nat) -> bool {
        let nnz = self.nzval_static@.len();
        &&& self.cone_dyn@.len() == cones.len()
        &&& forall|i: int|
            0 <= i < self.x_diag@.len() ==> (#[trigger] self.x_diag@[i]).0 < nnz && self.x_diag@[i].1 < n
        &&& forall|i: int| 0 <= i < self.y_diag@.len() ==> (#[trigger] self.y_diag@[i]).0 < nnz
        &&& forall|c: int, i: int|
            0 <= c < cones.len() && 0 <= i < self.cone_dyn@[c]@.len() ==> (
            #[trigger] self.cone_dyn@[c]@[i]).0 < nnz && self.cone_dyn@[c]@[i].1 < cones[c].block_len()
    }

    /// The lists hold exactly the changing positions of the system, each with its index.
    pub open spec fn describes(self, sys: Permuted<T>) -> bool {
        &&& self.colptr@ == sys.kkt.colptr@
        &&& self.rowval@ == sys.kkt.rowval@
        &&& self.dim == sys.kkt.n
        &&& self.wf(sys.cones, sys.n)
        &&& self.nzval_static@.len() == sys.nnz()
        &&& forall|p: int|
            0 <= p < sys.nnz() ==> #[trigger] self.nzval_static@[p] == (if sys.is_x(p) || sys.is_y(p)
                || sys.is_z(p) {
                T::zero()
            } else {
                sys.kkt.nzval@[p]
            })
        &&& forall|p: usize, i: usize|
            #[trigger] self.x_diag@.contains((p, i)) <==> p < sys.nnz() && sys.is_x(p as int) && i
                == sys.col_at(p as int)
        &&& forall|p: usize, i: usize|
            #[trigger] self.y_diag@.contains((p, i)) <==> p < sys.nnz() && sys.is_y(p as int) && i
                == sys.col_at(p as int) - sys.n
        &&& forall|k: int, p: usize, i: usize|
            0 <= k < sys.cones.len() ==> (#[trigger] self.cone_dyn@[k]@.contains((p, i)) <==> p
                < sys.nnz() && sys.is_z(p as int) && in_block(
                sys.cones,
                k,
                sys.col_at(p as int) - sys.zoff(),
            ) && i == sys.block_index(p as int, k))
    }

    /// The entries after the changing ones are written over the fixed ones.
    pub open spec fn updated(
        self,
        prob: QpProblem<T>,
        cones: Seq<Cone>,
        blocks: Seq<Vec<T>>,
        rho: T,
        delta: T,
    ) -> Seq<T> {
        let a = patch_x(prob, rho, self.nzval_static@, self.x_diag@, self.x_diag@.len());
        let b = patch_y(delta, a, self.y_diag@, self.y_diag@.len());
        patch_cones(cones, blocks, delta, b, self.cone_dyn@, cones.len())
    }

    /// Fresh values for the cached pattern: `P + rho I` on the diagonal of the unknowns,
    /// `-delta` on that of the equality multipliers, and the cones' blocks `-(H + delta I)`.
    pub fn update_nzval(
        &self,
        prob: &QpProblem<T>,
        cones: &[Cone],
        blocks: &[Vec<T>],
        rho: T,
        delta: T,
    ) -> (r: Vec<T>)
        requires
            prob.wf(),
            self.wf(cones@, prob.n()),
            cones_fit(cones@),
            blocks_fit(cones@, blocks@),
        ensures
            r@ == self.updated(*prob, cones@, blocks@, rho, delta),
            r@.len() == self.nzval_static@.len(),
    {
        let mut nzval = copied(&self.nzval_static);
        let nnz: usize = nzval.len();
        let mut i: usize = 0;
        while i < self.x_diag.len()
            invariant
                prob.wf(),
                self.wf(cones@, prob.n()),
                i <= self.x_diag@.len(),
                nzval@.len() == nnz == self.nzval_static@.len(),
                nzval@ == patch_x(*prob, rho, self.nzval_static@, self.x_diag@, i as nat),
            decreases self.x_diag@.len() - i,
        {
            let (p, c) = self.x_diag[i];
            assert(self.x_diag@[i as int].0 < nnz);
            nzval[p] = prob.p.get(c, c).plus(rho);
            i += 1;
        }
        let ghost after_x = nzval@;
        i = 0;
        while i < self.y_diag.len()
            invariant
                self.wf(cones@, prob.n()),
                i <= self.y_diag@.len(),
                nzval@.len() == nnz == self.nzval_static@.len(),
                nzval@ == patch_y(delta, after_x, self.y_diag@, i as nat),
            decreases self.y_diag@.len() - i,
        {
            let p: usize = self.y_diag[i].0;
            nzval[p] = delta.neg();
            i += 1;
        }
        let ghost after_y = nzval@;
        let mut c: usize = 0;
        while c < cones.len()
            invariant
                prob.wf(),
                self.wf(cones@, prob.n()),
                cones_fit(cones@),
                blocks_fit(cones@, blocks@),
                c <= cones@.len(),
                nzval@.len() == nnz == self.nzval_static@.len(),
                nzval@ == patch_cones(cones@, blocks@, delta, after_y, self.cone_dyn@, c as nat),
            decreases cones@.len() - c,
        {
            let cone: Cone = cones[c];
            let d: usize = cone.dim();
            let ghost before = nzval@;
            let list = &self.cone_dyn[c];
            let blk = &blocks[c];
            let mut k: usize = 0;
            while k < list.len()
                invariant
                    self.wf(cones@, prob.n()),
                    c < cones@.len(),
                    cone == cones@[c as int],
                    d == cone.size(),
                    *list == self.cone_dyn@[c as int],
                    blk@.len() == cone.block_len(),
                    k <= list@.len(),
                    nzval@.len() == nnz == self.nzval_static@.len(),
                    nzval@ == patch_cone(cone, blk@, delta, before, list@, k as nat),
                decreases list@.len() - k,
            {
                let (p, idx) = list[k];
                assert(self.cone_dyn@[c as int]@[k as int].0 < nnz);
                let h = blk[idx];
                let mut on_diagonal = true;
                if let Cone::NonNeg(_) = cone {
                } else {
                    assert(d > 0) by {
                        if d == 0 {
                            assert(d * d == 0) by (nonlinear_arith)
                                requires
                                    d == 0,
                            ;
                        }
                    }
                    on_diagonal = idx / d == idx % d;
                }
                nzval[p] = if on_diagonal {
                    h.plus(delta).neg()
                } else {
                    h.neg()
                };
                k += 1;
            }
            c += 1;
        }
        nzval
    }
}

/// The cone whose block holds slack entry `r`.
pub fn cone_of_row(cones: &[Cone], offsets: &[usize], r: usize) -> (k: usize)
    requires
        offsets_of(cones@, offsets@),
        r < total_size(cones@),
    ensures
        k < cones@.len(),
        in_block(cones@, k as int, r as int),
{
    let mut lo: usize = 0;
    let mut hi: usize = offsets.len();
    assert(hi > 0);
    assert(offsets@[0] == 0);
    while hi - lo > 1
        invariant
            offsets_of(cones@, offsets@),
            r < total_size(cones@),
            lo < hi <= cones@.len(),
            offsets@[lo as int] <= r,
            hi < cones@.len() ==> offsets@[hi as int] > r,
        decreases hi - lo,
    {
        let mid: usize = lo + (hi - lo) / 2;
        if offsets[mid] <= r {
            lo = mid;
        } else {
            hi = mid;
        }
    }
    proof {
        assert(offsets@[lo as int] == size_upto(cones@, lo as nat));
        if hi < cones@.len() {
            assert(offsets@[hi as int] == size_upto(cones@, hi as nat));
        }
    }
    lo
}

/// The lists hold the changing positions below `b`.
pub open spec fn recorded<T: Scalar>(
    sys: Permuted<T>,
    b: int,
    x: Seq<(usize, usize)>,
    y: Seq<(usize, usize)>,
    cd: Seq<Vec<(usize, usize)>>,
    fixed: Seq<T>,
) -> bool {
    &&& fixed.len() == sys.nnz()
    &&& cd.len() == sys.cones.len()
    &&& forall|p: int|
        0 <= p < sys.nnz() ==> #[trigger] fixed[p] == (if p < b && (sys.is_x(p) || sys.is_y(p)
            || sys.is_z(p)) {
            T::zero()
        } else {
            sys.kkt.nzval@[p]
        })
    &&& forall|p: usize, i: usize|
        #[trigger] x.contains((p, i)) <==> p < b && sys.is_x(p as int) && i == sys.col_at(p as int)
    &&& forall|p: usize, i: usize|
        #[trigger] y.contains((p, i)) <==> p < b && sys.is_y(p as int) && i == sys.col_at(p as int)
            - sys.n
    &&& forall|k: int, p: usize, i: usize|
        0 <= k < sys.cones.len() ==> (#[trigger] cd[k]@.contains((p, i)) <==> p < b && sys.is_z(
            p as int,
        ) && in_block(sys.cones, k, sys.col_at(p as int) - sys.zoff()) && i == sys.block_index(
            p as int,
            k,
        ))
}

/// The index of a coupled pair lies in the scaling block of its cone.
proof fn lemma_block_index<T: Scalar>(sys: Permuted<T>, p: int, k: int)
    requires
        sys.wf(),
        0 <= p < sys.nnz(),
        sys.is_z(p),
        0 <= k < sys.cones.len(),
        in_block(sys.cones, k, sys.col_at(p) - sys.zoff()),
    ensures
        0 <= sys.block_index(p, k) < sys.cones[k].block_len(),
        sys.block_index(p, k) <= usize::MAX,
        in_block(sys.cones, k, sys.row_at(p) - sys.zoff()),
        sys.cones[k] is NonNeg ==> sys.row_at(p) == sys.col_at(p),
{
    let r = sys.kkt.rowval@[p];
    let cone = sys.cones[k];
    let off = sys.zoff() + size_upto(sys.cones, k as nat);
    lemma_block_bounds(sys.cones, k);
    if !(cone is NonNeg) {
        lemma_position(
            sys.row_at(p) - off,
            sys.col_at(p) - off,
            cone.size() as int,
            cone.size() as int,
        );
        assert(sys.cones[k].size() * sys.cones[k].size() <= usize::MAX);
    }
}

impl<T: Scalar> SparseKktCache<T> {
    /// Records the pattern of the permuted system `kkt` and the positions of the entries that
    /// change. `perm[c]` is the original index of column `c`; every index that is recorded is an
    /// original one.
    pub fn from_assembly(
        kkt: &CscMatrix<T>,
        perm: &[usize],
        cones: &[Cone],
        offsets: &[usize],
        n: usize,
        me: usize,
    ) -> (r: SparseKktCache<T>)
        requires
            offsets_of(cones@, offsets@),
            (Permuted { kkt: *kkt, perm: perm@, cones: cones@, n: n as nat, me: me as nat }).wf(),
        ensures
            r.describes(
                (Permuted { kkt: *kkt, perm: perm@, cones: cones@, n: n as nat, me: me as nat }),
            ),
    {
        let ghost sys = Permuted {
            kkt: *kkt,
            perm: perm@,
            cones: cones@,
            n: n as nat,
            me: me as nat,
        };
        let dim: usize = kkt.n;
        let zoff: usize = n + me;
        let mut fixed = copied(&kkt.nzval);
        let mut x_diag: Vec<(usize, usize)> = Vec::new();
        let mut y_diag: Vec<(usize, usize)> = Vec::new();
        let mut cone_dyn: Vec<Vec<(usize, usize)>> = Vec::new();
        let mut i: usize = 0;
        while i < cones.len()
            invariant
                i <= cones@.len(),
                cone_dyn@.len() == i,
                forall|k: int| 0 <= k < i ==> (#[trigger] cone_dyn@[k])@.len() == 0,
            decreases cones@.len() - i,
        {
            cone_dyn.push(Vec::new());
            i += 1;
        }
        let mut c: usize = 0;
        while c < dim
            invariant
                sys == (Permuted {
                    kkt: *kkt,
                    perm: perm@,
                    cones: cones@,
                    n: n as nat,
                    me: me as nat,
                }),
                sys.wf(),
                offsets_of(cones@, offsets@),
                dim == kkt.n,
                zoff == n + me,
                c <= dim,
                recorded(sys, kkt.colptr@[c as int] as int, x_diag@, y_diag@, cone_dyn@, fixed@),
            decreases dim - c,
        {
            let o: usize = perm[c];
            let lo: usize = kkt.colptr[c];
            let hi: usize = kkt.colptr[c + 1];
            let mut k: usize = 0;
            let mut off: usize = 0;
            let mut d: usize = 0;
            if o >= zoff {
                k = cone_of_row(cones, offsets, o - zoff);
                off = zoff + offsets[k];
                d = cones[k].dim();
            }
            proof {
                assert(kkt.colptr@[c as int] <= kkt.colptr@[c + 1]);
                assert(kkt.colptr@[c + 1] <= kkt.colptr@[kkt.n as int]);
            }
            let mut p: usize = lo;
            while p < hi
                invariant
                    sys == (Permuted {
                        kkt: *kkt,
                        perm: perm@,
                        cones: cones@,
                        n: n as nat,
                        me: me as nat,
                    }),
                    sys.wf(),
                    offsets_of(cones@, offsets@),
                    zoff == n + me,
                    c < kkt.n,
                    o == perm@[c as int],
                    lo == kkt.colptr@[c as int],
                    hi == kkt.colptr@[c + 1],
                    lo <= p <= hi <= kkt.rowval@.len(),
                    o >= zoff ==> k < cones@.len() && in_block(cones@, k as int, o - zoff) && off
                        == zoff + size_upto(cones@, k as nat) && d == cones@[k as int].size(),
                    recorded(sys, p as int, x_diag@, y_diag@, cone_dyn@, fixed@),
                decreases hi - p,
            {
                proof {
                    lemma_owner(kkt.colptr@, kkt.rowval@.len(), c as int, p as int);
                    assert(sys.col_at(p as int) == o);
                }
                let row: usize = kkt.rowval[p];
                if o < n {
                    if row == c {
                        proof {
                            lemma_contains_push(x_diag@, (p, o));
                        }
                        x_diag.push((p, o));
                        fixed[p] = T::zero();
                    }
                } else if o < zoff {
                    if row == c {
                        proof {
                            lemma_contains_push(y_diag@, (p, (o - n) as usize));
                        }
                        y_diag.push((p, o - n));
                        fixed[p] = T::zero();
                    }
                } else {
                    let orow: usize = perm[row];
                    if orow >= zoff {
                        proof {
                            lemma_block_index(sys, p as int, k as int);
                        }
                        let mut idx: usize = o - off;
                        if let Cone::NonNeg(_) = cones[k] {
                        } else {
                            proof {
                                lemma_position(orow - off, o - off, d as int, d as int);
                            }
                            idx = (orow - off) * d + (o - off);
                        }
                        let ghost before = cone_dyn@;
                        proof {
                            lemma_contains_push(cone_dyn@[k as int]@, (p, idx));
                        }
                        cone_dyn[k].push((p, idx));
                        fixed[p] = T::zero();
                        proof {
                            assert forall|j: int, q: usize, e: usize|
                                0 <= j < sys.cones.len() implies (#[trigger] cone_dyn@[j]@.contains(
                                (q, e),
                            ) <==> q < p + 1 && sys.is_z(q as int) && in_block(
                                sys.cones,
                                j,
                                sys.col_at(q as int) - sys.zoff(),
                            ) && e == sys.block_index(q as int, j)) by {
                                assert(before[j]@.contains((q, e)) <==> q < p && sys.is_z(q as int)
                                    && in_block(
                                    sys.cones,
                                    j,
                                    sys.col_at(q as int) - sys.zoff(),
                                ) && e == sys.block_index(q as int, j));
                                if j == k {
                                    assert(cone_dyn@[j]@ == before[j]@.push((p, idx)));
                                } else {
                                    assert(cone_dyn@[j]@ == before[j]@);
                                    if q == p && in_block(sys.cones, j, o - zoff) {
                                        blocks_tile(sys.cones, (o - zoff) as nat);
                                    }
                                }
                            }
                        }
                    }
                }
                proof {
                    assert(recorded(sys, p + 1, x_diag@, y_diag@, cone_dyn@, fixed@));
                }
                p += 1;
            }
            c += 1;
        }
        let r = SparseKktCache {
            colptr: copied(&kkt.colptr),
            rowval: copied(&kkt.rowval),
            nzval_static: fixed,
            x_diag,
            y_diag,
            cone_dyn,
            dim,
        };
        proof {
            assert forall|i: int| 0 <= i < r.x_diag@.len() implies (#[trigger] r.x_diag@[i]).0
                < sys.nnz() && r.x_diag@[i].1 < n by {
                assert(r.x_diag@.contains((r.x_diag@[i].0, r.x_diag@[i].1)));
            }
            assert forall|i: int| 0 <= i < r.y_diag@.len() implies (#[trigger] r.y_diag@[i]).0
                < sys.nnz() by {
                assert(r.y_diag@.contains((r.y_diag@[i].0, r.y_diag@[i].1)));
            }
            assert forall|k: int, i: int|
                0 <= k < cones@.len() && 0 <= i < r.cone_dyn@[k]@.len() implies (
            #[trigger] r.cone_dyn@[k]@[i]).0 < sys.nnz() && r.cone_dyn@[k]@[i].1
                < cones@[k].block_len() by {
                let e = r.cone_dyn@[k]@[i];
                assert(r.cone_dyn@[k]@.contains((e.0, e.1)));
                lemma_block_index(sys, e.0 as int, k);
            }
        }
        r
    }
}

} // verus!
