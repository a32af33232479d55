//! The sparse systems of the quadratic engine: their patterns, and the entries that change from one
//! iteration to the next.
use crate::kkt::{
    assemble_augmented_kkt, assemble_augmented_kkt_from_csr, assemble_augmented_kkt_from_csr_with_fold,
    augmented_cols, csr_cols, push_stored_column,
};
use crate::matrix::DenseMatrix;
use crate::problem::QpProblem;
use crate::qp_matrices::rows_fit;
use crate::range_space::{find_pos, find_position, lemma_find};
use crate::scalar::Scalar;
use crate::sparse::{lemma_nonzeros, nonzeros, Columns, CscMatrix};
use crate::vector::{copied, filled};
use vstd::prelude::*;

verus! {

/// The rows `kept` of a matrix in sparse row form, renumbered in that order.
pub fn select_rows<T: Scalar>(csr: &CscMatrix<T>, kept: &[usize]) -> (r: CscMatrix<T>)
    requires
        csr.wf(),
        forall|k: int| 0 <= k < kept@.len() ==> (#[trigger] kept@[k]) < csr.n,
    ensures
        r.wf(),
        r.m == csr.m,
        r.n == kept@.len(),
        r.cols() == Seq::new(kept@.len(), |k: int| csr.col(kept@[k] as int)),
{
    let ghost all = Seq::new(kept@.len(), |k: int| csr.col(kept@[k] as int));
    let mut out: Columns<T> = Columns::new();
    let mut k: usize = 0;
    while k < kept.len()
        invariant
            csr.wf(),
            forall|k: int| 0 <= k < kept@.len() ==> (#[trigger] kept@[k]) < csr.n,
            all == Seq::new(kept@.len(), |k: int| csr.col(kept@[k] as int)),
            k <= kept@.len(),
            out.wf(),
            out.open_col() == Seq::<(usize, T)>::empty(),
            out.closed() =~= all.subrange(0, k as int),
        decreases kept@.len() - k,
    {
        push_stored_column(csr, kept[k], &mut out);
        assert(out.open_col() =~= all[k as int]);
        out.close();
        k += 1;
    }
    proof {
        assert(out.closed() =~= all);
        assert forall|c: int, i: int|
            0 <= c < out.closed().len() && 0 <= i < out.closed()[c].len() implies (
        #[trigger] out.closed()[c][i]).0 < csr.m by {
            assert(kept@[c] < csr.n);
            let r = kept@[c] as int;
            assert(csr.colptr@[r] <= csr.colptr@[r + 1]);
            assert(csr.colptr@[r + 1] <= csr.colptr@[csr.n as int]);
            assert(csr.rowval@[csr.colptr@[r] + i] < csr.m);
        }
    }
    out.finish(csr.m)
}

/// What the first `k` bound rows in column `c` add to the diagonal once they are eliminated. A row
/// whose pivot is not positive adds nothing.
pub open spec fn unit_fold<T: Scalar>(
    units: Seq<(usize, usize, T)>,
    dz: Seq<T>,
    delta: T,
    c: int,
    k: nat,
) -> T
    decreases k,
{
    if k == 0 {
        T::zero()
    } else {
        let front = unit_fold(units, dz, delta, c, (k - 1) as nat);
        let (r, col, v) = units[k - 1];
        let d = dz[r as int].plus(delta);
        if col == c && T::zero().below(d) {
            front.plus(v.times(v).over(d))
        } else {
            front
        }
    }
}

/// What the bound rows add to each diagonal entry once they are eliminated.
pub open spec fn unit_folds<T: Scalar>(units: Seq<(usize, usize, T)>, dz: Seq<T>, delta: T, n: nat) -> Seq<T> {
    Seq::new(n, |c: int| unit_fold(units, dz, delta, c, units.len()))
}

/// What the bound rows add to each diagonal entry once they are eliminated.
pub fn fold_units<T: Scalar>(units: &[(usize, usize, T)], dz: &[T], delta: T, n: usize) -> (fold: Vec<T>)
    requires
        forall|i: int| 0 <= i < units@.len() ==> (#[trigger] units@[i]).0 < dz@.len() && units@[i].1 < n,
    ensures
        fold@ == unit_folds(units@, dz@, delta, n as nat),
{
    let mut fold: Vec<T> = filled(T::zero(), n);
    let mut k: usize = 0;
    while k < units.len()
        invariant
            forall|i: int|
                0 <= i < units@.len() ==> (#[trigger] units@[i]).0 < dz@.len() && units@[i].1 < n,
            k <= units@.len(),
            fold@.len() == n,
            forall|c: int| 0 <= c < n ==> #[trigger] fold@[c] == unit_fold(units@, dz@, delta, c, k as nat),
        decreases units@.len() - k,
    {
        let (r, c, v) = units[k];
        assert(units@[k as int].0 < dz@.len() && units@[k as int].1 < n);
        let d = dz[r].plus(delta);
        if T::zero().below(d) {
            let t = fold[c].plus(v.times(v).over(d));
            fold[c] = t;
        }
        k += 1;
    }
    assert(fold@ =~= unit_folds(units@, dz@, delta, n as nat));
    fold
}

/// The first augmented system of a sparse solve: from the sparse rows where there are any, with
/// the bound rows eliminated where `general` names the rows that stay.
pub fn first_augmented<T: Scalar>(
    prob: &QpProblem<T>,
    rows: Option<&CscMatrix<T>>,
    general: Option<&CscMatrix<T>>,
    units: &[(usize, usize, T)],
    rho: T,
    delta: T,
    dz: &[T],
) -> (r: CscMatrix<T>)
    requires
        prob.wf(),
        dz@.len() == prob.mi(),
        rows_fit(*prob, units@, Seq::empty()),
        rows matches Some(c) ==> c.wf() && c.m == prob.n() && c.n == prob.mi(),
        general matches Some(c) ==> c.wf() && c.m == prob.n() && c.n <= prob.mi() && (prob.n() == 0 ==> c.n
            == prob.mi()),
    ensures
        r.wf(),
        r.n == r.m,
        match (general, rows) {
            (Some(g), _) => r.m == prob.n() + prob.me() + g.n && r.cols() == csr_cols(
                *prob,
                *g,
                rho,
                delta,
                dz@,
                unit_folds(units@, dz@, delta, prob.n()),
            ),
            (None, Some(c)) => r.m == prob.n() + prob.me() + prob.mi() && r.cols() == csr_cols(
                *prob,
                *c,
                rho,
                delta,
                dz@,
                Seq::empty(),
            ),
            (None, None) => r.m == prob.n() + prob.me() + prob.mi() && r.cols() == augmented_cols(
                prob.p.data@,
                prob.n(),
                prob.a_eq.data@,
                prob.me(),
                prob.a_in.data@,
                prob.mi(),
                rho,
                delta,
                dz@,
            ),
        },
{
    match general {
        Some(g) => {
            assert forall|i: int| 0 <= i < units@.len() implies (#[trigger] units@[i]).0 < dz@.len()
                && units@[i].1 < prob.n() by {}
            let fold = fold_units(units, dz, delta, prob.q.len());
            assemble_augmented_kkt_from_csr_with_fold(prob, g, rho, delta, dz, &fold)
        },
        None => match rows {
            Some(c) => assemble_augmented_kkt_from_csr(prob, c, rho, delta, dz),
            None => assemble_augmented_kkt(prob, rho, delta, dz),
        },
    }
}


/// The column of index `i` in the permuted system stores its diagonal entry.
pub open spec fn stores_diagonal<T: Scalar>(s: CscMatrix<T>, pinv: Seq<usize>, i: int) -> bool {
    find_pos(s, pinv[i] as int, pinv[i] as int) is Some
}

/// Where the permuted system stores the diagonal entry of index `i`.
pub open spec fn diagonal_at<T: Scalar>(s: CscMatrix<T>, pinv: Seq<usize>, i: int) -> usize {
    find_pos(s, pinv[i] as int, pinv[i] as int)->0 as usize
}

/// The indices are told apart by their permuted places, all of them within the system.
pub open spec fn injects(pinv: Seq<usize>, n: nat) -> bool {
    &&& forall|i: int| 0 <= i < pinv.len() ==> (#[trigger] pinv[i]) < n
    &&& forall|i: int, j: int| 0 <= i < j < pinv.len() ==> #[trigger] pinv[i] != #[trigger] pinv[j]
}

/// Where the permuted system stores the diagonal entries of `count` indices from `base` on; none
/// where one of them is not stored.
pub fn diagonal_positions<T: Scalar>(s: &CscMatrix<T>, pinv: &[usize], base: usize, count: usize) -> (r: Option<
    Vec<usize>,
>)
    requires
        s.wf(),
        base + count <= pinv@.len(),
        forall|i: int| 0 <= i < pinv@.len() ==> (#[trigger] pinv@[i]) < s.n,
    ensures
        r is Some == forall|i: int|
            base <= i < base + count ==> #[trigger] stores_diagonal(*s, pinv@, i),
        r matches Some(pos) ==> pos@ == Seq::new(
            count as nat,
            |k: int| diagonal_at(*s, pinv@, base + k),
        ) && forall|k: int| 0 <= k < count ==> (#[trigger] pos@[k]) < s.rowval@.len(),
{
    let mut pos: Vec<usize> = Vec::with_capacity(count);
    let mut k: usize = 0;
    while k < count
        invariant
            s.wf(),
            base + count <= pinv@.len(),
            pinv@.len() == pinv.len(),
            forall|i: int| 0 <= i < pinv@.len() ==> (#[trigger] pinv@[i]) < s.n,
            k <= count,
            pos@ =~= Seq::new(k as nat, |j: int| diagonal_at(*s, pinv@, base + j)),
            forall|i: int| base <= i < base + k ==> #[trigger] stores_diagonal(*s, pinv@, i),
            forall|j: int| 0 <= j < k ==> (#[trigger] pos@[j]) < s.rowval@.len(),
        decreases count - k,
    {
        let c: usize = pinv[base + k];
        match find_position(s, c, c) {
            Some(p) => {
                assert(stores_diagonal(*s, pinv@, base + k));
                pos.push(p);
            },
            None => {
                assert(!stores_diagonal(*s, pinv@, base + k));
                return None;
            },
        }
        k += 1;
    }
    Some(pos)
}

/// The augmented system of a sparse solve between iterations: where its diagonals stand, and the
/// values that do not change, with the Hessian's diagonal and `-delta` in place of the diagonals.
pub struct AugmentedCache<T> {
    pub x_dpos: Vec<usize>,
    pub z_dpos: Vec<usize>,
    pub fixed: Vec<T>,
}

/// The positions of the diagonals are apart from each other and within the values.
pub open spec fn positions_apart(x_dpos: Seq<usize>, z_dpos: Seq<usize>, len: nat) -> bool {
    &&& forall|i: int| 0 <= i < x_dpos.len() ==> (#[trigger] x_dpos[i]) < len
    &&& forall|r: int| 0 <= r < z_dpos.len() ==> (#[trigger] z_dpos[r]) < len
    &&& forall|i: int, j: int| 0 <= i < j < x_dpos.len() ==> #[trigger] x_dpos[i] != #[trigger] x_dpos[j]
    &&& forall|i: int, j: int| 0 <= i < j < z_dpos.len() ==> #[trigger] z_dpos[i] != #[trigger] z_dpos[j]
    &&& forall|i: int, r: int|
        0 <= i < x_dpos.len() && 0 <= r < z_dpos.len() ==> #[trigger] x_dpos[i] != #[trigger] z_dpos[r]
}

/// The position is none of the diagonals'.
pub open spec fn off_diagonal(x_dpos: Seq<usize>, z_dpos: Seq<usize>, p: int) -> bool {
    &&& forall|i: int| 0 <= i < x_dpos.len() ==> #[trigger] x_dpos[i] != p
    &&& forall|r: int| 0 <= r < z_dpos.len() ==> #[trigger] z_dpos[r] != p
}

impl<T: Scalar> AugmentedCache<T> {
    /// The positions are apart from each other and within the values.
    pub open spec fn wf(self) -> bool {
        positions_apart(self.x_dpos@, self.z_dpos@, self.fixed@.len())
    }

    /// The cache is that of the permuted system `s` with `rows` inequality rows: the Hessian's
    /// diagonal, `-delta` and, elsewhere, the entries of `s`.
    pub open spec fn is_of(
        self,
        prob: QpProblem<T>,
        s: CscMatrix<T>,
        pinv: Seq<usize>,
        rows: nat,
        delta: T,
    ) -> bool {
        let n = prob.n();
        &&& self.x_dpos@ == Seq::new(n, |i: int| diagonal_at(s, pinv, i))
        &&& self.z_dpos@ == Seq::new(rows, |r: int| diagonal_at(s, pinv, n + prob.me() + r))
        &&& self.fixed@.len() == s.nzval@.len()
        &&& forall|i: int| 0 <= i < n ==> self.fixed@[#[trigger] self.x_dpos@[i] as int] == prob.p.at(i, i)
        &&& forall|r: int| 0 <= r < rows ==> self.fixed@[#[trigger] self.z_dpos@[r] as int] == delta.neg()
        &&& forall|p: int|
            0 <= p < self.fixed@.len() && off_diagonal(self.x_dpos@, self.z_dpos@, p)
                ==> #[trigger] self.fixed@[p] == s.nzval@[p]
    }

    /// The cache of a permuted system with `rows` inequality rows; none where the system does not
    /// store one of the diagonals.
    pub fn from_permuted(
        prob: &QpProblem<T>,
        s: &CscMatrix<T>,
        pinv: &[usize],
        rows: usize,
        delta: T,
    ) -> (r: Option<AugmentedCache<T>>)
        requires
            prob.wf(),
            s.wf(),
            pinv@.len() == prob.n() + prob.me() + rows,
            injects(pinv@, s.n as nat),
        ensures
            r is Some == ((forall|i: int|
                0 <= i < prob.n() ==> #[trigger] stores_diagonal(*s, pinv@, i)) && (forall|i: int|
                prob.n() + prob.me() <= i < pinv@.len() ==> #[trigger] stores_diagonal(*s, pinv@, i))),
            r matches Some(c) ==> c.wf() && c.is_of(*prob, *s, pinv@, rows as nat, delta),
    {
        let n: usize = prob.q.len();
        let me: usize = prob.b_eq.len();
        let len: usize = pinv.len();
        let x_dpos = match diagonal_positions(s, pinv, 0, n) {
            Some(p) => p,
            None => {
                return None;
            },
        };
        let z_dpos = match diagonal_positions(s, pinv, n + me, rows) {
            Some(p) => p,
            None => {
                return None;
            },
        };
        proof {
            assert(x_dpos@ =~= Seq::new(n as nat, |i: int| diagonal_at(*s, pinv@, i)));
            lemma_apart(*s, pinv@, n as nat, me as nat, rows as nat, x_dpos@, z_dpos@);
        }
        let mut fixed: Vec<T> = copied(&s.nzval);
        let mut i: usize = 0;
        while i < n
            invariant
                prob.wf(),
                n == prob.n(),
                x_dpos@.len() == n,
                positions_apart(x_dpos@, z_dpos@, s.nzval@.len()),
                i <= n,
                fixed@.len() == s.nzval@.len(),
                forall|j: int| 0 <= j < i ==> fixed@[#[trigger] x_dpos@[j] as int] == prob.p.at(j, j),
                forall|p: int|
                    0 <= p < fixed@.len() && off_diagonal(x_dpos@, z_dpos@, p) ==> #[trigger] fixed@[p]
                        == s.nzval@[p],
            decreases n - i,
        {
            let at: usize = x_dpos[i];
            fixed[at] = prob.p.get(i, i);
            i += 1;
        }
        let mut r: usize = 0;
        while r < rows
            invariant
                n == prob.n(),
                x_dpos@.len() == n,
                z_dpos@.len() == rows,
                positions_apart(x_dpos@, z_dpos@, s.nzval@.len()),
                r <= rows,
                fixed@.len() == s.nzval@.len(),
                forall|j: int| 0 <= j < n ==> fixed@[#[trigger] x_dpos@[j] as int] == prob.p.at(j, j),
                forall|j: int| 0 <= j < r ==> fixed@[#[trigger] z_dpos@[j] as int] == delta.neg(),
                forall|p: int|
                    0 <= p < fixed@.len() && off_diagonal(x_dpos@, z_dpos@, p) ==> #[trigger] fixed@[p]
                        == s.nzval@[p],
            decreases rows - r,
        {
            let at: usize = z_dpos[r];
            fixed[at] = delta.neg();
            r += 1;
        }
        Some(AugmentedCache { x_dpos, z_dpos, fixed })
    }

    /// The values of one iteration: the regularization and the eliminated bound rows on the
    /// diagonal of the unknowns, the slack ratios on the diagonal of the inequality rows, and
    /// everything else as it was.
    pub open spec fn refilled(self, lift: T, fold: Seq<T>, dz: Seq<T>, nz: Seq<T>) -> bool {
        &&& nz.len() == self.fixed@.len()
        &&& forall|i: int|
            0 <= i < self.x_dpos@.len() ==> nz[#[trigger] self.x_dpos@[i] as int]
                == self.fixed@[self.x_dpos@[i] as int].plus(
                if fold.len() == 0 {
                    lift
                } else {
                    lift.plus(fold[i])
                },
            )
        &&& forall|r: int|
            0 <= r < self.z_dpos@.len() ==> nz[#[trigger] self.z_dpos@[r] as int]
                == self.fixed@[self.z_dpos@[r] as int].minus(
                dz[r],
            )
        &&& forall|p: int|
            0 <= p < nz.len() && off_diagonal(self.x_dpos@, self.z_dpos@, p) ==> #[trigger] nz[p]
                == self.fixed@[p]
    }

    /// The values of one iteration. `fold` is empty where no bound row is eliminated; `dz` holds the
    /// slack ratios of the rows that stay.
    pub fn refill(&self, lift: T, fold: &[T], dz: &[T]) -> (nz: Vec<T>)
        requires
            self.wf(),
            fold@.len() == 0 || fold@.len() == self.x_dpos@.len(),
            dz@.len() == self.z_dpos@.len(),
        ensures
            self.refilled(lift, fold@, dz@, nz@),
    {
        let mut nz: Vec<T> = copied(&self.fixed);
        let folds: bool = fold.len() > 0;
        let mut i: usize = 0;
        while i < self.x_dpos.len()
            invariant
                self.wf(),
                folds == (fold@.len() > 0),
                fold@.len() == 0 || fold@.len() == self.x_dpos@.len(),
                i <= self.x_dpos@.len(),
                nz@.len() == self.fixed@.len(),
                forall|j: int|
                    0 <= j < i ==> nz@[#[trigger] self.x_dpos@[j] as int] == self.fixed@[self.x_dpos@[j] as int].plus(
                        if fold@.len() == 0 {
                            lift
                        } else {
                            lift.plus(fold@[j])
                        },
                    ),
                forall|j: int|
                    i <= j < self.x_dpos@.len() ==> nz@[#[trigger] self.x_dpos@[j] as int]
                        == self.fixed@[self.x_dpos@[j] as int],
                forall|j: int|
                    0 <= j < self.z_dpos@.len() ==> nz@[#[trigger] self.z_dpos@[j] as int]
                        == self.fixed@[self.z_dpos@[j] as int],
                forall|p: int|
                    0 <= p < nz@.len() && off_diagonal(self.x_dpos@, self.z_dpos@, p) ==> #[trigger] nz@[p]
                        == self.fixed@[p],
            decreases self.x_dpos@.len() - i,
        {
            let at: usize = self.x_dpos[i];
            let add = if folds {
                lift.plus(fold[i])
            } else {
                lift
            };
            let v = nz[at].plus(add);
            nz[at] = v;
            i += 1;
        }
        let mut r: usize = 0;
        while r < self.z_dpos.len()
            invariant
                self.wf(),
                dz@.len() == self.z_dpos@.len(),
                r <= self.z_dpos@.len(),
                nz@.len() == self.fixed@.len(),
                forall|j: int|
                    0 <= j < self.x_dpos@.len() ==> nz@[#[trigger] self.x_dpos@[j] as int]
                        == self.fixed@[self.x_dpos@[j] as int].plus(
                        if fold@.len() == 0 {
                            lift
                        } else {
                            lift.plus(fold@[j])
                        },
                    ),
                forall|j: int|
                    0 <= j < r ==> nz@[#[trigger] self.z_dpos@[j] as int] == self.fixed@[self.z_dpos@[j] as int].minus(
                        dz@[j],
                    ),
                forall|j: int|
                    r <= j < self.z_dpos@.len() ==> nz@[#[trigger] self.z_dpos@[j] as int]
                        == self.fixed@[self.z_dpos@[j] as int],
                forall|p: int|
                    0 <= p < nz@.len() && off_diagonal(self.x_dpos@, self.z_dpos@, p) ==> #[trigger] nz@[p]
                        == self.fixed@[p],
            decreases self.z_dpos@.len() - r,
        {
            let at: usize = self.z_dpos[r];
            let v = nz[at].minus(dz[r]);
            nz[at] = v;
            r += 1;
        }
        nz
    }
}

proof fn lemma_apart<T: Scalar>(
    s: CscMatrix<T>,
    pinv: Seq<usize>,
    n: nat,
    me: nat,
    rows: nat,
    x_dpos: Seq<usize>,
    z_dpos: Seq<usize>,
)
    requires
        s.wf(),
        pinv.len() == n + me + rows,
        injects(pinv, s.n as nat),
        forall|i: int| 0 <= i < n ==> #[trigger] stores_diagonal(s, pinv, i),
        forall|i: int| n + me <= i < n + me + rows ==> #[trigger] stores_diagonal(s, pinv, i),
        x_dpos == Seq::new(n, |i: int| diagonal_at(s, pinv, i)),
        z_dpos == Seq::new(rows, |r: int| diagonal_at(s, pinv, n + me + r)),
    ensures
        positions_apart(x_dpos, z_dpos, s.nzval@.len()),
{
    assert forall|i: int| 0 <= i < n implies (#[trigger] x_dpos[i]) < s.nzval@.len() && s.rowval@[x_dpos[i] as int]
        == pinv[i] by {
        assert(stores_diagonal(s, pinv, i));
        assert(pinv[i] < s.n);
        lemma_find(s, pinv[i] as int, pinv[i] as int, s.colptr@[pinv[i] as int] as int);
    }
    assert forall|r: int| 0 <= r < rows implies (#[trigger] z_dpos[r]) < s.nzval@.len() && s.rowval@[z_dpos[r] as int]
        == pinv[n + me + r] by {
        let i = n + me + r;
        assert(stores_diagonal(s, pinv, i));
        assert(pinv[i] < s.n);
        lemma_find(s, pinv[i] as int, pinv[i] as int, s.colptr@[pinv[i] as int] as int);
    }
    assert forall|i: int, j: int| 0 <= i < j < x_dpos.len() implies #[trigger] x_dpos[i]
        != #[trigger] x_dpos[j] by {
        assert(pinv[i] != pinv[j]);
    }
    assert forall|i: int, j: int| 0 <= i < j < z_dpos.len() implies #[trigger] z_dpos[i]
        != #[trigger] z_dpos[j] by {
        assert(pinv[n + me + i] != pinv[n + me + j]);
    }
    assert forall|i: int, r: int|
        0 <= i < x_dpos.len() && 0 <= r < z_dpos.len() implies #[trigger] x_dpos[i]
        != #[trigger] z_dpos[r] by {
        assert(pinv[i] != pinv[n + me + r]);
    }
}

/// After a refill the diagonal of the unknowns holds the Hessian's diagonal plus the
/// regularization, the diagonal of the inequality rows `-delta` less the slack ratio, whatever the
/// iterations before wrote.
pub proof fn refill_depends_on_this_iteration_alone<T: Scalar>(
    prob: QpProblem<T>,
    s: CscMatrix<T>,
    pinv: Seq<usize>,
    rows: nat,
    delta: T,
    cache: AugmentedCache<T>,
    lift: T,
    dz: Seq<T>,
    nz: Seq<T>,
)
    requires
        cache.is_of(prob, s, pinv, rows, delta),
        cache.refilled(lift, Seq::empty(), dz, nz),
    ensures
        forall|i: int|
            0 <= i < prob.n() ==> #[trigger] nz[diagonal_at(s, pinv, i) as int] == prob.p.at(i, i).plus(lift),
        forall|r: int|
            0 <= r < rows ==> nz[#[trigger] diagonal_at(s, pinv, prob.n() + prob.me() + r) as int]
                == delta.neg().minus(dz[r]),
{
    assert forall|i: int| 0 <= i < prob.n() implies #[trigger] nz[diagonal_at(s, pinv, i) as int]
        == prob.p.at(i, i).plus(lift) by {
        assert(cache.x_dpos@[i] == diagonal_at(s, pinv, i));
    }
    assert forall|r: int| 0 <= r < rows implies nz[#[trigger] diagonal_at(
        s,
        pinv,
        prob.n() + prob.me() + r,
    ) as int] == delta.neg().minus(dz[r]) by {
        assert(cache.z_dpos@[r] == diagonal_at(s, pinv, prob.n() + prob.me() + r));
    }
}

/// The row numbers of the entries, with no values yet.
pub open spec fn blanked<T: Scalar>(entries: Seq<(usize, T)>) -> Seq<(usize, T)> {
    Seq::new(entries.len(), |i: int| (entries[i].0, T::zero()))
}

/// The columns of the sparse condensed system, with no values yet: the Hessian's pattern down to the
/// diagonal and the equality rows, each with its diagonal.
pub open spec fn condensed_cols<T: Scalar>(prob: QpProblem<T>) -> Seq<Seq<(usize, T)>> {
    let n = prob.n();
    Seq::new(
        n,
        |c: int| blanked(nonzeros(prob.p.column(c), c as nat)).push((c as usize, T::zero())),
    ) + Seq::new(
        prob.me(),
        |r: int| blanked(nonzeros(prob.a_eq.row(r), n)).push(((n + r) as usize, T::zero())),
    )
}

/// The pattern of the sparse condensed system. Every diagonal is stored, also where the Hessian's
/// is zero.
pub fn condensed_pattern<T: Scalar>(prob: &QpProblem<T>) -> (s: CscMatrix<T>)
    requires
        prob.wf(),
    ensures
        s.wf(),
        s.m == prob.n() + prob.me(),
        s.n == s.m,
        s.cols() == condensed_cols(*prob),
{
    let n: usize = prob.q.len();
    let me: usize = prob.b_eq.len();
    let ghost all = condensed_cols(*prob);
    let mut out: Columns<T> = Columns::new();
    let mut c: usize = 0;
    while c < n
        invariant
            prob.wf(),
            n == prob.n(),
            me == prob.me(),
            all == condensed_cols(*prob),
            c <= n,
            out.wf(),
            out.open_col() == Seq::<(usize, T)>::empty(),
            out.closed() =~= all.subrange(0, c as int),
        decreases n - c,
    {
        let mut i: usize = 0;
        while i < c
            invariant
                prob.wf(),
                n == prob.n(),
                i <= c < n,
                out.wf(),
                out.closed() =~= all.subrange(0, c as int),
                out.open_col() =~= blanked(nonzeros(prob.p.column(c as int), i as nat)),
            decreases c - i,
        {
            let v = prob.p.get(i, c);
            assert(prob.p.column(c as int)[i as int] == v);
            if !v.equals(T::zero()) {
                out.push(i, T::zero());
            }
            i += 1;
        }
        out.push(c, T::zero());
        assert(out.open_col() =~= all[c as int]);
        out.close();
        c += 1;
    }
    let mut r: usize = 0;
    while r < me
        invariant
            prob.wf(),
            n == prob.n(),
            me == prob.me(),
            all == condensed_cols(*prob),
            r <= me,
            out.wf(),
            out.open_col() == Seq::<(usize, T)>::empty(),
            out.closed() =~= all.subrange(0, n + r),
        decreases me - r,
    {
        let mut i: usize = 0;
        while i < n
            invariant
                prob.wf(),
                n == prob.n(),
                me == prob.me(),
                r < me,
                i <= n,
                out.wf(),
                out.closed() =~= all.subrange(0, n + r),
                out.open_col() =~= blanked(nonzeros(prob.a_eq.row(r as int), i as nat)),
            decreases n - i,
        {
            let v = prob.a_eq.get(r, i);
            assert(prob.a_eq.row(r as int)[i as int] == v);
            if !v.equals(T::zero()) {
                out.push(i, T::zero());
            }
            i += 1;
        }
        out.push(n + r, T::zero());
        assert(out.open_col() =~= all[n + r]);
        out.close();
        r += 1;
    }
    proof {
        assert(out.closed() =~= all);
        assert forall|c: int, k: int|
            0 <= c < out.closed().len() && 0 <= k < out.closed()[c].len() implies (
        #[trigger] out.closed()[c][k]).0 < n + me by {
            if c < n {
                lemma_nonzeros(prob.p.column(c), c as nat);
            } else {
                lemma_nonzeros(prob.a_eq.row(c - n), n as nat);
            }
        }
    }
    out.finish(n + me)
}

/// Where the permuted condensed system stores the coupling of the indices `a` and `b`.
pub open spec fn place_of<T: Scalar>(s: CscMatrix<T>, pinv: Seq<usize>, a: int, b: int) -> Option<int> {
    let pr = pinv[a];
    let pc = pinv[b];
    if pr <= pc {
        find_pos(s, pc as int, pr as int)
    } else {
        find_pos(s, pr as int, pc as int)
    }
}

/// Where the permuted condensed system stores the coupling of the indices `a` and `b`.
fn locate<T: Scalar>(s: &CscMatrix<T>, pinv: &[usize], a: usize, b: usize) -> (p: Option<usize>)
    requires
        s.wf(),
        a < pinv@.len(),
        b < pinv@.len(),
        forall|i: int| 0 <= i < pinv@.len() ==> (#[trigger] pinv@[i]) < s.n,
    ensures
        p is Some == place_of(*s, pinv@, a as int, b as int) is Some,
        p matches Some(q) ==> q == place_of(*s, pinv@, a as int, b as int)->0 && q < s.rowval@.len(),
{
    let pr: usize = pinv[a];
    let pc: usize = pinv[b];
    if pr <= pc {
        find_position(s, pc, pr)
    } else {
        find_position(s, pr, pc)
    }
}

/// Where the permuted condensed system stores the coupling of equality row `r` and unknown `i`.
pub open spec fn coupling_at<T: Scalar>(s: CscMatrix<T>, pinv: Seq<usize>, n: nat, r: int, i: int) -> Option<int> {
    place_of(s, pinv, i, n + r)
}

/// `nz` with the entries of the Hessian above the diagonal written in: those of the first `c` columns, and
/// the first `i` of column `c`.
pub open spec fn curvatures_written<T: Scalar>(
    prob: QpProblem<T>,
    s: CscMatrix<T>,
    pinv: Seq<usize>,
    nz: Seq<T>,
    c: nat,
    i: nat,
) -> Seq<T>
    decreases c, i,
{
    if i > 0 {
        let front = curvatures_written(prob, s, pinv, nz, c, (i - 1) as nat);
        let v = prob.p.at(i - 1, c as int);
        if v.equals(T::zero()) {
            front
        } else {
            front.update(place_of(s, pinv, i - 1, c as int)->0, v)
        }
    } else if c > 0 {
        curvatures_written(prob, s, pinv, nz, (c - 1) as nat, (c - 1) as nat)
    } else {
        nz
    }
}

/// Every entry of the Hessian above the diagonal has its place in the permuted condensed system.
pub open spec fn curvatures_stored<T: Scalar>(prob: QpProblem<T>, s: CscMatrix<T>, pinv: Seq<usize>) -> bool {
    forall|i: int, c: int|
        0 <= i < c < prob.n() && !(#[trigger] prob.p.at(i, c)).equals(T::zero()) ==> place_of(s, pinv, i, c) is Some
}

/// Writes the entries of the Hessian above the diagonal, which no iteration changes, into the values
/// `nz`; none where one has no place in the system.
pub fn write_curvatures<T: Scalar>(prob: &QpProblem<T>, s: &CscMatrix<T>, pinv: &[usize], nz: Vec<T>) -> (r: Option<
    Vec<T>,
>)
    requires
        prob.wf(),
        s.wf(),
        pinv@.len() == prob.n() + prob.me(),
        forall|i: int| 0 <= i < pinv@.len() ==> (#[trigger] pinv@[i]) < s.n,
        nz@.len() == s.nzval@.len(),
    ensures
        r is Some == curvatures_stored(*prob, *s, pinv@),
        r matches Some(out) ==> out@ == curvatures_written(*prob, *s, pinv@, nz@, prob.n(), 0),
        r matches Some(out) ==> out@.len() == nz@.len(),
{
    let n: usize = prob.q.len();
    let ghost first = nz@;
    let mut out: Vec<T> = nz;
    let mut c: usize = 0;
    while c < n
        invariant
            prob.wf(),
            s.wf(),
            n == prob.n(),
            pinv@.len() == n + prob.me(),
            forall|i: int| 0 <= i < pinv@.len() ==> (#[trigger] pinv@[i]) < s.n,
            c <= n,
            out@.len() == first.len() == s.nzval@.len(),
            out@ == curvatures_written(*prob, *s, pinv@, first, c as nat, 0),
            forall|a: int, b: int|
                0 <= a < b < c && !(#[trigger] prob.p.at(a, b)).equals(T::zero()) ==> place_of(
                    *s,
                    pinv@,
                    a,
                    b,
                ) is Some,
        decreases n - c,
    {
        let mut i: usize = 0;
        while i < c
            invariant
                prob.wf(),
                s.wf(),
                n == prob.n(),
                pinv@.len() == n + prob.me(),
                forall|i: int| 0 <= i < pinv@.len() ==> (#[trigger] pinv@[i]) < s.n,
                i <= c < n,
                out@.len() == first.len() == s.nzval@.len(),
                out@ == curvatures_written(*prob, *s, pinv@, first, c as nat, i as nat),
                forall|a: int, b: int|
                    0 <= a < b && (b < c || (b == c && a < i)) && !(#[trigger] prob.p.at(a, b)).equals(
                        T::zero(),
                    ) ==> place_of(*s, pinv@, a, b) is Some,
            decreases c - i,
        {
            let v = prob.p.get(i, c);
            if !v.equals(T::zero()) {
                match locate(s, pinv, i, c) {
                    Some(p) => {
                        out[p] = v;
                    },
                    None => {
                        assert(!prob.p.at(i as int, c as int).equals(T::zero()));
                        return None;
                    },
                }
            }
            i += 1;
        }
        c += 1;
    }
    Some(out)
}

/// `nz` with the couplings of the first `r` equality rows, and of row `r` with the first `i`
/// unknowns, written in.
pub open spec fn couplings_written<T: Scalar>(
    prob: QpProblem<T>,
    s: CscMatrix<T>,
    pinv: Seq<usize>,
    nz: Seq<T>,
    r: nat,
    i: nat,
) -> Seq<T>
    decreases r, i,
{
    if i > 0 {
        let front = couplings_written(prob, s, pinv, nz, r, (i - 1) as nat);
        let v = prob.a_eq.at(r as int, i - 1);
        if v.equals(T::zero()) {
            front
        } else {
            front.update(coupling_at(s, pinv, prob.n(), r as int, i - 1)->0, v)
        }
    } else if r > 0 {
        couplings_written(prob, s, pinv, nz, (r - 1) as nat, prob.n())
    } else {
        nz
    }
}

/// Every coupling has its place in the permuted condensed system.
pub open spec fn couplings_stored<T: Scalar>(prob: QpProblem<T>, s: CscMatrix<T>, pinv: Seq<usize>) -> bool {
    forall|r: int, i: int|
        0 <= r < prob.me() && 0 <= i < prob.n() && !(#[trigger] prob.a_eq.at(r, i)).equals(T::zero())
            ==> coupling_at(s, pinv, prob.n(), r, i) is Some
}

/// Writes the couplings of the equality rows, which no iteration changes; none where one has no
/// place in the system.
pub fn write_couplings<T: Scalar>(prob: &QpProblem<T>, s: &CscMatrix<T>, pinv: &[usize]) -> (r: Option<Vec<T>>)
    requires
        prob.wf(),
        s.wf(),
        pinv@.len() == prob.n() + prob.me(),
        forall|i: int| 0 <= i < pinv@.len() ==> (#[trigger] pinv@[i]) < s.n,
    ensures
        r is Some == couplings_stored(*prob, *s, pinv@),
        r matches Some(nz) ==> nz@ == couplings_written(*prob, *s, pinv@, s.nzval@, prob.me(), 0),
        r matches Some(nz) ==> nz@.len() == s.nzval@.len(),
{
    let n: usize = prob.q.len();
    let me: usize = prob.b_eq.len();
    let len: usize = pinv.len();
    let mut nz: Vec<T> = copied(&s.nzval);
    let mut r: usize = 0;
    while r < me
        invariant
            prob.wf(),
            s.wf(),
            n == prob.n(),
            me == prob.me(),
            len == pinv@.len() == n + me,
            forall|i: int| 0 <= i < pinv@.len() ==> (#[trigger] pinv@[i]) < s.n,
            r <= me,
            nz@.len() == s.nzval@.len(),
            nz@ == couplings_written(*prob, *s, pinv@, s.nzval@, r as nat, 0),
            forall|a: int, b: int|
                0 <= a < r && 0 <= b < n && !(#[trigger] prob.a_eq.at(a, b)).equals(T::zero())
                    ==> coupling_at(*s, pinv@, n as nat, a, b) is Some,
        decreases me - r,
    {
        let mut i: usize = 0;
        while i < n
            invariant
                prob.wf(),
                s.wf(),
                n == prob.n(),
                me == prob.me(),
                len == pinv@.len() == n + me,
                forall|i: int| 0 <= i < pinv@.len() ==> (#[trigger] pinv@[i]) < s.n,
                r < me,
                i <= n,
                nz@.len() == s.nzval@.len(),
                nz@ == couplings_written(*prob, *s, pinv@, s.nzval@, r as nat, i as nat),
                forall|a: int, b: int|
                    0 <= a && 0 <= b < n && (a < r || (a == r && b < i)) && !(#[trigger] prob.a_eq.at(
                        a,
                        b,
                    )).equals(T::zero()) ==> coupling_at(*s, pinv@, n as nat, a, b) is Some,
            decreases n - i,
        {
            let v = prob.a_eq.get(r, i);
            if !v.equals(T::zero()) {
                match locate(s, pinv, i, n + r) {
                    Some(p) => {
                        nz[p] = v;
                    },
                    None => {
                        assert(!prob.a_eq.at(r as int, i as int).equals(T::zero()));
                        assert(coupling_at(*s, pinv@, n as nat, r as int, i as int) is None);
                        return None;
                    },
                }
            }
            i += 1;
        }
        r += 1;
    }
    Some(nz)
}

/// Two couplings of different indices have different places.
proof fn lemma_places_differ<T: Scalar>(s: CscMatrix<T>, pinv: Seq<usize>, a: int, b: int, c: int, d: int)
    requires
        s.wf(),
        injects(pinv, s.n as nat),
        0 <= a < pinv.len(),
        0 <= b < pinv.len(),
        0 <= c < pinv.len(),
        0 <= d < pinv.len(),
        !(a == c && b == d),
        !(a == d && b == c),
        place_of(s, pinv, a, b) is Some,
        place_of(s, pinv, c, d) is Some,
    ensures
        place_of(s, pinv, a, b) != place_of(s, pinv, c, d),
        0 <= place_of(s, pinv, a, b)->0 < s.rowval@.len(),
{
    let (pa, pb, pc, pd) = (pinv[a], pinv[b], pinv[c], pinv[d]);
    let (col1, row1) = if pa <= pb {
        (pb, pa)
    } else {
        (pa, pb)
    };
    let (col2, row2) = if pc <= pd {
        (pd, pc)
    } else {
        (pc, pd)
    };
    lemma_find(s, col1 as int, row1 as int, s.colptr@[col1 as int] as int);
    lemma_find(s, col2 as int, row2 as int, s.colptr@[col2 as int] as int);
    if col1 < col2 {
        assert(s.colptr@[col1 + 1] <= s.colptr@[col2 as int]);
    } else if col2 < col1 {
        assert(s.colptr@[col2 + 1] <= s.colptr@[col1 as int]);
    }
}

/// The couplings of the equality rows that were written stand in their places.
proof fn lemma_couplings_hold<T: Scalar>(
    prob: QpProblem<T>,
    s: CscMatrix<T>,
    pinv: Seq<usize>,
    nz: Seq<T>,
    r: nat,
    i: nat,
)
    requires
        s.wf(),
        injects(pinv, s.n as nat),
        pinv.len() == prob.n() + prob.me(),
        couplings_stored(prob, s, pinv),
        nz.len() == s.rowval@.len(),
        r < prob.me() && i <= prob.n() || r == prob.me() && i == 0,
    ensures
        couplings_written(prob, s, pinv, nz, r, i).len() == nz.len(),
        forall|a: int, b: int|
            0 <= a && 0 <= b < prob.n() && (a < r || (a == r && b < i)) && !(#[trigger] prob.a_eq.at(a, b)).equals(
                T::zero(),
            ) ==> couplings_written(prob, s, pinv, nz, r, i)[coupling_at(s, pinv, prob.n(), a, b)->0]
                == prob.a_eq.at(a, b),
    decreases r, i,
{
    let n = prob.n();
    let all = couplings_written(prob, s, pinv, nz, r, i);
    if i > 0 {
        lemma_couplings_hold(prob, s, pinv, nz, r, (i - 1) as nat);
        if !prob.a_eq.at(r as int, i - 1).equals(T::zero()) {
            lemma_placed(s, pinv, i - 1, (n + r) as int);
        }
        assert forall|a: int, b: int|
            0 <= a && 0 <= b < n && (a < r || (a == r && b < i)) && !(#[trigger] prob.a_eq.at(a, b)).equals(
                T::zero(),
            ) implies all[coupling_at(s, pinv, n, a, b)->0] == prob.a_eq.at(a, b) by {
            if !prob.a_eq.at(r as int, i - 1).equals(T::zero()) {
                if a != r || b != i - 1 {
                    lemma_places_differ(s, pinv, b, n + a, i - 1, (n + r) as int);
                }
            }
        }
    } else if r > 0 {
        lemma_couplings_hold(prob, s, pinv, nz, (r - 1) as nat, n);
    }
}

/// A place lies among the stored entries.
proof fn lemma_placed<T: Scalar>(s: CscMatrix<T>, pinv: Seq<usize>, a: int, b: int)
    requires
        s.wf(),
        injects(pinv, s.n as nat),
        0 <= a < pinv.len(),
        0 <= b < pinv.len(),
        place_of(s, pinv, a, b) is Some,
    ensures
        0 <= place_of(s, pinv, a, b)->0 < s.rowval@.len(),
{
    let (col, row) = if pinv[a] <= pinv[b] {
        (pinv[b], pinv[a])
    } else {
        (pinv[a], pinv[b])
    };
    lemma_find(s, col as int, row as int, s.colptr@[col as int] as int);
}

/// The entries of the Hessian that were written stand in their places, and the couplings of the equality
/// rows stay in theirs.
proof fn lemma_curvatures_hold<T: Scalar>(
    prob: QpProblem<T>,
    s: CscMatrix<T>,
    pinv: Seq<usize>,
    nz: Seq<T>,
    c: nat,
    i: nat,
)
    requires
        s.wf(),
        injects(pinv, s.n as nat),
        pinv.len() == prob.n() + prob.me(),
        couplings_stored(prob, s, pinv),
        curvatures_stored(prob, s, pinv),
        nz.len() == s.rowval@.len(),
        c < prob.n() && i <= c || c == prob.n() && i == 0,
    ensures
        curvatures_written(prob, s, pinv, nz, c, i).len() == nz.len(),
        forall|a: int, b: int|
            0 <= a < b && (b < c || (b == c && a < i)) && !(#[trigger] prob.p.at(a, b)).equals(T::zero())
                ==> curvatures_written(prob, s, pinv, nz, c, i)[place_of(s, pinv, a, b)->0] == prob.p.at(a, b),
        forall|r: int, b: int|
            0 <= r < prob.me() && 0 <= b < prob.n() && !(#[trigger] prob.a_eq.at(r, b)).equals(T::zero())
                ==> curvatures_written(prob, s, pinv, nz, c, i)[coupling_at(s, pinv, prob.n(), r, b)->0]
                == nz[coupling_at(s, pinv, prob.n(), r, b)->0],
    decreases c, i,
{
    let n = prob.n();
    let all = curvatures_written(prob, s, pinv, nz, c, i);
    if i > 0 {
        lemma_curvatures_hold(prob, s, pinv, nz, c, (i - 1) as nat);
        if !prob.p.at(i - 1, c as int).equals(T::zero()) {
            lemma_placed(s, pinv, i - 1, c as int);
            assert forall|a: int, b: int|
                0 <= a < b && (b < c || (b == c && a < i)) && !(#[trigger] prob.p.at(a, b)).equals(
                    T::zero(),
                ) implies all[place_of(s, pinv, a, b)->0] == prob.p.at(a, b) by {
                if a != i - 1 || b != c {
                    lemma_places_differ(s, pinv, a, b, i - 1, c as int);
                }
            }
            assert forall|r: int, b: int|
                0 <= r < prob.me() && 0 <= b < n && !(#[trigger] prob.a_eq.at(r, b)).equals(
                    T::zero(),
                ) implies all[coupling_at(s, pinv, n, r, b)->0] == nz[coupling_at(s, pinv, n, r, b)->0] by {
                lemma_places_differ(s, pinv, b, n + r, i - 1, c as int);
            }
        }
    } else if c > 0 {
        lemma_curvatures_hold(prob, s, pinv, nz, (c - 1) as nat, (c - 1) as nat);
    }
}

/// The prepared values of the sparse condensed system hold every entry of the Hessian above the diagonal
/// and of the equality rows in its place.
pub proof fn condensed_values_are_complete<T: Scalar>(prob: QpProblem<T>, s: CscMatrix<T>, pinv: Seq<usize>)
    requires
        s.wf(),
        injects(pinv, s.n as nat),
        pinv.len() == prob.n() + prob.me(),
        couplings_stored(prob, s, pinv),
        curvatures_stored(prob, s, pinv),
    ensures
        ({
            let n = prob.n();
            let nz = curvatures_written(
                prob,
                s,
                pinv,
                couplings_written(prob, s, pinv, s.nzval@, prob.me(), 0),
                n,
                0,
            );
            &&& forall|i: int, c: int|
                0 <= i < c < n && !(#[trigger] prob.p.at(i, c)).equals(T::zero()) ==> nz[place_of(
                    s,
                    pinv,
                    i,
                    c,
                )->0] == prob.p.at(i, c)
            &&& forall|r: int, i: int|
                0 <= r < prob.me() && 0 <= i < n && !(#[trigger] prob.a_eq.at(r, i)).equals(T::zero())
                    ==> nz[coupling_at(s, pinv, n, r, i)->0] == prob.a_eq.at(r, i)
        }),
{
    lemma_couplings_hold(prob, s, pinv, s.nzval@, prob.me(), 0);
    let mid = couplings_written(prob, s, pinv, s.nzval@, prob.me(), 0);
    lemma_curvatures_hold(prob, s, pinv, mid, prob.n(), 0);
}

/// `acc` and what the first `k` bound rows in column `c` add to the condensed diagonal.
pub open spec fn bounds_added<T: Scalar>(
    units: Seq<(usize, usize, T)>,
    hinv: Seq<T>,
    acc: T,
    c: int,
    k: nat,
) -> T
    decreases k,
{
    if k == 0 {
        acc
    } else {
        let front = bounds_added(units, hinv, acc, c, (k - 1) as nat);
        let (r, col, a) = units[k - 1];
        if col == c {
            front.plus(a.times(a).times(hinv[r as int]))
        } else {
            front
        }
    }
}

/// The values of the sparse condensed system in one iteration.
pub open spec fn condensed_refilled<T: Scalar>(
    prob: QpProblem<T>,
    dpos: Seq<usize>,
    units: Seq<(usize, usize, T)>,
    hinv: Seq<T>,
    rho: T,
    mu: T,
    delta: T,
    before: Seq<T>,
    nz: Seq<T>,
) -> bool {
    let n = prob.n();
    &&& nz.len() == before.len()
    &&& forall|c: int|
        0 <= c < n ==> nz[#[trigger] dpos[c] as int] == bounds_added(
            units,
            hinv,
            prob.p.at(c, c).plus(rho).plus(mu.times(mu)),
            c,
            units.len(),
        )
    &&& forall|c: int| n <= c < n + prob.me() ==> nz[#[trigger] dpos[c] as int] == delta.neg()
    &&& forall|p: int|
        0 <= p < nz.len() && (forall|c: int| 0 <= c < dpos.len() ==> #[trigger] dpos[c] != p) ==> #[trigger] nz[p]
            == before[p]
}

/// Writes the diagonals of the sparse condensed system for one iteration; `dpos` tells where they
/// stand.
pub fn refill_condensed<T: Scalar>(
    prob: &QpProblem<T>,
    dpos: &[usize],
    units: &[(usize, usize, T)],
    hinv: &[T],
    rho: T,
    mu: T,
    delta: T,
    nz: &mut Vec<T>,
)
    requires
        prob.wf(),
        dpos@.len() == prob.n() + prob.me(),
        rows_fit(*prob, units@, Seq::empty()),
        hinv@.len() == prob.mi(),
        forall|c: int| 0 <= c < dpos@.len() ==> (#[trigger] dpos@[c]) < old(nz)@.len(),
        forall|c: int, d: int| 0 <= c < d < dpos@.len() ==> #[trigger] dpos@[c] != #[trigger] dpos@[d],
    ensures
        condensed_refilled(
            *prob,
            dpos@,
            units@,
            hinv@,
            rho,
            mu,
            delta,
            old(nz)@,
            final(nz)@,
        ),
{
    let n: usize = prob.q.len();
    let me: usize = prob.b_eq.len();
    let len: usize = dpos.len();
    let mu_sq = mu.times(mu);
    let ghost before = nz@;
    let mut j: usize = 0;
    while j < n
        invariant
            prob.wf(),
            n == prob.n(),
            me == prob.me(),
            len == dpos@.len() == n + me,
            forall|c: int| 0 <= c < dpos@.len() ==> (#[trigger] dpos@[c]) < before.len(),
            forall|c: int, d: int| 0 <= c < d < dpos@.len() ==> #[trigger] dpos@[c] != #[trigger] dpos@[d],
            mu_sq == mu.times(mu),
            j <= n,
            nz@.len() == before.len(),
            forall|c: int|
                0 <= c < j ==> nz@[#[trigger] dpos@[c] as int] == prob.p.at(c, c).plus(rho).plus(mu_sq),
            forall|p: int|
                0 <= p < nz@.len() && (forall|c: int| 0 <= c < dpos@.len() ==> #[trigger] dpos@[c] != p)
                    ==> #[trigger] nz@[p] == before[p],
        decreases n - j,
    {
        let at: usize = dpos[j];
        nz[at] = prob.p.get(j, j).plus(rho).plus(mu_sq);
        j += 1;
    }
    let mut k: usize = 0;
    while k < units.len()
        invariant
            prob.wf(),
            n == prob.n(),
            me == prob.me(),
            len == dpos@.len() == n + me,
            rows_fit(*prob, units@, Seq::empty()),
            hinv@.len() == prob.mi(),
            forall|c: int| 0 <= c < dpos@.len() ==> (#[trigger] dpos@[c]) < before.len(),
            forall|c: int, d: int| 0 <= c < d < dpos@.len() ==> #[trigger] dpos@[c] != #[trigger] dpos@[d],
            mu_sq == mu.times(mu),
            k <= units@.len(),
            nz@.len() == before.len(),
            forall|c: int|
                0 <= c < n ==> nz@[#[trigger] dpos@[c] as int] == bounds_added(
                    units@,
                    hinv@,
                    prob.p.at(c, c).plus(rho).plus(mu_sq),
                    c,
                    k as nat,
                ),
            forall|p: int|
                0 <= p < nz@.len() && (forall|c: int| 0 <= c < dpos@.len() ==> #[trigger] dpos@[c] != p)
                    ==> #[trigger] nz@[p] == before[p],
        decreases units@.len() - k,
    {
        let (r, c, a) = units[k];
        assert(units@[k as int].0 < prob.mi() && units@[k as int].1 < n);
        let at: usize = dpos[c];
        let v = nz[at].plus(a.times(a).times(hinv[r]));
        nz[at] = v;
        k += 1;
    }
    let mut r: usize = 0;
    while r < me
        invariant
            n == prob.n(),
            me == prob.me(),
            len == dpos@.len() == n + me,
            forall|c: int| 0 <= c < dpos@.len() ==> (#[trigger] dpos@[c]) < before.len(),
            forall|c: int, d: int| 0 <= c < d < dpos@.len() ==> #[trigger] dpos@[c] != #[trigger] dpos@[d],
            mu_sq == mu.times(mu),
            r <= me,
            nz@.len() == before.len(),
            forall|c: int|
                0 <= c < n ==> nz@[#[trigger] dpos@[c] as int] == bounds_added(
                    units@,
                    hinv@,
                    prob.p.at(c, c).plus(rho).plus(mu_sq),
                    c,
                    units@.len(),
                ),
            forall|c: int| n <= c < n + r ==> nz@[#[trigger] dpos@[c] as int] == delta.neg(),
            forall|p: int|
                0 <= p < nz@.len() && (forall|c: int| 0 <= c < dpos@.len() ==> #[trigger] dpos@[c] != p)
                    ==> #[trigger] nz@[p] == before[p],
        decreases me - r,
    {
        let at: usize = dpos[n + r];
        nz[at] = delta.neg();
        r += 1;
    }
}

/// The barrier term on the unknowns' diagonal: the squared barrier parameter, a hundredth of it
/// where the Hessian is weak.
pub open spec fn barrier_lift<T: Scalar>(mu: T, weak: bool) -> T {
    if weak {
        mu.times(mu).times(T::decimal(1, 2))
    } else {
        mu.times(mu)
    }
}

/// The barrier term on the unknowns' diagonal.
pub fn barrier_lift_of<T: Scalar>(mu: T, weak: bool) -> (r: T)
    ensures
        r == barrier_lift(mu, weak),
{
    let sq = mu.times(mu);
    if weak {
        sq.times(T::decimal(1, 2))
    } else {
        sq
    }
}

/// The entry of the dense augmented system in row `i` and column `j`.
pub open spec fn dense_entry<T: Scalar>(prob: QpProblem<T>, rho: T, lift: T, delta: T, dz: Seq<T>) -> spec_fn(
    int,
    int,
) -> T {
    |i: int, j: int|
        {
            let n = prob.n() as int;
            let zoff = n + prob.me();
            if i < n && j < n {
                if i == j {
                    prob.p.at(i, j).plus(rho).plus(lift)
                } else {
                    prob.p.at(i, j)
                }
            } else if j < n {
                if i < zoff {
                    prob.a_eq.at(i - n, j)
                } else {
                    prob.a_in.at(i - zoff, j)
                }
            } else if i < n {
                if j < zoff {
                    prob.a_eq.at(j - n, i)
                } else {
                    prob.a_in.at(j - zoff, i)
                }
            } else if i != j {
                T::zero()
            } else if i < zoff {
                delta.neg()
            } else {
                dz[i - zoff].plus(delta).neg()
            }
        }
}

/// The dense augmented system of one iteration.
pub fn assemble_augmented_dense<T: Scalar>(prob: &QpProblem<T>, rho: T, lift: T, delta: T, dz: &[T]) -> (m:
    DenseMatrix<T>)
    requires
        prob.wf(),
        dz@.len() == prob.mi(),
        (prob.n() + prob.me() + prob.mi()) * (prob.n() + prob.me() + prob.mi()) <= usize::MAX,
    ensures
        m.sized(prob.n() + prob.me() + prob.mi(), prob.n() + prob.me() + prob.mi()),
        m.entries_are(dense_entry(*prob, rho, lift, delta, dz@)),
{
    let n: usize = prob.q.len();
    let me: usize = prob.b_eq.len();
    let mi: usize = prob.b_in.len();
    let zoff: usize = n + me;
    let dim: usize = zoff + mi;
    let ghost f = dense_entry(*prob, rho, lift, delta, dz@);
    let mut m: DenseMatrix<T> = DenseMatrix::zeros(dim, dim);
    let mut i: usize = 0;
    while i < dim
        invariant
            prob.wf(),
            n == prob.n(),
            me == prob.me(),
            mi == prob.mi() == dz@.len(),
            zoff == n + me,
            dim == zoff + mi,
            f == dense_entry(*prob, rho, lift, delta, dz@),
            i <= dim,
            m.sized(dim as nat, dim as nat),
            forall|a: int, b: int| 0 <= a < i && 0 <= b < dim ==> #[trigger] m.at(a, b) == f(a, b),
        decreases dim - i,
    {
        let mut j: usize = 0;
        while j < dim
            invariant
                prob.wf(),
                n == prob.n(),
                me == prob.me(),
                mi == prob.mi() == dz@.len(),
                zoff == n + me,
                dim == zoff + mi,
                f == dense_entry(*prob, rho, lift, delta, dz@),
                i < dim,
                j <= dim,
                m.sized(dim as nat, dim as nat),
                forall|a: int, b: int|
                    0 <= a < dim && 0 <= b < dim && (a < i || (a == i && b < j)) ==> #[trigger] m.at(a, b)
                        == f(a, b),
            decreases dim - j,
        {
            let v = if i < n && j < n {
                if i == j {
                    prob.p.get(i, j).plus(rho).plus(lift)
                } else {
                    prob.p.get(i, j)
                }
            } else if j < n {
                if i < zoff {
                    prob.a_eq.get(i - n, j)
                } else {
                    prob.a_in.get(i - zoff, j)
                }
            } else if i < n {
                if j < zoff {
                    prob.a_eq.get(j - n, i)
                } else {
                    prob.a_in.get(j - zoff, i)
                }
            } else if i != j {
                T::zero()
            } else if i < zoff {
                delta.neg()
            } else {
                dz[i - zoff].plus(delta).neg()
            };
            m.set(i, j, v);
            j += 1;
        }
        i += 1;
    }
    m
}

/// The column and the coefficient of the last of the first `k` bound rows on row `r`.
pub open spec fn bound_of_row<T: Scalar>(units: Seq<(usize, usize, T)>, r: int, k: nat) -> (usize, T)
    decreases k,
{
    if k == 0 {
        (0usize, T::zero())
    } else if units[k - 1].0 == r {
        (units[k - 1].1, units[k - 1].2)
    } else {
        bound_of_row(units, r, (k - 1) as nat)
    }
}

/// The bound rows by row: each row's column and coefficient, nothing for a row that is no bound.
pub fn bounds_by_row<T: Scalar>(mi: usize, units: &[(usize, usize, T)]) -> (by_row: Vec<(usize, T)>)
    requires
        forall|i: int| 0 <= i < units@.len() ==> (#[trigger] units@[i]).0 < mi,
    ensures
        by_row@ == Seq::new(mi as nat, |r: int| bound_of_row(units@, r, units@.len())),
{
    let mut by_row: Vec<(usize, T)> = filled((0usize, T::zero()), mi);
    let mut k: usize = 0;
    while k < units.len()
        invariant
            forall|i: int| 0 <= i < units@.len() ==> (#[trigger] units@[i]).0 < mi,
            k <= units@.len(),
            by_row@.len() == mi,
            forall|r: int| 0 <= r < mi ==> #[trigger] by_row@[r] == bound_of_row(units@, r, k as nat),
        decreases units@.len() - k,
    {
        let (r, c, v) = units[k];
        assert(units@[k as int].0 < mi);
        by_row[r] = (c, v);
        k += 1;
    }
    assert(by_row@ =~= Seq::new(mi as nat, |r: int| bound_of_row(units@, r, units@.len())));
    by_row
}

} // verus!
