use crate::cone_laws::{joint_steps_keep_the_cones, keeps_cones};
use crate::matrix::DenseMatrix;
use crate::scalar::Scalar;
use crate::vector::{constant, copied, filled};
use vstd::prelude::*;

verus! {

/// A cone of the inequality product. `NonNeg(d)` is the nonnegative orthant of dimension `d`,
/// `Soc(d)` the second-order cone of dimension `d`, and `Psd(k)` the cone of positive
/// semidefinite matrices of order `k`, whose triangle fills `k (k + 1) / 2` slack entries.
#[derive(Clone, Copy, Debug, PartialEq, Eq, Structural)]
pub enum Cone {
    NonNeg(usize),
    Soc(usize),
    Psd(usize),
}

/// Which of the two a point lies in: a nonsymmetric cone or its dual.
#[derive(Clone, Copy, Debug, PartialEq, Eq, Structural)]
pub enum Side {
    Primal,
    Dual,
}

/// Twice a triangular number is even.
pub proof fn lemma_triangle(k: int)
    requires
        k >= 0,
    ensures
        0 <= k * (k + 1) / 2 <= k * (k + 1),
{
    assert(k * (k + 1) >= 0) by (nonlinear_arith)
        requires
            k >= 0,
    ;
}

impl Cone {
    /// The number of slack entries that the cone occupies.
    pub open spec fn size(self) -> nat {
        match self {
            Cone::NonNeg(d) => d as nat,
            Cone::Soc(d) => d as nat,
            Cone::Psd(k) => (k * (k + 1) / 2) as nat,
        }
    }

    /// The number of slack entries can be computed.
    pub open spec fn fits(self) -> bool {
        match self {
            Cone::Psd(k) => k * (k + 1) <= usize::MAX,
            _ => true,
        }
    }

    /// The parameter of the cone's barrier.
    pub open spec fn barrier_degree(self) -> nat {
        match self {
            Cone::NonNeg(d) => d as nat,
            Cone::Soc(d) => 1,
            Cone::Psd(k) => k as nat,
        }
    }

    /// The number of entries of the cone's scaling block: its diagonal for an orthant, the full
    /// matrix otherwise.
    pub open spec fn block_len(self) -> nat {
        if self is NonNeg {
            self.size()
        } else {
            self.size() * self.size()
        }
    }

    /// The number of slack entries that the cone occupies.
    pub fn dim(&self) -> (r: usize)
        requires
            self.fits(),
        ensures
            r == self.size(),
    {
        match self {
            Cone::NonNeg(d) => *d,
            Cone::Soc(d) => *d,
            Cone::Psd(k) => {
                proof {
                    lemma_triangle(*k as int);
                    assert(*k + 1 <= k * (k + 1) || *k == 0) by (nonlinear_arith)
                        requires
                            *k >= 0,
                    ;
                }
                *k * (*k + 1) / 2
            },
        }
    }

    /// The parameter of the cone's barrier: `d` for an orthant of dimension `d`, 1 for a
    /// second-order cone, `k` for matrices of order `k`.
    pub fn degree(&self) -> (r: usize)
        ensures
            r == self.barrier_degree(),
    {
        match self {
            Cone::NonNeg(d) => *d,
            Cone::Soc(_) => 1,
            Cone::Psd(k) => *k,
        }
    }

    /// The identity of the cone's Jordan algebra: all ones on an orthant, and `curved`, the
    /// identity that the cone's own algebra gives, on any other cone.
    pub fn identity<T: Scalar>(&self, curved: &[T]) -> (r: Vec<T>)
        requires
            self.fits(),
        ensures
            r@ == self.identity_spec(curved@),
    {
        match self {
            Cone::NonNeg(d) => filled(T::one(), *d),
            _ => copied(curved),
        }
    }

    pub open spec fn identity_spec<T: Scalar>(self, curved: Seq<T>) -> Seq<T> {
        match self {
            Cone::NonNeg(d) => constant(T::one(), d as nat),
            _ => curved,
        }
    }

    /// The Jordan product of two vectors: entry by entry on an orthant, and `curved`, the
    /// product in the cone's own algebra, on any other cone.
    pub open spec fn jordan<T: Scalar>(self, u: Seq<T>, v: Seq<T>, curved: Seq<T>) -> Seq<T> {
        match self {
            Cone::NonNeg(_) => Seq::new(u.len(), |i: int| u[i].times(v[i])),
            _ => curved,
        }
    }

    /// Overwrites `out` with the Jordan product of `u` and `v`.
    pub fn jordan_into<T: Scalar>(&self, u: &[T], v: &[T], curved: &[T], out: &mut Vec<T>)
        requires
            u@.len() == v@.len(),
            old(out)@.len() == u@.len(),
            curved@.len() == u@.len() || self is NonNeg,
        ensures
            final(out)@ == self.jordan(u@, v@, curved@),
    {
        match self {
            Cone::NonNeg(_) => {
                let mut i: usize = 0;
                while i < u.len()
                    invariant
                        i <= u@.len() == v@.len(),
                        out@.len() == u@.len(),
                        forall|k: int| 0 <= k < i ==> out@[k] == u@[k].times(v@[k]),
                    decreases u@.len() - i,
                {
                    out[i] = u[i].times(v[i]);
                    i += 1;
                }
                assert(out@ =~= self.jordan(u@, v@, curved@));
            },
            _ => {
                *out = copied(curved);
            },
        }
    }

    /// The inverse of the arrow operator of `lam` applied to `b`: the entry-by-entry quotient on
    /// an orthant, and `curved`, what the cone's own algebra gives, on any other cone.
    pub open spec fn arrow_inv<T: Scalar>(self, lam: Seq<T>, b: Seq<T>, curved: Seq<T>) -> Seq<T> {
        match self {
            Cone::NonNeg(_) => Seq::new(lam.len(), |i: int| b[i].over(lam[i])),
            _ => curved,
        }
    }

    /// Overwrites `out` with the inverse of the arrow operator of `lam` applied to `b`.
    pub fn arrow_inv_into<T: Scalar>(&self, lam: &[T], b: &[T], curved: &[T], out: &mut Vec<T>)
        requires
            lam@.len() == b@.len(),
            old(out)@.len() == lam@.len(),
            curved@.len() == lam@.len() || self is NonNeg,
        ensures
            final(out)@ == self.arrow_inv(lam@, b@, curved@),
    {
        match self {
            Cone::NonNeg(_) => {
                let mut i: usize = 0;
                while i < lam.len()
                    invariant
                        i <= lam@.len() == b@.len(),
                        out@.len() == lam@.len(),
                        forall|k: int| 0 <= k < i ==> out@[k] == b@[k].over(lam@[k]),
                    decreases lam@.len() - i,
                {
                    out[i] = b[i].over(lam[i]);
                    i += 1;
                }
                assert(out@ =~= self.arrow_inv(lam@, b@, curved@));
            },
            _ => {
                *out = copied(curved);
            },
        }
    }

    /// The displacement of `v` into the band from `lo` to `hi`: entry by entry on an orthant; on
    /// any other cone from the spectral projection `projected`.
    pub open spec fn centrality_target<T: Scalar>(
        self,
        v: Seq<T>,
        lo: T,
        hi: T,
        projected: Seq<T>,
    ) -> Seq<T> {
        match self {
            Cone::NonNeg(_) => Seq::new(v.len(), |i: int| v[i].max(lo).min(hi).minus(v[i])),
            _ => Seq::new(v.len(), |i: int| projected[i].minus(v[i])),
        }
    }

    /// Overwrites `out` with the displacement of `v` into the band from `lo` to `hi`.
    pub fn centrality_target_into<T: Scalar>(
        &self,
        v: &[T],
        lo: T,
        hi: T,
        projected: &[T],
        out: &mut Vec<T>,
    )
        requires
            old(out)@.len() == v@.len(),
            projected@.len() == v@.len() || self is NonNeg,
        ensures
            final(out)@ == self.centrality_target(v@, lo, hi, projected@),
    {
        let orthant = matches!(self, Cone::NonNeg(_));
        let mut i: usize = 0;
        while i < v.len()
            invariant
                i <= v@.len(),
                out@.len() == v@.len(),
                orthant == (*self is NonNeg),
                projected@.len() == v@.len() || orthant,
                forall|k: int|
                    0 <= k < i ==> #[trigger] out@[k] == self.centrality_target(
                        v@,
                        lo,
                        hi,
                        projected@,
                    )[k],
            decreases v@.len() - i,
        {
            if orthant {
                out[i] = v[i].max(lo).min(hi).minus(v[i]);
            } else {
                out[i] = projected[i].minus(v[i]);
            }
            i += 1;
        }
        assert(out@ =~= self.centrality_target(v@, lo, hi, projected@));
    }
}

/// The Nesterov-Todd scaling of one cone.
pub enum ConeScaling<T> {
    /// On an orthant, the root of the ratio of slack and multiplier, entry by entry.
    NonNeg { w: Vec<T> },
    /// On a second-order cone, the length and the scaling point.
    Soc { eta: T, wbar: Vec<T> },
    /// On the semidefinite cone, the root of the scaling matrix and its inverse.
    Psd { wh: DenseMatrix<T>, wih: DenseMatrix<T> },
}

impl<T: Scalar> ConeScaling<T> {
    /// The scaling belongs to this cone.
    pub open spec fn matches_cone(self, cone: Cone) -> bool {
        match cone {
            Cone::NonNeg(d) => self matches ConeScaling::NonNeg { w } && w@.len() == d,
            Cone::Soc(d) => self matches ConeScaling::Soc { eta, wbar } && wbar@.len() == d,
            Cone::Psd(_) => self is Psd,
        }
    }

    /// The scaled vector `W v`: entry by entry on an orthant, and `curved`, the image under the
    /// cone's own scaling, on any other cone.
    pub open spec fn apply_w(self, v: Seq<T>, curved: Seq<T>) -> Seq<T> {
        match self {
            ConeScaling::NonNeg { w } => Seq::new(v.len(), |i: int| w@[i].times(v[i])),
            _ => curved,
        }
    }

    /// The vector scaled back: entry by entry on an orthant, and `curved`, the image under the
    /// inverse of the cone's own scaling, on any other cone.
    pub open spec fn apply_w_inv(self, v: Seq<T>, curved: Seq<T>) -> Seq<T> {
        match self {
            ConeScaling::NonNeg { w } => Seq::new(v.len(), |i: int| v[i].over(w@[i])),
            _ => curved,
        }
    }

    /// Overwrites `out` with `W v`. Nothing of the old contents of `out` survives.
    pub fn apply_w_into(&self, v: &[T], curved: &[T], out: &mut Vec<T>)
        requires
            old(out)@.len() == v@.len(),
            self matches ConeScaling::NonNeg { w } ==> w@.len() == v@.len(),
            curved@.len() == v@.len() || self is NonNeg,
        ensures
            final(out)@ == self.apply_w(v@, curved@),
    {
        match self {
            ConeScaling::NonNeg { w } => {
                let mut i: usize = 0;
                while i < v.len()
                    invariant
                        i <= v@.len() == w@.len(),
                        out@.len() == v@.len(),
                        forall|k: int| 0 <= k < i ==> out@[k] == w@[k].times(v@[k]),
                    decreases v@.len() - i,
                {
                    out[i] = w[i].times(v[i]);
                    i += 1;
                }
                assert(out@ =~= self.apply_w(v@, curved@));
            },
            _ => {
                *out = copied(curved);
            },
        }
    }

    /// Overwrites `out` with `v` scaled back. Nothing of the old contents of `out` survives.
    pub fn apply_w_inv_into(&self, v: &[T], curved: &[T], out: &mut Vec<T>)
        requires
            old(out)@.len() == v@.len(),
            self matches ConeScaling::NonNeg { w } ==> w@.len() == v@.len(),
            curved@.len() == v@.len() || self is NonNeg,
        ensures
            final(out)@ == self.apply_w_inv(v@, curved@),
    {
        match self {
            ConeScaling::NonNeg { w } => {
                let mut i: usize = 0;
                while i < v.len()
                    invariant
                        i <= v@.len() == w@.len(),
                        out@.len() == v@.len(),
                        forall|k: int| 0 <= k < i ==> out@[k] == v@[k].over(w@[k]),
                    decreases v@.len() - i,
                {
                    out[i] = v[i].over(w[i]);
                    i += 1;
                }
                assert(out@ =~= self.apply_w_inv(v@, curved@));
            },
            _ => {
                *out = copied(curved);
            },
        }
    }
}

/// The number of slack entries that the first `k` cones occupy.
pub open spec fn size_upto(cones: Seq<Cone>, k: nat) -> nat
    decreases k,
{
    if k == 0 {
        0
    } else {
        size_upto(cones, (k - 1) as nat) + cones[k - 1].size()
    }
}

/// The number of slack entries that all the cones occupy.
pub open spec fn total_size(cones: Seq<Cone>) -> nat {
    size_upto(cones, cones.len())
}

/// Every cone's dimension, and their sum, can be computed.
pub open spec fn cones_fit(cones: Seq<Cone>) -> bool {
    &&& forall|c: int| 0 <= c < cones.len() ==> (#[trigger] cones[c]).fits()
    &&& total_size(cones) <= usize::MAX
}

/// The cones that precede another occupy no more entries than the whole.
pub proof fn lemma_size_monotone(cones: Seq<Cone>, a: nat, b: nat)
    requires
        a <= b <= cones.len(),
    ensures
        size_upto(cones, a) <= size_upto(cones, b),
    decreases b - a,
{
    if a < b {
        lemma_size_monotone(cones, a, (b - 1) as nat);
    }
}

/// The offsets of the cones in the slack vector.
pub open spec fn offsets_of(cones: Seq<Cone>, offsets: Seq<usize>) -> bool {
    &&& offsets.len() == cones.len()
    &&& forall|c: int| 0 <= c < cones.len() ==> #[trigger] offsets[c] == size_upto(cones, c as nat)
}

/// The offset of each cone in the slack vector: the sum of the sizes of the cones before it.
pub fn cone_offsets(cones: &[Cone]) -> (r: Vec<usize>)
    requires
        cones_fit(cones@),
    ensures
        offsets_of(cones@, r@),
{
    let mut off: Vec<usize> = Vec::with_capacity(cones.len());
    let mut acc: usize = 0;
    let mut c: usize = 0;
    while c < cones.len()
        invariant
            c <= cones@.len(),
            cones_fit(cones@),
            acc == size_upto(cones@, c as nat),
            off@.len() == c,
            forall|k: int| 0 <= k < c ==> #[trigger] off@[k] == size_upto(cones@, k as nat),
        decreases cones@.len() - c,
    {
        off.push(acc);
        proof {
            lemma_size_monotone(cones@, (c + 1) as nat, cones@.len());
        }
        acc = acc + cones[c].dim();
        c += 1;
    }
    off
}

/// Every slack entry belongs to the block of some cone.
pub proof fn lemma_cone_of(cones: Seq<Cone>, k: nat, r: nat)
    requires
        k <= cones.len(),
        r < size_upto(cones, k),
    ensures
        exists|c: int|
            0 <= c < k && #[trigger] size_upto(cones, c as nat) <= r < size_upto(cones, c as nat)
                + cones[c].size(),
    decreases k,
{
    if r >= size_upto(cones, (k - 1) as nat) {
        assert(size_upto(cones, ((k - 1) as int) as nat) <= r);
    } else {
        lemma_cone_of(cones, (k - 1) as nat, r);
    }
}

/// The blocks of the cones tile the slack vector: each entry belongs to the block of exactly one
/// cone.
pub proof fn blocks_tile(cones: Seq<Cone>, r: nat)
    requires
        r < total_size(cones),
    ensures
        exists|c: int|
            0 <= c < cones.len() && #[trigger] size_upto(cones, c as nat) <= r < size_upto(
                cones,
                c as nat,
            ) + cones[c].size(),
        forall|a: int, b: int|
            0 <= a < cones.len() && 0 <= b < cones.len() && #[trigger] size_upto(cones, a as nat) <= r
                < size_upto(cones, a as nat) + cones[a].size() && #[trigger] size_upto(cones, b as nat)
                <= r < size_upto(cones, b as nat) + cones[b].size() ==> a == b,
{
    lemma_cone_of(cones, cones.len(), r);
    assert forall|a: int, b: int|
        0 <= a < cones.len() && 0 <= b < cones.len() && #[trigger] size_upto(cones, a as nat) <= r
            < size_upto(cones, a as nat) + cones[a].size() && #[trigger] size_upto(cones, b as nat) <= r
            < size_upto(cones, b as nat) + cones[b].size() implies a == b by {
        if a < b {
            lemma_size_monotone(cones, (a + 1) as nat, b as nat);
        }
        if b < a {
            lemma_size_monotone(cones, (b + 1) as nat, a as nat);
        }
    }
}

/// The sum of the barrier degrees of the first `k` cones.
pub open spec fn degree_upto(cones: Seq<Cone>, k: nat) -> nat
    decreases k,
{
    if k == 0 {
        0
    } else {
        degree_upto(cones, (k - 1) as nat) + cones[k - 1].barrier_degree()
    }
}

pub proof fn lemma_degree_monotone(cones: Seq<Cone>, a: nat, b: nat)
    requires
        a <= b <= cones.len(),
    ensures
        degree_upto(cones, a) <= degree_upto(cones, b),
    decreases b - a,
{
    if a < b {
        lemma_degree_monotone(cones, a, (b - 1) as nat);
    }
}

/// The barrier degree of the product of the cones, at least 1.
pub fn total_degree(cones: &[Cone]) -> (r: usize)
    requires
        degree_upto(cones@, cones@.len()) <= usize::MAX,
    ensures
        degree_upto(cones@, cones@.len()) == 0 ==> r == 1,
        degree_upto(cones@, cones@.len()) > 0 ==> r == degree_upto(cones@, cones@.len()),
{
    let mut acc: usize = 0;
    let mut c: usize = 0;
    while c < cones.len()
        invariant
            c <= cones@.len(),
            degree_upto(cones@, cones@.len()) <= usize::MAX,
            acc == degree_upto(cones@, c as nat),
        decreases cones@.len() - c,
    {
        proof {
            lemma_degree_monotone(cones@, (c + 1) as nat, cones@.len());
        }
        acc = acc + cones[c].degree();
        c += 1;
    }
    if acc == 0 {
        1
    } else {
        acc
    }
}

/// The entry of `H = eta^2 (2 w w' - J)`, with `J` the reflection that keeps the first axis.
pub open spec fn nt_entry<T: Scalar>(eta_sq: T, wbar: Seq<T>, a: int, b: int) -> T {
    let j = if a == b {
        if a == 0 {
            T::one()
        } else {
            T::one().neg()
        }
    } else {
        T::zero()
    };
    eta_sq.times(T::decimal(2, 0).times(wbar[a]).times(wbar[b]).minus(j))
}

/// The scaling block `eta^2 (2 w w' - J)` of a second-order cone, stored by rows.
pub fn nt_dense_block<T: Scalar>(eta_sq: T, wbar: &[T]) -> (r: Vec<T>)
    requires
        wbar@.len() * wbar@.len() <= usize::MAX,
    ensures
        r@.len() == wbar@.len() * wbar@.len(),
        forall|a: int, b: int|
            0 <= a < wbar@.len() && 0 <= b < wbar@.len() ==> #[trigger] r@[a * wbar@.len() + b]
                == nt_entry(eta_sq, wbar@, a, b),
{
    let m: usize = wbar.len();
    let two = T::decimal(2, 0);
    let mut h: DenseMatrix<T> = DenseMatrix::zeros(m, m);
    let mut a: usize = 0;
    while a < m
        invariant
            m == wbar@.len(),
            two == T::decimal(2, 0),
            h.sized(m as nat, m as nat),
            a <= m,
            forall|i: int, j: int|
                0 <= i < a && 0 <= j < m ==> #[trigger] h.at(i, j) == nt_entry(eta_sq, wbar@, i, j),
        decreases m - a,
    {
        let mut b: usize = 0;
        while b < m
            invariant
                m == wbar@.len(),
                two == T::decimal(2, 0),
                h.sized(m as nat, m as nat),
                a < m,
                b <= m,
                forall|i: int, j: int|
                    0 <= i < m && 0 <= j < m && (i < a || (i == a && j < b)) ==> #[trigger] h.at(i, j)
                        == nt_entry(eta_sq, wbar@, i, j),
            decreases m - b,
        {
            let j = if a == b {
                if a == 0 {
                    T::one()
                } else {
                    T::one().neg()
                }
            } else {
                T::zero()
            };
            h.set(a, b, eta_sq.times(two.times(wbar[a]).times(wbar[b]).minus(j)));
            b += 1;
        }
        a += 1;
    }
    proof {
        assert forall|i: int, j: int|
            0 <= i < m && 0 <= j < m implies #[trigger] h.data@[i * wbar@.len() + j] == nt_entry(
            eta_sq,
            wbar@,
            i,
            j,
        ) by {
            assert(h.at(i, j) == nt_entry(eta_sq, wbar@, i, j));
        }
    }
    h.data
}

/// The ratio of the boundary test among the first `k` entries, by the minimum operation.
pub open spec fn min_ratio_upto<T: Scalar>(v: Seq<T>, dv: Seq<T>, k: nat) -> T
    decreases k,
{
    if k == 0 {
        T::infinity()
    } else {
        let front = min_ratio_upto(v, dv, (k - 1) as nat);
        if dv[k - 1].below(T::zero()) {
            front.min(v[k - 1].neg().over(dv[k - 1]))
        } else {
            front
        }
    }
}

/// The step that one cone allows: on an orthant the boundary test backed off by a fixed margin,
/// on any other cone `curved`, the step that the cone's own boundary allows.
pub open spec fn step_of<T: Scalar>(cone: Cone, v: Seq<T>, dv: Seq<T>, curved: T) -> T {
    match cone {
        Cone::NonNeg(_) => min_ratio_upto(v, dv, v.len()).minus(T::decimal(1, 13)).max(T::zero()),
        _ => curved,
    }
}

/// The block of cone `c` in a slack vector.
pub open spec fn block<T>(cones: Seq<Cone>, v: Seq<T>, c: int) -> Seq<T> {
    v.subrange(
        size_upto(cones, c as nat) as int,
        (size_upto(cones, c as nat) + cones[c].size()) as int,
    )
}

/// The step that the first `k` cones allow together.
pub open spec fn joint_step_upto<T: Scalar>(
    cones: Seq<Cone>,
    v: Seq<T>,
    dv: Seq<T>,
    curved: Seq<T>,
    k: nat,
) -> T
    decreases k,
{
    if k == 0 {
        T::infinity()
    } else {
        let front = joint_step_upto(cones, v, dv, curved, (k - 1) as nat);
        let step = step_of(
            cones[k - 1],
            block(cones, v, k - 1),
            block(cones, dv, k - 1),
            curved[k - 1],
        );
        if step.below(front) {
            step
        } else {
            front
        }
    }
}

/// The step that all the cones allow together.
pub open spec fn joint_step<T: Scalar>(cones: Seq<Cone>, v: Seq<T>, dv: Seq<T>, curved: Seq<T>) -> T {
    joint_step_upto(cones, v, dv, curved, cones.len())
}

/// The bounds of one cone's block in the slack vector.
pub proof fn lemma_block_bounds(cones: Seq<Cone>, c: int)
    requires
        0 <= c < cones.len(),
    ensures
        size_upto(cones, c as nat) + cones[c].size() == size_upto(cones, (c + 1) as nat),
        size_upto(cones, c as nat) + cones[c].size() <= total_size(cones),
{
    lemma_size_monotone(cones, (c + 1) as nat, cones.len());
}

/// The largest joint step that keeps `v + t dv` in every cone. `curved[c]` is the step that
/// cone `c` allows where it is not an orthant.
pub fn cone_step<T: Scalar>(cones: &[Cone], offsets: &[usize], v: &[T], dv: &[T], curved: &[T]) -> (r: T)
    requires
        cones_fit(cones@),
        offsets_of(cones@, offsets@),
        v@.len() == total_size(cones@),
        dv@.len() == v@.len(),
        curved@.len() == cones@.len(),
    ensures
        r == joint_step(cones@, v@, dv@, curved@),
        keeps_cones(cones@, v@, dv@, curved@, r),
{
    proof {
        joint_steps_keep_the_cones(cones@, v@, dv@, curved@);
    }
    let mut a = T::infinity();
    let mut c: usize = 0;
    while c < cones.len()
        invariant
            cones_fit(cones@),
            offsets_of(cones@, offsets@),
            v@.len() == total_size(cones@),
            dv@.len() == v@.len(),
            curved@.len() == cones@.len(),
            c <= cones@.len(),
            a == joint_step_upto(cones@, v@, dv@, curved@, c as nat),
        decreases cones@.len() - c,
    {
        proof {
            lemma_block_bounds(cones@, c as int);
        }
        let step = match cones[c] {
            Cone::NonNeg(d) => orthant_ratio(v, dv, offsets[c], d).minus(T::decimal(1, 13)).max(
                T::zero(),
            ),
            _ => curved[c],
        };
        if step.below(a) {
            a = step;
        }
        c += 1;
    }
    a
}

/// The ratio of the boundary test over the `d` entries from `o` on.
pub fn orthant_ratio<T: Scalar>(v: &[T], dv: &[T], o: usize, d: usize) -> (r: T)
    requires
        o + d <= v@.len(),
        dv@.len() == v@.len(),
    ensures
        r == min_ratio_upto(
            v@.subrange(o as int, o + d),
            dv@.subrange(o as int, o + d),
            d as nat,
        ),
{
    let len: usize = v.len();
    let mut a = T::infinity();
    let mut i: usize = 0;
    while i < d
        invariant
            o + d <= v@.len() == len,
            dv@.len() == v@.len(),
            i <= d,
            a == min_ratio_upto(
                v@.subrange(o as int, o + d),
                dv@.subrange(o as int, o + d),
                i as nat,
            ),
        decreases d - i,
    {
        proof {
            assert(v@.subrange(o as int, o + d)[i as int] == v@[o + i]);
            assert(dv@.subrange(o as int, o + d)[i as int] == dv@[o + i]);
        }
        if dv[o + i].below(T::zero()) {
            a = a.min(v[o + i].neg().over(dv[o + i]));
        }
        i += 1;
    }
    a
}

} // verus!
