use crate::cone::{lemma_block_bounds, offsets_of, size_upto, total_size, Cone, ConeScaling};
use crate::conic_kkt::conic_problem;
use crate::kkt::{
    a_row, diagonal_last, lemma_a_row, lemma_p_col, opt_deref, push_dual_col, push_x_cols, push_y_cols,
    source_fits, upper_triangular, x_cols, y_cols,
};
use crate::matrix::DenseMatrix;
use crate::problem::QpProblem;
use crate::scalar::Scalar;
use crate::sparse::{Columns, CscMatrix};
use vstd::prelude::*;

verus! {

/// The cone carries two auxiliary columns: it is a second-order cone of more than one dimension.
pub open spec fn has_aux(cone: Cone) -> bool {
    cone matches Cone::Soc(d) && d > 1
}

/// The number of auxiliary columns of the first `k` cones.
pub open spec fn aux_upto(cones: Seq<Cone>, k: nat) -> nat
    decreases k,
{
    if k == 0 {
        0
    } else {
        aux_upto(cones, (k - 1) as nat) + if has_aux(cones[k - 1]) {
            2nat
        } else {
            0nat
        }
    }
}

pub proof fn lemma_aux_bound(cones: Seq<Cone>, a: nat, b: nat)
    requires
        a <= b,
    ensures
        aux_upto(cones, a) <= aux_upto(cones, b),
        aux_upto(cones, b) <= aux_upto(cones, a) + 2 * (b - a),
    decreases b - a,
{
    if a < b {
        lemma_aux_bound(cones, a, (b - 1) as nat);
    }
}

/// The diagonal entry of row `l` of a cone's arrow form: the full `-(w^2 + delta)` on an orthant;
/// on a second-order cone the apex keeps only `-delta`, and the rest stands in the auxiliary
/// columns.
pub open spec fn arrow_diag<T: Scalar>(sc: ConeScaling<T>, d: nat, l: int, delta: T) -> T {
    match sc {
        ConeScaling::NonNeg { w } => w@[l].times(w@[l]).plus(delta).neg(),
        ConeScaling::Soc { eta, wbar } => if d > 1 && l == 0 {
            delta.neg()
        } else {
            eta.times(eta).plus(delta).neg()
        },
        ConeScaling::Psd { wh, wih } => delta.neg(),
    }
}

/// The columns of the inequality multipliers of cone `c`, with a diagonal block.
pub open spec fn arrow_cone_cols<T: Scalar>(
    csr: Option<CscMatrix<T>>,
    a_in: DenseMatrix<T>,
    n: nat,
    zoff: nat,
    cones: Seq<Cone>,
    sc: Seq<ConeScaling<T>>,
    delta: T,
    c: int,
) -> Seq<Seq<(usize, T)>> {
    let off = size_upto(cones, c as nat);
    Seq::new(
        cones[c].size(),
        |l: int|
            a_row(csr, a_in, off + l, n).push(
                ((zoff + off + l) as usize, arrow_diag(sc[c], cones[c].size(), l, delta)),
            ),
    )
}

/// The columns of the inequality multipliers of the first `k` cones.
pub open spec fn arrow_z_cols<T: Scalar>(
    csr: Option<CscMatrix<T>>,
    a_in: DenseMatrix<T>,
    n: nat,
    zoff: nat,
    cones: Seq<Cone>,
    sc: Seq<ConeScaling<T>>,
    delta: T,
    k: nat,
) -> Seq<Seq<(usize, T)>>
    decreases k,
{
    if k == 0 {
        Seq::empty()
    } else {
        arrow_z_cols(csr, a_in, n, zoff, cones, sc, delta, (k - 1) as nat) + arrow_cone_cols(
            csr,
            a_in,
            n,
            zoff,
            cones,
            sc,
            delta,
            k - 1,
        )
    }
}

/// The length of a second-order scaling.
pub open spec fn eta_of<T: Scalar>(sc: ConeScaling<T>) -> T {
    match sc {
        ConeScaling::Soc { eta, wbar } => eta,
        _ => T::zero(),
    }
}

/// The scaling point of a second-order scaling.
pub open spec fn wbar_of<T: Scalar>(sc: ConeScaling<T>) -> Seq<T> {
    match sc {
        ConeScaling::Soc { eta, wbar } => wbar@,
        _ => Seq::empty(),
    }
}

/// The auxiliary column that carries `sqrt(2) eta w`, with `1` on the diagonal.
pub open spec fn space_col<T: Scalar>(base: nat, d: nat, eta: T, wbar: Seq<T>, acol: nat) -> Seq<
    (usize, T),
> {
    Seq::new(
        d,
        |l: int| ((base + l) as usize, T::decimal(2, 0).sqrt().times(eta).times(wbar[l])),
    ).push((acol as usize, T::one()))
}

/// The auxiliary column that carries `eta` at the apex, with `-1` on the diagonal.
pub open spec fn time_col<T: Scalar>(base: nat, eta: T, acol: nat) -> Seq<(usize, T)> {
    seq![(base as usize, eta), (acol as usize, T::one().neg())]
}

/// The auxiliary columns of the first `k` cones. `first` is the index of the first of them.
pub open spec fn aux_cols<T: Scalar>(
    zoff: nat,
    first: nat,
    cones: Seq<Cone>,
    sc: Seq<ConeScaling<T>>,
    k: nat,
) -> Seq<Seq<(usize, T)>>
    decreases k,
{
    if k == 0 {
        Seq::empty()
    } else {
        let front = aux_cols(zoff, first, cones, sc, (k - 1) as nat);
        let c = k - 1;
        let base = zoff + size_upto(cones, c as nat);
        let acol = first + aux_upto(cones, c as nat);
        if has_aux(cones[c]) {
            front.push(space_col(base, cones[c].size(), eta_of(sc[c]), wbar_of(sc[c]), acol)).push(
                time_col(base, eta_of(sc[c]), acol + 1),
            )
        } else {
            front
        }
    }
}

/// The columns of the augmented system in arrow form: each second-order block `-(H + delta I)` is
/// a diagonal and two auxiliary columns behind all others.
pub open spec fn arrow_cols<T: Scalar>(
    prob: QpProblem<T>,
    cones: Seq<Cone>,
    sc: Seq<ConeScaling<T>>,
    rho: T,
    delta: T,
    aeq_csr: Option<CscMatrix<T>>,
    ain_csr: Option<CscMatrix<T>>,
    p_diag: bool,
) -> Seq<Seq<(usize, T)>> {
    let n = prob.n();
    let me = prob.me();
    x_cols(prob.p.data@, n, rho, p_diag) + y_cols(aeq_csr, prob.a_eq, n, me, delta) + arrow_z_cols(
        ain_csr,
        prob.a_in,
        n,
        n + me,
        cones,
        sc,
        delta,
        cones.len(),
    ) + aux_cols(n + me, n + me + prob.mi(), cones, sc, cones.len())
}

/// There is one scaling per cone, of the cone's kind, and no cone is semidefinite.
pub open spec fn arrow_scalings<T: Scalar>(cones: Seq<Cone>, sc: Seq<ConeScaling<T>>) -> bool {
    &&& sc.len() == cones.len()
    &&& forall|c: int|
        0 <= c < cones.len() ==> (#[trigger] sc[c]).matches_cone(cones[c]) && !(cones[c] is Psd)
}

proof fn lemma_arrow_z_cols<T: Scalar>(
    csr: Option<CscMatrix<T>>,
    a_in: DenseMatrix<T>,
    n: nat,
    zoff: nat,
    cones: Seq<Cone>,
    sc: Seq<ConeScaling<T>>,
    delta: T,
    k: nat,
)
    requires
        k <= cones.len(),
        source_fits(csr, a_in, total_size(cones), n),
        n <= zoff,
        zoff + total_size(cones) <= usize::MAX,
    ensures
        arrow_z_cols(csr, a_in, n, zoff, cones, sc, delta, k).len() == size_upto(cones, k),
        forall|r: int|
            0 <= r < size_upto(cones, k) ==> {
                let col = #[trigger] arrow_z_cols(csr, a_in, n, zoff, cones, sc, delta, k)[r];
                &&& col.len() > 0
                &&& col.last().0 == zoff + r
                &&& forall|j: int| 0 <= j < col.len() ==> (#[trigger] col[j]).0 <= zoff + r
            },
    decreases k,
{
    if k > 0 {
        let c = k - 1;
        let off = size_upto(cones, c as nat);
        let front = arrow_z_cols(csr, a_in, n, zoff, cones, sc, delta, (k - 1) as nat);
        let all = arrow_z_cols(csr, a_in, n, zoff, cones, sc, delta, k);
        lemma_arrow_z_cols(csr, a_in, n, zoff, cones, sc, delta, (k - 1) as nat);
        lemma_block_bounds(cones, c);
        assert forall|r: int| 0 <= r < size_upto(cones, k) implies {
            let col = #[trigger] all[r];
            &&& col.len() > 0
            &&& col.last().0 == zoff + r
            &&& forall|j: int| 0 <= j < col.len() ==> (#[trigger] col[j]).0 <= zoff + r
        } by {
            if r >= off {
                lemma_a_row(csr, a_in, total_size(cones), n, r);
                assert(all[r] == arrow_cone_cols(csr, a_in, n, zoff, cones, sc, delta, c)[r - off]);
            } else {
                assert(all[r] == front[r]);
            }
        }
    }
}

proof fn lemma_aux_cols<T: Scalar>(
    zoff: nat,
    first: nat,
    cones: Seq<Cone>,
    sc: Seq<ConeScaling<T>>,
    k: nat,
)
    requires
        k <= cones.len(),
        zoff + total_size(cones) <= first,
        first + aux_upto(cones, k) <= usize::MAX,
    ensures
        aux_cols(zoff, first, cones, sc, k).len() == aux_upto(cones, k),
        forall|r: int|
            0 <= r < aux_upto(cones, k) ==> {
                let col = #[trigger] aux_cols(zoff, first, cones, sc, k)[r];
                &&& col.len() > 0
                &&& col.last().0 == first + r
                &&& forall|j: int| 0 <= j < col.len() ==> (#[trigger] col[j]).0 <= first + r
            },
    decreases k,
{
    if k > 0 {
        let c = k - 1;
        let front = aux_cols(zoff, first, cones, sc, (k - 1) as nat);
        let all = aux_cols(zoff, first, cones, sc, k);
        lemma_aux_cols(zoff, first, cones, sc, (k - 1) as nat);
        lemma_block_bounds(cones, c);
        assert forall|r: int| 0 <= r < aux_upto(cones, k) implies {
            let col = #[trigger] all[r];
            &&& col.len() > 0
            &&& col.last().0 == first + r
            &&& forall|j: int| 0 <= j < col.len() ==> (#[trigger] col[j]).0 <= first + r
        } by {
            if r < front.len() {
                assert(all[r] == front[r]);
            } else {
                let base = zoff + size_upto(cones, c as nat);
                let acol = first + aux_upto(cones, c as nat);
                if r == front.len() {
                    assert(all[r] == space_col(
                        base,
                        cones[c].size(),
                        eta_of(sc[c]),
                        wbar_of(sc[c]),
                        acol,
                    ));
                } else {
                    assert(all[r] == time_col(base, eta_of(sc[c]), acol + 1));
                }
            }
        }
    }
}

/// The arrow system reaches down to the diagonal, which ends every column, and holds two columns
/// more for every second-order cone of more than one dimension.
pub proof fn arrow_is_upper_triangular<T: Scalar>(
    prob: QpProblem<T>,
    cones: Seq<Cone>,
    sc: Seq<ConeScaling<T>>,
    rho: T,
    delta: T,
    aeq_csr: Option<CscMatrix<T>>,
    ain_csr: Option<CscMatrix<T>>,
    p_diag: bool,
)
    requires
        conic_problem(prob, cones),
        source_fits(aeq_csr, prob.a_eq, prob.me(), prob.n()),
        source_fits(ain_csr, prob.a_in, prob.mi(), prob.n()),
        prob.n() + prob.me() + prob.mi() + aux_upto(cones, cones.len()) <= usize::MAX,
    ensures
        ({
            let cols = arrow_cols(prob, cones, sc, rho, delta, aeq_csr, ain_csr, p_diag);
            &&& cols.len() == prob.n() + prob.me() + prob.mi() + aux_upto(cones, cones.len())
            &&& upper_triangular(cols)
            &&& diagonal_last(cols)
        }),
{
    let n = prob.n();
    let me = prob.me();
    let first = n + me + prob.mi();
    let cols = arrow_cols(prob, cones, sc, rho, delta, aeq_csr, ain_csr, p_diag);
    let zs = arrow_z_cols(ain_csr, prob.a_in, n, n + me, cones, sc, delta, cones.len());
    let aux = aux_cols(n + me, first, cones, sc, cones.len());
    lemma_arrow_z_cols(ain_csr, prob.a_in, n, n + me, cones, sc, delta, cones.len());
    lemma_aux_cols(n + me, first, cones, sc, cones.len());
    assert forall|c: int| 0 <= c < cols.len() implies {
        &&& (#[trigger] cols[c]).len() > 0
        &&& cols[c][cols[c].len() - 1].0 == c
        &&& forall|k: int| 0 <= k < cols[c].len() ==> (#[trigger] cols[c][k]).0 <= c
    } by {
        if c < n {
            lemma_p_col(prob.p.data@, n, c, rho, p_diag);
        } else if c < n + me {
            lemma_a_row(aeq_csr, prob.a_eq, me, n, c - n);
        } else if c < first {
            assert(cols[c] == zs[c - n - me]);
        } else {
            assert(cols[c] == aux[c - first]);
        }
    }
}

/// The augmented system in arrow form, and the number of its auxiliary columns. See
/// [`arrow_cols`] for its layout.
pub fn assemble_arrow_kkt<T: Scalar>(
    prob: &QpProblem<T>,
    cones: &[Cone],
    offsets: &[usize],
    sc: &[ConeScaling<T>],
    rho: T,
    delta: T,
    aeq_csr: Option<&CscMatrix<T>>,
    ain_csr: Option<&CscMatrix<T>>,
    p_diag: bool,
) -> (r: (CscMatrix<T>, usize))
    requires
        conic_problem(*prob, cones@),
        offsets_of(cones@, offsets@),
        arrow_scalings(cones@, sc@),
        source_fits(opt_deref(aeq_csr), prob.a_eq, prob.me(), prob.n()),
        source_fits(opt_deref(ain_csr), prob.a_in, prob.mi(), prob.n()),
        prob.n() + prob.me() + prob.mi() + aux_upto(cones@, cones@.len()) <= usize::MAX,
    ensures
        r.1 == aux_upto(cones@, cones@.len()),
        r.0.wf(),
        r.0.m == prob.n() + prob.me() + prob.mi() + r.1,
        r.0.n == r.0.m,
        r.0.cols() == arrow_cols(
            *prob,
            cones@,
            sc@,
            rho,
            delta,
            opt_deref(aeq_csr),
            opt_deref(ain_csr),
            p_diag,
        ),
{
    let n: usize = prob.q.len();
    let me: usize = prob.b_eq.len();
    let mi: usize = prob.b_in.len();
    let mut out: Columns<T> = Columns::new();
    push_x_cols(&prob.p.data, n, rho, p_diag, &mut out);
    push_y_cols(aeq_csr, &prob.a_eq, n, me, delta, &mut out);
    let ghost base = out.closed();
    let ghost ain = opt_deref(ain_csr);
    let zoff: usize = n + me;
    assert(base + arrow_z_cols(ain, prob.a_in, n as nat, zoff as nat, cones@, sc@, delta, 0) =~= base);
    let mut c: usize = 0;
    while c < cones.len()
        invariant
            conic_problem(*prob, cones@),
            offsets_of(cones@, offsets@),
            arrow_scalings(cones@, sc@),
            ain == opt_deref(ain_csr),
            source_fits(ain, prob.a_in, prob.mi(), prob.n()),
            n == prob.n(),
            me == prob.me(),
            zoff == n + me,
            c <= cones@.len(),
            out.wf(),
            out.open_col() == Seq::<(usize, T)>::empty(),
            out.closed() == base + arrow_z_cols(
                ain,
                prob.a_in,
                n as nat,
                zoff as nat,
                cones@,
                sc@,
                delta,
                c as nat,
            ),
        decreases cones@.len() - c,
    {
        let ghost before = out.closed();
        proof {
            lemma_block_bounds(cones@, c as int);
        }
        push_arrow_cone(prob, cones, offsets, sc, delta, ain_csr, c, &mut out);
        proof {
            assert(out.closed() =~= base + arrow_z_cols(
                ain,
                prob.a_in,
                n as nat,
                zoff as nat,
                cones@,
                sc@,
                delta,
                (c + 1) as nat,
            ));
        }
        c += 1;
    }
    let ghost above = out.closed();
    let sqrt2 = T::decimal(2, 0).sqrt();
    let mut acol: usize = n + me + mi;
    let ghost first = (n + me + mi) as nat;
    c = 0;
    assert(above + aux_cols(zoff as nat, first, cones@, sc@, 0) =~= above);
    while c < cones.len()
        invariant
            conic_problem(*prob, cones@),
            offsets_of(cones@, offsets@),
            arrow_scalings(cones@, sc@),
            n == prob.n(),
            me == prob.me(),
            mi == prob.mi(),
            zoff == n + me,
            first == n + me + mi,
            first + aux_upto(cones@, cones@.len()) <= usize::MAX,
            sqrt2 == T::decimal(2, 0).sqrt(),
            c <= cones@.len(),
            acol == first + aux_upto(cones@, c as nat),
            out.wf(),
            out.open_col() == Seq::<(usize, T)>::empty(),
            out.closed() == above + aux_cols(zoff as nat, first, cones@, sc@, c as nat),
        decreases cones@.len() - c,
    {
        let off: usize = offsets[c];
        let d: usize = cones[c].dim();
        let ghost done = aux_cols(zoff as nat, first, cones@, sc@, c as nat);
        proof {
            lemma_block_bounds(cones@, c as int);
            lemma_aux_bound(cones@, (c + 1) as nat, cones@.len());
            assert(sc@[c as int].matches_cone(cones@[c as int]));
        }
        if let ConeScaling::Soc { eta, wbar } = &sc[c] {
            if d > 1 {
                let ghost space = space_col(
                    (zoff + off) as nat,
                    d as nat,
                    *eta,
                    wbar@,
                    acol as nat,
                );
                let mut l: usize = 0;
                while l < d
                    invariant
                        l <= d == wbar@.len(),
                        zoff + off + d <= usize::MAX,
                        sqrt2 == T::decimal(2, 0).sqrt(),
                        space == space_col((zoff + off) as nat, d as nat, *eta, wbar@, acol as nat),
                        out.wf(),
                        out.closed() == above + done,
                        out.open_col() =~= space.subrange(0, l as int),
                    decreases d - l,
                {
                    out.push(zoff + off + l, sqrt2.times(*eta).times(wbar[l]));
                    l += 1;
                }
                out.push(acol, T::one());
                assert(out.open_col() =~= space);
                out.close();
                acol += 1;
                let ghost time = time_col((zoff + off) as nat, *eta, acol as nat);
                out.push(zoff + off, *eta);
                out.push(acol, T::one().neg());
                assert(out.open_col() =~= time);
                out.close();
                acol += 1;
                assert((above + done).push(space).push(time) =~= above + done.push(space).push(time));
            }
        }
        c += 1;
    }
    let n_aux: usize = acol - (n + me + mi);
    proof {
        arrow_is_upper_triangular(
            *prob,
            cones@,
            sc@,
            rho,
            delta,
            opt_deref(aeq_csr),
            ain,
            p_diag,
        );
    }
    (out.finish(acol), n_aux)
}

/// Appends the finished columns of the inequality multipliers of cone `c`.
fn push_arrow_cone<T: Scalar>(
    prob: &QpProblem<T>,
    cones: &[Cone],
    offsets: &[usize],
    sc: &[ConeScaling<T>],
    delta: T,
    ain_csr: Option<&CscMatrix<T>>,
    c: usize,
    out: &mut Columns<T>,
)
    requires
        conic_problem(*prob, cones@),
        offsets_of(cones@, offsets@),
        arrow_scalings(cones@, sc@),
        source_fits(opt_deref(ain_csr), prob.a_in, prob.mi(), prob.n()),
        c < cones@.len(),
        old(out).wf(),
        old(out).open_col() == Seq::<(usize, T)>::empty(),
    ensures
        final(out).wf(),
        final(out).open_col() == Seq::<(usize, T)>::empty(),
        final(out).closed() == old(out).closed() + arrow_cone_cols(
            opt_deref(ain_csr),
            prob.a_in,
            prob.n(),
            prob.n() + prob.me(),
            cones@,
            sc@,
            delta,
            c as int,
        ),
{
    let n: usize = prob.q.len();
    let zoff: usize = n + prob.b_eq.len();
    let off: usize = offsets[c];
    let d: usize = cones[c].dim();
    let ghost before = out.closed();
    let ghost these = arrow_cone_cols(
        opt_deref(ain_csr),
        prob.a_in,
        prob.n(),
        zoff as nat,
        cones@,
        sc@,
        delta,
        c as int,
    );
    proof {
        lemma_block_bounds(cones@, c as int);
        assert(sc@[c as int].matches_cone(cones@[c as int]));
        assert(before + these.subrange(0, 0) =~= before);
    }
    let mut l: usize = 0;
    while l < d
        invariant
            conic_problem(*prob, cones@),
            source_fits(opt_deref(ain_csr), prob.a_in, prob.mi(), prob.n()),
            c < cones@.len() == sc@.len(),
            sc@[c as int].matches_cone(cones@[c as int]),
            !(cones@[c as int] is Psd),
            n == prob.n(),
            zoff == n + prob.me(),
            off == size_upto(cones@, c as nat),
            d == cones@[c as int].size(),
            off + d <= prob.mi(),
            l <= d,
            these == arrow_cone_cols(
                opt_deref(ain_csr),
                prob.a_in,
                prob.n(),
                zoff as nat,
                cones@,
                sc@,
                delta,
                c as int,
            ),
            out.wf(),
            out.open_col() == Seq::<(usize, T)>::empty(),
            out.closed() == before + these.subrange(0, l as int),
        decreases d - l,
    {
        let diag = match &sc[c] {
            ConeScaling::NonNeg { w } => w[l].times(w[l]).plus(delta).neg(),
            ConeScaling::Soc { eta, wbar } => if d > 1 && l == 0 {
                delta.neg()
            } else {
                eta.times(*eta).plus(delta).neg()
            },
            ConeScaling::Psd { wh, wih } => delta.neg(),
        };
        push_dual_col(ain_csr, &prob.a_in, off + l, n, zoff + off + l, diag, out);
        assert(out.closed() =~= before + these.subrange(0, l + 1));
        l += 1;
    }
    assert(these.subrange(0, d as int) =~= these);
}

} // verus!
