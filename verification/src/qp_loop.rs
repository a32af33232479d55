//! One iteration of the orthant engine: residuals and their measures, the verdict on the iterate,
//! the regularization, the backtracking of a step and the result.
use crate::conic_step::{
    dual_residual, equality_residual, finite_iterate, inequality_residual, least_product, ray_scale, Iterate,
    IterateView, Terms, Verdict,
};
use crate::lowrank::{objective, objective_at, LowRankDiag};
use crate::matrix::{matvec_spec, matvec_t_spec, DenseMatrix};
use crate::pc_step::{sums, sums_of, Direction, DirectionView};
use crate::problem::{
    check_diverge, divergence, grade, grade_status, is_unbounded, term_norm, term_norm_upto, unbounded_ray,
    QpProblem, QpSolution, Status, TermScale,
};
use crate::products::{form_fits, times, times_spec, times_t, times_t_spec, Form};
use crate::scalar::Scalar;
use crate::sparse::CscMatrix;
use crate::kkt::opt_deref;
use crate::vector::{
    constant, divided, divided_by, dot, dot_spec, filled, inf_norm, inf_norm_spec, is_all_finite, moved,
    moved_by,
};
use crate::warm::{least_entry, orthant_margin};
use vstd::prelude::*;

verus! {

/// The largest scaled entry of `q` and of the Hessian in the first `j` columns of row `i` and in
/// the rows before it.
pub open spec fn scaled_hessian<T: Scalar>(prob: QpProblem<T>, term: TermScale<T>, i: nat, j: nat) -> T
    decreases i, j,
{
    if j > 0 {
        scaled_hessian(prob, term, i, (j - 1) as nat).max(
            prob.p.at(i as int, j - 1).times(term.dual@[i as int]).times(term.dual@[j - 1]).abs(),
        )
    } else if i > 0 {
        scaled_hessian(prob, term, (i - 1) as nat, prob.n())
    } else {
        T::zero()
    }
}

/// The largest scaled entry of a constraint matrix in the first `j` columns of row `i` and in the
/// rows before it.
pub open spec fn scaled_rows<T: Scalar>(a: DenseMatrix<T>, row: Seq<T>, col: Seq<T>, i: nat, j: nat) -> T
    decreases i, j,
{
    if j > 0 {
        scaled_rows(a, row, col, i, (j - 1) as nat).max(
            a.at(i as int, j - 1).times(row[i as int]).times(col[j - 1]).abs(),
        )
    } else if i > 0 {
        scaled_rows(a, row, col, (i - 1) as nat, a.ncols as nat)
    } else {
        T::zero()
    }
}

/// The largest scaled entry of a vector, over the first `k`.
pub open spec fn scaled_entries<T: Scalar>(v: Seq<T>, scale: Seq<T>, k: nat) -> T
    decreases k,
{
    if k == 0 {
        T::zero()
    } else {
        scaled_entries(v, scale, (k - 1) as nat).max(v[k - 1].times(scale[k - 1]).abs())
    }
}

/// The sizes of the problem's data in original units, by which residuals are judged absolutely.
pub struct Floors<T> {
    pub dual: T,
    pub eq: T,
    pub ain: T,
}

/// The floors are those of the problem.
pub open spec fn floors_of<T: Scalar>(prob: QpProblem<T>, term: TermScale<T>, f: Floors<T>) -> bool {
    let one = T::one();
    let qs = scaled_entries(prob.q@, term.dual@, prob.n());
    let ps = scaled_hessian(prob, term, prob.n(), 0);
    let aes = scaled_rows(prob.a_eq, term.prim_eq@, term.dual@, prob.me(), 0);
    let ais = scaled_rows(prob.a_in, term.prim_in@, term.dual@, prob.mi(), 0);
    &&& f.dual == one.plus(qs).plus(ps).plus(aes).plus(ais)
    &&& f.eq == one.plus(scaled_entries(prob.b_eq@, term.prim_eq@, prob.me())).plus(aes)
    &&& f.ain == one.plus(scaled_entries(prob.b_in@, term.prim_in@, prob.mi())).plus(ais)
}

fn largest_scaled<T: Scalar>(v: &[T], scale: &[T]) -> (r: T)
    requires
        v@.len() <= scale@.len(),
    ensures
        r == scaled_entries(v@, scale@, v@.len()),
{
    let mut m = T::zero();
    let mut i: usize = 0;
    while i < v.len()
        invariant
            i <= v@.len() <= scale@.len(),
            m == scaled_entries(v@, scale@, i as nat),
        decreases v@.len() - i,
    {
        m = m.max(v[i].times(scale[i]).abs());
        i += 1;
    }
    m
}

fn largest_scaled_row<T: Scalar>(a: &DenseMatrix<T>, row: &[T], col: &[T]) -> (r: T)
    requires
        a.wf(),
        row@.len() == a.nrows,
        col@.len() == a.ncols,
    ensures
        r == scaled_rows(*a, row@, col@, a.nrows as nat, 0),
{
    let mut m = T::zero();
    let mut i: usize = 0;
    while i < a.nrows
        invariant
            a.wf(),
            row@.len() == a.nrows,
            col@.len() == a.ncols,
            i <= a.nrows,
            m == scaled_rows(*a, row@, col@, i as nat, 0),
        decreases a.nrows - i,
    {
        let mut j: usize = 0;
        while j < a.ncols
            invariant
                a.wf(),
                row@.len() == a.nrows,
                col@.len() == a.ncols,
                i < a.nrows,
                j <= a.ncols,
                m == scaled_rows(*a, row@, col@, i as nat, j as nat),
            decreases a.ncols - j,
        {
            m = m.max(a.get(i, j).times(row[i]).times(col[j]).abs());
            j += 1;
        }
        i += 1;
    }
    m
}

proof fn lemma_hessian_rows<T: Scalar>(prob: QpProblem<T>, term: TermScale<T>, i: nat, j: nat)
    requires
        prob.p.ncols == prob.n(),
    ensures
        scaled_hessian(prob, term, i, j) == scaled_rows(prob.p, term.dual@, term.dual@, i, j),
    decreases i, j,
{
    if j > 0 {
        lemma_hessian_rows(prob, term, i, (j - 1) as nat);
    } else if i > 0 {
        lemma_hessian_rows(prob, term, (i - 1) as nat, prob.n());
    }
}

/// The sizes of the problem's data in original units.
pub fn data_floors<T: Scalar>(prob: &QpProblem<T>, term: &TermScale<T>) -> (f: Floors<T>)
    requires
        prob.wf(),
        term.fits(prob.n(), prob.me(), prob.mi()),
    ensures
        floors_of(*prob, *term, f),
{
    let one = T::one();
    let qs = largest_scaled(&prob.q, &term.dual);
    let ps = largest_scaled_row(&prob.p, &term.dual, &term.dual);
    proof {
        lemma_hessian_rows(*prob, *term, prob.n(), 0);
    }
    let aes = largest_scaled_row(&prob.a_eq, &term.prim_eq, &term.dual);
    let ais = largest_scaled_row(&prob.a_in, &term.prim_in, &term.dual);
    Floors {
        dual: one.plus(qs).plus(ps).plus(aes).plus(ais),
        eq: one.plus(largest_scaled(&prob.b_eq, &term.prim_eq)).plus(aes),
        ain: one.plus(largest_scaled(&prob.b_in, &term.prim_in)).plus(ais),
    }
}

/// The product of a low-rank Hessian with a vector: `L (L' x) + d x`.
pub open spec fn low_rank_times<T: Scalar>(lr: LowRankDiag<T>, x: Seq<T>) -> Seq<T> {
    let l = matvec_spec(lr.l, matvec_t_spec(lr.l, x));
    Seq::new(lr.d@.len(), |i: int| l[i].plus(lr.d@[i].times(x[i])))
}

/// The product of a low-rank Hessian with a vector.
pub fn low_rank_product<T: Scalar>(lr: &LowRankDiag<T>, x: &[T]) -> (r: Vec<T>)
    requires
        lr.fits(x@.len()),
    ensures
        r@ == low_rank_times(*lr, x@),
{
    let ltx = lr.l.matvec_t(x);
    let l = lr.l.matvec(&ltx);
    let n: usize = x.len();
    let mut r: Vec<T> = Vec::with_capacity(n);
    let mut i: usize = 0;
    while i < n
        invariant
            n == x@.len(),
            lr.fits(n as nat),
            l@ == matvec_spec(lr.l, matvec_t_spec(lr.l, x@)),
            i <= n,
            r@ =~= low_rank_times(*lr, x@).subrange(0, i as int),
        decreases n - i,
    {
        r.push(l[i].plus(lr.d[i].times(x[i])));
        i += 1;
    }
    assert(r@ =~= low_rank_times(*lr, x@));
    r
}

/// `A_in x` where every row has at most one entry, `col_ineq[r]`.
pub open spec fn bounds_times<T: Scalar>(col_ineq: Seq<(usize, T)>, x: Seq<T>) -> Seq<T> {
    Seq::new(col_ineq.len(), |r: int| col_ineq[r].1.times(x[col_ineq[r].0 as int]))
}

/// `A_in' z` where every row has at most one entry, over the first `k` rows.
pub open spec fn bounds_t_times<T: Scalar>(col_ineq: Seq<(usize, T)>, z: Seq<T>, n: nat, k: nat) -> Seq<T>
    decreases k,
{
    if k == 0 {
        constant(T::zero(), n)
    } else {
        let front = bounds_t_times(col_ineq, z, n, (k - 1) as nat);
        let (c, v) = col_ineq[k - 1];
        if v.equals(T::zero()) {
            front
        } else {
            front.update(c as int, front[c as int].plus(v.times(z[k - 1])))
        }
    }
}

/// `A_in x` where every row has at most one entry.
pub fn bounds_product<T: Scalar>(col_ineq: &[(usize, T)], x: &[T]) -> (r: Vec<T>)
    requires
        forall|i: int| 0 <= i < col_ineq@.len() ==> (#[trigger] col_ineq@[i]).0 < x@.len(),
    ensures
        r@ == bounds_times(col_ineq@, x@),
{
    let mut r: Vec<T> = Vec::with_capacity(col_ineq.len());
    let mut i: usize = 0;
    while i < col_ineq.len()
        invariant
            forall|i: int| 0 <= i < col_ineq@.len() ==> (#[trigger] col_ineq@[i]).0 < x@.len(),
            i <= col_ineq@.len(),
            r@ =~= bounds_times(col_ineq@, x@).subrange(0, i as int),
        decreases col_ineq@.len() - i,
    {
        let (c, v) = col_ineq[i];
        assert(col_ineq@[i as int].0 < x@.len());
        r.push(v.times(x[c]));
        i += 1;
    }
    assert(r@ =~= bounds_times(col_ineq@, x@));
    r
}

/// `A_in' z` where every row has at most one entry.
pub fn bounds_t_product<T: Scalar>(col_ineq: &[(usize, T)], z: &[T], n: usize) -> (r: Vec<T>)
    requires
        z@.len() == col_ineq@.len(),
        forall|i: int| 0 <= i < col_ineq@.len() ==> (#[trigger] col_ineq@[i]).0 < n,
    ensures
        r@ == bounds_t_times(col_ineq@, z@, n as nat, col_ineq@.len()),
        r@.len() == n,
{
    let mut r: Vec<T> = filled(T::zero(), n);
    let mut i: usize = 0;
    while i < col_ineq.len()
        invariant
            z@.len() == col_ineq@.len(),
            forall|i: int| 0 <= i < col_ineq@.len() ==> (#[trigger] col_ineq@[i]).0 < n,
            i <= col_ineq@.len(),
            r@.len() == n,
            r@ == bounds_t_times(col_ineq@, z@, n as nat, i as nat),
        decreases col_ineq@.len() - i,
    {
        let (c, v) = col_ineq[i];
        assert(col_ineq@[i as int].0 < n);
        if !v.equals(T::zero()) {
            let t = r[c].plus(v.times(z[i]));
            r[c] = t;
        }
        i += 1;
    }
    r
}

/// What is measured of an iterate.
pub struct Measures<T> {
    pub r_d: Vec<T>,
    pub r_b: Vec<T>,
    pub r_h: Vec<T>,
    /// The mean complementarity, zero without slacks.
    pub mu: T,
    /// The least complementarity product, zero without slacks.
    pub min_sz: T,
    /// The residuals relative to the size of their terms.
    pub nd: T,
    pub nb: T,
    pub nh: T,
    /// The residuals in original units relative to the size of the data.
    pub nd_abs: T,
    pub nb_abs: T,
    pub nh_abs: T,
}

/// The least product relative to the mean.
pub open spec fn least_ratio<T: Scalar>(mu: T, min_sz: T) -> T {
    if T::zero().below(mu) {
        min_sz.over(mu)
    } else {
        T::one()
    }
}

/// The measures are those of the iterate.
pub open spec fn measures_of<T: Scalar>(
    prob: QpProblem<T>,
    term: TermScale<T>,
    f: Floors<T>,
    t: Terms<T>,
    it: IterateView<T>,
    m: Measures<T>,
) -> bool {
    let one = T::one();
    let mi = prob.mi();
    &&& m.r_d@ == dual_residual(prob, t)
    &&& m.r_b@ == equality_residual(prob, t)
    &&& m.r_h@ == inequality_residual(prob, t, it.s)
    &&& m.mu == (if mi > 0 {
        dot_spec(it.s, it.z).over(T::from_usize(mi as usize))
    } else {
        T::zero()
    })
    &&& m.min_sz == (if mi > 0 {
        least_product(it.s, it.z, mi)
    } else {
        T::zero()
    })
    &&& m.nd == inf_norm_spec(m.r_d@).over(
        one.plus(inf_norm_spec(t.px@).max(inf_norm_spec(prob.q@)).max(inf_norm_spec(t.atz@))),
    )
    &&& m.nb == inf_norm_spec(m.r_b@).over(
        one.plus(inf_norm_spec(t.aeqx@).max(inf_norm_spec(prob.b_eq@))),
    )
    &&& m.nh == inf_norm_spec(m.r_h@).over(
        one.plus(inf_norm_spec(t.ainx@).max(inf_norm_spec(it.s)).max(inf_norm_spec(prob.b_in@))),
    )
    &&& m.nd_abs == term_norm_upto(m.r_d@, term.dual@, prob.n()).over(f.dual)
    &&& m.nb_abs == term_norm_upto(m.r_b@, term.prim_eq@, prob.me()).over(f.eq)
    &&& m.nh_abs == term_norm_upto(m.r_h@, term.prim_in@, prob.mi()).over(f.ain)
}

/// Measures an iterate.
pub fn measure<T: Scalar>(
    prob: &QpProblem<T>,
    term: &TermScale<T>,
    f: &Floors<T>,
    t: &Terms<T>,
    it: &Iterate<T>,
) -> (m: Measures<T>)
    requires
        prob.wf(),
        term.fits(prob.n(), prob.me(), prob.mi()),
        it.fits(*prob),
        t.px@.len() == prob.n(),
        t.aty@.len() == prob.n(),
        t.atz@.len() == prob.n(),
        t.aeqx@.len() == prob.me(),
        t.ainx@.len() == prob.mi(),
    ensures
        measures_of(*prob, *term, *f, *t, it@, m),
{
    let n: usize = prob.q.len();
    let me: usize = prob.b_eq.len();
    let mi: usize = prob.b_in.len();
    let one = T::one();
    let base = crate::conic_step::compute_residuals(prob, t, one, it);
    let mu = if mi > 0 {
        dot(&it.s, &it.z).over(T::from_usize(mi))
    } else {
        T::zero()
    };
    let dual_mag = inf_norm(&t.px).max(inf_norm(&prob.q)).max(inf_norm(&t.atz));
    let nd = inf_norm(&base.r_d).over(one.plus(dual_mag));
    let eq_mag = inf_norm(&t.aeqx).max(inf_norm(&prob.b_eq));
    let nb = inf_norm(&base.r_b).over(one.plus(eq_mag));
    let in_mag = inf_norm(&t.ainx).max(inf_norm(&it.s)).max(inf_norm(&prob.b_in));
    let nh = inf_norm(&base.r_h).over(one.plus(in_mag));
    let nd_abs = term_norm(&base.r_d, &term.dual).over(f.dual);
    let nb_abs = term_norm(&base.r_b, &term.prim_eq).over(f.eq);
    let nh_abs = term_norm(&base.r_h, &term.prim_in).over(f.ain);
    Measures {
        r_d: base.r_d,
        r_b: base.r_b,
        r_h: base.r_h,
        mu,
        min_sz: base.min_sz,
        nd,
        nb,
        nh,
        nd_abs,
        nb_abs,
        nh_abs,
    }
}

/// The state of the iteration beside the iterate.
pub struct QpState<T> {
    pub best: Iterate<T>,
    pub best_err: T,
    /// Iterations since the best error improved.
    pub since: usize,
    /// Consecutive iterations with a product far below the mean.
    pub lagging: usize,
    /// Consecutive iterations in which the mean complementarity hardly fell.
    pub mu_stall: usize,
    pub prev_mu: T,
    pub prev_nd: T,
    pub prev_nh: T,
    /// The best residual of this window of iterations, and of the one before.
    pub window: T,
    pub prev_window: T,
    pub rho0: T,
    pub rho: T,
    pub delta: T,
    pub short_steps: usize,
}

/// The baseline of the dual regularization.
pub open spec fn qp_delta_floor<T: Scalar>() -> T {
    T::decimal(1, 8)
}

/// The state that the iteration starts with.
pub fn initial_state<T: Scalar>(it: &Iterate<T>, rho0: T) -> (st: QpState<T>)
    ensures
        st.best@ == it@,
        st.best_err == T::infinity(),
        st.since == 0,
        st.lagging == 0,
        st.mu_stall == 0,
        st.prev_mu == T::zero(),
        st.prev_nd == T::one(),
        st.prev_nh == T::one(),
        st.window == T::infinity(),
        st.prev_window == T::infinity(),
        st.rho0 == rho0,
        st.rho == rho0,
        st.delta == qp_delta_floor::<T>(),
        st.short_steps == 0,
{
    QpState {
        best: it.duplicate(),
        best_err: T::infinity(),
        since: 0,
        lagging: 0,
        mu_stall: 0,
        prev_mu: T::zero(),
        prev_nd: T::one(),
        prev_nh: T::one(),
        window: T::infinity(),
        prev_window: T::infinity(),
        rho0,
        rho: rho0,
        delta: T::decimal(1, 8),
        short_steps: 0,
    }
}

/// The combined error of an iterate.
pub open spec fn qp_error<T: Scalar>(m: Measures<T>, comp: T) -> T {
    m.nd.max(m.nb).max(m.nh).max(m.mu.times(comp))
}

/// The combined residual of an iterate.
pub open spec fn residual<T: Scalar>(m: Measures<T>) -> T {
    m.nd.max(m.nb).max(m.nh)
}

/// The number of consecutive iterations in which the mean complementarity fell by less than a
/// hundredth, from iteration 20 on.
pub open spec fn stalled<T: Scalar>(count: int, it: int, mu: T, prev_mu: T) -> int {
    if it >= 20 && T::zero().below(mu) && prev_mu.times(T::decimal(99, 2)).at_most(mu) {
        count + 1
    } else {
        0
    }
}

/// Every residual, relative and absolute, and the complementarity are within the tolerance, and no
/// single product lags behind.
pub open spec fn within_tolerance<T: Scalar>(m: Measures<T>, comp: T, eps: T) -> bool {
    &&& m.nd.at_most(eps) && m.nb.at_most(eps) && m.nh.at_most(eps)
    &&& m.mu.times(comp).at_most(eps)
    &&& T::decimal(1, 3).at_most(least_ratio(m.mu, m.min_sz)) || m.min_sz.times(comp).at_most(eps)
    &&& m.nd_abs.at_most(eps) && m.nb_abs.at_most(eps) && m.nh_abs.at_most(eps)
}

/// The relaxed tolerance: the larger of the root of the tolerance and ten times it.
pub open spec fn relaxed<T: Scalar>(eps: T) -> T {
    eps.sqrt().max(eps.times(T::decimal(10, 0)))
}

/// The residuals are within the relaxed tolerance.
pub open spec fn residuals_close<T: Scalar>(m: Measures<T>, eps: T) -> bool {
    m.nd.at_most(relaxed(eps)) && m.nb.at_most(relaxed(eps)) && m.nh.at_most(relaxed(eps))
}

/// The residuals and the complementarity are within the relaxed tolerance.
pub open spec fn near_optimum<T: Scalar>(m: Measures<T>, comp: T, eps: T) -> bool {
    residuals_close(m, eps) && m.mu.times(comp).at_most(relaxed(eps))
}

/// A window after a residual is recorded in it.
pub open spec fn recorded<T: Scalar>(window: T, cur: T) -> T {
    if !window.is_finite() || cur.below(window) {
        cur
    } else {
        window
    }
}

/// The windows after the check of progress close to the optimum, and whether it ends the solve: at
/// the end of every 25 iterations, if the residual did not halve over them.
pub open spec fn near_progress<T: Scalar>(
    it: int,
    near: bool,
    cur: T,
    eps: T,
    window: T,
    prev: T,
) -> (bool, T, T) {
    let w = if near {
        recorded(window, cur)
    } else {
        window
    };
    if it % 25 == 24 && near {
        (
            prev.is_finite() && prev.at_most(cur.times(T::decimal(2, 0))) && cur.at_most(relaxed(eps)),
            T::infinity(),
            w,
        )
    } else {
        (false, w, prev)
    }
}

/// The windows after the check of progress anywhere, and whether it ends the solve: at the end of
/// every 25 iterations, from iteration 50 on, if the residual fell by less than 3 of 100 over them.
pub open spec fn any_progress<T: Scalar>(it: int, cur: T, window: T, prev: T) -> (bool, T, T) {
    if it % 25 == 24 && it >= 50 {
        (
            prev.is_finite() && prev.at_most(cur.times(T::decimal(103, 2))),
            T::infinity(),
            window,
        )
    } else {
        (false, window, prev)
    }
}

/// The largest entry of a vector, at least zero, over the first `k`.
pub open spec fn largest_upto<T: Scalar>(v: Seq<T>, k: nat) -> T
    decreases k,
{
    if k == 0 {
        T::zero()
    } else {
        largest_upto(v, (k - 1) as nat).max(v[k - 1])
    }
}

/// The normalized multipliers pass the test for primal infeasibility: no inequality multiplier is
/// negative, the product with the right-hand sides is, and that with the constraint matrices vanishes.
pub open spec fn qp_primal_test<T: Scalar>(
    prob: QpProblem<T>,
    eq: (Form, Option<CscMatrix<T>>),
    ain: (Form, Option<CscMatrix<T>>),
    it: IterateView<T>,
) -> bool {
    let ns = ray_scale(prob, it);
    let yh = divided(it.y, ns);
    let zh = divided(it.z, ns);
    &&& T::zero().at_most(orthant_margin(it.z, it.z.len()))
    &&& dot_spec(prob.b_eq@, yh).plus(dot_spec(prob.b_in@, zh)).below(T::decimal(1, 10).neg())
    &&& inf_norm_spec(
        sums(times_t_spec(eq.0, eq.1, prob.a_eq, yh), times_t_spec(ain.0, ain.1, prob.a_in, zh)),
    ).below(T::decimal(1, 6))
}

/// The normalized unknowns pass the test for dual infeasibility: they descend, keep the equality
/// rows, do not increase any inequality row and have no curvature.
pub open spec fn qp_dual_test<T: Scalar>(
    prob: QpProblem<T>,
    eq: (Form, Option<CscMatrix<T>>),
    ain: (Form, Option<CscMatrix<T>>),
    it: IterateView<T>,
) -> bool {
    let xh = divided(it.x, ray_scale(prob, it));
    let ax = times_spec(ain.0, ain.1, prob.a_in, xh);
    &&& dot_spec(prob.q@, xh).below(T::decimal(1, 10).neg())
    &&& inf_norm_spec(times_spec(eq.0, eq.1, prob.a_eq, xh)).max(largest_upto(ax, ax.len())).below(
        T::decimal(1, 6),
    )
    &&& inf_norm_spec(matvec_spec(prob.p, xh)).below(T::decimal(1, 6))
}

/// The iterate has blown up.
pub open spec fn blown_up<T: Scalar>(prob: QpProblem<T>, it: IterateView<T>) -> bool {
    divergence(it.x, it.z, T::decimal(1000000000000, 0)) is Some && T::zero().below(
        ray_scale(prob, it),
    )
}

/// The verdict on an iterate in iteration `k` of at most `max_iters`, once the stall counters are
/// updated: `since` iterations without improvement, `mu_stall` with a stalled complementarity. Where the
/// complementarity or the whole run stalls away from the optimum, the best iterate is given; an early
/// ending near the optimum gives the iterate itself.
pub open spec fn qp_verdict<T: Scalar>(
    prob: QpProblem<T>,
    eq: (Form, Option<CscMatrix<T>>),
    ain: (Form, Option<CscMatrix<T>>),
    comp: T,
    eps: T,
    k: int,
    max_iters: int,
    it: IterateView<T>,
    m: Measures<T>,
    since: int,
    mu_stall: int,
    window: T,
    prev_window: T,
) -> Verdict {
    let near = near_optimum(m, comp, eps);
    let cur = residual(m);
    let (slow_near, w1, p1) = near_progress(k, near, cur, eps, window, prev_window);
    let (slow, w2, p2) = any_progress(k, cur, w1, p1);
    let last = if max_iters > 20 {
        max_iters - 20
    } else {
        0
    };
    if !finite_iterate(it) {
        Verdict::Restore(Status::MaxIterations)
    } else if within_tolerance(m, comp, eps) {
        Verdict::Accept(Status::Solved)
    } else if !near && mu_stall >= 15 {
        Verdict::Restore(Status::SolvedInaccurate)
    } else if (residuals_close(m, eps) && !near && since >= 15) || (near && since >= 10) || (near && k >= last)
        || slow_near {
        Verdict::Accept(Status::SolvedInaccurate)
    } else if slow {
        Verdict::Restore(Status::SolvedInaccurate)
    } else if unbounded_ray(prob, it.x) {
        Verdict::Accept(Status::DualInfeasible)
    } else if blown_up(prob, it) && qp_primal_test(prob, eq, ain, it) {
        Verdict::Accept(Status::PrimalInfeasible)
    } else if blown_up(prob, it) && qp_dual_test(prob, eq, ain, it) {
        Verdict::Accept(Status::DualInfeasible)
    } else {
        Verdict::Continue
    }
}

fn largest<T: Scalar>(v: &[T]) -> (r: T)
    ensures
        r == largest_upto(v@, v@.len()),
{
    let mut m = T::zero();
    let mut i: usize = 0;
    while i < v.len()
        invariant
            i <= v@.len(),
            m == largest_upto(v@, i as nat),
        decreases v@.len() - i,
    {
        m = m.max(v[i]);
        i += 1;
    }
    m
}

fn passes_primal_test<T: Scalar>(
    prob: &QpProblem<T>,
    eq: Form,
    eq_csr: Option<&CscMatrix<T>>,
    ain: Form,
    in_csr: Option<&CscMatrix<T>>,
    it: &Iterate<T>,
    ns: T,
) -> (ok: bool)
    requires
        prob.wf(),
        form_fits(eq, opt_deref(eq_csr), prob.a_eq),
        form_fits(ain, opt_deref(in_csr), prob.a_in),
        it.fits(*prob),
        ns == ray_scale(*prob, it@),
    ensures
        ok == qp_primal_test(*prob, (eq, opt_deref(eq_csr)), (ain, opt_deref(in_csr)), it@),
{
    let yh = divided_by(&it.y, ns);
    let zh = divided_by(&it.z, ns);
    let bty = dot(&prob.b_eq, &yh).plus(dot(&prob.b_in, &zh));
    let aty = times_t(eq, eq_csr, &prob.a_eq, &yh);
    let atz = times_t(ain, in_csr, &prob.a_in, &zh);
    let both = sums_of(&aty, &atz);
    T::zero().at_most(least_entry(&it.z)) && bty.below(T::decimal(1, 10).neg()) && inf_norm(&both).below(
        T::decimal(1, 6),
    )
}

fn passes_dual_test<T: Scalar>(
    prob: &QpProblem<T>,
    eq: Form,
    eq_csr: Option<&CscMatrix<T>>,
    ain: Form,
    in_csr: Option<&CscMatrix<T>>,
    it: &Iterate<T>,
    ns: T,
) -> (ok: bool)
    requires
        prob.wf(),
        form_fits(eq, opt_deref(eq_csr), prob.a_eq),
        form_fits(ain, opt_deref(in_csr), prob.a_in),
        it.fits(*prob),
        ns == ray_scale(*prob, it@),
    ensures
        ok == qp_dual_test(*prob, (eq, opt_deref(eq_csr)), (ain, opt_deref(in_csr)), it@),
{
    let xh = divided_by(&it.x, ns);
    let qtx = dot(&prob.q, &xh);
    let aeq = times(eq, eq_csr, &prob.a_eq, &xh);
    let ax = times(ain, in_csr, &prob.a_in, &xh);
    let axm = inf_norm(&aeq).max(largest(&ax));
    qtx.below(T::decimal(1, 10).neg()) && axm.below(T::decimal(1, 6)) && inf_norm(
        &prob.p.matvec(&xh),
    ).below(T::decimal(1, 6))
}

/// The number of iterations since the best error improved, after this one.
pub open spec fn since_after<T: Scalar>(since: int, improved: bool) -> int {
    if improved {
        0
    } else {
        since + 1
    }
}

/// Judges the iterate of iteration `k` and updates the record of the best one, the stall counters
/// and the windows.
#[verifier::rlimit(40)]
pub fn qp_judge<T: Scalar>(
    prob: &QpProblem<T>,
    eq: Form,
    eq_csr: Option<&CscMatrix<T>>,
    ain: Form,
    in_csr: Option<&CscMatrix<T>>,
    comp: T,
    eps: T,
    k: usize,
    max_iters: usize,
    it: &Iterate<T>,
    m: &Measures<T>,
    st: &mut QpState<T>,
) -> (v: Verdict)
    requires
        prob.wf(),
        form_fits(eq, opt_deref(eq_csr), prob.a_eq),
        form_fits(ain, opt_deref(in_csr), prob.a_in),
        it.fits(*prob),
        old(st).since < usize::MAX,
        old(st).lagging < usize::MAX,
        old(st).mu_stall < usize::MAX,
    ensures
        v == qp_verdict(
            *prob,
            (eq, opt_deref(eq_csr)),
            (ain, opt_deref(in_csr)),
            comp,
            eps,
            k as int,
            max_iters as int,
            it@,
            *m,
            since_after::<T>(
                old(st).since as int,
                qp_error(*m, comp).below(old(st).best_err),
            ),
            stalled(old(st).mu_stall as int, k as int, m.mu, old(st).prev_mu),
            old(st).window,
            old(st).prev_window,
        ),
        final(st).mu_stall == stalled(old(st).mu_stall as int, k as int, m.mu, old(st).prev_mu),
        final(st).prev_mu == old(st).prev_mu,
        final(st).lagging == (if least_ratio(m.mu, m.min_sz).below(T::decimal(1, 3)) {
            old(st).lagging + 1
        } else {
            0
        }),
        finite_iterate(it@) && qp_error(*m, comp).below(old(st).best_err) ==> final(st).best@ == it@
            && final(st).best_err == qp_error(*m, comp) && final(st).since == 0,
        finite_iterate(it@) && !qp_error(*m, comp).below(old(st).best_err) ==> final(st).best@ == old(
            st,
        ).best@ && final(st).best_err == old(st).best_err && final(st).since == old(st).since + 1,
        !finite_iterate(it@) ==> final(st).best@ == old(st).best@ && final(st).best_err == old(
            st,
        ).best_err && final(st).since == old(st).since,
        v == Verdict::Continue ==> {
            let near = near_optimum(*m, comp, eps);
            let cur = residual(*m);
            let (a, w1, p1) = near_progress(
                k as int,
                near,
                cur,
                eps,
                old(st).window,
                old(st).prev_window,
            );
            let (b, w2, p2) = any_progress(k as int, cur, w1, p1);
            final(st).prev_window == p2 && final(st).window == (if k >= 50 {
                recorded(w2, cur)
            } else {
                w2
            })
        },
        final(st).rho0 == old(st).rho0,
        final(st).rho == old(st).rho,
        final(st).delta == old(st).delta,
        final(st).prev_nd == old(st).prev_nd,
        final(st).prev_nh == old(st).prev_nh,
        final(st).short_steps == old(st).short_steps,
{
    let zero = T::zero();
    if k >= 20 && zero.below(m.mu) && st.prev_mu.times(T::decimal(99, 2)).at_most(m.mu) {
        st.mu_stall = st.mu_stall + 1;
    } else {
        st.mu_stall = 0;
    }
    let ratio = if zero.below(m.mu) {
        m.min_sz.over(m.mu)
    } else {
        T::one()
    };
    if ratio.below(T::decimal(1, 3)) {
        st.lagging = st.lagging + 1;
    } else {
        st.lagging = 0;
    }
    let finite = is_all_finite(&it.x) && is_all_finite(&it.y) && is_all_finite(&it.s) && is_all_finite(
        &it.z,
    );
    let err = m.nd.max(m.nb).max(m.nh).max(m.mu.times(comp));
    if !finite {
        return Verdict::Restore(Status::MaxIterations);
    }
    if err.below(st.best_err) {
        st.best_err = err;
        st.best = it.duplicate();
        st.since = 0;
    } else {
        st.since = st.since + 1;
    }
    let comp_ok = m.mu.times(comp).at_most(eps) && (T::decimal(1, 3).at_most(ratio) || m.min_sz.times(
        comp,
    ).at_most(eps));
    if m.nd.at_most(eps) && m.nb.at_most(eps) && m.nh.at_most(eps) && comp_ok && m.nd_abs.at_most(eps)
        && m.nb_abs.at_most(eps) && m.nh_abs.at_most(eps) {
        return Verdict::Accept(Status::Solved);
    }
    let loose = eps.sqrt().max(eps.times(T::decimal(10, 0)));
    let close = m.nd.at_most(loose) && m.nb.at_most(loose) && m.nh.at_most(loose);
    let near = close && m.mu.times(comp).at_most(loose);
    let last: usize = if max_iters > 20 {
        max_iters - 20
    } else {
        0
    };
    if !near && st.mu_stall >= 15 {
        return Verdict::Restore(Status::SolvedInaccurate);
    }
    if (close && !near && st.since >= 15) || (near && st.since >= 10) || (near && k >= last) {
        return Verdict::Accept(Status::SolvedInaccurate);
    }
    let cur = m.nd.max(m.nb).max(m.nh);
    if near && (!st.window.is_finite() || cur.below(st.window)) {
        st.window = cur;
    }
    if k % 25 == 24 && near {
        let prev = st.prev_window;
        st.prev_window = st.window;
        st.window = T::infinity();
        if prev.is_finite() && prev.at_most(cur.times(T::decimal(2, 0))) && cur.at_most(loose) {
            return Verdict::Accept(Status::SolvedInaccurate);
        }
    }
    if k % 25 == 24 && k >= 50 {
        let prev = st.prev_window;
        st.prev_window = st.window;
        st.window = T::infinity();
        if prev.is_finite() && prev.at_most(cur.times(T::decimal(103, 2))) {
            return Verdict::Restore(Status::SolvedInaccurate);
        }
    }
    if k >= 50 && (!st.window.is_finite() || cur.below(st.window)) {
        st.window = cur;
    }
    if is_unbounded(prob, &it.x) {
        return Verdict::Accept(Status::DualInfeasible);
    }
    if check_diverge(&it.x, &it.z, T::decimal(1000000000000, 0)).is_some() {
        let ny = if prob.b_eq.len() > 0 {
            inf_norm(&it.y)
        } else {
            zero
        };
        let nz = if prob.b_in.len() > 0 {
            inf_norm(&it.z)
        } else {
            zero
        };
        let ns = inf_norm(&it.x).max(ny).max(nz).max(T::one());
        if zero.below(ns) {
            if passes_primal_test(prob, eq, eq_csr, ain, in_csr, it, ns) {
                return Verdict::Accept(Status::PrimalInfeasible);
            }
            if passes_dual_test(prob, eq, eq_csr, ain, in_csr, it, ns) {
                return Verdict::Accept(Status::DualInfeasible);
            }
        }
    }
    Verdict::Continue
}

/// A blown-up iterate alone is never reported as infeasible: the status comes only with the test
/// that belongs to it. A problem is solved only with every measure within the tolerance, and
/// an iterate that is not finite is never accepted.
pub proof fn qp_verdicts_are_tested<T: Scalar>(
    prob: QpProblem<T>,
    eq: (Form, Option<CscMatrix<T>>),
    ain: (Form, Option<CscMatrix<T>>),
    comp: T,
    eps: T,
    k: int,
    max_iters: int,
    it: IterateView<T>,
    m: Measures<T>,
    since: int,
    mu_stall: int,
    window: T,
    prev_window: T,
)
    ensures
        ({
            let v = qp_verdict(
                prob,
                eq,
                ain,
                comp,
                eps,
                k,
                max_iters,
                it,
                m,
                since,
                mu_stall,
                window,
                prev_window,
            );
            &&& v == Verdict::Accept(Status::Solved) ==> within_tolerance(m, comp, eps)
            &&& v == Verdict::Accept(Status::PrimalInfeasible) ==> qp_primal_test(prob, eq, ain, it)
            &&& v == Verdict::Accept(Status::DualInfeasible) ==> unbounded_ray(prob, it.x)
                || qp_dual_test(prob, eq, ain, it)
            &&& v is Accept ==> finite_iterate(it)
        }),
{
}

/// The primal regularization after an iteration: raised where the gap ran away, and moved towards
/// the baseline where the dual residual improved.
pub open spec fn next_rho<T: Scalar>(rho: T, rho0: T, m: Measures<T>, prev_mu: T, prev_nd: T) -> T {
    let raised = if runaway(m.mu, prev_mu) {
        rho.times(m.mu.over(prev_mu).min(T::decimal(1000000, 0))).min(T::decimal(1, 2))
    } else {
        rho
    };
    if m.nd.below(T::decimal(95, 2).times(prev_nd)) {
        rho0.plus(T::decimal(7, 1).times(raised.minus(rho0))).max(rho0)
    } else {
        raised
    }
}

/// The dual regularization after an iteration: raised where the gap ran away, and moved towards the
/// baseline where the primal residual improved.
pub open spec fn next_delta<T: Scalar>(delta: T, m: Measures<T>, prev_mu: T, prev_nh: T) -> T {
    let delta0 = qp_delta_floor::<T>();
    let raised = if runaway(m.mu, prev_mu) {
        delta.times(m.mu.over(prev_mu).min(T::decimal(1000000, 0))).min(T::decimal(1, 2))
    } else {
        delta
    };
    if m.nh.max(m.nb).below(T::decimal(95, 2).times(prev_nh)) {
        delta0.plus(T::decimal(7, 1).times(raised.minus(delta0))).max(delta0)
    } else {
        raised
    }
}

/// The gap grew fivefold, to more than a million.
pub open spec fn runaway<T: Scalar>(mu: T, prev_mu: T) -> bool {
    prev_mu.times(T::decimal(5, 0)).below(mu) && T::decimal(1000000, 0).below(mu)
}

/// Updates the regularization from the second iteration on, and records the measures of this one.
pub fn qp_regularize<T: Scalar>(first: bool, m: &Measures<T>, st: &mut QpState<T>)
    ensures
        final(st).rho == (if first {
            old(st).rho
        } else {
            next_rho(old(st).rho, old(st).rho0, *m, old(st).prev_mu, old(st).prev_nd)
        }),
        final(st).delta == (if first {
            old(st).delta
        } else {
            next_delta(old(st).delta, *m, old(st).prev_mu, old(st).prev_nh)
        }),
        final(st).prev_nd == m.nd,
        final(st).prev_nh == m.nh.max(m.nb),
        final(st).prev_mu == m.mu,
        final(st).rho0 == old(st).rho0,
        final(st).best == old(st).best,
        final(st).best_err == old(st).best_err,
        final(st).since == old(st).since,
        final(st).lagging == old(st).lagging,
        final(st).mu_stall == old(st).mu_stall,
        final(st).window == old(st).window,
        final(st).prev_window == old(st).prev_window,
        final(st).short_steps == old(st).short_steps,
{
    if !first {
        let delta0: T = T::decimal(1, 8);
        if st.prev_mu.times(T::decimal(5, 0)).below(m.mu) && T::decimal(1000000, 0).below(m.mu) {
            let boost = m.mu.over(st.prev_mu).min(T::decimal(1000000, 0));
            st.rho = st.rho.times(boost).min(T::decimal(1, 2));
            st.delta = st.delta.times(boost).min(T::decimal(1, 2));
        }
        if m.nd.below(T::decimal(95, 2).times(st.prev_nd)) {
            st.rho = st.rho0.plus(T::decimal(7, 1).times(st.rho.minus(st.rho0))).max(st.rho0);
        }
        if m.nh.max(m.nb).below(T::decimal(95, 2).times(st.prev_nh)) {
            st.delta = delta0.plus(T::decimal(7, 1).times(st.delta.minus(delta0))).max(delta0);
        }
    }
    st.prev_nd = m.nd;
    st.prev_nh = m.nh.max(m.nb);
    st.prev_mu = m.mu;
}

/// The number of centrality correctors: none while a product has lagged behind for five
/// iterations, else two.
pub fn qp_correctors(lagging: usize) -> (r: usize)
    ensures
        r == (if lagging >= 5 {
            0usize
        } else {
            2usize
        }),
{
    if lagging >= 5 {
        0
    } else {
        2
    }
}

/// Every entry of `v + t d` is finite.
pub open spec fn stays_finite<T: Scalar>(v: Seq<T>, t: T, d: Seq<T>) -> bool {
    forall|i: int| 0 <= i < v.len() ==> (#[trigger] v[i]).plus(t.times(d[i])).is_finite()
}

/// Every entry of `v + t d` is finite and above the floor of `1e-13`.
pub open spec fn stays_inside<T: Scalar>(v: Seq<T>, t: T, d: Seq<T>) -> bool {
    forall|i: int|
        0 <= i < v.len() ==> (#[trigger] v[i]).plus(t.times(d[i])).is_finite() && T::decimal(
            1,
            13,
        ).below(v[i].plus(t.times(d[i])))
}

/// The step scaled by `t` keeps the iterate finite and inside.
pub open spec fn step_holds<T: Scalar>(it: IterateView<T>, d: DirectionView<T>, t: T) -> bool {
    stays_finite(it.x, t, d.x) && stays_inside(it.s, t, d.s) && stays_inside(it.z, t, d.z)
}

/// The scale of a step after `k` halvings.
pub open spec fn halved<T: Scalar>(k: nat) -> T
    decreases k,
{
    if k == 0 {
        T::one()
    } else {
        halved::<T>((k - 1) as nat).times(T::decimal(5, 1))
    }
}

/// Halving stops after `k` halvings: with a step that holds, or below the least scale.
pub open spec fn stops_at<T: Scalar>(it: IterateView<T>, d: DirectionView<T>, k: nat) -> bool {
    !T::decimal(1, 10).below(halved::<T>(k)) || step_holds(it, d, halved::<T>(k))
}

fn is_inside<T: Scalar>(v: &[T], t: T, d: &[T], floor: bool) -> (ok: bool)
    requires
        d@.len() == v@.len(),
    ensures
        ok == (if floor {
            stays_inside(v@, t, d@)
        } else {
            stays_finite(v@, t, d@)
        }),
{
    let least: T = T::decimal(1, 13);
    let mut i: usize = 0;
    while i < v.len()
        invariant
            i <= v@.len() == d@.len(),
            least == T::decimal(1, 13),
            forall|k: int|
                0 <= k < i ==> (#[trigger] v@[k]).plus(t.times(d@[k])).is_finite() && (floor ==> least.below(
                    v@[k].plus(t.times(d@[k])),
                )),
        decreases v@.len() - i,
    {
        let e = v[i].plus(t.times(d[i]));
        if !e.is_finite() || (floor && !least.below(e)) {
            assert(v@[i as int].plus(t.times(d@[i as int])) == e);
            return false;
        }
        i += 1;
    }
    true
}

/// The most halvings that are tried: more than the least scale allows.
pub const HALVINGS: usize = 64;

/// The number of halvings until a step holds, searched from `k` on.
pub open spec fn halvings_from<T: Scalar>(it: IterateView<T>, d: DirectionView<T>, k: nat) -> nat
    decreases HALVINGS - k,
{
    if k >= HALVINGS || stops_at(it, d, k) {
        k
    } else {
        halvings_from(it, d, k + 1)
    }
}

/// Backtracks a step by halving until it keeps the iterate finite and strictly inside, or is too
/// short to matter. Returns the scale of the step.
pub fn backtrack<T: Scalar>(it: &Iterate<T>, d: &Direction<T>) -> (t: T)
    requires
        d.x@.len() == it.x@.len(),
        d.s@.len() == it.s@.len(),
        d.z@.len() == it.z@.len(),
    ensures
        t == halved::<T>(halvings_from(it@, d@, 0)),
{
    let least: T = T::decimal(1, 10);
    let half: T = T::decimal(5, 1);
    let mut t = T::one();
    let mut k: usize = 0;
    while k < HALVINGS && least.below(t)
        invariant
            d.x@.len() == it.x@.len(),
            d.s@.len() == it.s@.len(),
            d.z@.len() == it.z@.len(),
            least == T::decimal(1, 10),
            half == T::decimal(5, 1),
            k <= HALVINGS,
            t == halved::<T>(k as nat),
            halvings_from(it@, d@, 0) == halvings_from(it@, d@, k as nat),
        decreases HALVINGS - k,
    {
        let ok = is_inside(&it.x, t, &d.x, false) && is_inside(&it.s, t, &d.s, true) && is_inside(
            &it.z,
            t,
            &d.z,
            true,
        );
        if ok {
            assert(stops_at(it@, d@, k as nat));
            return t;
        }
        t = t.times(half);
        k += 1;
    }
    t
}

/// The iterate moved by the increments `d`, scaled by `t`.
pub fn apply_increments<T: Scalar>(it: &Iterate<T>, d: &Direction<T>, t: T) -> (r: Iterate<T>)
    requires
        d.x@.len() == it.x@.len(),
        d.y@.len() == it.y@.len(),
        d.s@.len() == it.s@.len(),
        d.z@.len() == it.z@.len(),
    ensures
        r@ == (IterateView {
            x: moved(it.x@, t, d.x@),
            y: moved(it.y@, t, d.y@),
            s: moved(it.s@, t, d.s@),
            z: moved(it.z@, t, d.z@),
        }),
{
    Iterate {
        x: moved_by(&it.x, t, &d.x),
        y: moved_by(&it.y, t, &d.y),
        s: moved_by(&it.s, t, &d.s),
        z: moved_by(&it.z, t, &d.z),
    }
}

/// The complementarity scalar of the homogenization: what the gap falls short of its expectation.
pub open spec fn kappa_of<T: Scalar>(s: Seq<T>, z: Seq<T>, mu: T, degree: T) -> T {
    let expected = mu.times(degree);
    let sz = dot_spec(s, z);
    if sz.below(expected) {
        expected.minus(sz).over(T::one())
    } else {
        T::zero()
    }
}

/// The complementarity scalar of the homogenization.
pub fn track_kappa<T: Scalar>(s: &[T], z: &[T], mu: T, degree: T) -> (r: T)
    requires
        s@.len() == z@.len(),
    ensures
        r == kappa_of(s@, z@, mu, degree),
{
    let sz = dot(s, z);
    let expected = mu.times(degree);
    if sz.below(expected) {
        expected.minus(sz).over(T::one())
    } else {
        T::zero()
    }
}

/// `v` with every entry times `t`.
pub open spec fn rescaled<T: Scalar>(v: Seq<T>, t: T) -> Seq<T> {
    Seq::new(v.len(), |i: int| v[i].times(t))
}

fn rescale<T: Scalar>(v: Vec<T>, t: T) -> (r: Vec<T>)
    ensures
        r@ == rescaled(v@, t),
{
    let mut r: Vec<T> = Vec::with_capacity(v.len());
    let mut i: usize = 0;
    while i < v.len()
        invariant
            i <= v@.len(),
            r@ =~= rescaled(v@, t).subrange(0, i as int),
        decreases v@.len() - i,
    {
        r.push(v[i].times(t));
        i += 1;
    }
    assert(r@ =~= rescaled(v@, t));
    r
}

/// The iterate and the status that the solve ends with: after the iteration limit, or where the
/// iterate broke down, the best iterate with its grade; where the iteration stalled, the best iterate as
/// an inaccurate solution; else the last iterate.
pub open spec fn qp_settled<T: Scalar>(
    end: Verdict,
    it: IterateView<T>,
    best: IterateView<T>,
    best_err: T,
    eps: T,
) -> (IterateView<T>, Status) {
    match end {
        Verdict::Accept(status) => (it, status),
        Verdict::Restore(Status::SolvedInaccurate) => (best, Status::SolvedInaccurate),
        _ => (best, grade(best_err, eps)),
    }
}

/// The solution from the end of the iteration. With `hsd` the homogenization variable divides the
/// result; it stays 1 throughout.
pub fn qp_conclude<T: Scalar>(
    prob: &QpProblem<T>,
    hsd: bool,
    kappa: T,
    end: Verdict,
    it: Iterate<T>,
    st: QpState<T>,
    eps: T,
    iters: usize,
) -> (r: QpSolution<T>)
    requires
        prob.wf(),
        it.fits(*prob),
        st.best.fits(*prob),
    ensures
        ({
            let (last, status) = qp_settled(end, it@, st.best@, st.best_err, eps);
            let obj = objective(*prob, last.x);
            let one = T::one();
            let divide = hsd && T::decimal(1, 12).below(one);
            let t = one.over(one);
            &&& r.status == status
            &&& r.iters == iters
            &&& r.tau == one
            &&& r.kappa == kappa
            &&& divide ==> r.x@ == rescaled(last.x, t) && r.y@ == rescaled(last.y, t) && r.s@
                == rescaled(last.s, t) && r.z@ == rescaled(last.z, t) && r.obj_val == obj.times(t)
            &&& !divide ==> r.x@ == last.x && r.y@ == last.y && r.s@ == last.s && r.z@ == last.z
                && r.obj_val == obj
        }),
{
    let (last, status) = match end {
        Verdict::Accept(status) => (it, status),
        Verdict::Restore(Status::SolvedInaccurate) => (st.best, Status::SolvedInaccurate),
        _ => {
            let g = grade_status(st.best_err, eps);
            (st.best, g)
        },
    };
    let mut obj = objective_at(prob, &last.x);
    let Iterate { x, y, s, z } = last;
    let mut x = x;
    let mut y = y;
    let mut s = s;
    let mut z = z;
    let tau = T::one();
    if hsd && T::decimal(1, 12).below(tau) {
        let t = T::one().over(tau);
        x = rescale(x, t);
        y = rescale(y, t);
        s = rescale(s, t);
        z = rescale(z, t);
        obj = obj.times(t);
    }
    QpSolution { status, x, y, s, z, obj_val: obj, iters, tau, kappa }
}

} // verus!
