//! The setup of the orthant engine: problems with a closed-form solution, the routes to other
//! methods, the regularization baseline, the starting point and the shape of the linear systems.
use crate::conic_route::{is_sparse_matrix, sparse_matrix};
use crate::lp_simplex::{
    bound_col, bound_rows, bound_val, entries_in, fold_bounds, general_rows, lemma_bound_rows,
    lemma_last_nonzero, lower_bound, upper_bound, RowClasses,
};
use crate::matrix::{diagonal_matrix, nonzero_count, zero_matrix, DenseMatrix};
use crate::problem::{QpProblem, QpSolution, Status, TermScale};
use crate::scalar::Scalar;
use crate::separable_laws::{answers_box, closed_form_answers_the_problem};
use crate::vector::{constant, filled};
use crate::warm::Seed;
use vstd::prelude::*;

verus! {

/// What a caller can choose of a solve.
pub struct Settings<T> {
    /// The tolerance.
    pub eps_abs: T,
    /// The iteration limit.
    pub max_iters: usize,
    /// Track the homogenization scalars of a linear program.
    pub hsd: bool,
    /// Solve wide linear programs through their dual.
    pub dualize: bool,
    /// How many times more rows than unknowns make a linear program wide.
    pub dualize_ratio: T,
    /// Factor the sparse augmented system.
    pub sparse_kkt: bool,
}

impl<T: Scalar> Settings<T> {
    /// The same settings without the dual.
    pub open spec fn undualized(self) -> Settings<T> {
        Settings { dualize: false, ..self }
    }

    /// The same settings with another iteration limit.
    pub open spec fn capped(self, cap: usize) -> Settings<T> {
        Settings { max_iters: cap, ..self }
    }

    /// The same settings with another iteration limit.
    pub fn with_cap(&self, cap: usize) -> (r: Settings<T>)
        ensures
            r == self.capped(cap),
    {
        Settings {
            eps_abs: self.eps_abs,
            max_iters: cap,
            hsd: self.hsd,
            dualize: self.dualize,
            dualize_ratio: self.dualize_ratio,
            sparse_kkt: self.sparse_kkt,
        }
    }

    /// The settings of the solve of a dual, which is not dualized again.
    pub fn for_dual(&self) -> (r: Settings<T>)
        ensures
            r == self.undualized(),
    {
        Settings {
            eps_abs: self.eps_abs,
            max_iters: self.max_iters,
            hsd: self.hsd,
            dualize: false,
            dualize_ratio: self.dualize_ratio,
            sparse_kkt: self.sparse_kkt,
        }
    }
}

/// Every unknown is a problem of its own: no equality rows, every inequality row has a single
/// entry, and the Hessian is diagonal.
pub open spec fn separable<T: Scalar>(prob: QpProblem<T>) -> bool {
    &&& prob.me() == 0
    &&& forall|r: int| 0 <= r < prob.mi() ==> #[trigger] entries_in(prob, r) == 1
    &&& diagonal_matrix(prob.p)
}

/// Every diagonal entry of the Hessian is positive.
pub open spec fn positive_diagonal<T: Scalar>(prob: QpProblem<T>) -> bool {
    forall|i: int| 0 <= i < prob.n() ==> !(#[trigger] prob.p.at(i, i)).at_most(T::zero())
}

/// Some point keeps the bounds of every unknown.
pub open spec fn nonempty_box<T: Scalar>(prob: QpProblem<T>) -> bool {
    let rows = bound_rows(prob, prob.mi());
    forall|i: int|
        0 <= i < prob.n() ==> (#[trigger] lower_bound(prob, rows, i, rows.len())).at_most(
            upper_bound(prob, rows, i, rows.len()),
        )
}

/// The bounds of some unknown contradict each other by more than `eps`.
pub open spec fn parted_box<T: Scalar>(prob: QpProblem<T>, eps: T) -> bool {
    let rows = bound_rows(prob, prob.mi());
    exists|i: int|
        0 <= i < prob.n() && upper_bound(prob, rows, i, rows.len()).plus(eps).below(
            #[trigger] lower_bound(prob, rows, i, rows.len()),
        )
}

/// The problem is answered in closed form: it is separable with positive curvature, and its bounds either
/// leave room or contradict each other clearly.
pub open spec fn closed_form<T: Scalar>(prob: QpProblem<T>, eps: T) -> bool {
    separable(prob) && positive_diagonal(prob) && (nonempty_box(prob) || parted_box(prob, eps))
}

/// The minimizer of unknown `i` between its bounds.
pub open spec fn clipped<T: Scalar>(prob: QpProblem<T>, i: int) -> T {
    let rows = bound_rows(prob, prob.mi());
    prob.q@[i].neg().over(prob.p.at(i, i)).max(lower_bound(prob, rows, i, rows.len())).min(
        upper_bound(prob, rows, i, rows.len()),
    )
}

/// The minimizer of a separable problem.
pub open spec fn box_point<T: Scalar>(prob: QpProblem<T>) -> Seq<T> {
    Seq::new(prob.n(), |i: int| clipped(prob, i))
}

/// The objective at `x` over the first `k` unknowns, where the Hessian is diagonal.
pub open spec fn box_objective<T: Scalar>(prob: QpProblem<T>, x: Seq<T>, k: nat) -> T
    decreases k,
{
    if k == 0 {
        T::zero()
    } else {
        let i = k - 1;
        box_objective(prob, x, (k - 1) as nat).plus(
            T::decimal(5, 1).times(prob.p.at(i, i)).times(x[i]).times(x[i]).plus(
                prob.q@[i].times(x[i]),
            ),
        )
    }
}

/// The slack of bound row `r` at `x`.
pub open spec fn box_slack<T: Scalar>(prob: QpProblem<T>, x: Seq<T>, r: int) -> T {
    prob.b_in@[r].minus(bound_val(prob, r).times(x[bound_col(prob, r)]))
}

/// What bound row `r` alone would have to carry to balance the slope at `x`.
pub open spec fn box_load<T: Scalar>(prob: QpProblem<T>, x: Seq<T>, r: int) -> T {
    let c = bound_col(prob, r);
    prob.p.at(c, c).times(x[c]).plus(prob.q@[c]).neg().over(bound_val(prob, r))
}

/// Bound row `r` is active at `x`, on the side on which it can balance the slope.
pub open spec fn holds_back<T: Scalar>(prob: QpProblem<T>, x: Seq<T>, eps: T, r: int) -> bool {
    box_slack(prob, x, r).abs().at_most(eps) && T::zero().below(box_load(prob, x, r))
}

/// The number of rows that hold unknown `c` back, among the first `k`.
pub open spec fn holding_count<T: Scalar>(prob: QpProblem<T>, x: Seq<T>, eps: T, c: int, k: nat) -> nat
    decreases k,
{
    if k == 0 {
        0
    } else {
        holding_count(prob, x, eps, c, (k - 1) as nat) + if bound_col(prob, k - 1) == c && holds_back(
            prob,
            x,
            eps,
            k - 1,
        ) {
            1nat
        } else {
            0nat
        }
    }
}

/// The multiplier of bound row `r` at `x`: its even share of what balances the slope where it holds its
/// unknown back, and zero where it does not.
pub open spec fn box_multiplier<T: Scalar>(prob: QpProblem<T>, x: Seq<T>, eps: T, r: int) -> T {
    if holds_back(prob, x, eps, r) {
        box_load(prob, x, r).over(
            T::from_usize(holding_count(prob, x, eps, bound_col(prob, r), prob.mi()) as usize),
        )
    } else {
        T::zero()
    }
}

/// The solution of a separable problem in closed form; a problem whose bounds leave no room has none.
pub open spec fn box_solution<T: Scalar>(prob: QpProblem<T>, eps: T) -> (
    Status,
    Seq<T>,
    Seq<T>,
    Seq<T>,
    Seq<T>,
    T,
    usize,
) {
    let x = box_point(prob);
    (
        if nonempty_box(prob) {
            Status::Solved
        } else {
            Status::PrimalInfeasible
        },
        x,
        Seq::empty(),
        Seq::new(prob.mi(), |r: int| box_slack(prob, x, r)),
        Seq::new(prob.mi(), |r: int| box_multiplier(prob, x, eps, r)),
        box_objective(prob, x, prob.n()),
        0,
    )
}

/// A count of zero for each of `n` unknowns.
fn filled_count(n: usize) -> (r: Vec<usize>)
    ensures
        r@.len() == n,
        forall|i: int| 0 <= i < n ==> #[trigger] r@[i] == 0,
{
    let mut r: Vec<usize> = Vec::with_capacity(n);
    let mut i: usize = 0;
    while i < n
        invariant
            i <= n,
            r@.len() == i,
            forall|k: int| 0 <= k < i ==> #[trigger] r@[k] == 0,
        decreases n - i,
    {
        r.push(0);
        i += 1;
    }
    r
}

/// Solves a separable problem with positive curvature in closed form: as primal infeasible where two
/// bounds contradict each other by more than `eps`. None for any other problem, and where bounds
/// contradict each other by less.
pub fn solve_separable<T: Scalar>(prob: &QpProblem<T>, classes: &RowClasses<T>, eps: T) -> (r: Option<
    QpSolution<T>,
>)
    requires
        prob.wf(),
        classes.singleton@ == bound_rows(*prob, prob.mi()),
        classes.general@ == general_rows(*prob, prob.mi()),
    ensures
        r is Some == closed_form(*prob, eps),
        r matches Some(sol) ==> sol.parts() == box_solution(*prob, eps) && sol.plain() && answers_box(*prob, eps, sol),
{
    let n: usize = prob.q.len();
    let mi: usize = prob.b_in.len();
    proof {
        lemma_bound_rows(*prob, mi as nat);
        lemma_all_bounds(*prob, mi as nat);
    }
    if prob.b_eq.len() != 0 || classes.singleton.len() != mi || !prob.p.is_diagonal() {
        return None;
    }
    let (lb, ub) = fold_bounds(prob, &classes.singleton);
    let mut x: Vec<T> = Vec::with_capacity(n);
    let mut obj = T::zero();
    let mut room = true;
    let mut parted = false;
    let mut i: usize = 0;
    while i < n
        invariant
            prob.wf(),
            n == prob.n(),
            i <= n,
            lb@ == Seq::new(
                prob.n(),
                |c: int|
                    lower_bound(
                        *prob,
                        bound_rows(*prob, prob.mi()),
                        c,
                        bound_rows(*prob, prob.mi()).len(),
                    ),
            ),
            ub@ == Seq::new(
                prob.n(),
                |c: int|
                    upper_bound(
                        *prob,
                        bound_rows(*prob, prob.mi()),
                        c,
                        bound_rows(*prob, prob.mi()).len(),
                    ),
            ),
            forall|k: int| 0 <= k < i ==> !(#[trigger] prob.p.at(k, k)).at_most(T::zero()),
            room == forall|k: int| 0 <= k < i ==> (#[trigger] lb@[k]).at_most(ub@[k]),
            parted == exists|k: int| 0 <= k < i && ub@[k].plus(eps).below(#[trigger] lb@[k]),
            lb@.len() == n,
            ub@.len() == n,
            x@ =~= box_point(*prob).subrange(0, i as int),
            obj == box_objective(*prob, box_point(*prob), i as nat),
        decreases n - i,
    {
        let p = prob.p.get(i, i);
        if p.at_most(T::zero()) {
            assert(!positive_diagonal(*prob)) by {
                assert(prob.p.at(i as int, i as int).at_most(T::zero()));
            }
            return None;
        }
        let ghost was_room = room;
        let ghost was_parted = parted;
        if !lb[i].at_most(ub[i]) {
            room = false;
        }
        if ub[i].plus(eps).below(lb[i]) {
            parted = true;
        }
        proof {
            assert(room == (was_room && lb@[i as int].at_most(ub@[i as int])));
            assert(parted == (was_parted || ub@[i as int].plus(eps).below(lb@[i as int])));
            if parted && !was_parted {
                assert(0 <= i < i + 1 && ub@[i as int].plus(eps).below(lb@[i as int]));
            }
        }
        let xi = prob.q[i].neg().over(p).max(lb[i]).min(ub[i]);
        assert(xi == box_point(*prob)[i as int]);
        x.push(xi);
        obj = obj.plus(T::decimal(5, 1).times(p).times(xi).times(xi).plus(prob.q[i].times(xi)));
        i += 1;
    }
    assert(x@ =~= box_point(*prob));
    proof {
        let rows = bound_rows(*prob, prob.mi());
        assert(forall|c: int|
            0 <= c < prob.n() ==> #[trigger] lower_bound(*prob, rows, c, rows.len()) == lb@[c]);
        assert(forall|c: int|
            0 <= c < prob.n() ==> #[trigger] lb@[c] == lower_bound(*prob, rows, c, rows.len()));
        assert(forall|c: int|
            0 <= c < prob.n() ==> #[trigger] ub@[c] == upper_bound(*prob, rows, c, rows.len()));
        assert(room == nonempty_box(*prob));
        assert(parted == parted_box(*prob, eps));
    }
    if !room && !parted {
        return None;
    }
    let ghost sol = box_solution(*prob, eps);
    let mut s: Vec<T> = Vec::with_capacity(mi);
    let mut load: Vec<Option<T>> = Vec::with_capacity(mi);
    let mut count: Vec<usize> = filled_count(n);
    let mut r: usize = 0;
    while r < mi
        invariant
            prob.wf(),
            n == prob.n(),
            mi == prob.mi(),
            classes.singleton@ == bound_rows(*prob, mi as nat),
            classes.singleton@.len() == mi,
            forall|k: int|
                0 <= k < mi ==> {
                    let e = #[trigger] classes.singleton@[k];
                    e.0 == k && e.1 < n && e.1 == bound_col(*prob, k) && e.2 == bound_val(*prob, k)
                },
            x@ == box_point(*prob),
            sol == box_solution(*prob, eps),
            r <= mi,
            s@ =~= sol.3.subrange(0, r as int),
            load@.len() == r,
            forall|k: int|
                0 <= k < r ==> #[trigger] load@[k] == (if holds_back(*prob, x@, eps, k) {
                    Some(box_load(*prob, x@, k))
                } else {
                    None
                }),
            count@.len() == n,
            forall|c: int|
                0 <= c < n ==> #[trigger] count@[c] == holding_count(*prob, x@, eps, c, r as nat) && count@[c] <= r,
        decreases mi - r,
    {
        let (row, col, val) = classes.singleton[r];
        assert(classes.singleton@[r as int].0 == r);
        let slack = prob.b_in[r].minus(val.times(x[col]));
        let l = prob.p.get(col, col).times(x[col]).plus(prob.q[col]).neg().over(val);
        s.push(slack);
        if slack.abs().at_most(eps) && T::zero().below(l) {
            assert(count@[col as int] <= r);
            let more: usize = count[col] + 1;
            load.push(Some(l));
            count.set(col, more);
        } else {
            load.push(None);
        }
        r += 1;
    }
    let mut z: Vec<T> = Vec::with_capacity(mi);
    let mut r: usize = 0;
    while r < mi
        invariant
            prob.wf(),
            n == prob.n(),
            mi == prob.mi(),
            classes.singleton@ == bound_rows(*prob, mi as nat),
            classes.singleton@.len() == mi,
            forall|k: int|
                0 <= k < mi ==> {
                    let e = #[trigger] classes.singleton@[k];
                    e.0 == k && e.1 < n && e.1 == bound_col(*prob, k) && e.2 == bound_val(*prob, k)
                },
            x@ == box_point(*prob),
            sol == box_solution(*prob, eps),
            r <= mi,
            load@.len() == mi,
            forall|k: int|
                0 <= k < mi ==> #[trigger] load@[k] == (if holds_back(*prob, x@, eps, k) {
                    Some(box_load(*prob, x@, k))
                } else {
                    None
                }),
            count@.len() == n,
            forall|c: int| 0 <= c < n ==> #[trigger] count@[c] == holding_count(*prob, x@, eps, c, mi as nat),
            z@ =~= sol.4.subrange(0, r as int),
        decreases mi - r,
    {
        let (row, col, val) = classes.singleton[r];
        assert(classes.singleton@[r as int].0 == r);
        assert(load@[r as int] == (if holds_back(*prob, x@, eps, r as int) {
            Some(box_load(*prob, x@, r as int))
        } else {
            None
        }));
        match load[r] {
            Some(l) => {
                z.push(l.over(T::from_usize(count[col])));
            },
            None => {
                z.push(T::zero());
            },
        }
        r += 1;
    }
    assert(s@ =~= sol.3);
    assert(z@ =~= sol.4);
    let y: Vec<T> = Vec::new();
    assert(y@ =~= Seq::<T>::empty());
    let status = if room {
        Status::Solved
    } else {
        Status::PrimalInfeasible
    };
    let r = QpSolution::new(status, x, y, s, z, obj, 0);
    proof {
        closed_form_answers_the_problem(*prob, eps, r);
    }
    Some(r)
}

/// Where as many bound rows are listed as there are rows, every row is one.
pub proof fn lemma_all_bounds<T: Scalar>(prob: QpProblem<T>, k: nat)
    requires
        prob.wf(),
        k <= prob.mi(),
    ensures
        bound_rows(prob, k).len() <= k,
        bound_rows(prob, k).len() == k <==> forall|r: int|
            0 <= r < k ==> #[trigger] entries_in(prob, r) == 1,
        bound_rows(prob, k).len() == k ==> forall|r: int|
            0 <= r < k ==> {
                let e = #[trigger] bound_rows(prob, k)[r];
                &&& e.0 == r
                &&& e.1 < prob.n()
                &&& e.1 == bound_col(prob, r)
                &&& e.2 == bound_val(prob, r)
            },
    decreases k,
{
    if k > 0 {
        lemma_all_bounds(prob, (k - 1) as nat);
        if entries_in(prob, k - 1) == 1 {
            lemma_last_nonzero(prob.a_in.row(k - 1), prob.n());
        }
        let front = bound_rows(prob, (k - 1) as nat);
        let all = bound_rows(prob, k);
        if all.len() == k {
            assert forall|r: int| 0 <= r < k implies #[trigger] entries_in(prob, r) == 1 by {}
            assert forall|r: int| 0 <= r < k implies {
                let e = #[trigger] all[r];
                &&& e.0 == r
                &&& e.1 < prob.n()
                &&& e.1 == bound_col(prob, r)
                &&& e.2 == bound_val(prob, r)
            } by {
                if r < k - 1 {
                    assert(all[r] == front[r]);
                }
            }
        }
        if forall|r: int| 0 <= r < k ==> #[trigger] entries_in(prob, r) == 1 {
            assert(entries_in(prob, k - 1) == 1);
        }
    }
}

/// A linear program without equality rows.
pub open spec fn plain_lp<T: Scalar>(prob: QpProblem<T>) -> bool {
    zero_matrix(prob.p) && prob.me() == 0 && prob.mi() > 0
}

/// The linear program is solved through its dual: the settings ask for it, and the rows are the
/// given number of times more than the unknowns.
pub open spec fn takes_dual<T: Scalar>(prob: QpProblem<T>, set: Settings<T>) -> bool {
    set.dualize && plain_lp(prob) && set.dualize_ratio.times(T::from_usize(prob.n() as usize)).at_most(
        T::from_usize(prob.mi() as usize),
    )
}

/// The linear program is offered to the dual simplex method: at most 10000 unknowns, and either
/// at least 400 of them with a sparse matrix, or at most 5 rows.
pub open spec fn offers_simplex<T: Scalar>(prob: QpProblem<T>) -> bool {
    plain_lp(prob) && prob.n() <= 10000 && ((sparse_matrix(prob.a_in) && prob.n() >= 400) || prob.mi()
        <= 5)
}

/// The linear program is offered to the conic engine: at least 64 unknowns.
pub open spec fn offers_conic<T: Scalar>(prob: QpProblem<T>) -> bool {
    plain_lp(prob) && prob.n() >= 64
}

/// The other methods that a problem is offered to, in this order.
pub struct Offers {
    pub dual: bool,
    pub simplex: bool,
    pub conic: bool,
}

/// The other methods that a problem is offered to before the orthant engine takes it.
pub fn offers<T: Scalar>(prob: &QpProblem<T>, set: &Settings<T>) -> (r: Offers)
    requires
        prob.wf(),
    ensures
        r.dual == takes_dual(*prob, *set),
        r.simplex == offers_simplex(*prob),
        r.conic == offers_conic(*prob),
{
    let n: usize = prob.q.len();
    let mi: usize = prob.b_in.len();
    if !(prob.p.is_zero() && prob.b_eq.len() == 0 && mi > 0) {
        return Offers { dual: false, simplex: false, conic: false };
    }
    Offers {
        dual: set.dualize && set.dualize_ratio.times(T::from_usize(n)).at_most(T::from_usize(mi)),
        simplex: n <= 10000 && ((n >= 400 && is_sparse_matrix(&prob.a_in)) || mi <= 5),
        conic: n >= 64,
    }
}

/// The sum of the absolute diagonal entries of the Hessian, over the first `k`.
pub open spec fn diagonal_sum<T: Scalar>(p: DenseMatrix<T>, k: nat) -> T
    decreases k,
{
    if k == 0 {
        T::zero()
    } else {
        diagonal_sum(p, (k - 1) as nat).plus(p.at(k - 1, k - 1).abs())
    }
}

/// The baseline of the primal regularization: tiny where the Hessian curves, larger for a linear
/// program, where it is the only curvature; and scaled by the root of how many more unknowns than
/// rows there are.
pub open spec fn qp_rho_floor<T: Scalar>(prob: QpProblem<T>) -> T {
    let n = prob.n();
    let mi = prob.mi();
    let scale = diagonal_sum(prob.p, n).over(
        T::from_usize(
            (if n > 1 {
                n
            } else {
                1
            }) as usize,
        ),
    );
    let base = if zero_matrix(prob.p) {
        T::decimal(1, 6).min(scale.times(T::decimal(1, 2))).max(T::decimal(1, 8))
    } else {
        T::decimal(1, 12)
    };
    if 0 < mi < n {
        base.times(T::from_usize((n - mi) as usize).sqrt().max(T::one()))
    } else {
        base
    }
}

/// The baseline of the primal regularization.
pub fn qp_rho_baseline<T: Scalar>(prob: &QpProblem<T>) -> (r: T)
    requires
        prob.wf(),
    ensures
        r == qp_rho_floor(*prob),
{
    let n: usize = prob.q.len();
    let mi: usize = prob.b_in.len();
    let mut sum = T::zero();
    let mut i: usize = 0;
    while i < n
        invariant
            prob.wf(),
            n == prob.n(),
            i <= n,
            sum == diagonal_sum(prob.p, i as nat),
        decreases n - i,
    {
        sum = sum.plus(prob.p.get(i, i).abs());
        i += 1;
    }
    let scale = sum.over(
        T::from_usize(
            if n > 1 {
                n
            } else {
                1
            },
        ),
    );
    let base = if prob.p.is_zero() {
        T::decimal(1, 6).min(scale.times(T::decimal(1, 2))).max(T::decimal(1, 8))
    } else {
        T::decimal(1, 12)
    };
    if mi < n && mi > 0 {
        base.times(T::from_usize(n - mi).sqrt().max(T::one()))
    } else {
        base
    }
}

/// The cold start: no unknowns, slacks of at least 1, multipliers 1.
pub open spec fn qp_cold_slack<T: Scalar>(prob: QpProblem<T>, ainx: Seq<T>) -> Seq<T> {
    Seq::new(
        prob.mi(),
        |i: int|
            {
                let si = prob.b_in@[i].minus(ainx[i]);
                if T::one().below(si) {
                    si
                } else {
                    T::one()
                }
            },
    )
}

/// The starting point of the orthant engine: the seed where there is one, else the cold start for
/// which `ainx` is the product of the inequality matrix with no unknowns. A seed that was refused
/// leaves the solve as it would be without one.
pub fn qp_starting_point<T: Scalar>(prob: &QpProblem<T>, ainx: &[T], warm: Option<Seed<T>>) -> (r: Seed<T>)
    requires
        ainx@.len() == prob.mi(),
    ensures
        warm matches Some(w) ==> r == w,
        warm is None ==> {
            &&& r.x@ == constant(T::zero(), prob.n())
            &&& r.s@ == qp_cold_slack(*prob, ainx@)
            &&& r.z@ == constant(T::one(), prob.mi())
        },
{
    match warm {
        Some(w) => w,
        None => {
            let mi: usize = prob.b_in.len();
            let one = T::one();
            let mut s: Vec<T> = Vec::with_capacity(mi);
            let mut i: usize = 0;
            while i < mi
                invariant
                    mi == prob.mi(),
                    ainx@.len() == mi,
                    one == T::one(),
                    i <= mi,
                    s@ =~= qp_cold_slack(*prob, ainx@).subrange(0, i as int),
                decreases mi - i,
            {
                let si = prob.b_in[i].minus(ainx[i]);
                s.push(
                    if one.below(si) {
                        si
                    } else {
                        one
                    },
                );
                i += 1;
            }
            assert(s@ =~= qp_cold_slack(*prob, ainx@));
            Seed { x: filled(T::zero(), prob.q.len()), s, z: filled(one, mi) }
        },
    }
}

/// The largest scaled diagonal entry of the Hessian, over the first `k`.
pub open spec fn scaled_diagonal<T: Scalar>(prob: QpProblem<T>, term: TermScale<T>, k: nat) -> T
    decreases k,
{
    if k == 0 {
        T::zero()
    } else {
        let i = k - 1;
        scaled_diagonal(prob, term, (k - 1) as nat).max(
            prob.p.at(i, i).times(term.dual@[i]).times(term.dual@[i]).abs(),
        )
    }
}

/// The Hessian hardly curves the problem: it is zero, or diagonal with entries of at most `1e7` in
/// original units.
pub open spec fn weak_hessian<T: Scalar>(prob: QpProblem<T>, term: TermScale<T>) -> bool {
    zero_matrix(prob.p) || (diagonal_matrix(prob.p) && scaled_diagonal(prob, term, prob.n()).at_most(
        T::decimal(10000000, 0),
    ))
}

/// Whether the Hessian hardly curves the problem.
pub fn is_weak_hessian<T: Scalar>(prob: &QpProblem<T>, term: &TermScale<T>) -> (r: bool)
    requires
        prob.wf(),
        term.fits(prob.n(), prob.me(), prob.mi()),
    ensures
        r == weak_hessian(*prob, *term),
{
    if prob.p.is_zero() {
        return true;
    }
    if !prob.p.is_diagonal() {
        return false;
    }
    let n: usize = prob.q.len();
    let mut m = T::zero();
    let mut i: usize = 0;
    while i < n
        invariant
            prob.wf(),
            n == prob.n(),
            term.dual@.len() == n,
            i <= n,
            m == scaled_diagonal(*prob, *term, i as nat),
        decreases n - i,
    {
        m = m.max(prob.p.get(i, i).times(term.dual[i]).times(term.dual[i]).abs());
        i += 1;
    }
    m.at_most(T::decimal(10000000, 0))
}

/// The nonzero entries on and below the diagonal are fewer than 15 of 100.
pub open spec fn sparse_hessian<T: Scalar>(prob: QpProblem<T>) -> bool {
    let total = prob.n() * (prob.n() + 1) / 2;
    total == 0 || 100 * triangle_nonzeros(prob.p, prob.n(), 0) < 15 * total
}

/// The number of nonzero entries in the first `j` columns of row `i`, and on and below the diagonal
/// of the rows before it.
pub open spec fn triangle_nonzeros<T: Scalar>(p: DenseMatrix<T>, i: nat, j: nat) -> nat
    decreases i, j,
{
    if j > 0 {
        triangle_nonzeros(p, i, (j - 1) as nat) + if p.at(i as int, j - 1).equals(T::zero()) {
            0nat
        } else {
            1nat
        }
    } else if i > 0 {
        triangle_nonzeros(p, (i - 1) as nat, i)
    } else {
        0
    }
}

proof fn lemma_triangle_bound<T: Scalar>(p: DenseMatrix<T>, i: nat, j: nat)
    ensures
        2 * triangle_nonzeros(p, i, j) <= i * (i + 1) + 2 * j,
    decreases i, j,
{
    if j > 0 {
        lemma_triangle_bound(p, i, (j - 1) as nat);
    } else if i > 0 {
        lemma_triangle_bound(p, (i - 1) as nat, i);
        let h = (i - 1) as nat;
        assert(h * (h + 1) + 2 * i == i * (i + 1)) by (nonlinear_arith)
            requires
                i == h + 1,
        ;
    } else {
        assert(i * (i + 1) == 0) by (nonlinear_arith)
            requires
                i == 0,
        ;
    }
}

/// Whether the nonzero entries on and below the diagonal are fewer than 15 of 100.
pub fn is_sparse_hessian<T: Scalar>(prob: &QpProblem<T>) -> (r: bool)
    requires
        prob.wf(),
    ensures
        r == sparse_hessian(*prob),
{
    let n: usize = prob.q.len();
    let area: usize = prob.p.data.len();
    let mut count: u128 = 0;
    let mut i: usize = 0;
    while i < n
        invariant
            prob.wf(),
            n == prob.n(),
            area == n * n,
            i <= n,
            count == triangle_nonzeros(prob.p, i as nat, 0),
        decreases n - i,
    {
        let mut j: usize = 0;
        while j <= i
            invariant
                prob.wf(),
                n == prob.n(),
                area == n * n,
                i < n,
                j <= i + 1,
                count == triangle_nonzeros(prob.p, i as nat, j as nat),
            decreases i + 1 - j,
        {
            proof {
                lemma_triangle_bound(prob.p, i as nat, j as nat);
                assert(i * (i + 1) + 2 * j <= 4 * (n * n)) by (nonlinear_arith)
                    requires
                        0 <= j <= i + 1,
                        i < n,
                        0 <= i,
                ;
            }
            if !prob.p.get(i, j).equals(T::zero()) {
                count += 1;
            }
            j += 1;
        }
        i += 1;
    }
    proof {
        lemma_triangle_bound(prob.p, n as nat, 0);
        assert(n * (n + 1) <= 2 * (n * n)) by (nonlinear_arith)
            requires
                n >= 0,
        ;
        assert(n * (n + 1) == n * n + n) by (nonlinear_arith);
    }
    let total: u128 = ((area as u128) + (n as u128)) / 2;
    total == 0 || 100 * count < 15 * total
}

/// The first and the last nonzero column of a row, and their number.
pub open spec fn first_nonzero<T: Scalar>(row: Seq<T>, k: nat, n: nat) -> nat
    decreases k,
{
    if k == 0 {
        n
    } else {
        let front = first_nonzero(row, (k - 1) as nat, n);
        if !row[k - 1].equals(T::zero()) && k - 1 < front {
            (k - 1) as nat
        } else {
            front
        }
    }
}

/// The support of row `r` is contiguous up to a factor of two.
pub open spec fn contiguous_row<T: Scalar>(prob: QpProblem<T>, r: int) -> bool {
    let row = prob.a_eq.row(r);
    let nz = nonzero_count(row, prob.n());
    let lo = first_nonzero(row, prob.n(), prob.n()) as int;
    let hi = crate::lp_simplex::last_nonzero(row, prob.n()) as int;
    nz > 0 ==> hi - lo + 1 <= 2 * nz
}

/// The equality rows are banded: there are at least 16, and each of the first 10 has a contiguous
/// support of less than a quarter of the unknowns.
pub open spec fn banded_equalities<T: Scalar>(prob: QpProblem<T>) -> bool {
    &&& prob.me() >= 16
    &&& forall|r: int| 0 <= r < 10 ==> #[trigger] contiguous_row(prob, r)
    &&& forall|r: int|
        0 <= r < 10 ==> 4 * nonzero_count(#[trigger] prob.a_eq.row(r), prob.n()) < prob.n()
}

proof fn lemma_first_last<T: Scalar>(row: Seq<T>, k: nat, n: nat)
    requires
        k <= n,
    ensures
        first_nonzero(row, k, n) <= n,
        nonzero_count(row, k) > 0 ==> first_nonzero(row, k, n) <= crate::lp_simplex::last_nonzero(row, k)
            && crate::lp_simplex::last_nonzero(row, k) < k,
        nonzero_count(row, k) == 0 ==> first_nonzero(row, k, n) == n,
        nonzero_count(row, k) <= k,
    decreases k,
{
    if k > 0 {
        lemma_first_last(row, (k - 1) as nat, n);
    }
}

/// Whether the equality rows are banded.
pub fn has_banded_equalities<T: Scalar>(prob: &QpProblem<T>) -> (ok: bool)
    requires
        prob.wf(),
    ensures
        ok == banded_equalities(*prob),
{
    let n: usize = prob.q.len();
    if prob.b_eq.len() < 16 {
        return false;
    }
    let mut r: usize = 0;
    while r < 10
        invariant
            prob.wf(),
            n == prob.n(),
            prob.me() >= 16,
            r <= 10,
            forall|k: int| 0 <= k < r ==> #[trigger] contiguous_row(*prob, k),
            forall|k: int|
                0 <= k < r ==> 4 * nonzero_count(#[trigger] prob.a_eq.row(k), prob.n()) < prob.n(),
        decreases 10 - r,
    {
        let ghost row = prob.a_eq.row(r as int);
        let mut nz: usize = 0;
        let mut lo: usize = n;
        let mut hi: usize = 0;
        let mut j: usize = 0;
        while j < n
            invariant
                prob.wf(),
                n == prob.n(),
                r < prob.me(),
                row == prob.a_eq.row(r as int),
                j <= n,
                nz <= j,
                nz == nonzero_count(row, j as nat),
                lo == first_nonzero(row, j as nat, n as nat),
                hi == crate::lp_simplex::last_nonzero(row, j as nat),
            decreases n - j,
        {
            if !prob.a_eq.get(r, j).equals(T::zero()) {
                nz += 1;
                if j < lo {
                    lo = j;
                }
                hi = j;
            }
            j += 1;
        }
        proof {
            lemma_first_last(row, n as nat, n as nat);
        }
        let narrow = 4 * (nz as u128) < n as u128;
        if !narrow {
            assert(!(4 * nonzero_count(prob.a_eq.row(r as int), prob.n()) < prob.n()));
            return false;
        }
        if nz > 0 && (hi - lo) as u128 + 1 > 2 * (nz as u128) {
            assert(!contiguous_row(*prob, r as int));
            return false;
        }
        r += 1;
    }
    true
}

/// The linear systems of the orthant engine.
#[derive(Clone, Copy, Debug, PartialEq, Eq, Structural)]
pub enum System {
    /// The condensed system of a low-rank Hessian, through its capacitance matrix.
    LowRank,
    /// A diagonal plus one general row, in closed form.
    RankOne,
    /// The sparse condensed system.
    SparseCondensed,
    /// The positive definite condensed system, without equality rows.
    Definite,
    /// The augmented system, dense or sparse.
    Augmented,
    /// The positive definite block with a complement for the equality rows.
    Complement,
    /// A diagonal block with a sparse complement for the equality rows.
    Range,
    /// The reduced system of unknowns and equality multipliers.
    Reduced,
}

/// The facts on which the choice of the system rests.
pub struct QpShape {
    pub n: usize,
    pub me: usize,
    pub mi: usize,
    /// The number of general rows.
    pub general: usize,
    pub p_zero: bool,
    pub p_diagonal: bool,
    pub p_sparse: bool,
    pub ain_sparse: bool,
    pub banded: bool,
    /// The settings ask for the sparse augmented system.
    pub sparse_kkt: bool,
    /// A low-rank structure of the Hessian was found.
    pub low_rank: bool,
    /// The complement of the equality rows is sparse enough.
    pub range: bool,
}

/// The sparse augmented system is factored: the settings ask for it, or the problem is a sparse
/// one without equality rows and with a Hessian of at most a diagonal.
pub open spec fn sparse_augmented(s: QpShape) -> bool {
    s.sparse_kkt || ((s.p_zero || s.p_diagonal) && s.mi > 0 && s.ain_sparse && s.n >= 64 && s.me == 0)
}

/// The dense augmented system is factored.
pub open spec fn dense_augmented(s: QpShape) -> bool {
    (!sparse_augmented(s) && s.general > 0) || (s.me > 0 && !s.p_diagonal && !sparse_augmented(s)) || (
    s.general == 1 && s.me == 0 && s.n >= 64)
}

/// The sparse condensed system is factored.
pub open spec fn sparse_condensed(s: QpShape) -> bool {
    s.general == 0 && !s.low_rank && !sparse_augmented(s) && s.p_sparse && (s.n + s.me >= 400 || (s.me
        >= 16 && s.banded))
}

/// The complement of the equality rows may be built as a sparse matrix.
pub open spec fn range_candidate(s: QpShape) -> bool {
    s.general == 0 && !s.low_rank && !sparse_augmented(s) && s.p_sparse && s.me > 16 && s.n + s.me >= 200
}

/// A low-rank structure of the Hessian is worth looking for.
pub open spec fn low_rank_candidate(n: nat, me: nat, general: nat) -> bool {
    general == 0 && me <= 16 && n >= 64
}

/// The system for a shape.
pub open spec fn system_for(s: QpShape) -> System {
    if s.low_rank {
        System::LowRank
    } else if dense_augmented(s) && s.me == 0 && s.mi > 0 && s.general == 1 {
        System::RankOne
    } else if sparse_condensed(s) && s.n + s.me > 0 {
        System::SparseCondensed
    } else if dense_augmented(s) && s.me == 0 && s.mi > 0 {
        System::Definite
    } else if sparse_augmented(s) || dense_augmented(s) {
        System::Augmented
    } else if s.me > 0 && !s.range {
        System::Complement
    } else if s.range {
        System::Range
    } else {
        System::Reduced
    }
}

/// The system for a shape, and whether an augmented one is dense.
pub fn choose_system(s: &QpShape) -> (r: (System, bool))
    requires
        s.n + s.me + s.mi < usize::MAX,
    ensures
        r.0 == system_for(*s),
        r.1 == dense_augmented(*s),
{
    let sparse = s.sparse_kkt || ((s.p_zero || s.p_diagonal) && s.mi > 0 && s.ain_sparse && s.n >= 64
        && s.me == 0);
    let dense = (!sparse && s.general > 0) || (s.me > 0 && !s.p_diagonal && !sparse) || (s.general == 1
        && s.me == 0 && s.n >= 64);
    let condensed = s.general == 0 && !s.low_rank && !sparse && s.p_sparse && (s.n + s.me >= 400 || (s.me
        >= 16 && s.banded));
    let system = if s.low_rank {
        System::LowRank
    } else if dense && s.me == 0 && s.mi > 0 && s.general == 1 {
        System::RankOne
    } else if condensed && s.n + s.me > 0 {
        System::SparseCondensed
    } else if dense && s.me == 0 && s.mi > 0 {
        System::Definite
    } else if sparse || dense {
        System::Augmented
    } else if s.me > 0 && !s.range {
        System::Complement
    } else if s.range {
        System::Range
    } else {
        System::Reduced
    };
    (system, dense)
}

/// Bound rows are folded out of a sparse augmented system: the problem took that route by its own
/// shape, and the bound rows outnumber the general ones.
pub open spec fn folds_bounds(s: QpShape, bounds: nat) -> bool {
    (s.p_zero || s.p_diagonal) && s.mi > 0 && s.ain_sparse && s.n >= 64 && s.me == 0 && s.general > 0
        && bounds > s.general
}

/// Whether bound rows are folded out of a sparse augmented system.
pub fn takes_bound_folding(s: &QpShape, bounds: usize) -> (r: bool)
    ensures
        r == folds_bounds(*s, bounds as nat),
{
    (s.p_zero || s.p_diagonal) && s.mi > 0 && s.ain_sparse && s.n >= 64 && s.me == 0 && s.general > 0
        && bounds > s.general
}

/// A low-rank structure is used for the condensed system: its rank is positive and at most a
/// third of the order, with a relative error of at most `1e-4`.
pub fn suits_condensed<T: Scalar>(rank: usize, offdiag_rel: T, n: usize) -> (r: bool)
    ensures
        r == (rank > 0 && rank <= n / 3 && offdiag_rel.at_most(T::decimal(1, 4))),
{
    rank > 0 && rank <= n / 3 && offdiag_rel.at_most(T::decimal(1, 4))
}

/// The shape of the problem's linear systems; the complement of the equality rows is yet to be
/// looked at.
pub fn shape_of<T: Scalar>(prob: &QpProblem<T>, general: usize, set: &Settings<T>, low_rank: bool) -> (s: QpShape)
    requires
        prob.wf(),
    ensures
        s.n == prob.n(),
        s.me == prob.me(),
        s.mi == prob.mi(),
        s.general == general,
        s.p_zero == zero_matrix(prob.p),
        s.p_diagonal == diagonal_matrix(prob.p),
        s.p_sparse == sparse_hessian(*prob),
        s.ain_sparse == sparse_matrix(prob.a_in),
        s.banded == banded_equalities(*prob),
        s.sparse_kkt == set.sparse_kkt,
        s.low_rank == low_rank,
        !s.range,
{
    QpShape {
        n: prob.q.len(),
        me: prob.b_eq.len(),
        mi: prob.b_in.len(),
        general,
        p_zero: prob.p.is_zero(),
        p_diagonal: prob.p.is_diagonal(),
        p_sparse: is_sparse_hessian(prob),
        ain_sparse: is_sparse_matrix(&prob.a_in),
        banded: has_banded_equalities(prob),
        sparse_kkt: set.sparse_kkt,
        low_rank,
        range: false,
    }
}

/// Whether the complement of the equality rows is worth a look.
pub fn is_range_candidate(s: &QpShape) -> (r: bool)
    requires
        s.n + s.me + s.mi < usize::MAX,
    ensures
        r == range_candidate(*s),
{
    let sparse: bool = s.sparse_kkt || ((s.p_zero || s.p_diagonal) && s.mi > 0 && s.ain_sparse && s.n >= 64 && s.me
        == 0);
    s.general == 0 && !s.low_rank && !sparse && s.p_sparse && s.me > 16 && s.n + s.me >= 200
}

/// Whether a low-rank structure of the Hessian is worth a search.
pub fn is_low_rank_candidate(n: usize, me: usize, general: usize) -> (r: bool)
    ensures
        r == low_rank_candidate(n as nat, me as nat, general as nat),
{
    general == 0 && me <= 16 && n >= 64
}

} // verus!
