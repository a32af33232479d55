//! The boxed program, where the operations of the numbers are exact: it has the points of the problem that
//! it stands for, and what is recovered from a vertex answers that problem.
use crate::exact::{
    exact, exact_order, largest, lemma_largest_same, lemma_over, lemma_sum_same, lemma_sum_single, lemma_sum_split,
    lemma_sum_zero, magnitude, norms_are_exact, sum,
};
use crate::lp_simplex::{
    bound_col, bound_rows, bound_val, complementary_at, consistent, dual_scale_upto, entries_in, general_rows,
    is_box_lp, lemma_bound_rows, lemma_general_rows, lower_bound, simplex_route, slack_of, stationarity_upto,
    stationary_at, unbounded, upper_bound, vertex_solution, BoxLp, Vertex,
};
use crate::optimum_laws::{across, along, entries, program_of};
use crate::problem::{QpProblem, QpSolution};
use crate::scalar::Scalar;
use crate::schur_laws::{lemma_no_entry, lemma_one_entry};
use vstd::prelude::*;

verus! {

/// The point satisfies the rows and the bounds of the boxed program.
pub open spec fn in_box<T: Scalar>(v: spec_fn(T) -> real, lp: BoxLp<T>, w: spec_fn(int) -> real) -> bool {
    &&& forall|i: int|
        0 <= i < lp.b@.len() ==> sum(|j: int| v(lp.a.at(i, j)) * w(j), lp.c@.len()) == v(#[trigger] lp.b@[i])
    &&& forall|j: int| 0 <= j < lp.c@.len() ==> v(#[trigger] lp.lower@[j]) <= w(j) <= v(lp.upper@[j])
}

/// The point satisfies every inequality row that is not empty.
pub open spec fn keeps_entries<T: Scalar>(v: spec_fn(T) -> real, prob: QpProblem<T>, w: spec_fn(int) -> real) -> bool {
    forall|r: int|
        0 <= r < prob.mi() && #[trigger] entries_in(prob, r) > 0 ==> along(program_of(v, prob).a_in, w, r, prob.n())
            <= v(prob.b_in@[r])
}

/// Behind the unknowns, the point holds the slacks of the rows with more than one entry.
pub open spec fn holds_slacks<T: Scalar>(v: spec_fn(T) -> real, prob: QpProblem<T>, w: spec_fn(int) -> real) -> bool {
    forall|r: int|
        0 <= r < prob.mi() && #[trigger] entries_in(prob, r) > 1 ==> w((prob.n() + general_rows(prob, r as nat).len()) as int)
            == v(prob.b_in@[r]) - along(program_of(v, prob).a_in, w, r, prob.n())
}

/// The unknowns, and the slacks behind them, are not beyond the number that stands for no bound.
pub open spec fn not_huge<T: Scalar>(v: spec_fn(T) -> real, prob: QpProblem<T>, w: spec_fn(int) -> real) -> bool {
    let big = v(unbounded::<T>());
    &&& forall|j: int| 0 <= j < prob.n() ==> -big <= #[trigger] w(j) <= big
    &&& forall|j: int| prob.n() <= j < prob.n() + general_rows(prob, prob.mi()).len() ==> #[trigger] w(j) <= big
}

/// The boxed program has the points of the problem, with the slacks of the general rows behind the unknowns,
/// and the same objective, however the numbers are read.
pub open spec fn boxes<T: Scalar>(prob: QpProblem<T>, lp: BoxLp<T>) -> bool {
    forall|v: spec_fn(T) -> real, w: spec_fn(int) -> real|
        exact(v) && exact_order(v) ==> {
            &&& #[trigger] in_box(v, lp, w) <==> keeps_entries(v, prob, w) && holds_slacks(v, prob, w) && not_huge(
                v,
                prob,
                w,
            )
            &&& sum(|j: int| v(lp.c@[j]) * w(j), lp.c@.len()) == sum(|j: int| v(prob.q@[j]) * w(j), prob.n())
        }
}

proof fn lemma_order(a: real, x: real, y: real)
    ensures
        a > 0real ==> (a * x <= a * y <==> x <= y),
        a < 0real ==> (a * x <= a * y <==> y <= x),
        x * a == a * x,
        0real * x == 0real,
        1real * x == x,
{
    if a > 0real && x <= y {
        assert(a * x <= a * y) by (nonlinear_arith)
            requires
                a > 0real,
                x <= y,
        ;
    }
    if a > 0real && y < x {
        assert(a * y < a * x) by (nonlinear_arith)
            requires
                a > 0real,
                y < x,
        ;
    }
    if a < 0real && y <= x {
        assert(a * x <= a * y) by (nonlinear_arith)
            requires
                a < 0real,
                y <= x,
        ;
    }
    if a < 0real && x < y {
        assert(a * y < a * x) by (nonlinear_arith)
            requires
                a < 0real,
                x < y,
        ;
    }
    assert(x * a == a * x) by (nonlinear_arith);
    assert(0real * x == 0real) by (nonlinear_arith);
    assert(1real * x == x) by (nonlinear_arith);
}

/// The value `y` keeps entry `t` of a list of bounds, where that bounds from the side asked for.
pub open spec fn keeps_bound<T: Scalar>(
    v: spec_fn(T) -> real,
    prob: QpProblem<T>,
    rows: Seq<(usize, usize, T)>,
    c: int,
    above: bool,
    y: real,
    t: int,
) -> bool {
    rows[t].1 == c && (if above {
        v(rows[t].2) > 0real
    } else {
        v(rows[t].2) < 0real
    }) ==> v(rows[t].2) * y <= v(prob.b_in@[rows[t].0 as int])
}

/// A value is below the upper bound exactly when it keeps every row that bounds from above.
proof fn lemma_upper<T: Scalar>(
    v: spec_fn(T) -> real,
    prob: QpProblem<T>,
    rows: Seq<(usize, usize, T)>,
    c: int,
    k: nat,
    y: real,
)
    requires
        exact(v),
        exact_order(v),
        k <= rows.len(),
    ensures
        y <= v(upper_bound(prob, rows, c, k)) <==> y <= v(unbounded::<T>()) && forall|t: int|
            0 <= t < k ==> #[trigger] keeps_bound(v, prob, rows, c, true, y, t),
    decreases k,
{
    if k > 0 {
        let t = k - 1;
        lemma_upper(v, prob, rows, c, t as nat, y);
        let (r, col, val) = rows[t];
        if col == c && v(val) > 0real {
            let b = prob.b_in@[r as int];
            lemma_over(v, b, val);
            lemma_order(v(val), y, v(b.over(val)));
            lemma_order(v(val), v(b.over(val)), y);
        }
        if y <= v(upper_bound(prob, rows, c, k)) {
            assert(keeps_bound(v, prob, rows, c, true, y, t));
            assert forall|e: int| 0 <= e < k implies #[trigger] keeps_bound(v, prob, rows, c, true, y, e) by {
                if e < t {
                    assert(y <= v(upper_bound(prob, rows, c, t as nat)));
                }
            }
        } else if y <= v(unbounded::<T>()) && forall|e: int|
            0 <= e < k ==> #[trigger] keeps_bound(v, prob, rows, c, true, y, e) {
            assert(keeps_bound(v, prob, rows, c, true, y, t));
        }
    }
}

/// A value is above the lower bound exactly when it keeps every row that bounds from below.
proof fn lemma_lower<T: Scalar>(
    v: spec_fn(T) -> real,
    prob: QpProblem<T>,
    rows: Seq<(usize, usize, T)>,
    c: int,
    k: nat,
    y: real,
)
    requires
        exact(v),
        exact_order(v),
        k <= rows.len(),
        forall|t: int| 0 <= t < rows.len() ==> v((#[trigger] rows[t]).2) != 0real,
    ensures
        y >= v(lower_bound(prob, rows, c, k)) <==> y >= -v(unbounded::<T>()) && forall|t: int|
            0 <= t < k ==> #[trigger] keeps_bound(v, prob, rows, c, false, y, t),
    decreases k,
{
    if k > 0 {
        let t = k - 1;
        lemma_lower(v, prob, rows, c, t as nat, y);
        let (r, col, val) = rows[t];
        assert(v(rows[t].2) != 0real);
        if col == c && v(val) < 0real {
            let b = prob.b_in@[r as int];
            lemma_over(v, b, val);
            lemma_order(v(val), y, v(b.over(val)));
            lemma_order(v(val), v(b.over(val)), y);
        }
        if y >= v(lower_bound(prob, rows, c, k)) {
            assert(keeps_bound(v, prob, rows, c, false, y, t));
            assert forall|e: int| 0 <= e < k implies #[trigger] keeps_bound(v, prob, rows, c, false, y, e) by {
                if e < t {
                    assert(y >= v(lower_bound(prob, rows, c, t as nat)));
                }
            }
        } else if y >= -v(unbounded::<T>()) && forall|e: int|
            0 <= e < k ==> #[trigger] keeps_bound(v, prob, rows, c, false, y, e) {
            assert(keeps_bound(v, prob, rows, c, false, y, t));
        }
    }
}

/// A row with one entry holds it in its column.
pub proof fn lemma_bound_row<T: Scalar>(v: spec_fn(T) -> real, prob: QpProblem<T>, w: spec_fn(int) -> real, r: int)
    requires
        exact(v),
        prob.wf(),
        0 <= r < prob.mi(),
        entries_in(prob, r) == 1,
    ensures
        0 <= bound_col(prob, r) < prob.n(),
        v(bound_val(prob, r)) != 0real,
        along(program_of(v, prob).a_in, w, r, prob.n()) == v(bound_val(prob, r)) * w(bound_col(prob, r)),
{
    let n = prob.n();
    let c = bound_col(prob, r);
    let row = prob.a_in.row(r);
    lemma_one_entry(row, n);
    crate::lp_simplex::lemma_last_nonzero(row, n);
    assert(row[c] == prob.a_in.at(r, c));
    let f = |j: int| (program_of(v, prob).a_in)(r, j) * w(j);
    assert forall|j: int| 0 <= j < n && j != c implies #[trigger] f(j) == 0real by {
        assert(row[j] == prob.a_in.at(r, j));
        assert(row[j].equals(T::zero()));
        lemma_order(1real, w(j), w(j));
    }
    lemma_sum_single(f, n, c);
}

/// An empty row gives nothing.
pub proof fn lemma_empty_row<T: Scalar>(v: spec_fn(T) -> real, prob: QpProblem<T>, w: spec_fn(int) -> real, r: int)
    requires
        exact(v),
        prob.wf(),
        0 <= r < prob.mi(),
        entries_in(prob, r) == 0,
    ensures
        along(program_of(v, prob).a_in, w, r, prob.n()) == 0real,
{
    let row = prob.a_in.row(r);
    lemma_no_entry(row, prob.n());
    let f = |j: int| (program_of(v, prob).a_in)(r, j) * w(j);
    assert forall|j: int| 0 <= j < prob.n() implies #[trigger] f(j) == 0real by {
        assert(row[j] == prob.a_in.at(r, j));
        assert(row[j].equals(T::zero()));
        lemma_order(1real, w(j), w(j));
    }
    lemma_sum_zero(f, prob.n());
}

/// The box of the unknowns holds exactly the points that keep the rows with one entry.
proof fn lemma_bounds<T: Scalar>(v: spec_fn(T) -> real, prob: QpProblem<T>, w: spec_fn(int) -> real)
    requires
        exact(v),
        exact_order(v),
        prob.wf(),
    ensures
        ({
            let rows = bound_rows(prob, prob.mi());
            let big = v(unbounded::<T>());
            (forall|j: int|
                0 <= j < prob.n() ==> v(lower_bound(prob, rows, j, rows.len())) <= #[trigger] w(j) <= v(
                    upper_bound(prob, rows, j, rows.len()),
                )) <==> (forall|j: int| 0 <= j < prob.n() ==> -big <= #[trigger] w(j) <= big) && (forall|r: int|
                0 <= r < prob.mi() && #[trigger] entries_in(prob, r) == 1 ==> along(
                    program_of(v, prob).a_in,
                    w,
                    r,
                    prob.n(),
                ) <= v(prob.b_in@[r]))
        }),
{
    let rows = bound_rows(prob, prob.mi());
    let big = v(unbounded::<T>());
    let k = rows.len();
    let c = program_of(v, prob);
    lemma_bound_rows(prob, prob.mi());
    assert forall|t: int| 0 <= t < rows.len() implies v((#[trigger] rows[t]).2) != 0real by {
        lemma_bound_row(v, prob, w, rows[t].0 as int);
    }
    let inside = forall|j: int|
        0 <= j < prob.n() ==> v(lower_bound(prob, rows, j, k)) <= #[trigger] w(j) <= v(upper_bound(prob, rows, j, k));
    let kept = forall|r: int|
        0 <= r < prob.mi() && #[trigger] entries_in(prob, r) == 1 ==> along(c.a_in, w, r, prob.n()) <= v(prob.b_in@[r]);
    if inside {
        assert forall|j: int| 0 <= j < prob.n() implies -big <= #[trigger] w(j) <= big by {
            lemma_upper(v, prob, rows, j, k, w(j));
            lemma_lower(v, prob, rows, j, k, w(j));
        }
        assert forall|r: int| 0 <= r < prob.mi() && #[trigger] entries_in(prob, r) == 1 implies along(
            c.a_in,
            w,
            r,
            prob.n(),
        ) <= v(prob.b_in@[r]) by {
            let t = choose|t: int| 0 <= t < rows.len() && (#[trigger] rows[t]).0 == r;
            lemma_bound_row(v, prob, w, r);
            let j = bound_col(prob, r);
            lemma_upper(v, prob, rows, j, k, w(j));
            lemma_lower(v, prob, rows, j, k, w(j));
            assert(v(lower_bound(prob, rows, j, k)) <= w(j) <= v(upper_bound(prob, rows, j, k)));
            assert(keeps_bound(v, prob, rows, j, true, w(j), t));
            assert(keeps_bound(v, prob, rows, j, false, w(j), t));
        }
    }
    if kept && forall|j: int| 0 <= j < prob.n() ==> -big <= #[trigger] w(j) <= big {
        assert forall|j: int| 0 <= j < prob.n() implies v(lower_bound(prob, rows, j, k)) <= #[trigger] w(j) <= v(
            upper_bound(prob, rows, j, k),
        ) by {
            lemma_upper(v, prob, rows, j, k, w(j));
            lemma_lower(v, prob, rows, j, k, w(j));
            assert forall|t: int| 0 <= t < k implies #[trigger] keeps_bound(v, prob, rows, j, true, w(j), t) by {
                let r = rows[t].0 as int;
                assert(entries_in(prob, r) == 1);
                lemma_bound_row(v, prob, w, r);
            }
            assert forall|t: int| 0 <= t < k implies #[trigger] keeps_bound(v, prob, rows, j, false, w(j), t) by {
                let r = rows[t].0 as int;
                assert(entries_in(prob, r) == 1);
                lemma_bound_row(v, prob, w, r);
            }
        }
    }
}

/// The row of the boxed program is the general row and its slack.
proof fn lemma_boxed_row<T: Scalar>(
    v: spec_fn(T) -> real,
    prob: QpProblem<T>,
    lp: BoxLp<T>,
    w: spec_fn(int) -> real,
    i: int,
)
    requires
        exact(v),
        prob.wf(),
        is_box_lp(prob, lp),
        0 <= i < lp.b@.len(),
    ensures
        sum(|j: int| v(lp.a.at(i, j)) * w(j), lp.c@.len()) == along(
            program_of(v, prob).a_in,
            w,
            general_rows(prob, prob.mi())[i] as int,
            prob.n(),
        ) + w(prob.n() + i),
{
    let n = prob.n();
    let general = general_rows(prob, prob.mi());
    let m = general.len();
    let f = |j: int| v(lp.a.at(i, j)) * w(j);
    lemma_sum_split(f, n, m);
    let g = |j: int| (program_of(v, prob).a_in)(general[i] as int, j) * w(j);
    assert forall|j: int| 0 <= j < n implies #[trigger] f(j) == g(j) by {
        assert(lp.a.at(i, j) == prob.a_in.at(general[i] as int, j));
    }
    lemma_sum_same(f, g, n);
    let tail = |j: int| f(n + j);
    assert forall|j: int| 0 <= j < m && j != i implies #[trigger] tail(j) == 0real by {
        assert(lp.a.at(i, n + j) == T::zero());
        lemma_order(1real, w(n + j), w(n + j));
    }
    lemma_sum_single(tail, m, i);
    assert(lp.a.at(i, n + i) == T::one());
    lemma_order(1real, w(n + i), w(n + i));
}

/// The boxed program and the problem have the same points and the same objective.
pub proof fn boxed_program_has_the_same_points<T: Scalar>(prob: QpProblem<T>, lp: BoxLp<T>)
    requires
        prob.wf(),
        is_box_lp(prob, lp),
    ensures
        boxes(prob, lp),
{
    let n = prob.n();
    let mi = prob.mi();
    let general = general_rows(prob, mi);
    let m = general.len();
    let rows = bound_rows(prob, mi);
    assert forall|v: spec_fn(T) -> real, w: spec_fn(int) -> real| exact(v) && exact_order(v) implies {
        &&& #[trigger] in_box(v, lp, w) <==> keeps_entries(v, prob, w) && holds_slacks(v, prob, w) && not_huge(
            v,
            prob,
            w,
        )
        &&& sum(|j: int| v(lp.c@[j]) * w(j), lp.c@.len()) == sum(|j: int| v(prob.q@[j]) * w(j), n)
    } by {
        let c = program_of(v, prob);
        let big = v(unbounded::<T>());
        lemma_general_rows(prob, mi);
        lemma_bounds(v, prob, w);
        let f = |j: int| v(lp.c@[j]) * w(j);
        lemma_sum_split(f, n, m);
        lemma_sum_same(f, |j: int| v(prob.q@[j]) * w(j), n);
        let tail = |j: int| f(n + j);
        assert forall|j: int| 0 <= j < m implies #[trigger] tail(j) == 0real by {
            assert(lp.c@[n + j] == T::zero());
            lemma_order(1real, w(n + j), w(n + j));
        }
        lemma_sum_zero(tail, m);
        assert(lp.c@.len() == n + m && lp.lower@.len() == n + m && lp.upper@.len() == n + m);
        if in_box(v, lp, w) {
            assert forall|j: int| 0 <= j < n implies v(lower_bound(prob, rows, j, rows.len())) <= #[trigger] w(j)
                <= v(upper_bound(prob, rows, j, rows.len())) by {
                assert(v(lp.lower@[j]) <= w(j) <= v(lp.upper@[j]));
            }
            assert forall|i: int| 0 <= i < m implies 0real <= #[trigger] w(n + i) <= big by {
                let j = n + i;
                assert(0 <= j < lp.c@.len());
                assert(lp.lower@[j] == T::zero() && lp.upper@[j] == unbounded::<T>());
                assert(v(lp.lower@[j]) <= w(j) <= v(lp.upper@[j]));
            }
            assert forall|j: int| n <= j < n + m implies #[trigger] w(j) <= big by {
                assert(w(n + (j - n)) <= big);
            }
            assert forall|r: int| 0 <= r < mi && #[trigger] entries_in(prob, r) > 1 implies w(
                (n + general_rows(prob, r as nat).len()) as int,
            ) == v(prob.b_in@[r]) - along(c.a_in, w, r, n) && along(c.a_in, w, r, n) <= v(prob.b_in@[r]) by {
                let i = general_rows(prob, r as nat).len() as int;
                assert(general[i] == r);
                lemma_boxed_row(v, prob, lp, w, i);
                assert(sum(|j: int| v(lp.a.at(i, j)) * w(j), lp.c@.len()) == v(lp.b@[i]));
                assert(w(n + i) >= 0real);
            }
            assert(keeps_entries(v, prob, w)) by {
                assert forall|r: int| 0 <= r < mi && #[trigger] entries_in(prob, r) > 0 implies along(c.a_in, w, r, n)
                    <= v(prob.b_in@[r]) by {
                    if entries_in(prob, r) > 1 {
                        assert(w((n + general_rows(prob, r as nat).len()) as int) == v(prob.b_in@[r]) - along(
                            c.a_in,
                            w,
                            r,
                            n,
                        ));
                    }
                }
            }
        }
        if keeps_entries(v, prob, w) && holds_slacks(v, prob, w) && not_huge(v, prob, w) {
            assert forall|i: int| 0 <= i < lp.b@.len() implies sum(|j: int| v(lp.a.at(i, j)) * w(j), lp.c@.len()) == v(
                #[trigger] lp.b@[i],
            ) by {
                let r = general[i] as int;
                assert(entries_in(prob, r) > 1);
                lemma_boxed_row(v, prob, lp, w, i);
                assert(w((n + general_rows(prob, r as nat).len()) as int) == v(prob.b_in@[r]) - along(c.a_in, w, r, n));
            }
            assert forall|r: int| 0 <= r < mi && #[trigger] entries_in(prob, r) == 1 implies along(c.a_in, w, r, n)
                <= v(prob.b_in@[r]) by {
                assert(entries_in(prob, r) > 0);
            }
            assert forall|j: int| 0 <= j < lp.c@.len() implies v(#[trigger] lp.lower@[j]) <= w(j) <= v(lp.upper@[j]) by {
                if j < n {
                    assert(v(lower_bound(prob, rows, j, rows.len())) <= w(j) <= v(upper_bound(prob, rows, j, rows.len())));
                } else {
                    let r = general[j - n] as int;
                    assert(entries_in(prob, r) > 1);
                    assert(along(c.a_in, w, r, n) <= v(prob.b_in@[r]));
                    assert(w((n + general_rows(prob, r as nat).len()) as int) == v(prob.b_in@[r]) - along(
                        c.a_in,
                        w,
                        r,
                        n,
                    ));
                    assert(w(j) <= big);
                }
            }
        }
    }
}

/// What is recovered from a vertex is a point of the problem: where the vertex is a point of the boxed
/// program, the unknowns satisfy every inequality row, and the slacks are what the rows leave.
pub open spec fn recovers_point<T: Scalar>(prob: QpProblem<T>, vertex: Vertex<T>, sol: QpSolution<T>) -> bool {
    forall|v: spec_fn(T) -> real, lp: BoxLp<T>|
        exact(v) && exact_order(v) && boxes(prob, lp) && #[trigger] in_box(v, lp, entries(v, vertex.x@)) ==> forall|
            r: int,
        |
            0 <= r < prob.mi() ==> v(#[trigger] sol.s@[r]) == v(prob.b_in@[r]) - along(
                program_of(v, prob).a_in,
                entries(v, sol.x@),
                r,
                prob.n(),
            ) && v(sol.s@[r]) >= 0real
}

/// What is recovered from a point of the boxed program is feasible for the problem.
pub proof fn recovered_point_is_feasible<T: Scalar>(prob: QpProblem<T>, vertex: Vertex<T>, sol: QpSolution<T>)
    requires
        prob.wf(),
        vertex.x@.len() == prob.n() + general_rows(prob, prob.mi()).len(),
        vertex_solution(prob, vertex) is Some,
        sol.parts() == vertex_solution(prob, vertex)->0,
    ensures
        recovers_point(prob, vertex, sol),
{
    let n = prob.n();
    assert forall|v: spec_fn(T) -> real, lp: BoxLp<T>|
        exact(v) && exact_order(v) && boxes(prob, lp) && #[trigger] in_box(v, lp, entries(v, vertex.x@)) implies forall|
        r: int,
    |
        0 <= r < prob.mi() ==> v(#[trigger] sol.s@[r]) == v(prob.b_in@[r]) - along(
            program_of(v, prob).a_in,
            entries(v, sol.x@),
            r,
            n,
        ) && v(sol.s@[r]) >= 0real by {
        let c = program_of(v, prob);
        let w = entries(v, vertex.x@);
        let x = entries(v, sol.x@);
        assert(keeps_entries(v, prob, w) && holds_slacks(v, prob, w));
        assert forall|r: int| 0 <= r < prob.mi() implies v(#[trigger] sol.s@[r]) == v(prob.b_in@[r]) - along(
            c.a_in,
            x,
            r,
            n,
        ) && v(sol.s@[r]) >= 0real by {
            assert(sol.s@[r] == slack_of(prob, vertex.x@, r));
            let f = |j: int| (c.a_in)(r, j) * x(j);
            let g = |j: int| (c.a_in)(r, j) * w(j);
            assert forall|j: int| 0 <= j < n implies #[trigger] f(j) == g(j) by {
                assert(sol.x@[j] == vertex.x@[j]);
            }
            lemma_sum_same(f, g, n);
            if entries_in(prob, r) == 1 {
                lemma_bound_row(v, prob, w, r);
            } else if entries_in(prob, r) > 1 {
                lemma_general_rows(prob, prob.mi());
                assert(w((n + general_rows(prob, r as nat).len()) as int) == v(prob.b_in@[r]) - along(c.a_in, w, r, n));
            } else {
                lemma_empty_row(v, prob, w, r);
                assert(!prob.b_in@[r].below(T::zero()));
            }
        }
    }
}

/// The multipliers balance the objective, are not negative and vanish where a slack is left, up to the
/// tolerances of the method.
pub open spec fn balances<T: Scalar>(v: spec_fn(T) -> real, prob: QpProblem<T>, sol: QpSolution<T>) -> bool {
    let c = program_of(v, prob);
    let (s, z) = (entries(v, sol.s@), entries(v, sol.z@));
    let tol = v(T::decimal(1, 6));
    &&& forall|j: int|
        0 <= j < prob.n() ==> magnitude(#[trigger] (c.q)(j) + across(c.a_in, z, j, c.mi)) <= tol * (1real + largest(
            c.q,
            c.n,
        ) + sum(|r: int| magnitude((c.a_in)(r, j)) * magnitude(z(r)), c.mi))
    &&& forall|r: int|
        0 <= r < prob.mi() ==> {
            let z_tol = tol * (1real + largest(z, c.mi));
            &&& #[trigger] z(r) >= -z_tol
            &&& s(r) <= v(T::decimal(1, 8)) * (1real + largest(c.b_in, c.mi)) || magnitude(z(r)) <= z_tol
        }
}

proof fn lemma_stationarity<T: Scalar>(v: spec_fn(T) -> real, prob: QpProblem<T>, z: Seq<T>, j: int, k: nat)
    requires
        exact(v),
        exact_order(v),
    ensures
        v(stationarity_upto(prob, z, j, k)) == v(prob.q@[j]) + sum(|r: int| v(prob.a_in.at(r, j)) * v(z[r]), k),
        v(dual_scale_upto(prob, z, j, k)) == sum(
            |r: int| magnitude(v(prob.a_in.at(r, j))) * magnitude(v(z[r])),
            k,
        ),
    decreases k,
{
    if k > 0 {
        lemma_stationarity(v, prob, z, j, (k - 1) as nat);
        lemma_order(1real, v(z[k - 1]), 0real);
        lemma_order(1real, magnitude(v(z[k - 1])), 0real);
    }
}

/// Multipliers that pass the check balance the objective in terms of the problem's own matrices.
pub proof fn checked_multipliers_balance<T: Scalar>(v: spec_fn(T) -> real, prob: QpProblem<T>, sol: QpSolution<T>)
    requires
        exact(v),
        exact_order(v),
        prob.wf(),
        sol.z@.len() == prob.mi(),
        consistent(prob, sol.s@, sol.z@),
    ensures
        balances(v, prob, sol),
{
    let c = program_of(v, prob);
    let (s, z) = (entries(v, sol.s@), entries(v, sol.z@));
    norms_are_exact(v, prob.q@, prob.n());
    norms_are_exact(v, sol.z@, prob.mi());
    norms_are_exact(v, prob.b_in@, prob.mi());
    lemma_largest_same(|i: int| v(prob.q@[i]), c.q, c.n);
    lemma_largest_same(|i: int| v(sol.z@[i]), z, c.mi);
    lemma_largest_same(|i: int| v(prob.b_in@[i]), c.b_in, c.mi);
    assert forall|j: int| 0 <= j < prob.n() implies magnitude(#[trigger] (c.q)(j) + across(c.a_in, z, j, c.mi)) <= v(
        T::decimal(1, 6),
    ) * (1real + largest(c.q, c.n) + sum(|r: int| magnitude((c.a_in)(r, j)) * magnitude(z(r)), c.mi)) by {
        assert(stationary_at(prob, sol.z@, j));
        lemma_stationarity(v, prob, sol.z@, j, prob.mi());
        lemma_sum_same(|r: int| v(prob.a_in.at(r, j)) * v(sol.z@[r]), |r: int| (c.a_in)(r, j) * z(r), c.mi);
        lemma_sum_same(
            |r: int| magnitude(v(prob.a_in.at(r, j))) * magnitude(v(sol.z@[r])),
            |r: int| magnitude((c.a_in)(r, j)) * magnitude(z(r)),
            c.mi,
        );
    }
    assert forall|r: int| 0 <= r < prob.mi() implies {
        let z_tol = v(T::decimal(1, 6)) * (1real + largest(z, c.mi));
        &&& #[trigger] z(r) >= -z_tol
        &&& s(r) <= v(T::decimal(1, 8)) * (1real + largest(c.b_in, c.mi)) || magnitude(z(r)) <= z_tol
    } by {
        assert(complementary_at(prob, sol.s@, sol.z@, r));
    }
}

/// A solution of the simplex route answers the problem: where the method's vertices are points of the boxed
/// programs that it is given, the unknowns satisfy every row, the slacks are what the rows leave, and the
/// multipliers balance the objective.
pub proof fn simplex_solution_answers_the_problem<T: Scalar, S: Fn(&BoxLp<T>) -> Option<Vertex<T>>>(
    v: spec_fn(T) -> real,
    prob: QpProblem<T>,
    simplex: S,
    sol: QpSolution<T>,
)
    requires
        exact(v),
        exact_order(v),
        prob.wf(),
        simplex_route(prob, simplex, Some(sol)),
        forall|lp: &BoxLp<T>, p: Vertex<T>| #[trigger]
            simplex.ensures((lp,), Some(p)) ==> p.x@.len() == lp.c@.len() && in_box(v, *lp, entries(v, p.x@)),
    ensures
        forall|r: int|
            0 <= r < prob.mi() ==> v(#[trigger] sol.s@[r]) == v(prob.b_in@[r]) - along(
                program_of(v, prob).a_in,
                entries(v, sol.x@),
                r,
                prob.n(),
            ) && v(sol.s@[r]) >= 0real,
        balances(v, prob, sol),
{
    let (lp, p) = choose|lp: &BoxLp<T>, p: Option<Vertex<T>>|
        {
            &&& is_box_lp(prob, *lp)
            &&& #[trigger] simplex.ensures((lp,), p)
            &&& match p {
                None => false,
                Some(p) => {
                    &&& vertex_solution(prob, p) is Some
                    &&& sol.parts() == vertex_solution(prob, p)->0 && sol.plain()
                },
            }
        };
    let vertex = p->0;
    boxed_program_has_the_same_points(prob, *lp);
    recovered_point_is_feasible(prob, vertex, sol);
    assert(in_box(v, *lp, entries(v, vertex.x@)));
    checked_multipliers_balance(v, prob, sol);
}

/// The multipliers of a reported solution balance the objective, however the numbers are read.
pub open spec fn answers_simplex<T: Scalar>(prob: QpProblem<T>, sol: QpSolution<T>) -> bool {
    forall|v: spec_fn(T) -> real| #[trigger] exact(v) && exact_order(v) ==> balances(v, prob, sol)
}

/// Multipliers that passed the check answer the problem.
pub proof fn tested_multipliers_answer_the_problem<T: Scalar>(prob: QpProblem<T>, sol: QpSolution<T>)
    requires
        prob.wf(),
        sol.z@.len() == prob.mi(),
        consistent(prob, sol.s@, sol.z@),
    ensures
        answers_simplex(prob, sol),
{
    assert forall|v: spec_fn(T) -> real| #[trigger] exact(v) && exact_order(v) implies balances(v, prob, sol) by {
        checked_multipliers_balance(v, prob, sol);
    }
}

} // verus!
