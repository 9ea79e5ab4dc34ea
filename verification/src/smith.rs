//! The Smith-normal-form elimination of the sandpile group as a state
//! machine over integer matrices: each step is one pivot search, one row or
//! column operation, or one divisibility test, and a step whose result
//! would leave `i128` fails the run.
use vstd::prelude::*;

verus! {

use crate::analyze::{abs_i, crem, id_mat};
use crate::exact::{in_i128, mat_view, tdiv};

/// The phase of the elimination at pivot position `t`: searching the pivot,
/// clearing column `t` from row `i`, clearing row `t` from column `j`, or
/// testing that the pivot divides entry `(i, j)` of the remaining block.
pub enum SnfPhase {
    Pivot { t: int },
    Col { t: int, i: int, clean: bool },
    Row { t: int, j: int, clean: bool },
    Div { t: int, i: int, j: int },
}

/// A run of the elimination: the current matrix and left transform with
/// the phase; the diagonal matrix and transform reached; or a failure
/// because a value left `i128`.
pub enum SnfRun {
    Running(Seq<Seq<int>>, Seq<Seq<int>>, SnfPhase),
    Done(Seq<Seq<int>>, Seq<Seq<int>>),
    Failed,
}

/// The row-major scan for a nonzero entry of least absolute value in the
/// block from `t` on, continued from `(i, j)` with the best entry so far.
pub open spec fn pivot_scan(a: Seq<Seq<int>>, t: int, i: int, j: int, best: Option<(int, int)>) -> Option<(int, int)>
    decreases a.len() - i, a.len() - j,
{
    if i >= a.len() {
        best
    } else if j >= a.len() {
        pivot_scan(a, t, i + 1, t, best)
    } else {
        let x = a[i][j];
        let better = x != 0 && match best {
            None => true,
            Some((bi, bj)) => abs_i(x) < abs_i(a[bi][bj]),
        };
        pivot_scan(a, t, i, j + 1, if better { Some((i, j)) } else { best })
    }
}

/// The first nonzero entry of least absolute value in the block from `t`
/// on, in row-major order.
pub open spec fn pivot_of(a: Seq<Seq<int>>, t: int) -> Option<(int, int)> {
    pivot_scan(a, t, t, t, None)
}

/// Rows `i` and `k` exchanged.
pub open spec fn swap_rows_m(a: Seq<Seq<int>>, i: int, k: int) -> Seq<Seq<int>> {
    Seq::new(a.len(), |r: int| if r == i { a[k] } else if r == k { a[i] } else { a[r] })
}

/// Columns `i` and `k` exchanged.
pub open spec fn swap_cols_m(a: Seq<Seq<int>>, i: int, k: int) -> Seq<Seq<int>> {
    Seq::new(
        a.len(),
        |r: int| Seq::new(a[r].len(), |c: int| if c == i { a[r][k] } else if c == k { a[r][i] } else { a[r][c] }),
    )
}

/// Row `i` minus `q` times row `t`.
pub open spec fn row_sub_m(a: Seq<Seq<int>>, i: int, t: int, q: int) -> Seq<Seq<int>> {
    a.update(i, Seq::new(a[i].len(), |c: int| a[i][c] - q * a[t][c]))
}

/// Column `j` minus `q` times column `t`.
pub open spec fn col_sub_m(a: Seq<Seq<int>>, j: int, t: int, q: int) -> Seq<Seq<int>> {
    Seq::new(a.len(), |r: int| a[r].update(j, a[r][j] - q * a[r][t]))
}

/// Row `t` plus row `i`.
pub open spec fn row_add_m(a: Seq<Seq<int>>, t: int, i: int) -> Seq<Seq<int>> {
    a.update(t, Seq::new(a[t].len(), |c: int| a[t][c] + a[i][c]))
}

/// The products and differences of a row operation fit in `i128`.
pub open spec fn row_sub_ok(a: Seq<Seq<int>>, i: int, t: int, q: int) -> bool {
    forall|c: int| 0 <= c < a.len() ==> in_i128(q * #[trigger] a[t][c]) && in_i128(a[i][c] - q * a[t][c])
}

/// The products and differences of a column operation fit in `i128`.
pub open spec fn col_sub_ok(a: Seq<Seq<int>>, j: int, t: int, q: int) -> bool {
    forall|r: int| 0 <= r < a.len() ==> in_i128(q * #[trigger] a[r][t]) && in_i128(a[r][j] - q * a[r][t])
}

/// The sums of a row addition fit in `i128`.
pub open spec fn row_add_ok(a: Seq<Seq<int>>, t: int, i: int) -> bool {
    forall|c: int| 0 <= c < a.len() ==> in_i128(#[trigger] a[t][c] + a[i][c])
}

/// The quotient that `checked_div` gives on `i128`.
pub open spec fn div_opt(x: int, p: int) -> Option<int> {
    if p == 0 || !in_i128(tdiv(x, p)) {
        None
    } else {
        Some(tdiv(x, p))
    }
}

/// The remainder that `checked_rem` gives on `i128`.
pub open spec fn rem_opt(x: int, p: int) -> Option<int> {
    if p == 0 || (x == i128::MIN && p == -1) || !in_i128(crem(x, p)) {
        None
    } else {
        Some(crem(x, p))
    }
}

/// One step from the running state `(a, u, ph)`.
pub open spec fn snf_step_running(a: Seq<Seq<int>>, u: Seq<Seq<int>>, ph: SnfPhase) -> SnfRun {
    let m = a.len() as int;
    match ph {
        SnfPhase::Pivot { t } => if t >= m {
            SnfRun::Done(a, u)
        } else {
            match pivot_of(a, t) {
                None => SnfRun::Done(a, u),
                Some((pi, pj)) => SnfRun::Running(
                    swap_cols_m(swap_rows_m(a, t, pi), t, pj),
                    swap_rows_m(u, t, pi),
                    SnfPhase::Col { t, i: t + 1, clean: true },
                ),
            }
        },
        SnfPhase::Col { t, i, clean } => if i >= m {
            if clean {
                SnfRun::Running(a, u, SnfPhase::Row { t, j: t + 1, clean: true })
            } else {
                SnfRun::Running(a, u, SnfPhase::Pivot { t })
            }
        } else if a[i][t] == 0 {
            SnfRun::Running(a, u, SnfPhase::Col { t, i: i + 1, clean })
        } else {
            match div_opt(a[i][t], a[t][t]) {
                None => SnfRun::Failed,
                Some(q) => if !row_sub_ok(a, i, t, q) || !row_sub_ok(u, i, t, q) {
                    SnfRun::Failed
                } else {
                    let a2 = row_sub_m(a, i, t, q);
                    SnfRun::Running(a2, row_sub_m(u, i, t, q), SnfPhase::Col { t, i: i + 1, clean: clean && a2[i][t] == 0 })
                },
            }
        },
        SnfPhase::Row { t, j, clean } => if j >= m {
            if clean {
                SnfRun::Running(a, u, SnfPhase::Div { t, i: t + 1, j: t + 1 })
            } else {
                SnfRun::Running(a, u, SnfPhase::Pivot { t })
            }
        } else if a[t][j] == 0 {
            SnfRun::Running(a, u, SnfPhase::Row { t, j: j + 1, clean })
        } else {
            match div_opt(a[t][j], a[t][t]) {
                None => SnfRun::Failed,
                Some(q) => if !col_sub_ok(a, j, t, q) {
                    SnfRun::Failed
                } else {
                    let a2 = col_sub_m(a, j, t, q);
                    SnfRun::Running(a2, u, SnfPhase::Row { t, j: j + 1, clean: clean && a2[t][j] == 0 })
                },
            }
        },
        SnfPhase::Div { t, i, j } => if i >= m {
            SnfRun::Running(a, u, SnfPhase::Pivot { t: t + 1 })
        } else if j >= m {
            SnfRun::Running(a, u, SnfPhase::Div { t, i: i + 1, j: t + 1 })
        } else {
            match rem_opt(a[i][j], a[t][t]) {
                None => SnfRun::Failed,
                Some(rr) => if rr == 0 {
                    SnfRun::Running(a, u, SnfPhase::Div { t, i, j: j + 1 })
                } else if !row_add_ok(a, t, i) || !row_add_ok(u, t, i) {
                    SnfRun::Failed
                } else {
                    SnfRun::Running(row_add_m(a, t, i), row_add_m(u, t, i), SnfPhase::Pivot { t })
                },
            }
        },
    }
}

/// One step of a run; a finished or failed run stays as it is.
pub open spec fn snf_step(s: SnfRun) -> SnfRun {
    match s {
        SnfRun::Running(a, u, ph) => snf_step_running(a, u, ph),
        _ => s,
    }
}

/// The run on `l` after `k` steps, from `l` itself with the identity
/// transform and the pivot search at position 0.
pub open spec fn snf_run(l: Seq<Seq<int>>, k: nat) -> SnfRun
    decreases k,
{
    if k == 0 {
        SnfRun::Running(l, id_mat(l.len() as int), SnfPhase::Pivot { t: 0 })
    } else {
        snf_step(snf_run(l, (k - 1) as nat))
    }
}

/// Each diagonal entry and, where it is negative, each entry of its row of
/// the transform can be negated in `i128`.
pub open spec fn finish_ok(a: Seq<Seq<int>>, u: Seq<Seq<int>>) -> bool {
    forall|k: int|
        0 <= k < a.len() ==> #[trigger] a[k][k] != i128::MIN && (a[k][k] < 0 ==> forall|c: int|
            0 <= c < a.len() ==> u[k][c] != i128::MIN)
}

/// The elimination of `l` finishes with every value in `i128`.
pub open spec fn snf_fits(l: Seq<Seq<int>>) -> bool {
    exists|k: nat|
        #![trigger snf_run(l, k)]
        match snf_run(l, k) {
            SnfRun::Done(a, u) => finish_ok(a, u),
            _ => false,
        }
}

/// A finished or failed run stays as it is.
pub proof fn lemma_run_stays(l: Seq<Seq<int>>, k1: nat, k2: nat)
    requires
        k1 <= k2,
        !(snf_run(l, k1) is Running),
    ensures
        snf_run(l, k2) == snf_run(l, k1),
    decreases k2 - k1,
{
    if k1 < k2 {
        lemma_run_stays(l, k1, (k2 - 1) as nat);
    }
}

/// The run is still going at every step up to `k`.
pub open spec fn running_upto(l: Seq<Seq<int>>, k: nat) -> bool {
    forall|j: nat| j <= k ==> #[trigger] snf_run(l, j) is Running
}

/// The step after a running state, and the run still going if it is.
pub proof fn lemma_advance(l: Seq<Seq<int>>, k: nat, a: Seq<Seq<int>>, u: Seq<Seq<int>>, ph: SnfPhase)
    requires
        snf_run(l, k) == SnfRun::Running(a, u, ph),
        running_upto(l, k),
    ensures
        snf_run(l, k + 1) == snf_step_running(a, u, ph),
        snf_step_running(a, u, ph) is Running ==> running_upto(l, k + 1),
{
    assert(snf_run(l, k + 1) == snf_step(snf_run(l, k)));
    if snf_step_running(a, u, ph) is Running {
        assert forall|j: nat| j <= k + 1 implies #[trigger] snf_run(l, j) is Running by {
            if j <= k {
                assert(snf_run(l, j) is Running);
            }
        }
    }
}

/// A run that is still going for the first `k` steps and then fails, or
/// finishes with a negation that leaves `i128`, never fits.
pub proof fn lemma_run_fails(l: Seq<Seq<int>>, k: nat)
    requires
        running_upto(l, k),
        match snf_run(l, k + 1) {
            SnfRun::Failed => true,
            SnfRun::Done(a, u) => !finish_ok(a, u),
            _ => false,
        },
    ensures
        !snf_fits(l),
{
    assert forall|k2: nat|
        !(match #[trigger] snf_run(l, k2) {
            SnfRun::Done(a, u) => finish_ok(a, u),
            _ => false,
        }) by {
        if k2 >= k + 1 {
            lemma_run_stays(l, k + 1, k2);
        } else {
            assert(snf_run(l, k2) is Running);
        }
    }
}

/// A run that finishes with every negation in `i128` fits.
pub proof fn lemma_run_fits(l: Seq<Seq<int>>, k: nat, a: Seq<Seq<int>>, u: Seq<Seq<int>>)
    requires
        snf_run(l, k) == SnfRun::Done(a, u),
        finish_ok(a, u),
    ensures
        snf_fits(l),
{
    assert(match snf_run(l, k) {
        SnfRun::Done(a2, u2) => finish_ok(a2, u2),
        _ => false,
    });
}

/// A matrix of `i128` entries viewed as integers equals `b` when the
/// entries agree.
pub proof fn lemma_mat_view_eq(a: Seq<Vec<i128>>, b: Seq<Seq<int>>)
    requires
        a.len() == b.len(),
        forall|r: int| 0 <= r < a.len() ==> (#[trigger] a[r])@.len() == b[r].len(),
        forall|r: int, c: int| 0 <= r < a.len() && 0 <= c < b[r].len() ==> #[trigger] a[r]@[c] == b[r][c],
    ensures
        mat_view(a) == b,
{
    assert forall|r: int| 0 <= r < a.len() implies #[trigger] mat_view(a)[r] =~= b[r] by {}
    assert(mat_view(a) =~= b);
}

} // verus!
