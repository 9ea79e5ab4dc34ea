//! Sandpile group structure (Smith normal form), the Möbius function of the
//! parking-function poset, automorphism orbit census, and the image of the
//! BCT canonical box inside the sandpile group.
use vstd::prelude::*;

verus! {

use crate::dhar::{colex_lt, is_parking_vector, le_on_common, rows_view};
use crate::exact::{in_i128, laplacian_model, mat_view};
use crate::smith::{
    col_sub_m, col_sub_ok, finish_ok, lemma_advance, lemma_run_fails, lemma_run_fits, pivot_of, pivot_scan, row_add_m,
    row_add_ok, row_sub_m, row_sub_ok, running_upto, snf_fits, snf_run, snf_step_running, swap_cols_m, swap_rows_m,
    SnfPhase, SnfRun,
};
use crate::graph::{degrees_fit, Graph};
use crate::sums::{lemma_sum_ext, sum};
use rayon::iter::{IntoParallelRefIterator, ParallelIterator};
use rayon::slice::ParallelSliceMut;

/// The reduced Laplacian (root row and column removed) in `i128`.
pub fn reduced_laplacian(g: &Graph) -> (a: Vec<Vec<i128>>)
    requires
        g.wf(),
        degrees_fit(g.adj@),
    ensures
        mat_view(a@) == laplacian_model(g.adj@),
        a@.len() == g.n - 1,
        forall|i: int| 0 <= i < a@.len() ==> (#[trigger] a@[i])@.len() == g.n - 1,
{
    let m = g.n - 1;
    let mut a: Vec<Vec<i128>> = Vec::new();
    for i in 0..m
        invariant
            m == g.n - 1,
            g.wf(),
            degrees_fit(g.adj@),
            a@.len() == i,
            forall|r: int| 0 <= r < i ==> (#[trigger] a@[r])@.len() == m,
            forall|r: int, c: int|
                0 <= r < i && 0 <= c < m ==> (#[trigger] a@[r]@[c]) as int == laplacian_model(g.adj@)[r][c],
    {
        let mut row: Vec<i128> = Vec::new();
        for j in 0..m
            invariant
                m == g.n - 1,
                i < m,
                g.wf(),
                degrees_fit(g.adj@),
                row@.len() == j,
                forall|c: int| 0 <= c < j ==> (#[trigger] row@[c]) as int == laplacian_model(g.adj@)[i as int][c],
        {
            if i == j {
                let d = g.weighted_degree(i + 1);
                row.push(d as i128);
            } else {
                proof {
                    assert(g.adj@[i + 1]@.len() == g.n);
                }
                row.push(-(g.adj[i + 1][j + 1] as i128));
            }
        }
        a.push(row);
    }
    proof {
        assert forall|r: int| 0 <= r < m implies #[trigger] mat_view(a@)[r] =~= laplacian_model(g.adj@)[r] by {}
        assert(mat_view(a@) =~= laplacian_model(g.adj@));
    }
    a
}


// ---------------------------------------------------------------------------
// Smith normal form of the reduced Laplacian, tracking the left transform U,
// so that configurations map to sandpile-group elements via x -> (U x) mod d.
// ---------------------------------------------------------------------------

/// The invariant factors of the sandpile group, with the left transform of
/// the Smith normal form.
pub struct SandpileGroup {
    /// all invariant factors (including trivial 1s), diagonal of the SNF
    pub factors: Vec<i128>,
    /// left unimodular transform: U * L' * V = diag(factors)
    pub u: Vec<Vec<i128>>,
}

pub open spec fn abs_i(x: int) -> int {
    if x < 0 {
        -x
    } else {
        x
    }
}

/// An `m` by `m` matrix.
pub open spec fn is_square_mat(a: Seq<Vec<i128>>, m: int) -> bool {
    &&& a.len() == m
    &&& forall|i: int| 0 <= i < m ==> (#[trigger] a[i])@.len() == m
}

/// Every entry of the lower-right block from `t` on is zero.
pub open spec fn block_zero(a: Seq<Vec<i128>>, t: int) -> bool {
    forall|i: int, j: int| t <= i < a.len() && t <= j < a.len() ==> #[trigger] a[i]@[j] == 0
}

/// Some nonzero entry of the block from `t` on has absolute value at most `b`.
pub open spec fn block_has(a: Seq<Vec<i128>>, t: int, b: int) -> bool {
    exists|i: int, j: int| t <= i < a.len() && t <= j < a.len() && #[trigger] a[i]@[j] != 0 && abs_i(a[i]@[j] as int) <= b
}

/// Rows and columns before `t` are zero off the diagonal.
pub open spec fn diag_upto(a: Seq<Vec<i128>>, t: int) -> bool {
    forall|r: int, c: int|
        0 <= r < a.len() && 0 <= c < a.len() && (r < t || c < t) && r != c ==> #[trigger] a[r]@[c] == 0
}

/// Remainder of division rounding toward zero.
pub open spec fn trem(x: int, d: int) -> int {
    x - crate::exact::tdiv(x, d) * d
}

/// The remainder that integer `%` on `i128` computes (rounding toward zero).
pub open spec fn crem(x: int, d: int) -> int {
    if x == 0 {
        0
    } else if x > 0 && d > 0 {
        x % d
    } else if x < 0 && d < 0 {
        ((x * -1) % (d * -1)) * -1
    } else if x < 0 {
        ((x * -1) % d) * -1
    } else {
        x % (d * -1)
    }
}

proof fn lemma_trem(x: int, d: int)
    requires
        d != 0,
    ensures
        abs_i(trem(x, d)) < abs_i(d),
        abs_i(crate::exact::tdiv(x, d)) <= abs_i(x),
        trem(x, d) == crem(x, d),
{
    let q = crate::exact::tdiv(x, d);
    let r = x - q * d;
    assert(trem(x, d) == r);
    if x == 0 {
    } else if x > 0 && d > 0 {
        vstd::arithmetic::div_mod::lemma_fundamental_div_mod(x, d);
        assert(q == x / d);
        assert(0 <= x / d <= x) by (nonlinear_arith)
            requires x > 0, d > 0, x == d * (x / d) + x % d, 0 <= x % d < d;
        assert(r == x % d) by (nonlinear_arith)
            requires x == d * (x / d) + x % d, q == x / d, r == x - q * d;
    } else if x < 0 && d < 0 {
        let y = -x;
        let e = -d;
        vstd::arithmetic::div_mod::lemma_fundamental_div_mod(y, e);
        assert(q == y / e);
        assert(0 <= y / e <= y) by (nonlinear_arith)
            requires y > 0, e > 0, y == e * (y / e) + y % e, 0 <= y % e < e;
        assert(r == -(y % e)) by (nonlinear_arith)
            requires y == e * (y / e) + y % e, q == y / e, y == -x, e == -d, r == x - q * d;
    } else if x < 0 {
        let y = -x;
        vstd::arithmetic::div_mod::lemma_fundamental_div_mod(y, d);
        assert(q == -(y / d));
        assert(0 <= y / d <= y) by (nonlinear_arith)
            requires y > 0, d > 0, y == d * (y / d) + y % d, 0 <= y % d < d;
        assert(r == -(y % d)) by (nonlinear_arith)
            requires y == d * (y / d) + y % d, q == -(y / d), y == -x, r == x - q * d;
    } else {
        let e = -d;
        vstd::arithmetic::div_mod::lemma_fundamental_div_mod(x, e);
        assert(q == -(x / e));
        assert(0 <= x / e <= x) by (nonlinear_arith)
            requires x > 0, e > 0, x == e * (x / e) + x % e, 0 <= x % e < e;
        assert(r == x % e) by (nonlinear_arith)
            requires x == e * (x / e) + x % e, q == -(x / e), e == -d, r == x - q * d;
    }
}

/// `|x|` as an unsigned number.
fn uabs(x: i128) -> (r: u128)
    ensures
        r as int == abs_i(x as int),
{
    if x < 0 {
        ((-(x + 1)) as u128) + 1
    } else {
        x as u128
    }
}

/// Position of a nonzero entry of least absolute value in the block from
/// `t` on, the first such in row-major order; `None` if the block is zero.
fn find_pivot(a: &Vec<Vec<i128>>, t: usize) -> (r: Option<(usize, usize)>)
    requires
        is_square_mat(a@, a@.len() as int),
        t < a@.len(),
    ensures
        match r {
            None => block_zero(a@, t as int),
            Some((i, j)) => {
                &&& t <= i < a@.len() && t <= j < a@.len()
                &&& a@[i as int]@[j as int] != 0
                &&& forall|i2: int, j2: int|
                    t <= i2 < a@.len() && t <= j2 < a@.len() && #[trigger] a@[i2]@[j2] != 0 ==> abs_i(
                        a@[i as int]@[j as int] as int,
                    ) <= abs_i(a@[i2]@[j2] as int)
                &&& (a@[t as int]@[t as int] != 0 && abs_i(a@[t as int]@[t as int] as int) == abs_i(
                    a@[i as int]@[j as int] as int,
                )) ==> i == t && j == t
            },
        },
        pivot_of(mat_view(a@), t as int) == match r {
            None => None,
            Some((i, j)) => Some((i as int, j as int)),
        },
{
    let m = a.len();
    let ghost am = mat_view(a@);
    let mut best: Option<(usize, usize)> = None;
    let mut bestabs: u128 = 0;
    for i in t..m
        invariant
            m == a@.len(),
            is_square_mat(a@, m as int),
            t < m,
            match best {
                None => forall|i2: int, j2: int| t <= i2 < i && t <= j2 < m ==> #[trigger] a@[i2]@[j2] == 0,
                Some((bi, bj)) => {
                    &&& t <= bi < m && t <= bj < m
                    &&& a@[bi as int]@[bj as int] != 0
                    &&& bestabs == abs_i(a@[bi as int]@[bj as int] as int)
                    &&& forall|i2: int, j2: int|
                        t <= i2 < i && t <= j2 < m && #[trigger] a@[i2]@[j2] != 0 ==> bestabs <= abs_i(a@[i2]@[j2] as int)
                    &&& (a@[t as int]@[t as int] != 0 && abs_i(a@[t as int]@[t as int] as int) == bestabs) ==> bi == t
                        && bj == t
                },
            },
            i > t ==> (a@[t as int]@[t as int] != 0 ==> best is Some),
            am == mat_view(a@),
            pivot_scan(am, t as int, i as int, t as int, match best {
                None => None,
                Some((bi, bj)) => Some((bi as int, bj as int)),
            }) == pivot_of(am, t as int),
    {
        for j in t..m
            invariant
                m == a@.len(),
                is_square_mat(a@, m as int),
                t <= i < m,
                match best {
                    None => forall|i2: int, j2: int|
                        ((t <= i2 < i && t <= j2 < m) || (i2 == i && t <= j2 < j)) ==> #[trigger] a@[i2]@[j2] == 0,
                    Some((bi, bj)) => {
                        &&& t <= bi < m && t <= bj < m
                        &&& a@[bi as int]@[bj as int] != 0
                        &&& bestabs == abs_i(a@[bi as int]@[bj as int] as int)
                        &&& forall|i2: int, j2: int|
                            ((t <= i2 < i && t <= j2 < m) || (i2 == i && t <= j2 < j)) && #[trigger] a@[i2]@[j2] != 0
                                ==> bestabs <= abs_i(a@[i2]@[j2] as int)
                        &&& (a@[t as int]@[t as int] != 0 && abs_i(a@[t as int]@[t as int] as int) == bestabs) ==> bi
                            == t && bj == t
                    },
                },
                (i > t || j > t) ==> (a@[t as int]@[t as int] != 0 ==> best is Some),
                am == mat_view(a@),
                pivot_scan(am, t as int, i as int, j as int, match best {
                    None => None,
                    Some((bi, bj)) => Some((bi as int, bj as int)),
                }) == pivot_of(am, t as int),
        {
            let ghost bm: Option<(int, int)> = match best {
                None => None,
                Some((bi, bj)) => Some((bi as int, bj as int)),
            };
            proof {
                assert(am[i as int][j as int] == a@[i as int]@[j as int]);
                if let Some((bi, bj)) = best {
                    assert(am[bi as int][bj as int] == a@[bi as int]@[bj as int]);
                }
            }
            let x = a[i][j];
            if x != 0 {
                let ax = uabs(x);
                let better = match best {
                    None => true,
                    Some(_) => ax < bestabs,
                };
                if better {
                    best = Some((i, j));
                    bestabs = ax;
                }
            }
            proof {
                assert(pivot_scan(am, t as int, i as int, j as int, bm) == pivot_scan(am, t as int, i as int, j + 1, match best {
                    None => None,
                    Some((bi, bj)) => Some((bi as int, bj as int)),
                }));
            }
        }
    }
    best
}

/// Exchanges rows `i` and `k`.
fn swap_rows(a: &mut Vec<Vec<i128>>, i: usize, k: usize)
    requires
        is_square_mat(old(a)@, old(a)@.len() as int),
        i < old(a)@.len(),
        k < old(a)@.len(),
    ensures
        is_square_mat(final(a)@, old(a)@.len() as int),
        forall|r: int, c: int|
            0 <= r < old(a)@.len() && 0 <= c < old(a)@.len() ==> #[trigger] final(a)@[r]@[c] == if r == i {
                old(a)@[k as int]@[c]
            } else if r == k {
                old(a)@[i as int]@[c]
            } else {
                old(a)@[r]@[c]
            },
{
    let ghost a0 = a@;
    let m = a.len();
    for c in 0..m
        invariant
            a0 == old(a)@,
            m == a0.len(),
            i < m,
            k < m,
            is_square_mat(a0, m as int),
            is_square_mat(a@, m as int),
            forall|r: int, c2: int|
                0 <= r < m && 0 <= c2 < m ==> #[trigger] a@[r]@[c2] == if c2 < c && r == i {
                    a0[k as int]@[c2]
                } else if c2 < c && r == k {
                    a0[i as int]@[c2]
                } else {
                    a0[r]@[c2]
                },
    {
        let x = a[i][c];
        let y = a[k][c];
        a[i][c] = y;
        a[k][c] = x;
    }
}

/// Exchanges columns `i` and `k`.
fn swap_cols(a: &mut Vec<Vec<i128>>, i: usize, k: usize)
    requires
        is_square_mat(old(a)@, old(a)@.len() as int),
        i < old(a)@.len(),
        k < old(a)@.len(),
    ensures
        is_square_mat(final(a)@, old(a)@.len() as int),
        forall|r: int, c: int|
            0 <= r < old(a)@.len() && 0 <= c < old(a)@.len() ==> #[trigger] final(a)@[r]@[c] == if c == i {
                old(a)@[r]@[k as int]
            } else if c == k {
                old(a)@[r]@[i as int]
            } else {
                old(a)@[r]@[c]
            },
{
    let ghost a0 = a@;
    let m = a.len();
    for r in 0..m
        invariant
            a0 == old(a)@,
            m == a0.len(),
            i < m,
            k < m,
            is_square_mat(a0, m as int),
            is_square_mat(a@, m as int),
            forall|r2: int, c: int|
                0 <= r2 < m && 0 <= c < m ==> #[trigger] a@[r2]@[c] == if r2 < r && c == i {
                    a0[r2]@[k as int]
                } else if r2 < r && c == k {
                    a0[r2]@[i as int]
                } else {
                    a0[r2]@[c]
                },
    {
        let x = a[r][i];
        let y = a[r][k];
        a[r][i] = y;
        a[r][k] = x;
    }
}

/// Every value of row `i` minus `q` times row `t` fits in `i128`.
pub open spec fn row_sub_fits(a: Seq<Vec<i128>>, i: int, t: int, q: int) -> bool {
    forall|c: int|
        0 <= c < a.len() ==> in_i128(q * #[trigger] a[t]@[c]) && in_i128(a[i]@[c] - q * a[t]@[c])
}

/// Every value of column `j` minus `q` times column `t` fits in `i128`.
pub open spec fn col_sub_fits(a: Seq<Vec<i128>>, j: int, t: int, q: int) -> bool {
    forall|r: int|
        0 <= r < a.len() ==> in_i128(q * #[trigger] a[r]@[t]) && in_i128(a[r]@[j] - q * a[r]@[t])
}

/// Every entry of row `t` plus row `i` fits in `i128`.
pub open spec fn row_add_fits(a: Seq<Vec<i128>>, t: int, i: int) -> bool {
    forall|c: int| 0 <= c < a.len() ==> in_i128(#[trigger] a[t]@[c] + a[i]@[c])
}

/// Row `i` minus `q` times row `t`, where no value leaves `i128`; `false`
/// (with the matrix partly updated) where one would.
fn row_sub(a: &mut Vec<Vec<i128>>, i: usize, t: usize, q: i128) -> (ok: bool)
    requires
        is_square_mat(old(a)@, old(a)@.len() as int),
        i < old(a)@.len(),
        t < old(a)@.len(),
        i != t,
    ensures
        is_square_mat(final(a)@, old(a)@.len() as int),
        ok == row_sub_fits(old(a)@, i as int, t as int, q as int),
        ok ==> forall|r: int, c: int|
            0 <= r < old(a)@.len() && 0 <= c < old(a)@.len() ==> #[trigger] final(a)@[r]@[c] == if r == i {
                old(a)@[i as int]@[c] - q * old(a)@[t as int]@[c]
            } else {
                old(a)@[r]@[c] as int
            },
{
    let ghost a0 = a@;
    let m = a.len();
    for c in 0..m
        invariant
            a0 == old(a)@,
            m == a0.len(),
            i < m,
            t < m,
            i != t,
            is_square_mat(a0, m as int),
            is_square_mat(a@, m as int),
            forall|r: int, c2: int|
                0 <= r < m && 0 <= c2 < m ==> #[trigger] a@[r]@[c2] == if r == i && c2 < c {
                    a0[i as int]@[c2] - q * a0[t as int]@[c2]
                } else {
                    a0[r]@[c2] as int
                },
            forall|c2: int| 0 <= c2 < c ==> in_i128(q * #[trigger] a0[t as int]@[c2]) && in_i128(a0[i as int]@[c2] - q * a0[t as int]@[c2]),
    {
        proof {
            assert(a@[t as int]@[c as int] == a0[t as int]@[c as int]);
            assert(a@[i as int]@[c as int] == a0[i as int]@[c as int]);
        }
        match q.checked_mul(a[t][c]) {
            Some(y) => match a[i][c].checked_sub(y) {
                Some(z) => {
                    a[i][c] = z;
                },
                None => {
                    proof {
                        assert(!in_i128(a0[i as int]@[c as int] - q * a0[t as int]@[c as int]));
                    }
                    return false;
                },
            },
            None => {
                proof {
                    assert(!in_i128(q * a0[t as int]@[c as int]));
                }
                return false;
            },
        }
    }
    true
}

/// Column `j` minus `q` times column `t`; `false` where a value would leave
/// `i128`.
fn col_sub(a: &mut Vec<Vec<i128>>, j: usize, t: usize, q: i128) -> (ok: bool)
    requires
        is_square_mat(old(a)@, old(a)@.len() as int),
        j < old(a)@.len(),
        t < old(a)@.len(),
        j != t,
    ensures
        is_square_mat(final(a)@, old(a)@.len() as int),
        ok == col_sub_fits(old(a)@, j as int, t as int, q as int),
        ok ==> forall|r: int, c: int|
            0 <= r < old(a)@.len() && 0 <= c < old(a)@.len() ==> #[trigger] final(a)@[r]@[c] == if c == j {
                old(a)@[r]@[j as int] - q * old(a)@[r]@[t as int]
            } else {
                old(a)@[r]@[c] as int
            },
{
    let ghost a0 = a@;
    let m = a.len();
    for r in 0..m
        invariant
            a0 == old(a)@,
            m == a0.len(),
            j < m,
            t < m,
            j != t,
            is_square_mat(a0, m as int),
            is_square_mat(a@, m as int),
            forall|r2: int, c: int|
                0 <= r2 < m && 0 <= c < m ==> #[trigger] a@[r2]@[c] == if c == j && r2 < r {
                    a0[r2]@[j as int] - q * a0[r2]@[t as int]
                } else {
                    a0[r2]@[c] as int
                },
            forall|r2: int| 0 <= r2 < r ==> in_i128(q * #[trigger] a0[r2]@[t as int]) && in_i128(a0[r2]@[j as int] - q * a0[r2]@[t as int]),
    {
        proof {
            assert(a@[r as int]@[t as int] == a0[r as int]@[t as int]);
            assert(a@[r as int]@[j as int] == a0[r as int]@[j as int]);
        }
        match q.checked_mul(a[r][t]) {
            Some(y) => match a[r][j].checked_sub(y) {
                Some(z) => {
                    a[r][j] = z;
                },
                None => {
                    proof {
                        assert(!in_i128(a0[r as int]@[j as int] - q * a0[r as int]@[t as int]));
                    }
                    return false;
                },
            },
            None => {
                proof {
                    assert(!in_i128(q * a0[r as int]@[t as int]));
                }
                return false;
            },
        }
    }
    true
}

/// Row `t` plus row `i`; `false` where a value would leave `i128`.
fn row_add(a: &mut Vec<Vec<i128>>, t: usize, i: usize) -> (ok: bool)
    requires
        is_square_mat(old(a)@, old(a)@.len() as int),
        i < old(a)@.len(),
        t < old(a)@.len(),
        i != t,
    ensures
        is_square_mat(final(a)@, old(a)@.len() as int),
        ok == row_add_fits(old(a)@, t as int, i as int),
        ok ==> forall|r: int, c: int|
            0 <= r < old(a)@.len() && 0 <= c < old(a)@.len() ==> #[trigger] final(a)@[r]@[c] == if r == t {
                old(a)@[t as int]@[c] + old(a)@[i as int]@[c]
            } else {
                old(a)@[r]@[c] as int
            },
{
    let ghost a0 = a@;
    let m = a.len();
    for c in 0..m
        invariant
            a0 == old(a)@,
            m == a0.len(),
            i < m,
            t < m,
            i != t,
            is_square_mat(a0, m as int),
            is_square_mat(a@, m as int),
            forall|r: int, c2: int|
                0 <= r < m && 0 <= c2 < m ==> #[trigger] a@[r]@[c2] == if r == t && c2 < c {
                    a0[t as int]@[c2] + a0[i as int]@[c2]
                } else {
                    a0[r]@[c2] as int
                },
            forall|c2: int| 0 <= c2 < c ==> in_i128(#[trigger] a0[t as int]@[c2] + a0[i as int]@[c2]),
    {
        proof {
            assert(a@[t as int]@[c as int] == a0[t as int]@[c as int]);
            assert(a@[i as int]@[c as int] == a0[i as int]@[c as int]);
        }
        match a[t][c].checked_add(a[i][c]) {
            Some(z) => {
                a[t][c] = z;
            },
            None => {
                proof {
                    assert(!in_i128(a0[t as int]@[c as int] + a0[i as int]@[c as int]));
                }
                return false;
            },
        }
    }
    true
}

// The transforms: the current matrix is always `U L V` for the left
// transform `U` kept in the result and a right transform `V` that only the
// proof keeps.

/// `(U L)[i][k]`.
pub open spec fn ul(u: Seq<Vec<i128>>, l: Seq<Seq<int>>, m: int, i: int, k: int) -> int {
    sum(m, |t: int| u[i]@[t] * l[t][k])
}

/// `(U L V)[i][j]`.
pub open spec fn ulv(u: Seq<Vec<i128>>, l: Seq<Seq<int>>, v: Seq<Seq<int>>, m: int, i: int, j: int) -> int {
    sum(m, |k: int| ul(u, l, m, i, k) * v[k][j])
}

/// `a == U L V` entrywise.
pub open spec fn is_ulv(a: Seq<Vec<i128>>, u: Seq<Vec<i128>>, l: Seq<Seq<int>>, v: Seq<Seq<int>>, m: int) -> bool {
    forall|i: int, j: int| 0 <= i < m && 0 <= j < m ==> #[trigger] a[i]@[j] == ulv(u, l, v, m, i, j)
}

/// The entries of `a` and `b` agree except in row `i`, which is row `i`
/// minus `q` times row `t`.
pub open spec fn row_op(a: Seq<Vec<i128>>, b: Seq<Vec<i128>>, m: int, i: int, t: int, q: int) -> bool {
    forall|r: int, c: int|
        0 <= r < m && 0 <= c < m ==> #[trigger] b[r]@[c] == if r == i {
            a[i]@[c] - q * a[t]@[c]
        } else {
            a[r]@[c] as int
        }
}

/// `v` with column `j` minus `q` times column `t`.
pub open spec fn col_op_v(v: Seq<Seq<int>>, m: int, j: int, t: int, q: int) -> Seq<Seq<int>> {
    Seq::new(m as nat, |k: int| Seq::new(m as nat, |c: int| if c == j { v[k][c] - q * v[k][t] } else { v[k][c] }))
}

/// `v` with columns `j` and `t` exchanged.
pub open spec fn col_swap_v(v: Seq<Seq<int>>, m: int, j: int, t: int) -> Seq<Seq<int>> {
    Seq::new(m as nat, |k: int| Seq::new(m as nat, |c: int| if c == j { v[k][t] } else if c == t { v[k][j] } else { v[k][c] }))
}

proof fn lemma_row_op_ulv(u: Seq<Vec<i128>>, u2: Seq<Vec<i128>>, l: Seq<Seq<int>>, v: Seq<Seq<int>>, m: int, i: int, t: int, q: int)
    requires
        0 <= i < m,
        0 <= t < m,
        row_op(u, u2, m, i, t, q),
    ensures
        forall|r: int, j: int|
            0 <= r < m && 0 <= j < m ==> #[trigger] ulv(u2, l, v, m, r, j) == if r == i {
                ulv(u, l, v, m, i, j) - q * ulv(u, l, v, m, t, j)
            } else {
                ulv(u, l, v, m, r, j)
            },
{
    assert forall|r: int, k: int| 0 <= r < m && 0 <= k < m implies #[trigger] ul(u2, l, m, r, k) == if r == i {
        ul(u, l, m, i, k) - q * ul(u, l, m, t, k)
    } else {
        ul(u, l, m, r, k)
    } by {
        let f = |x: int| u[i]@[x] * l[x][k];
        let g = |x: int| u[t]@[x] * l[x][k];
        if r == i {
            let h = |x: int| u2[i]@[x] * l[x][k];
            assert forall|x: int| 0 <= x < m implies #[trigger] h(x) == f(x) - q * g(x) by {
                assert(u2[i]@[x] == u[i]@[x] - q * u[t]@[x]);
                assert((u[i]@[x] - q * u[t]@[x]) * l[x][k] == u[i]@[x] * l[x][k] - q * (u[t]@[x] * l[x][k])) by (nonlinear_arith);
            }
            lemma_sum_ext(m, h, |x: int| f(x) - q * g(x));
            crate::sums::lemma_sum_lin(m, f, g, q);
        } else {
            let h = |x: int| u2[r]@[x] * l[x][k];
            let h0 = |x: int| u[r]@[x] * l[x][k];
            assert forall|x: int| 0 <= x < m implies #[trigger] h(x) == h0(x) by {
                assert(u2[r]@[x] == u[r]@[x]);
            }
            lemma_sum_ext(m, h, h0);
        }
    }
    assert forall|r: int, j: int| 0 <= r < m && 0 <= j < m implies #[trigger] ulv(u2, l, v, m, r, j) == if r == i {
        ulv(u, l, v, m, i, j) - q * ulv(u, l, v, m, t, j)
    } else {
        ulv(u, l, v, m, r, j)
    } by {
        let f = |k: int| ul(u, l, m, i, k) * v[k][j];
        let g = |k: int| ul(u, l, m, t, k) * v[k][j];
        if r == i {
            let h = |k: int| ul(u2, l, m, i, k) * v[k][j];
            assert forall|k: int| 0 <= k < m implies #[trigger] h(k) == f(k) - q * g(k) by {
                let x = ul(u, l, m, i, k);
                let y = ul(u, l, m, t, k);
                assert((x - q * y) * v[k][j] == x * v[k][j] - q * (y * v[k][j])) by (nonlinear_arith);
            }
            lemma_sum_ext(m, h, |k: int| f(k) - q * g(k));
            crate::sums::lemma_sum_lin(m, f, g, q);
        } else {
            let h = |k: int| ul(u2, l, m, r, k) * v[k][j];
            let h0 = |k: int| ul(u, l, m, r, k) * v[k][j];
            assert forall|k: int| 0 <= k < m implies #[trigger] h(k) == h0(k) by {}
            lemma_sum_ext(m, h, h0);
        }
    }
}

proof fn lemma_col_op_ulv(u: Seq<Vec<i128>>, l: Seq<Seq<int>>, v: Seq<Seq<int>>, m: int, j: int, t: int, q: int)
    requires
        0 <= j < m,
        0 <= t < m,
        j != t,
    ensures
        forall|r: int, c: int|
            0 <= r < m && 0 <= c < m ==> #[trigger] ulv(u, l, col_op_v(v, m, j, t, q), m, r, c) == if c == j {
                ulv(u, l, v, m, r, j) - q * ulv(u, l, v, m, r, t)
            } else {
                ulv(u, l, v, m, r, c)
            },
{
    let v2 = col_op_v(v, m, j, t, q);
    assert forall|r: int, c: int| 0 <= r < m && 0 <= c < m implies #[trigger] ulv(u, l, v2, m, r, c) == if c == j {
        ulv(u, l, v, m, r, j) - q * ulv(u, l, v, m, r, t)
    } else {
        ulv(u, l, v, m, r, c)
    } by {
        let h = |k: int| ul(u, l, m, r, k) * v2[k][c];
        if c == j {
            let f = |k: int| ul(u, l, m, r, k) * v[k][j];
            let g = |k: int| ul(u, l, m, r, k) * v[k][t];
            assert forall|k: int| 0 <= k < m implies #[trigger] h(k) == f(k) - q * g(k) by {
                let x = ul(u, l, m, r, k);
                assert(v2[k][c] == v[k][j] - q * v[k][t]);
                assert(x * (v[k][j] - q * v[k][t]) == x * v[k][j] - q * (x * v[k][t])) by (nonlinear_arith);
            }
            lemma_sum_ext(m, h, |k: int| f(k) - q * g(k));
            crate::sums::lemma_sum_lin(m, f, g, q);
        } else {
            let h0 = |k: int| ul(u, l, m, r, k) * v[k][c];
            assert forall|k: int| 0 <= k < m implies #[trigger] h(k) == h0(k) by {}
            lemma_sum_ext(m, h, h0);
        }
    }
}

proof fn lemma_row_swap_ulv(u: Seq<Vec<i128>>, u2: Seq<Vec<i128>>, l: Seq<Seq<int>>, v: Seq<Seq<int>>, m: int, i: int, t: int)
    requires
        0 <= i < m,
        0 <= t < m,
        forall|r: int, c: int|
            0 <= r < m && 0 <= c < m ==> #[trigger] u2[r]@[c] == if r == i {
                u[t]@[c]
            } else if r == t {
                u[i]@[c]
            } else {
                u[r]@[c]
            },
    ensures
        forall|r: int, j: int|
            0 <= r < m && 0 <= j < m ==> #[trigger] ulv(u2, l, v, m, r, j) == ulv(u, l, v, m, if r == i { t } else if r == t { i } else { r }, j),
{
    assert forall|r: int, k: int| 0 <= r < m && 0 <= k < m implies #[trigger] ul(u2, l, m, r, k) == ul(u, l, m, if r == i { t } else if r == t { i } else { r }, k) by {
        let r0 = if r == i { t } else if r == t { i } else { r };
        let h = |x: int| u2[r]@[x] * l[x][k];
        let h0 = |x: int| u[r0]@[x] * l[x][k];
        assert forall|x: int| 0 <= x < m implies #[trigger] h(x) == h0(x) by {
            assert(u2[r]@[x] == u[r0]@[x]);
        }
        lemma_sum_ext(m, h, h0);
    }
    assert forall|r: int, j: int| 0 <= r < m && 0 <= j < m implies #[trigger] ulv(u2, l, v, m, r, j) == ulv(u, l, v, m, if r == i { t } else if r == t { i } else { r }, j) by {
        let r0 = if r == i { t } else if r == t { i } else { r };
        let h = |k: int| ul(u2, l, m, r, k) * v[k][j];
        let h0 = |k: int| ul(u, l, m, r0, k) * v[k][j];
        assert forall|k: int| 0 <= k < m implies #[trigger] h(k) == h0(k) by {}
        lemma_sum_ext(m, h, h0);
    }
}

proof fn lemma_col_swap_ulv(u: Seq<Vec<i128>>, l: Seq<Seq<int>>, v: Seq<Seq<int>>, m: int, j: int, t: int)
    requires
        0 <= j < m,
        0 <= t < m,
    ensures
        forall|r: int, c: int|
            0 <= r < m && 0 <= c < m ==> #[trigger] ulv(u, l, col_swap_v(v, m, j, t), m, r, c) == ulv(u, l, v, m, r, if c == j { t } else if c == t { j } else { c }),
{
    let v2 = col_swap_v(v, m, j, t);
    assert forall|r: int, c: int| 0 <= r < m && 0 <= c < m implies #[trigger] ulv(u, l, v2, m, r, c) == ulv(u, l, v, m, r, if c == j { t } else if c == t { j } else { c }) by {
        let c0 = if c == j { t } else if c == t { j } else { c };
        let h = |k: int| ul(u, l, m, r, k) * v2[k][c];
        let h0 = |k: int| ul(u, l, m, r, k) * v[k][c0];
        assert forall|k: int| 0 <= k < m implies #[trigger] h(k) == h0(k) by {}
        lemma_sum_ext(m, h, h0);
    }
}

/// `(W U)[i][j]`.
pub open spec fn wu(w: Seq<Seq<int>>, u: Seq<Vec<i128>>, m: int, i: int, j: int) -> int {
    sum(m, |k: int| w[i][k] * u[k]@[j])
}

/// `W U = I`: the integer matrix `W` undoes `U`.
pub open spec fn is_left_inverse(w: Seq<Seq<int>>, u: Seq<Vec<i128>>, m: int) -> bool {
    forall|i: int, j: int| 0 <= i < m && 0 <= j < m ==> #[trigger] wu(w, u, m, i, j) == if i == j { 1int } else { 0int }
}

/// `(Y V)[i][j]`.
pub open spec fn yv(y: Seq<Seq<int>>, v: Seq<Seq<int>>, m: int, i: int, j: int) -> int {
    sum(m, |k: int| y[i][k] * v[k][j])
}

/// `Y V = I`.
pub open spec fn is_left_inverse_v(y: Seq<Seq<int>>, v: Seq<Seq<int>>, m: int) -> bool {
    forall|i: int, j: int| 0 <= i < m && 0 <= j < m ==> #[trigger] yv(y, v, m, i, j) == if i == j { 1int } else { 0int }
}

/// `w` with `q` times column `i` added to column `t`.
pub open spec fn col_add(w: Seq<Seq<int>>, m: int, t: int, i: int, q: int) -> Seq<Seq<int>> {
    Seq::new(m as nat, |r: int| Seq::new(m as nat, |c: int| if c == t { w[r][c] + q * w[r][i] } else { w[r][c] }))
}

/// `w` with columns `i` and `t` exchanged.
pub open spec fn col_swap(w: Seq<Seq<int>>, m: int, i: int, t: int) -> Seq<Seq<int>> {
    col_swap_v(w, m, i, t)
}

/// `w` with column `i` negated.
pub open spec fn col_neg(w: Seq<Seq<int>>, m: int, i: int) -> Seq<Seq<int>> {
    Seq::new(m as nat, |r: int| Seq::new(m as nat, |c: int| if c == i { -w[r][c] } else { w[r][c] }))
}

/// `y` with `q` times row `j` added to row `t`.
pub open spec fn row_add_y(y: Seq<Seq<int>>, m: int, t: int, j: int, q: int) -> Seq<Seq<int>> {
    Seq::new(m as nat, |r: int| Seq::new(m as nat, |c: int| if r == t { y[t][c] + q * y[j][c] } else { y[r][c] }))
}

/// `y` with rows `j` and `t` exchanged.
pub open spec fn row_swap_y(y: Seq<Seq<int>>, m: int, j: int, t: int) -> Seq<Seq<int>> {
    Seq::new(m as nat, |r: int| if r == j { y[t] } else if r == t { y[j] } else { y[r] })
}

/// A sum changes by the differences at two points where the terms differ.
proof fn lemma_sum_two_points(m: int, g: spec_fn(int) -> int, g2: spec_fn(int) -> int, a: int, b: int)
    requires
        0 <= a < m,
        0 <= b < m,
        a != b,
        forall|k: int| 0 <= k < m && k != a && k != b ==> #[trigger] g2(k) == g(k),
    ensures
        sum(m, g2) == sum(m, g) + (g2(a) - g(a)) + (g2(b) - g(b)),
{
    let da = |k: int| if k == a { g2(a) - g(a) } else { 0int };
    let db = |k: int| if k == b { g2(b) - g(b) } else { 0int };
    let gd = |k: int| g(k) + da(k);
    assert forall|k: int| 0 <= k < m implies #[trigger] g2(k) == gd(k) + db(k) by {}
    lemma_sum_ext(m, g2, |k: int| gd(k) + db(k));
    crate::sums::lemma_sum_add(m, gd, db);
    crate::sums::lemma_sum_add(m, g, da);
    crate::sums::lemma_sum_point(m, da, a);
    crate::sums::lemma_sum_point(m, db, b);
}

proof fn lemma_inv_row_op(w: Seq<Seq<int>>, u: Seq<Vec<i128>>, u2: Seq<Vec<i128>>, m: int, i: int, t: int, q: int)
    requires
        0 <= i < m,
        0 <= t < m,
        i != t,
        row_op(u, u2, m, i, t, q),
        is_left_inverse(w, u, m),
    ensures
        is_left_inverse(col_add(w, m, t, i, q), u2, m),
{
    let w2 = col_add(w, m, t, i, q);
    assert forall|r: int, j: int| 0 <= r < m && 0 <= j < m implies #[trigger] wu(w2, u2, m, r, j) == if r == j { 1int } else { 0int } by {
        let g = |k: int| w[r][k] * u[k]@[j];
        let g2 = |k: int| w2[r][k] * u2[k]@[j];
        assert forall|k: int| 0 <= k < m && k != i && k != t implies #[trigger] g2(k) == g(k) by {
            assert(u2[k]@[j] == u[k]@[j]);
        }
        lemma_sum_two_points(m, g, g2, t, i);
        let c = q * w[r][i] * u[t]@[j];
        assert(g2(t) == g(t) + c) by {
            assert(u2[t]@[j] == u[t]@[j]);
            assert((w[r][t] + q * w[r][i]) * u[t]@[j] == w[r][t] * u[t]@[j] + q * w[r][i] * u[t]@[j]) by (nonlinear_arith);
        }
        assert(g2(i) == g(i) - c) by {
            assert(u2[i]@[j] == u[i]@[j] - q * u[t]@[j]);
            assert(w[r][i] * (u[i]@[j] - q * u[t]@[j]) == w[r][i] * u[i]@[j] - q * w[r][i] * u[t]@[j]) by (nonlinear_arith);
        }
        assert(wu(w, u, m, r, j) == sum(m, g));
    }
}

proof fn lemma_inv_row_swap(w: Seq<Seq<int>>, u: Seq<Vec<i128>>, u2: Seq<Vec<i128>>, m: int, i: int, t: int)
    requires
        0 <= i < m,
        0 <= t < m,
        forall|r: int, c: int|
            0 <= r < m && 0 <= c < m ==> #[trigger] u2[r]@[c] == if r == i {
                u[t]@[c]
            } else if r == t {
                u[i]@[c]
            } else {
                u[r]@[c]
            },
        is_left_inverse(w, u, m),
    ensures
        is_left_inverse(col_swap(w, m, i, t), u2, m),
{
    let w2 = col_swap(w, m, i, t);
    assert forall|r: int, j: int| 0 <= r < m && 0 <= j < m implies #[trigger] wu(w2, u2, m, r, j) == if r == j { 1int } else { 0int } by {
        let g = |k: int| w[r][k] * u[k]@[j];
        let g2 = |k: int| w2[r][k] * u2[k]@[j];
        assert(wu(w, u, m, r, j) == sum(m, g));
        assert(wu(w2, u2, m, r, j) == sum(m, g2));
        if i == t {
            assert forall|k: int| 0 <= k < m implies #[trigger] g2(k) == g(k) by {}
            lemma_sum_ext(m, g2, g);
        } else {
            assert forall|k: int| 0 <= k < m && k != i && k != t implies #[trigger] g2(k) == g(k) by {}
            lemma_sum_two_points(m, g, g2, i, t);
            assert(g2(i) == g(t));
            assert(g2(t) == g(i));
        }
    }
}

proof fn lemma_inv_row_neg(w: Seq<Seq<int>>, u: Seq<Vec<i128>>, u2: Seq<Vec<i128>>, m: int, i: int)
    requires
        0 <= i < m,
        row_op(u, u2, m, i, i, 2),
        is_left_inverse(w, u, m),
    ensures
        is_left_inverse(col_neg(w, m, i), u2, m),
{
    let w2 = col_neg(w, m, i);
    assert forall|r: int, j: int| 0 <= r < m && 0 <= j < m implies #[trigger] wu(w2, u2, m, r, j) == if r == j { 1int } else { 0int } by {
        let g = |k: int| w[r][k] * u[k]@[j];
        let g2 = |k: int| w2[r][k] * u2[k]@[j];
        assert forall|k: int| 0 <= k < m implies #[trigger] g2(k) == g(k) by {
            if k == i {
                assert(u2[i]@[j] == u[i]@[j] - 2 * u[i]@[j]);
                assert((-w[r][i]) * (u[i]@[j] - 2 * u[i]@[j]) == w[r][i] * u[i]@[j]) by (nonlinear_arith);
            } else {
                assert(u2[k]@[j] == u[k]@[j]);
            }
        }
        lemma_sum_ext(m, g2, g);
        assert(wu(w, u, m, r, j) == sum(m, g));
        assert(wu(w2, u2, m, r, j) == sum(m, g2));
    }
}

proof fn lemma_inv_col_op(y: Seq<Seq<int>>, v: Seq<Seq<int>>, m: int, j: int, t: int, q: int)
    requires
        0 <= j < m,
        0 <= t < m,
        j != t,
        is_left_inverse_v(y, v, m),
        forall|k: int| 0 <= k < m ==> (#[trigger] y[k]).len() == m,
    ensures
        is_left_inverse_v(row_add_y(y, m, t, j, q), col_op_v(v, m, j, t, q), m),
{
    let y2 = row_add_y(y, m, t, j, q);
    let v2 = col_op_v(v, m, j, t, q);
    // (Y V')[x][c] for the old Y
    assert forall|x: int, c: int| 0 <= x < m && 0 <= c < m implies #[trigger] yv(y, v2, m, x, c) == yv(y, v, m, x, c) - (if c == j { q * yv(y, v, m, x, t) } else { 0int }) by {
        let h = |k: int| y[x][k] * v2[k][c];
        let f = |k: int| y[x][k] * v[k][c];
        let g = |k: int| y[x][k] * v[k][t];
        if c == j {
            assert forall|k: int| 0 <= k < m implies #[trigger] h(k) == f(k) - q * g(k) by {
                assert(v2[k][c] == v[k][j] - q * v[k][t]);
                assert(y[x][k] * (v[k][j] - q * v[k][t]) == y[x][k] * v[k][j] - q * (y[x][k] * v[k][t])) by (nonlinear_arith);
            }
            lemma_sum_ext(m, h, |k: int| f(k) - q * g(k));
            crate::sums::lemma_sum_lin(m, f, g, q);
        } else {
            assert forall|k: int| 0 <= k < m implies #[trigger] h(k) == f(k) by {}
            lemma_sum_ext(m, h, f);
        }
    }
    assert forall|r: int, c: int| 0 <= r < m && 0 <= c < m implies #[trigger] yv(y2, v2, m, r, c) == if r == c { 1int } else { 0int } by {
        let h = |k: int| y2[r][k] * v2[k][c];
        if r == t {
            let f = |k: int| y[t][k] * v2[k][c];
            let g = |k: int| y[j][k] * v2[k][c];
            assert forall|k: int| 0 <= k < m implies #[trigger] h(k) == f(k) - (-q) * g(k) by {
                assert(y2[t][k] == y[t][k] + q * y[j][k]);
                assert((y[t][k] + q * y[j][k]) * v2[k][c] == y[t][k] * v2[k][c] - (-q) * (y[j][k] * v2[k][c])) by (nonlinear_arith);
            }
            lemma_sum_ext(m, h, |k: int| f(k) - (-q) * g(k));
            crate::sums::lemma_sum_lin(m, f, g, -q);
            assert(yv(y, v2, m, t, c) == sum(m, f));
            assert(yv(y, v2, m, j, c) == sum(m, g));
            assert(yv(y2, v2, m, r, c) == sum(m, h));
            assert(yv(y, v, m, t, c) == if t == c { 1int } else { 0int });
            assert(yv(y, v, m, t, t) == 1);
            assert(yv(y, v, m, j, c) == if j == c { 1int } else { 0int });
            assert(yv(y, v, m, j, t) == 0);
            let sf = sum(m, f);
            let sg = sum(m, g);
            assert(sum(m, h) == sf - (-q) * sg);
            if c == j {
                assert(sf == 0 - q * 1);
                assert(sg == 1 - q * 0) by {
                    assert(yv(y, v2, m, j, c) == yv(y, v, m, j, c) - q * yv(y, v, m, j, t));
                }
                assert(sf - (-q) * sg == 0) by (nonlinear_arith)
                    requires sf == 0 - q * 1, sg == 1 - q * 0;
            } else {
                assert(sg == 0);
                assert(sf - (-q) * sg == sf) by (nonlinear_arith)
                    requires sg == 0;
            }
        } else {
            let f = |k: int| y[r][k] * v2[k][c];
            assert forall|k: int| 0 <= k < m implies #[trigger] h(k) == f(k) by {}
            lemma_sum_ext(m, h, f);
            assert(yv(y, v2, m, r, c) == sum(m, f));
            assert(yv(y2, v2, m, r, c) == sum(m, h));
            assert(yv(y, v, m, r, c) == if r == c { 1int } else { 0int });
            assert(yv(y, v, m, r, t) == 0);
        }
    }
}

proof fn lemma_inv_col_swap_entry(y: Seq<Seq<int>>, v: Seq<Seq<int>>, m: int, j: int, t: int, r: int, c: int)
    requires
        0 <= j < m,
        0 <= t < m,
        0 <= r < m,
        0 <= c < m,
    ensures
        yv(row_swap_y(y, m, j, t), col_swap_v(v, m, j, t), m, r, c) == yv(
            y,
            v,
            m,
            if r == j { t } else if r == t { j } else { r },
            if c == j { t } else if c == t { j } else { c },
        ),
{
    let y2 = row_swap_y(y, m, j, t);
    let v2 = col_swap_v(v, m, j, t);
    let r0 = if r == j { t } else if r == t { j } else { r };
    let c0 = if c == j { t } else if c == t { j } else { c };
    let h = |k: int| y2[r][k] * v2[k][c];
    let h0 = |k: int| y[r0][k] * v[k][c0];
    assert forall|k: int| 0 <= k < m implies #[trigger] h(k) == h0(k) by {
        assert(y2[r] == y[r0]);
        assert(v2[k][c] == v[k][c0]);
    }
    lemma_sum_ext(m, h, h0);
}

proof fn lemma_inv_col_swap(y: Seq<Seq<int>>, v: Seq<Seq<int>>, m: int, j: int, t: int)
    requires
        0 <= j < m,
        0 <= t < m,
        is_left_inverse_v(y, v, m),
    ensures
        is_left_inverse_v(row_swap_y(y, m, j, t), col_swap_v(v, m, j, t), m),
{
    let y2 = row_swap_y(y, m, j, t);
    let v2 = col_swap_v(v, m, j, t);
    assert forall|r: int, c: int| 0 <= r < m && 0 <= c < m implies #[trigger] yv(y2, v2, m, r, c) == if r == c { 1int } else { 0int } by {
        lemma_inv_col_swap_entry(y, v, m, j, t, r, c);
        let r0 = if r == j { t } else if r == t { j } else { r };
        let c0 = if c == j { t } else if c == t { j } else { c };
        assert(yv(y, v, m, r0, c0) == if r0 == c0 { 1int } else { 0int });
    }
}

proof fn lemma_identity_inverse(u: Seq<Vec<i128>>, m: int)
    requires
        forall|r: int, c: int| 0 <= r < m && 0 <= c < m ==> #[trigger] u[r]@[c] == if r == c { 1i128 } else { 0i128 },
    ensures
        is_left_inverse(id_mat(m), u, m),
        is_left_inverse_v(id_mat(m), id_mat(m), m),
{
    assert forall|i: int, j: int| 0 <= i < m && 0 <= j < m implies #[trigger] wu(id_mat(m), u, m, i, j) == if i == j { 1int } else { 0int } by {
        let h = |k: int| id_mat(m)[i][k] * u[k]@[j];
        assert forall|k: int| 0 <= k < m && k != i implies #[trigger] h(k) == 0 by {}
        crate::sums::lemma_sum_point(m, h, i);
    }
    assert forall|i: int, j: int| 0 <= i < m && 0 <= j < m implies #[trigger] yv(id_mat(m), id_mat(m), m, i, j) == if i == j { 1int } else { 0int } by {
        let h = |k: int| id_mat(m)[i][k] * id_mat(m)[k][j];
        assert forall|k: int| 0 <= k < m && k != i implies #[trigger] h(k) == 0 by {}
        crate::sums::lemma_sum_point(m, h, i);
    }
}

/// The identity matrix as integers.
pub open spec fn id_mat(m: int) -> Seq<Seq<int>> {
    Seq::new(m as nat, |i: int| Seq::new(m as nat, |j: int| if i == j { 1int } else { 0int }))
}

proof fn lemma_ulv_identity(u: Seq<Vec<i128>>, l: Seq<Seq<int>>, m: int)
    requires
        forall|r: int, c: int| 0 <= r < m && 0 <= c < m ==> #[trigger] u[r]@[c] == if r == c { 1i128 } else { 0i128 },
    ensures
        forall|i: int, j: int| 0 <= i < m && 0 <= j < m ==> #[trigger] ulv(u, l, id_mat(m), m, i, j) == l[i][j],
{
    assert forall|i: int, k: int| 0 <= i < m && 0 <= k < m implies #[trigger] ul(u, l, m, i, k) == l[i][k] by {
        let h = |x: int| u[i]@[x] * l[x][k];
        assert forall|x: int| 0 <= x < m && x != i implies #[trigger] h(x) == 0 by {
            assert(u[i]@[x] == 0);
        }
        crate::sums::lemma_sum_point(m, h, i);
        assert(u[i]@[i] == 1);
    }
    assert forall|i: int, j: int| 0 <= i < m && 0 <= j < m implies #[trigger] ulv(u, l, id_mat(m), m, i, j) == l[i][j] by {
        let h = |k: int| ul(u, l, m, i, k) * id_mat(m)[k][j];
        assert forall|k: int| 0 <= k < m && k != j implies #[trigger] h(k) == 0 by {}
        crate::sums::lemma_sum_point(m, h, j);
    }
}

/// The block from `t` on has its pivot `a[t][t]` of absolute value `b`
/// with zeros below it, and some entry right of it that it does not divide.
pub open spec fn pending(a: Seq<Vec<i128>>, t: int, b: int) -> bool {
    &&& a[t]@[t] != 0
    &&& abs_i(a[t]@[t] as int) == b
    &&& forall|i: int| t < i < a.len() ==> #[trigger] a[i]@[t] == 0
    &&& exists|j: int| t < j < a.len() && crem(#[trigger] a[t]@[j] as int, a[t]@[t] as int) != 0
}

/// The identity matrix.
fn identity(m: usize) -> (u: Vec<Vec<i128>>)
    ensures
        is_square_mat(u@, m as int),
        forall|r: int, c: int| 0 <= r < m && 0 <= c < m ==> #[trigger] u@[r]@[c] == if r == c { 1i128 } else { 0i128 },
{
    let mut u: Vec<Vec<i128>> = Vec::new();
    for i in 0..m
        invariant
            u@.len() == i,
            forall|r: int| 0 <= r < i ==> (#[trigger] u@[r])@.len() == m,
            forall|r: int, c: int| 0 <= r < i && 0 <= c < m ==> #[trigger] u@[r]@[c] == if r == c { 1i128 } else { 0i128 },
    {
        let mut row: Vec<i128> = Vec::new();
        for j in 0..m
            invariant
                row@.len() == j,
                forall|c: int| 0 <= c < j ==> #[trigger] row@[c] == if i == c { 1i128 } else { 0i128 },
        {
            row.push(if i == j { 1 } else { 0 });
        }
        u.push(row);
    }
    u
}

/// `U L V` is the diagonal matrix of the factors.
pub open spec fn is_diag_of(u: Seq<Vec<i128>>, l: Seq<Seq<int>>, v: Seq<Seq<int>>, f: Seq<i128>, m: int) -> bool {
    forall|i: int, j: int|
        0 <= i < m && 0 <= j < m ==> #[trigger] ulv(u, l, v, m, i, j) == if i == j {
            f[i] as int
        } else {
            0int
        }
}

/// `d` divides `x`.
pub open spec fn divides(d: int, x: int) -> bool {
    exists|k: int| x == #[trigger] (k * d)
}

/// `d` divides every entry of the block from `st` on.
pub open spec fn block_div(a: Seq<Vec<i128>>, d: int, st: int) -> bool {
    forall|i: int, j: int| st <= i < a.len() && st <= j < a.len() ==> divides(d, #[trigger] a[i]@[j] as int)
}

/// Each diagonal entry before `t` divides the later ones and the block
/// from `t` on.
pub open spec fn chain_upto(a: Seq<Vec<i128>>, t: int) -> bool {
    &&& forall|s: int| 0 <= s < t ==> #[trigger] block_div(a, a[s]@[s] as int, t)
    &&& forall|s: int, s2: int| 0 <= s < s2 < t ==> #[trigger] divides(a[s]@[s] as int, a[s2]@[s2] as int)
}

proof fn lemma_div_comb(d: int, x: int, y: int, q: int)
    requires
        divides(d, x),
        divides(d, y),
    ensures
        divides(d, x - q * y),
{
    let kx = choose|k: int| x == #[trigger] (k * d);
    let ky = choose|k: int| y == #[trigger] (k * d);
    assert(x - q * y == (kx - q * ky) * d) by (nonlinear_arith)
        requires x == kx * d, y == ky * d;
}

proof fn lemma_div_abs(d: int, x: int)
    requires
        divides(d, x),
    ensures
        divides(abs_i(d), abs_i(x)),
{
    let k = choose|k: int| x == #[trigger] (k * d);
    let ak = abs_i(k);
    if k >= 0 && d >= 0 {
        assert(abs_i(x) == ak * abs_i(d)) by (nonlinear_arith)
            requires x == k * d, k >= 0, d >= 0, ak == k, abs_i(x) == if x < 0 { -x } else { x }, abs_i(d) == d;
    } else if k >= 0 && d < 0 {
        assert(abs_i(x) == ak * abs_i(d)) by (nonlinear_arith)
            requires x == k * d, k >= 0, d < 0, ak == k, abs_i(x) == if x < 0 { -x } else { x }, abs_i(d) == -d;
    } else if k < 0 && d >= 0 {
        assert(abs_i(x) == ak * abs_i(d)) by (nonlinear_arith)
            requires x == k * d, k < 0, d >= 0, ak == -k, abs_i(x) == if x < 0 { -x } else { x }, abs_i(d) == d;
    } else {
        assert(abs_i(x) == ak * abs_i(d)) by (nonlinear_arith)
            requires x == k * d, k < 0, d < 0, ak == -k, abs_i(x) == if x < 0 { -x } else { x }, abs_i(d) == -d;
    }
}

proof fn lemma_div_zero(d: int)
    ensures
        divides(d, 0),
{
    assert(0 == 0 * d);
}

proof fn lemma_crem_zero(x: int, p: int)
    requires
        p != 0,
        crem(x, p) == 0,
    ensures
        divides(p, x),
{
    lemma_trem(x, p);
    let q = crate::exact::tdiv(x, p);
    assert(x == q * p);
}

/// Entries of `a` and `b` agree before row and column `t` on the diagonal,
/// and every divisor of the block of `a` from `t` on divides that of `b`.
pub open spec fn keeps_chain(a: Seq<Vec<i128>>, b: Seq<Vec<i128>>, t: int) -> bool {
    &&& forall|s: int| 0 <= s < t ==> #[trigger] b[s]@[s] == a[s]@[s]
    &&& forall|d: int| #[trigger] block_div(a, d, t) ==> block_div(b, d, t)
}

proof fn lemma_chain_keep(a: Seq<Vec<i128>>, b: Seq<Vec<i128>>, t: int)
    requires
        chain_upto(a, t),
        keeps_chain(a, b, t),
    ensures
        chain_upto(b, t),
{
    assert forall|s: int| 0 <= s < t implies #[trigger] block_div(b, b[s]@[s] as int, t) by {
        assert(block_div(a, a[s]@[s] as int, t));
    }
    assert forall|s: int, s2: int| 0 <= s < s2 < t implies #[trigger] divides(b[s]@[s] as int, b[s2]@[s2] as int) by {
        assert(divides(a[s]@[s] as int, a[s2]@[s2] as int));
    }
}

proof fn lemma_keep_row_op(a: Seq<Vec<i128>>, b: Seq<Vec<i128>>, m: int, i: int, k: int, q: int, t: int)
    requires
        a.len() == m,
        b.len() == m,
        t <= i < m,
        t <= k < m,
        0 <= t,
        row_op(a, b, m, i, k, q),
    ensures
        keeps_chain(a, b, t),
{
    assert forall|s: int| 0 <= s < t implies #[trigger] b[s]@[s] == a[s]@[s] by {}
    assert forall|d: int| #[trigger] block_div(a, d, t) implies block_div(b, d, t) by {
        assert forall|r: int, c: int| t <= r < m && t <= c < m implies divides(d, #[trigger] b[r]@[c] as int) by {
            if r == i {
                assert(divides(d, a[i]@[c] as int));
                assert(divides(d, a[k]@[c] as int));
                lemma_div_comb(d, a[i]@[c] as int, a[k]@[c] as int, q);
            } else {
                assert(divides(d, a[r]@[c] as int));
            }
        }
    }
}

proof fn lemma_keep_col_op(a: Seq<Vec<i128>>, b: Seq<Vec<i128>>, m: int, j: int, k: int, q: int, t: int)
    requires
        a.len() == m,
        b.len() == m,
        t <= j < m,
        t <= k < m,
        0 <= t,
        forall|r: int, c: int|
            0 <= r < m && 0 <= c < m ==> #[trigger] b[r]@[c] == if c == j {
                a[r]@[j] - q * a[r]@[k]
            } else {
                a[r]@[c] as int
            },
    ensures
        keeps_chain(a, b, t),
{
    assert forall|s: int| 0 <= s < t implies #[trigger] b[s]@[s] == a[s]@[s] by {}
    assert forall|d: int| #[trigger] block_div(a, d, t) implies block_div(b, d, t) by {
        assert forall|r: int, c: int| t <= r < m && t <= c < m implies divides(d, #[trigger] b[r]@[c] as int) by {
            if c == j {
                assert(divides(d, a[r]@[j] as int));
                assert(divides(d, a[r]@[k] as int));
                lemma_div_comb(d, a[r]@[j] as int, a[r]@[k] as int, q);
            } else {
                assert(divides(d, a[r]@[c] as int));
            }
        }
    }
}

proof fn lemma_keep_swaps(a: Seq<Vec<i128>>, b: Seq<Vec<i128>>, m: int, pi: int, pj: int, t: int)
    requires
        a.len() == m,
        b.len() == m,
        0 <= t <= pi < m,
        t <= pj < m,
        forall|r: int, c: int|
            0 <= r < m && 0 <= c < m ==> #[trigger] b[r]@[c] == a[if r == t { pi } else if r == pi { t } else { r }]@[if c
                == t { pj } else if c == pj { t } else { c }],
    ensures
        keeps_chain(a, b, t),
{
    assert forall|s: int| 0 <= s < t implies #[trigger] b[s]@[s] == a[s]@[s] by {}
    assert forall|d: int| #[trigger] block_div(a, d, t) implies block_div(b, d, t) by {
        assert forall|r: int, c: int| t <= r < m && t <= c < m implies divides(d, #[trigger] b[r]@[c] as int) by {
            let r0 = if r == t { pi } else if r == pi { t } else { r };
            let c0 = if c == t { pj } else if c == pj { t } else { c };
            assert(divides(d, a[r0]@[c0] as int));
        }
    }
}

/// `U L V = diag(f)` with `U` and `V` invertible over the integers
/// (`W U = I`, `Y V = I`).
pub open spec fn snf_witness(
    u: Seq<Vec<i128>>,
    l: Seq<Seq<int>>,
    v: Seq<Seq<int>>,
    w: Seq<Seq<int>>,
    y: Seq<Seq<int>>,
    f: Seq<i128>,
    m: int,
) -> bool {
    &&& is_diag_of(u, l, v, f, m)
    &&& is_left_inverse(w, u, m)
    &&& is_left_inverse_v(y, v, m)
}

/// Row `k` can be made nonnegative in `i128`: its diagonal entry is not
/// `i128::MIN`, and where it is negative no entry of row `k` of the
/// transform is `i128::MIN`.
pub open spec fn row_negation_fits(a: Seq<Vec<i128>>, u: Seq<Vec<i128>>, m: int, k: int) -> bool {
    &&& a[k]@[k] != i128::MIN
    &&& a[k]@[k] < 0 ==> forall|c: int| 0 <= c < m ==> #[trigger] u[k]@[c] != i128::MIN
}

/// Every row can be made nonnegative in `i128`.
pub open spec fn finish_fits(a: Seq<Vec<i128>>, u: Seq<Vec<i128>>, m: int) -> bool {
    forall|k: int| 0 <= k < m ==> #[trigger] row_negation_fits(a, u, m, k)
}

/// The diagonal, made nonnegative by negating rows of the transform.
fn finish(
    a: Vec<Vec<i128>>,
    u_start: Vec<Vec<i128>>,
    Ghost(l): Ghost<Seq<Seq<int>>>,
    Ghost(v): Ghost<Seq<Seq<int>>>,
    Ghost(w): Ghost<Seq<Seq<int>>>,
) -> (r: Option<SandpileGroup>)
    requires
        is_square_mat(a@, a@.len() as int),
        is_square_mat(u_start@, a@.len() as int),
        diag_upto(a@, a@.len() as int),
        is_ulv(a@, u_start@, l, v, a@.len() as int),
        is_left_inverse(w, u_start@, a@.len() as int),
        forall|s: int, s2: int| 0 <= s < s2 < a@.len() ==> #[trigger] divides(a@[s]@[s] as int, a@[s2]@[s2] as int),
    ensures
        match r {
            Some(sp) => {
                &&& sp.factors@.len() == a@.len()
                &&& is_square_mat(sp.u@, a@.len() as int)
                &&& forall|i: int| 0 <= i < a@.len() ==> #[trigger] sp.factors@[i] as int == abs_i(a@[i]@[i] as int)
                &&& is_diag_of(sp.u@, l, v, sp.factors@, a@.len() as int)
                &&& exists|w2: Seq<Seq<int>>| #[trigger] is_left_inverse(w2, sp.u@, a@.len() as int)
                &&& forall|s: int, s2: int| 0 <= s < s2 < a@.len() ==> #[trigger] divides(sp.factors@[s] as int, sp.factors@[s2] as int)
            },
            None => true,
        },
        r is Some <==> finish_fits(a@, u_start@, a@.len() as int),
{
    let ghost u_in = u_start@;
    let m = a.len();
    let mut u = u_start;
    let ghost mut w = w;
    let mut factors: Vec<i128> = Vec::new();
    for i in 0..m
        invariant
            m == a@.len(),
            is_square_mat(a@, m as int),
            is_square_mat(u@, m as int),
            diag_upto(a@, m as int),
            factors@.len() == i,
            is_left_inverse(w, u@, m as int),
            is_square_mat(u_in, m as int),
            u_in == u_start@,
            forall|r: int, c: int| i <= r < m && 0 <= c < m ==> #[trigger] u@[r]@[c] == u_in[r]@[c],
            forall|k: int| 0 <= k < i ==> #[trigger] row_negation_fits(a@, u_in, m as int, k),
            forall|k: int| 0 <= k < i ==> #[trigger] factors@[k] as int == abs_i(a@[k]@[k] as int),
            forall|r: int, c: int|
                0 <= r < m && 0 <= c < m ==> #[trigger] ulv(u@, l, v, m as int, r, c) == if r < i && r == c {
                    abs_i(a@[r]@[r] as int)
                } else if r < i {
                    0
                } else {
                    a@[r]@[c] as int
                },
    {
        let d = a[i][i];
        if d < 0 {
            if d == i128::MIN {
                proof {
                    assert(!row_negation_fits(a@, u_in, m as int, i as int));
                    assert(!finish_fits(a@, u_in, a@.len() as int));
                }
                return None;
            }
            factors.push(-d);
            let ghost u0 = u@;
            for c in 0..m
                invariant
                    m == a@.len(),
                    i < m,
                    is_square_mat(u@, m as int),
                    is_square_mat(u0, m as int),
                    is_square_mat(u_in, m as int),
                    u_in == u_start@,
                    a@[i as int]@[i as int] < 0,
                    forall|c2: int| 0 <= c2 < m ==> #[trigger] u0[i as int]@[c2] == u_in[i as int]@[c2],
                    forall|c2: int| 0 <= c2 < c ==> #[trigger] u_in[i as int]@[c2] != i128::MIN,
                    forall|r: int, c2: int|
                        0 <= r < m && 0 <= c2 < m ==> #[trigger] u@[r]@[c2] == if r == i && c2 < c {
                            -u0[r]@[c2]
                        } else {
                            u0[r]@[c2] as int
                        },
            {
                let x = u[i][c];
                if x == i128::MIN {
                    proof {
                        assert(u_in[i as int]@[c as int] == i128::MIN);
                        assert(!row_negation_fits(a@, u_in, m as int, i as int));
                        assert(!finish_fits(a@, u_in, a@.len() as int));
                    }
                    return None;
                }
                u[i][c] = -x;
            }
            proof {
                assert(row_negation_fits(a@, u_in, m as int, i as int));
                assert(row_op(u0, u@, m as int, i as int, i as int, 2));
                lemma_row_op_ulv(u0, u@, l, v, m as int, i as int, i as int, 2);
                lemma_inv_row_neg(w, u0, u@, m as int, i as int);
                w = col_neg(w, m as int, i as int);
            }
        } else {
            factors.push(d);
            proof {
                assert(row_negation_fits(a@, u_in, m as int, i as int));
            }
        }
    }
    let sp = SandpileGroup { factors, u };
    proof {
        assert(finish_fits(a@, u_in, m as int));
        assert(finish_fits(a@, u_in, a@.len() as int));
        assert(is_diag_of(sp.u@, l, v, sp.factors@, m as int));
        assert(is_left_inverse(w, sp.u@, m as int));
        assert forall|s: int, s2: int| 0 <= s < s2 < m implies #[trigger] divides(sp.factors@[s] as int, sp.factors@[s2] as int) by {
            assert(divides(a@[s]@[s] as int, a@[s2]@[s2] as int));
            lemma_div_abs(a@[s]@[s] as int, a@[s2]@[s2] as int);
        }
    }
    Some(sp)
}

proof fn lemma_block_start(a: Seq<Vec<i128>>, t: int)
    requires
        is_square_mat(a, a.len() as int),
        0 <= t < a.len(),
    ensures
        block_zero(a, t) || block_has(a, t, 0x8000_0000_0000_0000_0000_0000_0000_0000),
{
    if !block_zero(a, t) {
        let (i, j) = choose|i: int, j: int| t <= i < a.len() && t <= j < a.len() && #[trigger] a[i]@[j] != 0;
        assert(abs_i(a[i]@[j] as int) <= 0x8000_0000_0000_0000_0000_0000_0000_0000);
    }
}

// The executable matrices against the elimination model of `crate::smith`.

proof fn lemma_fits_row_sub(a: Seq<Vec<i128>>, i: int, t: int, q: int)
    requires
        is_square_mat(a, a.len() as int),
        0 <= i < a.len(),
        0 <= t < a.len(),
    ensures
        row_sub_fits(a, i, t, q) == row_sub_ok(mat_view(a), i, t, q),
{
    let b = mat_view(a);
    assert forall|c: int| 0 <= c < a.len() implies #[trigger] b[t][c] == a[t]@[c] && b[i][c] == a[i]@[c] by {}
    if row_sub_fits(a, i, t, q) {
        assert forall|c: int| 0 <= c < b.len() implies in_i128(q * #[trigger] b[t][c]) && in_i128(b[i][c] - q * b[t][c]) by {
            assert(in_i128(q * a[t]@[c]));
        }
    }
    if row_sub_ok(b, i, t, q) {
        assert forall|c: int| 0 <= c < a.len() implies in_i128(q * #[trigger] a[t]@[c]) && in_i128(a[i]@[c] - q * a[t]@[c]) by {
            assert(in_i128(q * b[t][c]));
        }
    }
}

proof fn lemma_fits_col_sub(a: Seq<Vec<i128>>, j: int, t: int, q: int)
    requires
        is_square_mat(a, a.len() as int),
        0 <= j < a.len(),
        0 <= t < a.len(),
    ensures
        col_sub_fits(a, j, t, q) == col_sub_ok(mat_view(a), j, t, q),
{
    let b = mat_view(a);
    assert forall|r: int| 0 <= r < a.len() implies #[trigger] b[r][t] == a[r]@[t] && b[r][j] == a[r]@[j] by {}
    if col_sub_fits(a, j, t, q) {
        assert forall|r: int| 0 <= r < b.len() implies in_i128(q * #[trigger] b[r][t]) && in_i128(b[r][j] - q * b[r][t]) by {
            assert(in_i128(q * a[r]@[t]));
        }
    }
    if col_sub_ok(b, j, t, q) {
        assert forall|r: int| 0 <= r < a.len() implies in_i128(q * #[trigger] a[r]@[t]) && in_i128(a[r]@[j] - q * a[r]@[t]) by {
            assert(in_i128(q * b[r][t]));
        }
    }
}

proof fn lemma_fits_row_add(a: Seq<Vec<i128>>, t: int, i: int)
    requires
        is_square_mat(a, a.len() as int),
        0 <= i < a.len(),
        0 <= t < a.len(),
    ensures
        row_add_fits(a, t, i) == row_add_ok(mat_view(a), t, i),
{
    let b = mat_view(a);
    assert forall|c: int| 0 <= c < a.len() implies #[trigger] b[t][c] == a[t]@[c] && b[i][c] == a[i]@[c] by {}
    if row_add_fits(a, t, i) {
        assert forall|c: int| 0 <= c < b.len() implies in_i128(#[trigger] b[t][c] + b[i][c]) by {
            assert(in_i128(a[t]@[c] + a[i]@[c]));
        }
    }
    if row_add_ok(b, t, i) {
        assert forall|c: int| 0 <= c < a.len() implies in_i128(#[trigger] a[t]@[c] + a[i]@[c]) by {
            assert(in_i128(b[t][c] + b[i][c]));
        }
    }
}

proof fn lemma_view_row_sub(a0: Seq<Vec<i128>>, a1: Seq<Vec<i128>>, i: int, t: int, q: int)
    requires
        is_square_mat(a0, a0.len() as int),
        is_square_mat(a1, a0.len() as int),
        0 <= i < a0.len(),
        0 <= t < a0.len(),
        forall|r: int, c: int|
            0 <= r < a0.len() && 0 <= c < a0.len() ==> #[trigger] a1[r]@[c] == if r == i {
                a0[i]@[c] - q * a0[t]@[c]
            } else {
                a0[r]@[c] as int
            },
    ensures
        mat_view(a1) == row_sub_m(mat_view(a0), i, t, q),
{
    let b = row_sub_m(mat_view(a0), i, t, q);
    assert forall|r: int, c: int| 0 <= r < a1.len() && 0 <= c < b[r].len() implies #[trigger] a1[r]@[c] == b[r][c] by {}
    crate::smith::lemma_mat_view_eq(a1, b);
}

proof fn lemma_view_col_sub(a0: Seq<Vec<i128>>, a1: Seq<Vec<i128>>, j: int, t: int, q: int)
    requires
        is_square_mat(a0, a0.len() as int),
        is_square_mat(a1, a0.len() as int),
        0 <= j < a0.len(),
        0 <= t < a0.len(),
        forall|r: int, c: int|
            0 <= r < a0.len() && 0 <= c < a0.len() ==> #[trigger] a1[r]@[c] == if c == j {
                a0[r]@[j] - q * a0[r]@[t]
            } else {
                a0[r]@[c] as int
            },
    ensures
        mat_view(a1) == col_sub_m(mat_view(a0), j, t, q),
{
    let b = col_sub_m(mat_view(a0), j, t, q);
    assert forall|r: int, c: int| 0 <= r < a1.len() && 0 <= c < b[r].len() implies #[trigger] a1[r]@[c] == b[r][c] by {}
    crate::smith::lemma_mat_view_eq(a1, b);
}

proof fn lemma_view_row_add(a0: Seq<Vec<i128>>, a1: Seq<Vec<i128>>, t: int, i: int)
    requires
        is_square_mat(a0, a0.len() as int),
        is_square_mat(a1, a0.len() as int),
        0 <= i < a0.len(),
        0 <= t < a0.len(),
        forall|r: int, c: int|
            0 <= r < a0.len() && 0 <= c < a0.len() ==> #[trigger] a1[r]@[c] == if r == t {
                a0[t]@[c] + a0[i]@[c]
            } else {
                a0[r]@[c] as int
            },
    ensures
        mat_view(a1) == row_add_m(mat_view(a0), t, i),
{
    let b = row_add_m(mat_view(a0), t, i);
    assert forall|r: int, c: int| 0 <= r < a1.len() && 0 <= c < b[r].len() implies #[trigger] a1[r]@[c] == b[r][c] by {}
    crate::smith::lemma_mat_view_eq(a1, b);
}

proof fn lemma_view_swap_rows(a0: Seq<Vec<i128>>, a1: Seq<Vec<i128>>, i: int, k: int)
    requires
        is_square_mat(a0, a0.len() as int),
        is_square_mat(a1, a0.len() as int),
        0 <= i < a0.len(),
        0 <= k < a0.len(),
        forall|r: int, c: int|
            0 <= r < a0.len() && 0 <= c < a0.len() ==> #[trigger] a1[r]@[c] == if r == i {
                a0[k]@[c]
            } else if r == k {
                a0[i]@[c]
            } else {
                a0[r]@[c]
            },
    ensures
        mat_view(a1) == swap_rows_m(mat_view(a0), i, k),
{
    let b = swap_rows_m(mat_view(a0), i, k);
    assert forall|r: int, c: int| 0 <= r < a1.len() && 0 <= c < b[r].len() implies #[trigger] a1[r]@[c] == b[r][c] by {}
    crate::smith::lemma_mat_view_eq(a1, b);
}

proof fn lemma_view_swap_cols(a0: Seq<Vec<i128>>, a1: Seq<Vec<i128>>, i: int, k: int)
    requires
        is_square_mat(a0, a0.len() as int),
        is_square_mat(a1, a0.len() as int),
        0 <= i < a0.len(),
        0 <= k < a0.len(),
        forall|r: int, c: int|
            0 <= r < a0.len() && 0 <= c < a0.len() ==> #[trigger] a1[r]@[c] == if c == i {
                a0[r]@[k]
            } else if c == k {
                a0[r]@[i]
            } else {
                a0[r]@[c]
            },
    ensures
        mat_view(a1) == swap_cols_m(mat_view(a0), i, k),
{
    let b = swap_cols_m(mat_view(a0), i, k);
    assert forall|r: int, c: int| 0 <= r < a1.len() && 0 <= c < b[r].len() implies #[trigger] a1[r]@[c] == b[r][c] by {}
    crate::smith::lemma_mat_view_eq(a1, b);
}

proof fn lemma_view_finish(a: Seq<Vec<i128>>, u: Seq<Vec<i128>>)
    requires
        is_square_mat(a, a.len() as int),
        is_square_mat(u, a.len() as int),
    ensures
        finish_fits(a, u, a.len() as int) == finish_ok(mat_view(a), mat_view(u)),
{
    let m = a.len() as int;
    let av = mat_view(a);
    let uv = mat_view(u);
    assert forall|k: int| 0 <= k < m implies #[trigger] av[k][k] == a[k]@[k] && (forall|c: int|
        0 <= c < m ==> #[trigger] uv[k][c] == u[k]@[c]) by {}
    if finish_fits(a, u, m) {
        assert forall|k: int| 0 <= k < av.len() implies #[trigger] av[k][k] != i128::MIN && (av[k][k] < 0 ==> forall|c: int|
            0 <= c < av.len() ==> uv[k][c] != i128::MIN) by {
            assert(row_negation_fits(a, u, m, k));
            if av[k][k] < 0 {
                assert forall|c: int| 0 <= c < av.len() implies uv[k][c] != i128::MIN by {
                    assert(u[k]@[c] != i128::MIN);
                }
            }
        }
    }
    if finish_ok(av, uv) {
        assert forall|k: int| 0 <= k < m implies #[trigger] row_negation_fits(a, u, m, k) by {
            assert(av[k][k] != i128::MIN);
            if a[k]@[k] < 0 {
                assert forall|c: int| 0 <= c < m implies #[trigger] u[k]@[c] != i128::MIN by {
                    assert(uv[k][c] != i128::MIN);
                }
            }
        }
    }
}

/// Smith normal form of the reduced Laplacian: the invariant factors and
/// the left transform; `None` exactly where a value of the elimination
/// (the run of `crate::smith`) leaves `i128`.
#[verifier::rlimit(40)]
pub fn sandpile_group(g: &Graph) -> (r: Option<SandpileGroup>)
    requires
        g.wf(),
        degrees_fit(g.adj@),
    ensures
        match r {
            Some(sp) => {
                &&& sp.factors@.len() == g.n - 1
                &&& is_square_mat(sp.u@, g.n - 1)
                &&& forall|i: int| 0 <= i < g.n - 1 ==> 0 <= #[trigger] sp.factors@[i]
                &&& exists|v: Seq<Seq<int>>, w: Seq<Seq<int>>, y: Seq<Seq<int>>|
                    #[trigger] snf_witness(sp.u@, laplacian_model(g.adj@), v, w, y, sp.factors@, g.n - 1)
                &&& forall|i: int, j: int| 0 <= i < j < g.n - 1 ==> #[trigger] divides(sp.factors@[i] as int, sp.factors@[j] as int)
                &&& forall|i: int| 0 <= i < g.n - 1 ==> 1 <= #[trigger] sp.factors@[i]
            },
            None => !snf_fits(laplacian_model(g.adj@)),
        },
        r is Some <==> snf_fits(laplacian_model(g.adj@)),
{
    let mut a = reduced_laplacian(g);
    let m = a.len();
    let mut u = identity(m);
    let ghost l = laplacian_model(g.adj@);
    let ghost mut v = id_mat(m as int);
    let ghost mut w = id_mat(m as int);
    let ghost mut y = id_mat(m as int);
    let ghost mut steps: nat = 0;
    proof {
        crate::smith::lemma_mat_view_eq(u@, id_mat(m as int));
        assert(snf_run(l, 0) == SnfRun::Running(mat_view(a@), mat_view(u@), SnfPhase::Pivot { t: 0 }));
        assert(running_upto(l, 0));
        lemma_ulv_identity(u@, l, m as int);
        lemma_identity_inverse(u@, m as int);
        assert(is_ulv(a@, u@, l, v, m as int)) by {
            assert forall|i: int, j: int| 0 <= i < m && 0 <= j < m implies #[trigger] a@[i]@[j] == ulv(u@, l, v, m as int, i, j) by {
                assert(mat_view(a@)[i][j] == a@[i]@[j]);
            }
        }
    }
    let mut t: usize = 0;
    while t < m
        invariant
            m == g.n - 1,
            m == a@.len(),
            is_square_mat(a@, m as int),
            is_square_mat(u@, m as int),
            t <= m,
            diag_upto(a@, t as int),
            chain_upto(a@, t as int),
            is_ulv(a@, u@, l, v, m as int),
            l == laplacian_model(g.adj@),
            is_left_inverse(w, u@, m as int),
            is_left_inverse_v(y, v, m as int),
            forall|k: int| 0 <= k < m ==> (#[trigger] y[k]).len() == m,
            l.len() == m,
            g.wf(),
            snf_run(l, steps) == SnfRun::Running(mat_view(a@), mat_view(u@), SnfPhase::Pivot { t: t as int }),
            running_upto(l, steps),
        decreases m - t,
    {
        let ghost mut bnd: int = 0x8000_0000_0000_0000_0000_0000_0000_0000;
        let ghost mut ph: int = 1;
        let mut fixed = false;
        proof {
            lemma_block_start(a@, t as int);
        }
        while !fixed
            invariant
                m == g.n - 1,
                m == a@.len(),
                is_square_mat(a@, m as int),
                is_square_mat(u@, m as int),
                t < m,
                diag_upto(a@, t as int),
                fixed ==> diag_upto(a@, t + 1),
                fixed ==> chain_upto(a@, t + 1),
                !fixed ==> chain_upto(a@, t as int),
                !fixed ==> block_zero(a@, t as int) || block_has(a@, t as int, bnd),
                !fixed && ph == 0 ==> pending(a@, t as int, bnd),
                bnd >= 0,
                ph == 0 || ph == 1,
                is_ulv(a@, u@, l, v, m as int),
                l == laplacian_model(g.adj@),
                is_left_inverse(w, u@, m as int),
                is_left_inverse_v(y, v, m as int),
                forall|k: int| 0 <= k < m ==> (#[trigger] y[k]).len() == m,
                l.len() == m,
                g.wf(),
                snf_run(l, steps) == SnfRun::Running(mat_view(a@), mat_view(u@), SnfPhase::Pivot { t: if fixed { t + 1 } else { t as int } }),
                running_upto(l, steps),
            decreases 2 * bnd + ph,
        {
            let ghost a_in = a@;
            let (pi, pj) = match find_pivot(&a, t) {
                None => {
                    proof {
                        assert(diag_upto(a@, m as int));
                        assert forall|s: int, s2: int| 0 <= s < s2 < m implies #[trigger] divides(a@[s]@[s] as int, a@[s2]@[s2] as int) by {
                            if s2 >= t {
                                assert(a@[s2]@[s2] == 0);
                                lemma_div_zero(a@[s]@[s] as int);
                            }
                        }
                    }
                    let ghost af = a@;
                    let ghost uf = u@;
                    proof {
                        lemma_advance(l, steps, mat_view(a@), mat_view(u@), SnfPhase::Pivot { t: t as int });
                        assert(snf_run(l, steps + 1) == SnfRun::Done(mat_view(af), mat_view(uf)));
                        lemma_view_finish(af, uf);
                    }
                    return match finish(a, u, Ghost(l), Ghost(v), Ghost(w)) {
                        Some(sp) => {
                            proof {
                                let w2 = choose|w2: Seq<Seq<int>>| #[trigger] is_left_inverse(w2, sp.u@, m as int);
                                assert(snf_witness(sp.u@, l, v, w2, y, sp.factors@, m as int));
                                crate::nonsingular::lemma_no_zero_factor(g.adj@, sp.u@, v, w2, y, sp.factors@);
                                lemma_run_fits(l, steps + 1, mat_view(af), mat_view(uf));
                            }
                            Some(sp)
                        },
                        None => {
                            proof {
                                lemma_run_fails(l, steps);
                            }
                            None
                        },
                    };
                },
                Some(pp) => pp,
            };
            let ghost pabs = abs_i(a@[pi as int]@[pj as int] as int);
            proof {
                if !block_zero(a@, t as int) {
                    let (i2, j2) = choose|i: int, j: int|
                        t <= i < a@.len() && t <= j < a@.len() && #[trigger] a@[i]@[j] != 0 && abs_i(a@[i]@[j] as int) <= bnd;
                    assert(pabs <= abs_i(a@[i2]@[j2] as int));
                } else {
                    assert(a@[pi as int]@[pj as int] == 0);
                }
                assert(pabs <= bnd);
                if ph == 0 && pabs == bnd {
                    assert(pi == t && pj == t);
                }
            }
            let ghost u_in = u@;
            swap_rows(&mut a, t, pi);
            swap_rows(&mut u, t, pi);
            let ghost a_rs = a@;
            proof {
                lemma_row_swap_ulv(u_in, u@, l, v, m as int, t as int, pi as int);
                lemma_inv_row_swap(w, u_in, u@, m as int, t as int, pi as int);
                w = col_swap(w, m as int, t as int, pi as int);
            }
            swap_cols(&mut a, t, pj);
            proof {
                lemma_col_swap_ulv(u@, l, v, m as int, t as int, pj as int);
                lemma_inv_col_swap(y, v, m as int, t as int, pj as int);
                y = row_swap_y(y, m as int, t as int, pj as int);
                v = col_swap_v(v, m as int, t as int, pj as int);
                assert(is_ulv(a@, u@, l, v, m as int)) by {
                    assert forall|i: int, j: int| 0 <= i < m && 0 <= j < m implies #[trigger] a@[i]@[j] == ulv(u@, l, v, m as int, i, j) by {
                        let j0 = if j == t { pj as int } else if j == pj { t as int } else { j };
                        let i0 = if i == t { pi as int } else if i == pi { t as int } else { i };
                        assert(a@[i]@[j] == a_rs[i]@[j0]);
                        assert(a_rs[i]@[j0] == a_in[i0]@[j0]);
                    }
                }
            }
            proof {
                assert forall|r: int, c: int| 0 <= r < m && 0 <= c < m implies #[trigger] a@[r]@[c] == a_in[if r == t {
                    pi as int
                } else if r == pi {
                    t as int
                } else {
                    r
                }]@[if c == t {
                    pj as int
                } else if c == pj {
                    t as int
                } else {
                    c
                }] by {
                    let r0 = if r == t { pi as int } else if r == pi { t as int } else { r };
                    let c0 = if c == t { pj as int } else if c == pj { t as int } else { c };
                    assert(a@[r]@[c] == a_rs[r]@[c0]);
                    assert(a_rs[r]@[c0] == a_in[r0]@[c0]);
                }
                lemma_keep_swaps(a_in, a@, m as int, pi as int, pj as int, t as int);
                lemma_chain_keep(a_in, a@, t as int);
            }
            proof {
                lemma_view_swap_rows(a_in, a_rs, t as int, pi as int);
                lemma_view_swap_rows(u_in, u@, t as int, pi as int);
                lemma_view_swap_cols(a_rs, a@, t as int, pj as int);
                lemma_advance(l, steps, mat_view(a_in), mat_view(u_in), SnfPhase::Pivot { t: t as int });
                assert(snf_run(l, steps + 1) == SnfRun::Running(mat_view(a@), mat_view(u@), SnfPhase::Col { t: t as int, i: t + 1, clean: true }));
                steps = steps + 1;
            }
            let p = a[t][t];
            let ghost a_sw = a@;
            proof {
                assert(p == a_in[pi as int]@[pj as int]);
                assert(pabs == abs_i(p as int));
                assert(diag_upto(a@, t as int)) by {
                    assert forall|r: int, c: int|
                        0 <= r < m && 0 <= c < m && (r < t || c < t) && r != c implies #[trigger] a@[r]@[c] == 0 by {
                        let r0 = if r == t { pi as int } else if r == pi { t as int } else { r };
                        let c0 = if c == t { pj as int } else if c == pj { t as int } else { c };
                        assert(a@[r]@[c] == a_rs[r]@[c0]);
                        assert(a_rs[r]@[c0] == a_in[r0]@[c0]);
                        assert(a@[r]@[c] == a_in[r0]@[c0]);
                    }
                }
                if ph == 0 && pabs == bnd {
                    assert forall|r: int, c: int| 0 <= r < m && 0 <= c < m implies #[trigger] a@[r]@[c] == a_in[r]@[c] by {}
                    assert(pending(a_sw, t as int, bnd)) by {
                        let j = choose|j: int| t < j < m && crem(#[trigger] a_in[t as int]@[j] as int, a_in[t as int]@[t as int] as int) != 0;
                        assert(a_sw[t as int]@[j] == a_in[t as int]@[j]);
                        assert forall|i: int| t < i < m implies #[trigger] a_sw[i]@[t as int] == 0 by {
                            assert(a_sw[i]@[t as int] == a_in[i]@[t as int]);
                        }
                    }
                }
            }
            // clear column t below the pivot
            let mut clean = true;
            let ghost mut wi: int = 0;
            let mut i: usize = t + 1;
            while i < m
                invariant
                    m == a@.len(),
                    is_square_mat(a@, m as int),
                    is_square_mat(u@, m as int),
                    t < i <= m,
                    diag_upto(a@, t as int),
                    p == a@[t as int]@[t as int],
                    p != 0,
                    pabs == abs_i(p as int),
                    forall|c: int| 0 <= c < m ==> #[trigger] a@[t as int]@[c] == a_sw[t as int]@[c],
                    clean ==> forall|i2: int| t < i2 < i ==> #[trigger] a@[i2]@[t as int] == 0,
                    !clean ==> t < wi < i && a@[wi]@[t as int] != 0 && abs_i(a@[wi]@[t as int] as int) < pabs,
                    (ph == 0 && pabs == bnd) ==> forall|r: int, c: int| 0 <= r < m && 0 <= c < m ==> #[trigger] a@[r]@[c] == a_sw[r]@[c],
                    (ph == 0 && pabs == bnd) ==> pending(a_sw, t as int, bnd),
                    a_sw.len() == m,
                    chain_upto(a@, t as int),
                    is_ulv(a@, u@, l, v, m as int),
                    is_left_inverse(w, u@, m as int),
                    l.len() == m,
                    l == laplacian_model(g.adj@),
                    snf_run(l, steps) == SnfRun::Running(mat_view(a@), mat_view(u@), SnfPhase::Col { t: t as int, i: i as int, clean }),
                    running_upto(l, steps),
                decreases m - i,
            {
                let ghost a_b = a@;
                let ghost u_b = u@;
                proof {
                    lemma_advance(l, steps, mat_view(a_b), mat_view(u_b), SnfPhase::Col { t: t as int, i: i as int, clean });
                    assert(mat_view(a_b)[i as int][t as int] == a_b[i as int]@[t as int]);
                    assert(mat_view(a_b)[t as int][t as int] == p);
                }
                if a[i][t] != 0 {
                    proof {
                        if ph == 0 && pabs == bnd {
                            assert(a_sw[i as int]@[t as int] == 0);
                        }
                    }
                    let x = a[i][t];
                    let q = match x.checked_div(p) {
                        Some(q) => q,
                        None => {
                            proof {
                                lemma_run_fails(l, steps);
                            }
                            return None;
                        },
                    };
                    let ghost a0 = a@;
                    let ghost u0 = u@;
                    proof {
                        lemma_fits_row_sub(a0, i as int, t as int, q as int);
                        lemma_fits_row_sub(u0, i as int, t as int, q as int);
                    }
                    if !row_sub(&mut a, i, t, q) {
                        proof {
                            lemma_run_fails(l, steps);
                        }
                        return None;
                    }
                    if !row_sub(&mut u, i, t, q) {
                        proof {
                            lemma_run_fails(l, steps);
                        }
                        return None;
                    }
                    proof {
                        lemma_view_row_sub(a0, a@, i as int, t as int, q as int);
                        lemma_view_row_sub(u0, u@, i as int, t as int, q as int);
                    }
                    proof {
                        lemma_row_op_ulv(u0, u@, l, v, m as int, i as int, t as int, q as int);
                        lemma_inv_row_op(w, u0, u@, m as int, i as int, t as int, q as int);
                        w = col_add(w, m as int, t as int, i as int, q as int);
                        lemma_keep_row_op(a0, a@, m as int, i as int, t as int, q as int, t as int);
                        lemma_chain_keep(a0, a@, t as int);
                        assert(is_ulv(a@, u@, l, v, m as int)) by {
                            assert forall|r: int, c: int| 0 <= r < m && 0 <= c < m implies #[trigger] a@[r]@[c] == ulv(u@, l, v, m as int, r, c) by {
                                assert(a0[r]@[c] == ulv(u0, l, v, m as int, r, c));
                                assert(a0[t as int]@[c] == ulv(u0, l, v, m as int, t as int, c));
                                assert(a0[i as int]@[c] == ulv(u0, l, v, m as int, i as int, c));
                            }
                        }
                        lemma_trem(x as int, p as int);
                        assert(a@[i as int]@[t as int] == trem(x as int, p as int));
                        assert(diag_upto(a@, t as int)) by {
                            assert forall|r: int, c: int|
                                0 <= r < m && 0 <= c < m && (r < t || c < t) && r != c implies #[trigger] a@[r]@[c] == 0 by {
                                if r == i {
                                    assert(a0[r]@[c] == 0);
                                    assert(a0[t as int]@[c] == 0);
                                    assert((q as int) * 0 == 0) by (nonlinear_arith);
                                    assert(a@[r]@[c] == a0[i as int]@[c] - q * a0[t as int]@[c]);
                                } else {
                                    assert(a@[r]@[c] == a0[r]@[c]);
                                }
                            }
                        }
                    }
                    if a[i][t] != 0 {
                        clean = false;
                        proof {
                            wi = i as int;
                        }
                    }
                    proof {
                        assert(mat_view(a@)[i as int][t as int] == a@[i as int]@[t as int]);
                    }
                }
                proof {
                    assert(snf_run(l, steps + 1) == SnfRun::Running(mat_view(a@), mat_view(u@), SnfPhase::Col { t: t as int, i: i + 1, clean }));
                    steps = steps + 1;
                }
                i += 1;
            }
            proof {
                lemma_advance(l, steps, mat_view(a@), mat_view(u@), SnfPhase::Col { t: t as int, i: i as int, clean });
                steps = steps + 1;
            }
            if !clean {
                proof {
                    bnd = pabs - 1;
                    ph = 1;
                    assert(a@[wi]@[t as int] != 0);
                }
            } else {
                // clear row t right of the pivot
                let ghost a_cp = a@;
                let ghost jstar: int = if ph == 0 && pabs == bnd {
                    choose|j: int| t < j < m && crem(#[trigger] a_sw[t as int]@[j] as int, a_sw[t as int]@[t as int] as int) != 0
                } else {
                    0
                };
                let ghost mut wj: int = 0;
                let mut j: usize = t + 1;
                while j < m
                    invariant
                        m == a@.len(),
                        is_square_mat(a@, m as int),
                        is_square_mat(u@, m as int),
                        t < j <= m,
                        diag_upto(a@, t as int),
                        p == a@[t as int]@[t as int],
                        p != 0,
                        pabs == abs_i(p as int),
                        forall|r: int| 0 <= r < m ==> #[trigger] a@[r]@[t as int] == a_cp[r]@[t as int],
                        forall|i2: int| t < i2 < m ==> #[trigger] a_cp[i2]@[t as int] == 0,
                        clean ==> forall|j2: int| t < j2 < j ==> #[trigger] a@[t as int]@[j2] == 0,
                        !clean ==> t < wj < j && a@[t as int]@[wj] != 0 && abs_i(a@[t as int]@[wj] as int) < pabs,
                        (ph == 0 && pabs == bnd) ==> t < jstar < m && crem(a_cp[t as int]@[jstar] as int, p as int) != 0,
                        (ph == 0 && pabs == bnd && j <= jstar) ==> a@[t as int]@[jstar] == a_cp[t as int]@[jstar],
                        (ph == 0 && pabs == bnd && j > jstar) ==> !clean,
                        is_ulv(a@, u@, l, v, m as int),
                        chain_upto(a@, t as int),
                        v.len() == m,
                        is_left_inverse_v(y, v, m as int),
                        forall|k: int| 0 <= k < m ==> (#[trigger] y[k]).len() == m,
                        l.len() == m,
                        l == laplacian_model(g.adj@),
                        snf_run(l, steps) == SnfRun::Running(mat_view(a@), mat_view(u@), SnfPhase::Row { t: t as int, j: j as int, clean }),
                        running_upto(l, steps),
                    decreases m - j,
                {
                    let ghost a_b = a@;
                    proof {
                        lemma_advance(l, steps, mat_view(a_b), mat_view(u@), SnfPhase::Row { t: t as int, j: j as int, clean });
                        assert(mat_view(a_b)[t as int][j as int] == a_b[t as int]@[j as int]);
                        assert(mat_view(a_b)[t as int][t as int] == p);
                    }
                    if a[t][j] != 0 {
                        let x = a[t][j];
                        let q = match x.checked_div(p) {
                            Some(q) => q,
                            None => {
                                proof {
                                    lemma_run_fails(l, steps);
                                }
                                return None;
                            },
                        };
                        let ghost a0 = a@;
                        proof {
                            lemma_fits_col_sub(a0, j as int, t as int, q as int);
                        }
                        if !col_sub(&mut a, j, t, q) {
                            proof {
                                lemma_run_fails(l, steps);
                            }
                            return None;
                        }
                        proof {
                            lemma_view_col_sub(a0, a@, j as int, t as int, q as int);
                        }
                        proof {
                            lemma_col_op_ulv(u@, l, v, m as int, j as int, t as int, q as int);
                            lemma_inv_col_op(y, v, m as int, j as int, t as int, q as int);
                            y = row_add_y(y, m as int, t as int, j as int, q as int);
                            lemma_keep_col_op(a0, a@, m as int, j as int, t as int, q as int, t as int);
                            lemma_chain_keep(a0, a@, t as int);
                            let v0 = v;
                            v = col_op_v(v, m as int, j as int, t as int, q as int);
                            assert(is_ulv(a@, u@, l, v, m as int)) by {
                                assert forall|r: int, c: int| 0 <= r < m && 0 <= c < m implies #[trigger] a@[r]@[c] == ulv(u@, l, v, m as int, r, c) by {
                                    assert(a0[r]@[c] == ulv(u@, l, v0, m as int, r, c));
                                    assert(a0[r]@[t as int] == ulv(u@, l, v0, m as int, r, t as int));
                                    assert(a0[r]@[j as int] == ulv(u@, l, v0, m as int, r, j as int));
                                }
                            }
                            lemma_trem(x as int, p as int);
                            assert(a@[t as int]@[j as int] == trem(x as int, p as int));
                            assert(diag_upto(a@, t as int)) by {
                                assert forall|r: int, c: int|
                                    0 <= r < m && 0 <= c < m && (r < t || c < t) && r != c implies #[trigger] a@[r]@[c] == 0 by {
                                    if c == j {
                                        assert(a0[r]@[c] == 0);
                                        assert(a0[r]@[t as int] == 0);
                                        assert((q as int) * 0 == 0) by (nonlinear_arith);
                                        assert(a@[r]@[c] == a0[r]@[j as int] - q * a0[r]@[t as int]);
                                    } else {
                                        assert(a@[r]@[c] == a0[r]@[c]);
                                    }
                                }
                            }
                        }
                        if a[t][j] != 0 {
                            clean = false;
                            proof {
                                wj = j as int;
                            }
                        }
                        proof {
                            assert(mat_view(a@)[t as int][j as int] == a@[t as int]@[j as int]);
                        }
                    } else {
                        proof {
                            if ph == 0 && pabs == bnd && j == jstar {
                                assert(crem(0, p as int) == 0);
                            }
                        }
                    }
                    proof {
                        assert(snf_run(l, steps + 1) == SnfRun::Running(mat_view(a@), mat_view(u@), SnfPhase::Row { t: t as int, j: j + 1, clean }));
                        steps = steps + 1;
                    }
                    j += 1;
                }
                proof {
                    lemma_advance(l, steps, mat_view(a@), mat_view(u@), SnfPhase::Row { t: t as int, j: j as int, clean });
                    steps = steps + 1;
                }
                if !clean {
                    proof {
                        bnd = pabs - 1;
                        ph = 1;
                        assert(a@[t as int]@[wj] != 0);
                    }
                } else {
                    // divisibility: the pivot must divide every remaining entry
                    let ghost a_rp = a@;
                    let mut found = false;
                    let ghost mut fi: int = 0;
                    let ghost mut fj: int = 0;
                    let mut i: usize = t + 1;
                    while i < m && !found
                        invariant
                            m == a@.len(),
                            is_square_mat(a@, m as int),
                            is_square_mat(u@, m as int),
                            t < i <= m,
                            p == a_rp[t as int]@[t as int],
                            p != 0,
                            !found ==> a@ == a_rp,
                            !found ==> forall|i2: int, j2: int| t < i2 < i && t < j2 < m ==> crem(#[trigger] a_rp[i2]@[j2] as int, p as int) == 0,
                            found ==> t < fi < m && t < fj < m && crem(a_rp[fi]@[fj] as int, p as int) != 0,
                            found ==> forall|r: int, c: int|
                                0 <= r < m && 0 <= c < m ==> #[trigger] a@[r]@[c] == if r == t {
                                    a_rp[t as int]@[c] + a_rp[fi]@[c]
                                } else {
                                    a_rp[r]@[c] as int
                                },
                            is_ulv(a@, u@, l, v, m as int),
                            is_left_inverse(w, u@, m as int),
                            chain_upto(a@, t as int),
                            l.len() == m,
                            l == laplacian_model(g.adj@),
                            !found ==> snf_run(l, steps) == SnfRun::Running(mat_view(a@), mat_view(u@), SnfPhase::Div { t: t as int, i: i as int, j: t + 1 }),
                            found ==> snf_run(l, steps) == SnfRun::Running(mat_view(a@), mat_view(u@), SnfPhase::Pivot { t: t as int }),
                            running_upto(l, steps),
                        decreases m - i,
                    {
                        let mut j: usize = t + 1;
                        while j < m && !found
                            invariant
                                m == a@.len(),
                                is_square_mat(a@, m as int),
                                is_square_mat(u@, m as int),
                                t < i < m,
                                t < j <= m,
                                p == a_rp[t as int]@[t as int],
                                p != 0,
                                !found ==> a@ == a_rp,
                                !found ==> forall|i2: int, j2: int| t < i2 < i && t < j2 < m ==> crem(#[trigger] a_rp[i2]@[j2] as int, p as int) == 0,
                                !found ==> forall|j2: int| t < j2 < j ==> crem(#[trigger] a_rp[i as int]@[j2] as int, p as int) == 0,
                                found ==> t < fi < m && t < fj < m && crem(a_rp[fi]@[fj] as int, p as int) != 0,
                                found ==> forall|r: int, c: int|
                                    0 <= r < m && 0 <= c < m ==> #[trigger] a@[r]@[c] == if r == t {
                                        a_rp[t as int]@[c] + a_rp[fi]@[c]
                                    } else {
                                        a_rp[r]@[c] as int
                                    },
                                is_ulv(a@, u@, l, v, m as int),
                                is_left_inverse(w, u@, m as int),
                                chain_upto(a@, t as int),
                                l.len() == m,
                                l == laplacian_model(g.adj@),
                                !found ==> snf_run(l, steps) == SnfRun::Running(mat_view(a@), mat_view(u@), SnfPhase::Div { t: t as int, i: i as int, j: j as int }),
                                found ==> snf_run(l, steps) == SnfRun::Running(mat_view(a@), mat_view(u@), SnfPhase::Pivot { t: t as int }),
                                running_upto(l, steps),
                            decreases m - j,
                        {
                            proof {
                                lemma_advance(l, steps, mat_view(a@), mat_view(u@), SnfPhase::Div { t: t as int, i: i as int, j: j as int });
                                assert(mat_view(a@)[i as int][j as int] == a@[i as int]@[j as int]);
                                assert(mat_view(a@)[t as int][t as int] == p);
                            }
                            match a[i][j].checked_rem(p) {
                                None => {
                                    proof {
                                        lemma_run_fails(l, steps);
                                    }
                                    return None;
                                },
                                Some(rr) => {
                                    if rr != 0 {
                                        let ghost a0 = a@;
                                        let ghost u0 = u@;
                                        proof {
                                            lemma_fits_row_add(a0, t as int, i as int);
                                            lemma_fits_row_add(u0, t as int, i as int);
                                        }
                                        if !row_add(&mut a, t, i) {
                                            proof {
                                                lemma_run_fails(l, steps);
                                            }
                                            return None;
                                        }
                                        if !row_add(&mut u, t, i) {
                                            proof {
                                                lemma_run_fails(l, steps);
                                            }
                                            return None;
                                        }
                                        proof {
                                            lemma_view_row_add(a0, a@, t as int, i as int);
                                            lemma_view_row_add(u0, u@, t as int, i as int);
                                            assert(snf_run(l, steps + 1) == SnfRun::Running(mat_view(a@), mat_view(u@), SnfPhase::Pivot { t: t as int }));
                                            steps = steps + 1;
                                        }
                                        proof {
                                            assert(row_op(u0, u@, m as int, t as int, i as int, -1));
                                            lemma_row_op_ulv(u0, u@, l, v, m as int, t as int, i as int, -1);
                                            lemma_inv_row_op(w, u0, u@, m as int, t as int, i as int, -1);
                                            w = col_add(w, m as int, i as int, t as int, -1);
                                            assert(row_op(a0, a@, m as int, t as int, i as int, -1));
                                            lemma_keep_row_op(a0, a@, m as int, t as int, i as int, -1, t as int);
                                            lemma_chain_keep(a0, a@, t as int);
                                            assert(is_ulv(a@, u@, l, v, m as int)) by {
                                                assert forall|r: int, c: int| 0 <= r < m && 0 <= c < m implies #[trigger] a@[r]@[c] == ulv(u@, l, v, m as int, r, c) by {
                                                    assert(a0[r]@[c] == ulv(u0, l, v, m as int, r, c));
                                                    assert(a0[t as int]@[c] == ulv(u0, l, v, m as int, t as int, c));
                                                    assert(a0[i as int]@[c] == ulv(u0, l, v, m as int, i as int, c));
                                                }
                                            }
                                        }
                                        found = true;
                                        proof {
                                            fi = i as int;
                                            fj = j as int;
                                        }
                                    } else {
                                        proof {
                                            assert(snf_run(l, steps + 1) == SnfRun::Running(mat_view(a@), mat_view(u@), SnfPhase::Div { t: t as int, i: i as int, j: j + 1 }));
                                            steps = steps + 1;
                                        }
                                    }
                                },
                            }
                            j += 1;
                        }
                        proof {
                            if !found {
                                lemma_advance(l, steps, mat_view(a@), mat_view(u@), SnfPhase::Div { t: t as int, i: i as int, j: j as int });
                                steps = steps + 1;
                            }
                        }
                        i += 1;
                    }
                    if found {
                        proof {
                            assert(pabs < bnd || ph == 1);
                            bnd = pabs;
                            ph = 0;
                            assert(a@[t as int]@[fj] == a_rp[fi]@[fj]);
                            assert(a@[t as int]@[t as int] == p);
                            assert(pending(a@, t as int, bnd));
                            assert(diag_upto(a@, t as int)) by {
                                assert forall|r: int, c: int|
                                    0 <= r < m && 0 <= c < m && (r < t || c < t) && r != c implies #[trigger] a@[r]@[c] == 0 by {
                                    if r == t {
                                        assert(a_rp[t as int]@[c] == 0);
                                        assert(a_rp[fi]@[c] == 0);
                                    }
                                }
                            }
                        }
                    } else {
                        proof {
                            lemma_advance(l, steps, mat_view(a@), mat_view(u@), SnfPhase::Div { t: t as int, i: i as int, j: t + 1 });
                            steps = steps + 1;
                        }
                        fixed = true;
                        proof {
                            assert(block_div(a@, a@[t as int]@[t as int] as int, t + 1)) by {
                                assert forall|r: int, c: int| t + 1 <= r < m && t + 1 <= c < m implies divides(
                                    a@[t as int]@[t as int] as int,
                                    #[trigger] a@[r]@[c] as int,
                                ) by {
                                    assert(crem(a_rp[r]@[c] as int, p as int) == 0);
                                    lemma_crem_zero(a_rp[r]@[c] as int, p as int);
                                }
                            }
                            assert(chain_upto(a@, t + 1)) by {
                                assert forall|s: int| 0 <= s < t + 1 implies #[trigger] block_div(a@, a@[s]@[s] as int, t + 1) by {
                                    if s < t {
                                        assert(block_div(a@, a@[s]@[s] as int, t as int));
                                        assert forall|r: int, c: int| t + 1 <= r < m && t + 1 <= c < m implies divides(
                                            a@[s]@[s] as int,
                                            #[trigger] a@[r]@[c] as int,
                                        ) by {}
                                    }
                                }
                                assert forall|s: int, s2: int| 0 <= s < s2 < t + 1 implies #[trigger] divides(
                                    a@[s]@[s] as int,
                                    a@[s2]@[s2] as int,
                                ) by {
                                    if s2 == t {
                                        assert(block_div(a@, a@[s]@[s] as int, t as int));
                                    }
                                }
                            }
                            bnd = if pabs >= 1 { pabs - 1 } else { 0 };
                            ph = 0;
                            assert(diag_upto(a@, t + 1)) by {
                                assert forall|r: int, c: int|
                                    0 <= r < m && 0 <= c < m && (r < t + 1 || c < t + 1) && r != c implies #[trigger] a@[r]@[c] == 0 by {
                                    if r == t && c > t {
                                        assert(a_rp[t as int]@[c] == 0);
                                    }
                                    if c == t && r > t {
                                        assert(a_cp[r]@[t as int] == 0);
                                    }
                                }
                            }
                        }
                    }
                }
            }
        }
        t += 1;
    }
    proof {
        assert forall|s: int, s2: int| 0 <= s < s2 < m implies #[trigger] divides(a@[s]@[s] as int, a@[s2]@[s2] as int) by {}
    }
    let ghost af = a@;
    let ghost uf = u@;
    proof {
        lemma_advance(l, steps, mat_view(a@), mat_view(u@), SnfPhase::Pivot { t: t as int });
        assert(snf_run(l, steps + 1) == SnfRun::Done(mat_view(af), mat_view(uf)));
        lemma_view_finish(af, uf);
    }
    match finish(a, u, Ghost(l), Ghost(v), Ghost(w)) {
        Some(sp) => {
            proof {
                let w2 = choose|w2: Seq<Seq<int>>| #[trigger] is_left_inverse(w2, sp.u@, m as int);
                assert(snf_witness(sp.u@, l, v, w2, y, sp.factors@, m as int));
                crate::nonsingular::lemma_no_zero_factor(g.adj@, sp.u@, v, w2, y, sp.factors@);
                lemma_run_fits(l, steps + 1, mat_view(af), mat_view(uf));
            }
            Some(sp)
        },
        None => {
            proof {
                lemma_run_fails(l, steps);
            }
            None
        },
    }
}

/// Every value computed for the class key of `x` fits its integer type:
/// the partial sums of `(U x)_i` for the nontrivial factors in `i128`, and
/// the strides in `u128`.
pub open spec fn key_fits(f: Seq<i128>, u: Seq<Vec<i128>>, x: Seq<u32>) -> bool {
    &&& is_square_mat(u, f.len() as int)
    &&& x.len() >= f.len()
    &&& forall|i: int| 0 <= i < f.len() && #[trigger] f[i] > 1 ==> row_fits(u[i]@, x, f.len() as int)
    &&& forall|k: int| 0 <= k <= f.len() ==> #[trigger] stride_upto(f, k) <= u128::MAX
}

/// The partial sums and terms of `row . x` over `0..m` fit in `i128`.
pub open spec fn row_fits(row: Seq<i128>, x: Seq<u32>, m: int) -> bool {
    &&& forall|j: int| 0 <= j <= m ==> in_i128(#[trigger] row_dot(row, x, j))
    &&& forall|j: int| 0 <= j < m ==> in_i128(#[trigger] (row[j] * x[j]))
}

/// `prod_{i<k} f[i]`.
pub open spec fn factor_prod(f: Seq<i128>, k: int) -> int
    decreases k,
{
    if k <= 0 {
        1
    } else {
        factor_prod(f, k - 1) * f[k - 1]
    }
}

/// The stride of component `i` of a class key: the product of the
/// nontrivial factors before it.
pub open spec fn stride_upto(f: Seq<i128>, i: int) -> int
    decreases i,
{
    if i <= 0 {
        1
    } else if f[i - 1] > 1 {
        stride_upto(f, i - 1) * f[i - 1]
    } else {
        stride_upto(f, i - 1)
    }
}

/// `sum_{k<j} row[k] x[k]`.
pub open spec fn row_dot(row: Seq<i128>, x: Seq<u32>, j: int) -> int
    decreases j,
{
    if j <= 0 {
        0
    } else {
        row_dot(row, x, j - 1) + row[j - 1] * x[j - 1]
    }
}

/// The class key of `x` over the components before `i`: component `k`
/// (for a nontrivial factor `d_k`) is `(U x)_k mod d_k`, written in mixed
/// radix.
pub open spec fn key_upto(f: Seq<i128>, u: Seq<Vec<i128>>, x: Seq<u32>, i: int) -> int
    decreases i,
{
    if i <= 0 {
        0
    } else if f[i - 1] > 1 {
        key_upto(f, u, x, i - 1) + (row_dot(u[i - 1]@, x, f.len() as int) % (f[i - 1] as int)) * stride_upto(f, i - 1)
    } else {
        key_upto(f, u, x, i - 1)
    }
}

proof fn lemma_stride_pos(f: Seq<i128>, k: int)
    ensures
        1 <= stride_upto(f, k),
    decreases k,
{
    if k > 0 {
        lemma_stride_pos(f, k - 1);
        if f[k - 1] > 1 {
            let s = stride_upto(f, k - 1);
            assert(s <= s * f[k - 1]) by (nonlinear_arith)
                requires s >= 1, f[k - 1] > 1;
        }
    }
}

proof fn lemma_stride_mono(f: Seq<i128>, i: int, k: int)
    requires
        0 <= i <= k,
    ensures
        1 <= stride_upto(f, i) <= stride_upto(f, k),
    decreases k,
{
    lemma_stride_pos(f, i);
    if k > i {
        lemma_stride_mono(f, i, k - 1);
        if f[k - 1] > 1 {
            let s = stride_upto(f, k - 1);
            assert(s <= s * f[k - 1]) by (nonlinear_arith)
                requires s >= 1, f[k - 1] > 1;
        }
    }
}

proof fn lemma_key_below_stride(f: Seq<i128>, u: Seq<Vec<i128>>, x: Seq<u32>, i: int)
    requires
        0 <= i,
    ensures
        0 <= key_upto(f, u, x, i) < stride_upto(f, i),
    decreases i,
{
    if i > 0 {
        lemma_key_below_stride(f, u, x, i - 1);
        lemma_stride_mono(f, 0, i - 1);
        if f[i - 1] > 1 {
            let d = f[i - 1] as int;
            let c = row_dot(u[i - 1]@, x, f.len() as int) % d;
            let s = stride_upto(f, i - 1);
            let kk = key_upto(f, u, x, i - 1);
            assert(0 <= c < d);
            assert(kk + c * s < s * d) by (nonlinear_arith)
                requires 0 <= kk < s, 0 <= c < d, s >= 1;
            assert(0 <= c * s) by (nonlinear_arith)
                requires 0 <= c, s >= 1;
        }
    } else {
        assert(stride_upto(f, 0) == 1);
    }
}

/// The factors greater than 1, in their order.
pub open spec fn nontrivial_factors(f: Seq<i128>) -> Seq<i128> {
    f.filter(|d: i128| d > 1)
}

proof fn lemma_factor_prod_prefix(f: Seq<i128>, g: Seq<i128>, k: int)
    requires
        0 <= k <= f.len(),
        k <= g.len(),
        forall|i: int| 0 <= i < k ==> f[i] == g[i],
    ensures
        factor_prod(f, k) == factor_prod(g, k),
    decreases k,
{
    if k > 0 {
        lemma_factor_prod_prefix(f, g, k - 1);
    }
}

proof fn lemma_factor_prod_push(f: Seq<i128>, x: i128)
    ensures
        factor_prod(f.push(x), f.len() + 1int) == factor_prod(f, f.len() as int) * x,
{
    lemma_factor_prod_prefix(f.push(x), f, f.len() as int);
}

proof fn lemma_factor_prod_remove(w: Seq<i128>, j: int)
    requires
        0 <= j < w.len(),
    ensures
        factor_prod(w, w.len() as int) == factor_prod(w.remove(j), w.len() - 1) * w[j],
    decreases w.len(),
{
    let u = w.drop_last();
    let y = w.last();
    assert(w =~= u.push(y));
    lemma_factor_prod_push(u, y);
    if j == w.len() - 1 {
        assert(w.remove(j) =~= u);
    } else {
        lemma_factor_prod_remove(u, j);
        assert(w.remove(j) =~= u.remove(j).push(y));
        lemma_factor_prod_push(u.remove(j), y);
        let a = factor_prod(u.remove(j), u.len() - 1);
        let b = u[j] as int;
        let c = y as int;
        assert((a * b) * c == (a * c) * b) by (nonlinear_arith);
    }
}

proof fn lemma_factor_prod_perm(v: Seq<i128>, w: Seq<i128>)
    requires
        v.to_multiset() == w.to_multiset(),
    ensures
        factor_prod(v, v.len() as int) == factor_prod(w, w.len() as int),
    decreases v.len(),
{
    broadcast use vstd::seq_lib::group_to_multiset_ensures;
    broadcast use vstd::multiset::group_multiset_axioms;

    if v.len() == 0 {
        assert(w.to_multiset().len() == 0);
    } else {
        let x = v.last();
        let v1 = v.drop_last();
        assert(v =~= v1.push(x));
        assert(v.to_multiset() == v1.to_multiset().insert(x));
        assert(w.to_multiset().count(x) > 0);
        assert(w.contains(x));
        let j = choose|j: int| 0 <= j < w.len() && w[j] == x;
        let w1 = w.remove(j);
        assert(w1.to_multiset() == w.to_multiset().remove(x));
        assert(v1.to_multiset() =~= w1.to_multiset());
        lemma_factor_prod_perm(v1, w1);
        lemma_factor_prod_push(v1, x);
        lemma_factor_prod_remove(w, j);
    }
}

proof fn lemma_factor_prod_nontrivial(f: Seq<i128>)
    requires
        forall|i: int| 0 <= i < f.len() ==> f[i] >= 1,
    ensures
        factor_prod(nontrivial_factors(f), nontrivial_factors(f).len() as int) == factor_prod(f, f.len() as int),
    decreases f.len(),
{
    let pred = |d: i128| d > 1;
    assert(nontrivial_factors(f) == f.filter(pred));
    if f.len() == 0 {
        assert(f.filter(pred) =~= Seq::<i128>::empty());
        assert(factor_prod(f.filter(pred), 0) == 1);
    } else {
        let g = f.drop_last();
        let x = f.last();
        assert(f =~= g.push(x));
        g.lemma_filter_push(x, pred);
        assert(nontrivial_factors(f) == f.filter(pred));
        assert(nontrivial_factors(g) == g.filter(pred));
        lemma_factor_prod_nontrivial(g);
        lemma_factor_prod_push(g, x);
        assert(factor_prod(f, f.len() as int) == factor_prod(g, g.len() as int) * x);
        if x > 1 {
            assert(f.filter(pred) == g.filter(pred).push(x));
            lemma_factor_prod_push(g.filter(pred), x);
            assert(factor_prod(f.filter(pred), f.filter(pred).len() as int) == factor_prod(g.filter(pred), g.filter(pred).len() as int) * x);
        } else {
            assert(x == 1);
            assert(f.filter(pred) == g.filter(pred));
            let pg = factor_prod(g, g.len() as int);
            assert(pg * x == pg) by (nonlinear_arith)
                requires
                    x == 1,
            ;
        }
    }
}

/// The order of the group, the product of all invariant factors, equals the
/// product of the nontrivial ones (those `invariants` lists) when every
/// factor is positive.
pub proof fn lemma_order_is_product_of_invariants(f: Seq<i128>, v: Seq<i128>)
    requires
        forall|i: int| 0 <= i < f.len() ==> f[i] >= 1,
        v.to_multiset() == nontrivial_factors(f).to_multiset(),
    ensures
        factor_prod(v, v.len() as int) == factor_prod(f, f.len() as int),
{
    lemma_factor_prod_perm(v, nontrivial_factors(f));
    lemma_factor_prod_nontrivial(f);
}

impl SandpileGroup {
    /// Order of the group: the product of the invariant factors.
    pub fn order(&self) -> (r: u128)
        requires
            forall|i: int| 0 <= i < self.factors@.len() ==> 0 <= #[trigger] self.factors@[i],
            forall|k: int| 0 <= k <= self.factors@.len() ==> #[trigger] factor_prod(self.factors@, k) <= u128::MAX,
        ensures
            r == factor_prod(self.factors@, self.factors@.len() as int),
    {
        let mut r: u128 = 1;
        for i in 0..self.factors.len()
            invariant
                forall|i: int| 0 <= i < self.factors@.len() ==> 0 <= #[trigger] self.factors@[i],
                forall|k: int| 0 <= k <= self.factors@.len() ==> #[trigger] factor_prod(self.factors@, k) <= u128::MAX,
                r == factor_prod(self.factors@, i as int),
        {
            proof {
                assert(factor_prod(self.factors@, i + 1) <= u128::MAX);
                assert(0 <= self.factors@[i as int]);
                assert(r * self.factors@[i as int] >= 0) by (nonlinear_arith)
                    requires r >= 0, self.factors@[i as int] >= 0;
            }
            r = r * (self.factors[i] as u128);
        }
        r
    }

    /// nontrivial invariant factors (> 1), smallest first
    pub fn invariants(&self) -> (v: Vec<i128>)
        ensures
            v@.to_multiset() == nontrivial_factors(self.factors@).to_multiset(),
            forall|i: int, j: int| 0 <= i < j < v@.len() ==> v@[i] <= v@[j],
    {
        let ghost pred = |d: i128| d > 1;
        let mut v: Vec<i128> = Vec::new();
        proof {
            assert(self.factors@.take(0) =~= Seq::<i128>::empty());
            assert(self.factors@.take(0).filter(pred) =~= Seq::<i128>::empty());
            assert(v@ =~= Seq::<i128>::empty());
        }
        for i in 0..self.factors.len()
            invariant
                pred == (|d: i128| d > 1),
                v@.to_multiset() == self.factors@.take(i as int).filter(pred).to_multiset(),
                forall|a: int, b: int| 0 <= a < b < v@.len() ==> v@[a] <= v@[b],
        {
            let d = self.factors[i];
            proof {
                assert(self.factors@.take(i + 1) =~= self.factors@.take(i as int).push(d));
                self.factors@.take(i as int).lemma_filter_push(d, pred);
            }
            if d > 1 {
                let mut k: usize = 0;
                while k < v.len() && v[k] <= d
                    invariant
                        k <= v@.len(),
                        forall|a: int| 0 <= a < k ==> #[trigger] v@[a] <= d,
                    decreases v@.len() - k,
                {
                    k += 1;
                }
                let ghost v0 = v@;
                v.insert(k, d);
                proof {
                    vstd::seq_lib::to_multiset_insert(v0, k as int, d);
                    vstd::seq_lib::to_multiset_build(self.factors@.take(i as int).filter(pred), d);
                    assert forall|a: int, b: int| 0 <= a < b < v@.len() implies v@[a] <= v@[b] by {
                        if b < k {
                            assert(v@[a] == v0[a] && v@[b] == v0[b]);
                        } else if b == k {
                            assert(v@[a] == v0[a]);
                        } else if a < k {
                            assert(v@[a] == v0[a] && v@[b] == v0[b - 1]);
                            if k < v0.len() {
                                assert(v0[k as int] > d);
                                assert(v0[a] <= d);
                            }
                        } else if a == k {
                            assert(v@[b] == v0[b - 1]);
                            assert(v0[k as int] > d);
                            assert(v0[k as int] <= v0[b - 1]);
                        } else {
                            assert(v@[a] == v0[a - 1] && v@[b] == v0[b - 1]);
                        }
                    }
                }
            }
        }
        proof {
            assert(self.factors@.take(self.factors@.len() as int) =~= self.factors@);
        }
        v
    }

    /// class of a configuration on the non-root vertices, as a mixed-radix key
    pub fn class_key(&self, x: &[u32]) -> (key: u128)
        requires
            key_fits(self.factors@, self.u@, x@),
        ensures
            key == key_upto(self.factors@, self.u@, x@, self.factors@.len() as int),
    {
        proof {
            lemma_key_below_stride(self.factors@, self.u@, x@, self.factors@.len() as int);
        }
        match self.class_key_checked(x) {
            Some(k) => k,
            None => 0,
        }
    }

    /// The class key, or `None` where a value of its computation leaves its
    /// integer type.
    pub fn class_key_checked(&self, x: &[u32]) -> (key: Option<u128>)
        requires
            is_square_mat(self.u@, self.factors@.len() as int),
            x@.len() >= self.factors@.len(),
        ensures
            key == if key_fits(self.factors@, self.u@, x@) {
                Some(key_upto(self.factors@, self.u@, x@, self.factors@.len() as int) as u128)
            } else {
                None::<u128>
            },
    {
        let m = self.factors.len();
        let ghost f = self.factors@;
        let mut key: u128 = 0;
        let mut stride: u128 = 1;
        for i in 0..m
            invariant
                m == f.len(),
                f == self.factors@,
                is_square_mat(self.u@, m as int),
                x@.len() >= m,
                forall|i2: int| 0 <= i2 < i && #[trigger] f[i2] > 1 ==> row_fits(self.u@[i2]@, x@, m as int),
                forall|k: int| 0 <= k <= i ==> #[trigger] stride_upto(f, k) <= u128::MAX,
                key == key_upto(f, self.u@, x@, i as int),
                stride == stride_upto(f, i as int),
        {
            let d = self.factors[i];
            if d > 1 {
                let mut s: i128 = 0;
                for j in 0..m
                    invariant
                        m == f.len(),
                        f == self.factors@,
                        i < m,
                        d == f[i as int],
                        d > 1,
                        is_square_mat(self.u@, m as int),
                        x@.len() >= m,
                        forall|j2: int| 0 <= j2 <= j ==> in_i128(#[trigger] row_dot(self.u@[i as int]@, x@, j2)),
                        forall|j2: int| 0 <= j2 < j ==> in_i128(#[trigger] (self.u@[i as int]@[j2] * x@[j2])),
                        s == row_dot(self.u@[i as int]@, x@, j as int),
                {
                    let t = match self.u[i][j].checked_mul(x[j] as i128) {
                        Some(t) => t,
                        None => {
                            proof {
                                assert(!key_fits(f, self.u@, x@)) by {
                                    assert(!in_i128(self.u@[i as int]@[j as int] * x@[j as int]));
                                    assert(!row_fits(self.u@[i as int]@, x@, m as int));
                                }
                            }
                            return None;
                        },
                    };
                    s = match s.checked_add(t) {
                        Some(z) => z,
                        None => {
                            proof {
                                assert(!key_fits(f, self.u@, x@)) by {
                                    assert(!in_i128(row_dot(self.u@[i as int]@, x@, j + 1)));
                                    assert(!row_fits(self.u@[i as int]@, x@, m as int));
                                }
                            }
                            return None;
                        },
                    };
                }
                let c: i128 = match s.checked_rem_euclid(d) {
                    Some(c) => c,
                    None => 0,
                };
                proof {
                    assert(row_fits(self.u@[i as int]@, x@, m as int));
                }
                let ns = match stride.checked_mul(d as u128) {
                    Some(z) => z,
                    None => {
                        proof {
                            assert(stride_upto(f, i + 1) == stride * d);
                            assert(!key_fits(f, self.u@, x@)) by {
                                assert(!(stride_upto(f, i + 1) <= u128::MAX));
                            }
                        }
                        return None;
                    },
                };
                proof {
                    lemma_key_below_stride(f, self.u@, x@, i as int);
                    assert(stride_upto(f, i + 1) == stride * d);
                    assert(0 <= c < d);
                    assert(key + c * stride < stride * d) by (nonlinear_arith)
                        requires 0 <= key < stride, 0 <= c < d, stride >= 1;
                    assert(0 <= c * stride) by (nonlinear_arith)
                        requires 0 <= c, stride >= 1;
                }
                key = key + (c as u128) * stride;
                stride = ns;
            }
        }
        proof {
            assert(key_fits(f, self.u@, x@));
        }
        Some(key)
    }
}

/// Component `i` of a class key.
pub open spec fn key_digit(f: Seq<i128>, key: int, i: int) -> int {
    (key / stride_upto(f, i)) % (f[i] as int)
}

/// The componentwise sum of two class keys over the components before `i`.
pub open spec fn key_sum_upto(f: Seq<i128>, a: int, b: int, i: int) -> int
    decreases i,
{
    if i <= 0 {
        0
    } else if f[i - 1] > 1 {
        key_sum_upto(f, a, b, i - 1) + ((key_digit(f, a, i - 1) + key_digit(f, b, i - 1)) % (f[i - 1] as int))
            * stride_upto(f, i - 1)
    } else {
        key_sum_upto(f, a, b, i - 1)
    }
}

proof fn lemma_key_sum_below(f: Seq<i128>, a: int, b: int, i: int)
    requires
        0 <= i,
    ensures
        0 <= key_sum_upto(f, a, b, i) < stride_upto(f, i),
    decreases i,
{
    lemma_stride_pos(f, i);
    if i > 0 {
        lemma_key_sum_below(f, a, b, i - 1);
        lemma_stride_pos(f, i - 1);
        if f[i - 1] > 1 {
            let d = f[i - 1] as int;
            let c = (key_digit(f, a, i - 1) + key_digit(f, b, i - 1)) % d;
            let s = stride_upto(f, i - 1);
            let kk = key_sum_upto(f, a, b, i - 1);
            assert(kk + c * s < s * d) by (nonlinear_arith)
                requires 0 <= kk < s, 0 <= c < d, s >= 1;
            assert(0 <= c * s) by (nonlinear_arith)
                requires 0 <= c, s >= 1;
        }
    }
}

proof fn lemma_stride_multiple(f: Seq<i128>, i: int, k: int) -> (p: int)
    requires
        0 <= i <= k,
    ensures
        p >= 1,
        stride_upto(f, k) == stride_upto(f, i) * p,
    decreases k,
{
    if k == i {
        1
    } else {
        let p0 = lemma_stride_multiple(f, i, k - 1);
        lemma_stride_pos(f, i);
        if f[k - 1] > 1 {
            let d = f[k - 1] as int;
            assert(stride_upto(f, k) == stride_upto(f, i) * (p0 * d)) by (nonlinear_arith)
                requires stride_upto(f, k) == stride_upto(f, k - 1) * d, stride_upto(f, k - 1) == stride_upto(f, i) * p0;
            assert(p0 * d >= 1) by (nonlinear_arith)
                requires p0 >= 1, d > 1;
            p0 * d
        } else {
            p0
        }
    }
}

proof fn lemma_key_tail(f: Seq<i128>, u: Seq<Vec<i128>>, x: Seq<u32>, i: int, k: int) -> (q: int)
    requires
        0 <= i <= k,
    ensures
        q >= 0,
        key_upto(f, u, x, k) == key_upto(f, u, x, i) + stride_upto(f, i) * q,
    decreases k,
{
    if k == i {
        0
    } else {
        let q0 = lemma_key_tail(f, u, x, i, k - 1);
        if f[k - 1] > 1 {
            let p = lemma_stride_multiple(f, i, k - 1);
            let d = f[k - 1] as int;
            let c = row_dot(u[k - 1]@, x, f.len() as int) % d;
            assert(0 <= c);
            assert(key_upto(f, u, x, k) == key_upto(f, u, x, i) + stride_upto(f, i) * (q0 + c * p)) by (nonlinear_arith)
                requires
                    key_upto(f, u, x, k) == key_upto(f, u, x, k - 1) + c * stride_upto(f, k - 1),
                    key_upto(f, u, x, k - 1) == key_upto(f, u, x, i) + stride_upto(f, i) * q0,
                    stride_upto(f, k - 1) == stride_upto(f, i) * p;
            assert(q0 + c * p >= 0) by (nonlinear_arith)
                requires q0 >= 0, c >= 0, p >= 1;
            q0 + c * p
        } else {
            q0
        }
    }
}

/// Component `i` of the class key of `x` is `(U x)_i mod d_i`.
proof fn lemma_key_digit(f: Seq<i128>, u: Seq<Vec<i128>>, x: Seq<u32>, i: int)
    requires
        0 <= i < f.len(),
        f[i] > 1,
    ensures
        key_digit(f, key_upto(f, u, x, f.len() as int), i) == row_dot(u[i]@, x, f.len() as int) % (f[i] as int),
{
    let m = f.len() as int;
    let d = f[i] as int;
    let s = stride_upto(f, i);
    let c = row_dot(u[i]@, x, m) % d;
    let r = lemma_key_tail(f, u, x, i + 1, m);
    lemma_key_below_stride(f, u, x, i);
    lemma_stride_pos(f, i);
    let k0 = key_upto(f, u, x, i);
    let key = key_upto(f, u, x, m);
    assert(stride_upto(f, i + 1) == s * d);
    assert(key == s * (c + d * r) + k0) by (nonlinear_arith)
        requires
            key == key_upto(f, u, x, i + 1) + stride_upto(f, i + 1) * r,
            key_upto(f, u, x, i + 1) == k0 + c * s,
            stride_upto(f, i + 1) == s * d;
    vstd::arithmetic::div_mod::lemma_div_multiples_vanish_fancy(c + d * r, k0, s);
    assert(key / s == c + d * r);
    vstd::arithmetic::div_mod::lemma_mod_multiples_vanish(r, c, d);
    assert((d * r + c) % d == c % d);
    vstd::arithmetic::div_mod::lemma_small_mod(c as nat, d as nat);
    assert(c + d * r == d * r + c);
}

proof fn lemma_row_dot_add(row: Seq<i128>, x: Seq<u32>, y: Seq<u32>, z: Seq<u32>, j: int)
    requires
        forall|k: int| 0 <= k < j ==> #[trigger] z[k] == x[k] + y[k],
    ensures
        row_dot(row, z, j) == row_dot(row, x, j) + row_dot(row, y, j),
    decreases j,
{
    if j > 0 {
        lemma_row_dot_add(row, x, y, z, j - 1);
        let k = j - 1;
        assert(row[k] * z[k] == row[k] * x[k] + row[k] * y[k]) by (nonlinear_arith)
            requires z[k] == x[k] + y[k];
    }
}

proof fn lemma_key_sum_prefix(f: Seq<i128>, u: Seq<Vec<i128>>, x: Seq<u32>, y: Seq<u32>, z: Seq<u32>, i: int)
    requires
        0 <= i <= f.len(),
        forall|k: int| 0 <= k < f.len() ==> #[trigger] z[k] == x[k] + y[k],
    ensures
        key_sum_upto(f, key_upto(f, u, x, f.len() as int), key_upto(f, u, y, f.len() as int), i) == key_upto(f, u, z, i),
    decreases i,
{
    let m = f.len() as int;
    if i > 0 {
        lemma_key_sum_prefix(f, u, x, y, z, i - 1);
        let k = i - 1;
        if f[k] > 1 {
            let d = f[k] as int;
            lemma_key_digit(f, u, x, k);
            lemma_key_digit(f, u, y, k);
            lemma_row_dot_add(u[k]@, x, y, z, m);
            vstd::arithmetic::div_mod::lemma_add_mod_noop(row_dot(u[k]@, x, m), row_dot(u[k]@, y, m), d);
        }
    }
}

proof fn lemma_key_sum_tail(f: Seq<i128>, a: int, b: int, i: int, k: int) -> (q: int)
    requires
        0 <= i <= k,
    ensures
        q >= 0,
        key_sum_upto(f, a, b, k) == key_sum_upto(f, a, b, i) + stride_upto(f, i) * q,
    decreases k,
{
    if k == i {
        0
    } else {
        let q0 = lemma_key_sum_tail(f, a, b, i, k - 1);
        if f[k - 1] > 1 {
            let p = lemma_stride_multiple(f, i, k - 1);
            let d = f[k - 1] as int;
            let c = (key_digit(f, a, k - 1) + key_digit(f, b, k - 1)) % d;
            assert(0 <= c);
            lemma_tail_step(
                key_sum_upto(f, a, b, k),
                key_sum_upto(f, a, b, k - 1),
                key_sum_upto(f, a, b, i),
                c,
                stride_upto(f, k - 1),
                stride_upto(f, i),
                q0,
                p,
            );
            q0 + c * p
        } else {
            q0
        }
    }
}

proof fn lemma_tail_step(k: int, k1: int, ki: int, c: int, s1: int, si: int, q0: int, p: int)
    by (nonlinear_arith)
    requires
        k == k1 + c * s1,
        k1 == ki + si * q0,
        s1 == si * p,
        q0 >= 0,
        c >= 0,
        p >= 1,
    ensures
        k == ki + si * (q0 + c * p),
        q0 + c * p >= 0,
{
}

/// Component `i` of a sum of keys is the sum of the components modulo `d_i`.
proof fn lemma_key_sum_digit(f: Seq<i128>, a: int, b: int, i: int)
    requires
        0 <= i < f.len(),
        f[i] > 1,
    ensures
        key_digit(f, key_sum_upto(f, a, b, f.len() as int), i) == (key_digit(f, a, i) + key_digit(f, b, i)) % (f[i] as int),
{
    let m = f.len() as int;
    let d = f[i] as int;
    let s = stride_upto(f, i);
    let c = (key_digit(f, a, i) + key_digit(f, b, i)) % d;
    let r = lemma_key_sum_tail(f, a, b, i + 1, m);
    lemma_key_sum_below(f, a, b, i);
    lemma_stride_pos(f, i);
    let k0 = key_sum_upto(f, a, b, i);
    let key = key_sum_upto(f, a, b, m);
    assert(stride_upto(f, i + 1) == s * d);
    assert(key == s * (c + d * r) + k0) by (nonlinear_arith)
        requires
            key == key_sum_upto(f, a, b, i + 1) + stride_upto(f, i + 1) * r,
            key_sum_upto(f, a, b, i + 1) == k0 + c * s,
            stride_upto(f, i + 1) == s * d;
    vstd::arithmetic::div_mod::lemma_div_multiples_vanish_fancy(c + d * r, k0, s);
    assert(key / s == c + d * r);
    vstd::arithmetic::div_mod::lemma_mod_multiples_vanish(r, c, d);
    assert((d * r + c) % d == c % d);
    vstd::arithmetic::div_mod::lemma_small_mod(c as nat, d as nat);
    assert(c + d * r == d * r + c);
}

/// Key sums agree where the componentwise sums agree.
proof fn lemma_key_sum_same_digits(f: Seq<i128>, a: int, b: int, a2: int, b2: int, i: int)
    requires
        0 <= i <= f.len(),
        forall|k: int|
            0 <= k < i && f[k] > 1 ==> #[trigger] ((key_digit(f, a, k) + key_digit(f, b, k)) % (f[k] as int)) == (key_digit(
                f,
                a2,
                k,
            ) + key_digit(f, b2, k)) % (f[k] as int),
    ensures
        key_sum_upto(f, a, b, i) == key_sum_upto(f, a2, b2, i),
    decreases i,
{
    if i > 0 {
        lemma_key_sum_same_digits(f, a, b, a2, b2, i - 1);
    }
}

/// Adding class keys is associative.
pub proof fn lemma_key_sum_assoc(f: Seq<i128>, a: int, b: int, c: int)
    ensures
        key_sum_upto(f, key_sum_upto(f, a, b, f.len() as int), c, f.len() as int) == key_sum_upto(
            f,
            a,
            key_sum_upto(f, b, c, f.len() as int),
            f.len() as int,
        ),
{
    let m = f.len() as int;
    let sab = key_sum_upto(f, a, b, m);
    let sbc = key_sum_upto(f, b, c, m);
    assert forall|k: int|
        0 <= k < m && f[k] > 1 implies #[trigger] ((key_digit(f, sab, k) + key_digit(f, c, k)) % (f[k] as int)) == (key_digit(
            f,
            a,
            k,
        ) + key_digit(f, sbc, k)) % (f[k] as int) by {
        let d = f[k] as int;
        lemma_key_sum_digit(f, a, b, k);
        lemma_key_sum_digit(f, b, c, k);
        let x = key_digit(f, a, k);
        let y = key_digit(f, b, k);
        let z = key_digit(f, c, k);
        vstd::arithmetic::div_mod::lemma_add_mod_noop_right(z, x + y, d);
        vstd::arithmetic::div_mod::lemma_add_mod_noop_right(x, y + z, d);
        assert(z + (x + y) == x + (y + z));
        assert((key_digit(f, sab, k) + z) % d == (z + key_digit(f, sab, k)) % d);
    }
    lemma_key_sum_same_digits(f, sab, c, a, sbc, m);
}

/// Adding the zero key to `a` gives `a` reduced modulo the key range.
proof fn lemma_key_sum_zero_right(f: Seq<i128>, a: int, i: int)
    requires
        0 <= a,
        0 <= i,
    ensures
        key_sum_upto(f, a, 0, i) == a % stride_upto(f, i),
    decreases i,
{
    lemma_stride_pos(f, i);
    if i > 0 {
        lemma_key_sum_zero_right(f, a, i - 1);
        let s = stride_upto(f, i - 1);
        lemma_stride_pos(f, i - 1);
        if f[i - 1] > 1 {
            let d = f[i - 1] as int;
            assert(0int / s == 0);
            vstd::arithmetic::div_mod::lemma_small_mod(0, d as nat);
            assert(key_digit(f, 0, i - 1) == 0);
            vstd::arithmetic::div_mod::lemma_mod_twice(a / s, d);
            vstd::arithmetic::div_mod::lemma_mod_breakdown(a, s, d);
            assert((key_digit(f, a, i - 1) + key_digit(f, 0, i - 1)) % d == (a / s) % d);
            assert(s * ((a / s) % d) == ((a / s) % d) * s) by (nonlinear_arith);
        } else {
            assert(stride_upto(f, i) == s);
        }
    } else {
        assert(a % 1 == 0) by (nonlinear_arith);
    }
}

/// With every factor positive, the key range is the group order: the
/// product of the nontrivial factors equals the product of all of them.
pub proof fn lemma_stride_is_order(f: Seq<i128>, k: int)
    requires
        0 <= k <= f.len(),
        forall|i: int| 0 <= i < f.len() ==> f[i] >= 1,
    ensures
        stride_upto(f, k) == factor_prod(f, k),
    decreases k,
{
    if k > 0 {
        lemma_stride_is_order(f, k - 1);
        if f[k - 1] <= 1 {
            assert(f[k - 1] == 1);
            assert(factor_prod(f, k - 1) * 1 == factor_prod(f, k - 1));
        }
    }
}

/// Class keys and key sums lie below the group order, the zero key is the
/// neutral element of key addition, and the zero configuration has key 0.
pub proof fn lemma_key_group(f: Seq<i128>, u: Seq<Vec<i128>>, x: Seq<u32>, a: int, b: int)
    requires
        forall|i: int| 0 <= i < f.len() ==> f[i] >= 1,
    ensures
        0 <= key_upto(f, u, x, f.len() as int) < factor_prod(f, f.len() as int),
        0 <= key_sum_upto(f, a, b, f.len() as int) < factor_prod(f, f.len() as int),
        0 <= a < factor_prod(f, f.len() as int) ==> key_sum_upto(f, a, 0, f.len() as int) == a,
        x.len() >= f.len() && (forall|j: int| 0 <= j < x.len() ==> x[j] == 0) ==> key_upto(f, u, x, f.len() as int) == 0,
{
    let m = f.len() as int;
    lemma_stride_is_order(f, m);
    lemma_key_below_stride(f, u, x, m);
    lemma_key_sum_below(f, a, b, m);
    if 0 <= a < factor_prod(f, m) {
        lemma_key_sum_zero_right(f, a, m);
        vstd::arithmetic::div_mod::lemma_small_mod(a as nat, stride_upto(f, m) as nat);
    }
    if x.len() >= f.len() && forall|j: int| 0 <= j < x.len() ==> x[j] == 0 {
        lemma_key_of_zero(f, u, x, m);
    }
}

proof fn lemma_row_dot_zero(row: Seq<i128>, x: Seq<u32>, j: int)
    requires
        forall|k: int| 0 <= k < x.len() ==> x[k] == 0,
        j <= x.len(),
    ensures
        row_dot(row, x, j) == 0,
    decreases j,
{
    if j > 0 {
        lemma_row_dot_zero(row, x, j - 1);
        assert(row[j - 1] * x[j - 1] == 0) by (nonlinear_arith)
            requires x[j - 1] == 0;
    }
}

proof fn lemma_key_of_zero(f: Seq<i128>, u: Seq<Vec<i128>>, x: Seq<u32>, i: int)
    requires
        forall|k: int| 0 <= k < x.len() ==> x[k] == 0,
        f.len() <= x.len(),
    ensures
        key_upto(f, u, x, i) == 0,
    decreases i,
{
    if i > 0 {
        lemma_key_of_zero(f, u, x, i - 1);
        if f[i - 1] > 1 {
            lemma_row_dot_zero(u[i - 1]@, x, f.len() as int);
            let d = f[i - 1] as int;
            vstd::arithmetic::div_mod::lemma_small_mod(0, d as nat);
            assert((0int % d) * stride_upto(f, i - 1) == 0);
        }
    }
}

/// Adding class keys is commutative.
pub proof fn lemma_key_sum_commutes(f: Seq<i128>, a: int, b: int, i: int)
    ensures
        key_sum_upto(f, a, b, i) == key_sum_upto(f, b, a, i),
    decreases i,
{
    if i > 0 {
        lemma_key_sum_commutes(f, a, b, i - 1);
    }
}

/// The non-root values of the top of leaf `i` of the search.
pub open spec fn leaf_top(a: Seq<Vec<u32>>, i: int) -> Seq<u32> {
    crate::burn::all_leaves(a)[i].2.subrange(1, a.len() as int)
}

/// The class keys of the maximal parking functions (the box tops), in the
/// order of the search; `None` where a value of some key computation
/// leaves its integer type.
pub fn top_class_keys(g: &Graph, sp: &SandpileGroup) -> (r: Option<Vec<u128>>)
    requires
        g.wf(),
        degrees_fit(g.adj@),
        sp.factors@.len() == g.n - 1,
        is_square_mat(sp.u@, sp.factors@.len() as int),
    ensures
        match r {
            Some(k) => {
                &&& k@.len() == crate::burn::all_leaves(g.adj@).len()
                &&& forall|i: int| 0 <= i < k@.len() ==> key_fits(sp.factors@, sp.u@, #[trigger] leaf_top(g.adj@, i))
                &&& forall|i: int|
                    0 <= i < k@.len() ==> #[trigger] k@[i] == key_upto(sp.factors@, sp.u@, leaf_top(g.adj@, i), sp.factors@.len() as int)
            },
            None => exists|i: int|
                0 <= i < crate::burn::all_leaves(g.adj@).len() && !key_fits(sp.factors@, sp.u@, #[trigger] leaf_top(g.adj@, i)),
        },
{
    let ghost a = g.adj@;
    let n = g.n;
    let boxes = crate::burn::collect_boxes(g);
    proof {
        crate::burn::lemma_root_inv(a);
        crate::burn::lemma_leaves_ok(a, crate::burn::root_view(a));
    }
    let mut keys: Vec<u128> = Vec::new();
    let mut bi: usize = 0;
    while bi < boxes.len()
        invariant
            bi <= boxes@.len(),
            n == g.n,
            a == g.adj@,
            g.wf(),
            sp.factors@.len() == n - 1,
            is_square_mat(sp.u@, sp.factors@.len() as int),
            crate::burn::box_views(boxes@) == crate::burn::all_leaves(a),
            forall|i: int| 0 <= i < crate::burn::all_leaves(a).len() ==> crate::burn::leaf_ok(a, #[trigger] crate::burn::all_leaves(a)[i]),
            keys@.len() == bi,
            forall|i: int| 0 <= i < bi ==> key_fits(sp.factors@, sp.u@, #[trigger] leaf_top(a, i)),
            forall|i: int|
                0 <= i < bi ==> #[trigger] keys@[i] == key_upto(sp.factors@, sp.u@, leaf_top(a, i), sp.factors@.len() as int),
        decreases boxes@.len() - bi,
    {
        let b = &boxes[bi];
        proof {
            assert(crate::burn::box_views(boxes@)[bi as int] == b.leaf_view());
            assert(crate::burn::leaf_ok(a, crate::burn::all_leaves(a)[bi as int]));
        }
        let mut x: Vec<u32> = Vec::new();
        for v in 1..n
            invariant
                n == g.n,
                n == a.len(),
                b.top@.len() == n,
                x@.len() == v - 1,
                forall|j: int| 0 <= j < v - 1 ==> #[trigger] x@[j] == b.top@[j + 1],
        {
            x.push(b.top[v]);
        }
        proof {
            assert(x@ =~= leaf_top(a, bi as int));
        }
        let kopt = sp.class_key_checked(x.as_slice());
        if kopt.is_none() {
            return None;
        }
        let k = kopt.unwrap();
        let ghost k0 = keys@;
        keys.push(k);
        proof {
            assert(key_fits(sp.factors@, sp.u@, x@));
            lemma_key_below_stride(sp.factors@, sp.u@, x@, sp.factors@.len() as int);
            assert(k as int == key_upto(sp.factors@, sp.u@, x@, sp.factors@.len() as int));
            assert forall|i: int|
                0 <= i < bi + 1 implies #[trigger] keys@[i] == key_upto(sp.factors@, sp.u@, leaf_top(a, i), sp.factors@.len() as int) by {
                if i < bi {
                    assert(keys@[i] == k0[i]);
                } else {
                    assert(keys@[i] == k);
                }
            }
            assert(leaf_top(a, bi as int) == x@);
            assert forall|i: int| 0 <= i < bi + 1 implies key_fits(sp.factors@, sp.u@, #[trigger] leaf_top(a, i)) by {}
        }
        bi += 1;
    }
    proof {
        assert(crate::burn::box_views(boxes@).len() == boxes@.len());
    }
    Some(keys)
}

/// Strictly increasing.
pub open spec fn strictly_sorted(s: Seq<u128>) -> bool {
    forall|i: int, j: int| 0 <= i < j < s.len() ==> s[i] < s[j]
}

/// The union of two strictly increasing lists, strictly increasing.
fn union_merge(a: &Vec<u128>, b: &Vec<u128>) -> (r: Vec<u128>)
    requires
        strictly_sorted(a@),
        strictly_sorted(b@),
    ensures
        strictly_sorted(r@),
        forall|x: u128| r@.contains(x) <==> a@.contains(x) || b@.contains(x),
{
    let mut r: Vec<u128> = Vec::new();
    let mut i: usize = 0;
    let mut j: usize = 0;
    while i < a.len() || j < b.len()
        invariant
            i <= a@.len(),
            j <= b@.len(),
            strictly_sorted(a@),
            strictly_sorted(b@),
            strictly_sorted(r@),
            r@.len() > 0 && i < a@.len() ==> r@.last() < a@[i as int],
            r@.len() > 0 && j < b@.len() ==> r@.last() < b@[j as int],
            forall|x: u128| r@.contains(x) <==> a@.take(i as int).contains(x) || b@.take(j as int).contains(x),
        decreases a@.len() + b@.len() - i - j,
    {
        let ghost r0 = r@;
        let ghost i0 = i as int;
        let ghost j0 = j as int;
        let take_a = j >= b.len() || (i < a.len() && a[i] <= b[j]);
        let take_b = i >= a.len() || (j < b.len() && b[j] <= a[i]);
        let x = if take_a { a[i] } else { b[j] };
        r.push(x);
        if take_a {
            i += 1;
        }
        if take_b {
            j += 1;
        }
        proof {
            assert(a@.take(i as int) =~= if take_a { a@.take(i0).push(a@[i0]) } else { a@.take(i0) });
            assert(b@.take(j as int) =~= if take_b { b@.take(j0).push(b@[j0]) } else { b@.take(j0) });
            assert forall|p: int, q: int| 0 <= p < q < r@.len() implies r@[p] < r@[q] by {
                if q == r@.len() - 1 && p < q {
                    assert(r@[p] == r0[p]);
                    if p < r0.len() - 1 {
                        assert(r0[p] < r0.last());
                    }
                }
            }
            assert forall|y: u128| r@.contains(y) <==> a@.take(i as int).contains(y) || b@.take(j as int).contains(y) by {
                if r@.contains(y) {
                    let k = choose|k: int| 0 <= k < r@.len() && r@[k] == y;
                    if k < r0.len() {
                        assert(r0[k] == y);
                        assert(r0.contains(y));
                        if a@.take(i0).contains(y) {
                            let q = choose|q: int| 0 <= q < a@.take(i0).len() && a@.take(i0)[q] == y;
                            assert(a@.take(i as int)[q] == y);
                        } else {
                            assert(b@.take(j0).contains(y));
                            let q = choose|q: int| 0 <= q < b@.take(j0).len() && b@.take(j0)[q] == y;
                            assert(b@.take(j as int)[q] == y);
                        }
                    } else if take_a {
                        assert(a@.take(i as int)[i0] == y);
                    } else {
                        assert(b@.take(j as int)[j0] == y);
                    }
                }
                if a@.take(i as int).contains(y) {
                    let q = choose|q: int| 0 <= q < a@.take(i as int).len() && a@.take(i as int)[q] == y;
                    if q < i0 {
                        assert(a@.take(i0)[q] == y);
                        assert(r0.contains(y));
                        let k = choose|k: int| 0 <= k < r0.len() && r0[k] == y;
                        assert(r@[k] == y);
                    } else {
                        assert(r@[r@.len() - 1] == y);
                    }
                }
                if b@.take(j as int).contains(y) {
                    let q = choose|q: int| 0 <= q < b@.take(j as int).len() && b@.take(j as int)[q] == y;
                    if q < j0 {
                        assert(b@.take(j0)[q] == y);
                        assert(r0.contains(y));
                        let k = choose|k: int| 0 <= k < r0.len() && r0[k] == y;
                        assert(r@[k] == y);
                    } else {
                        assert(r@[r@.len() - 1] == y);
                    }
                }
            }
        }
    }
    proof {
        assert(a@.take(a@.len() as int) =~= a@);
        assert(b@.take(b@.len() as int) =~= b@);
    }
    r
}

/// The distinct values of `keys[lo..hi]`, in increasing order.
fn distinct_range(keys: &Vec<u128>, lo: usize, hi: usize) -> (r: Vec<u128>)
    requires
        lo <= hi <= keys@.len(),
    ensures
        strictly_sorted(r@),
        forall|x: u128| r@.contains(x) <==> exists|k: int| lo <= k < hi && keys@[k] == x,
    decreases hi - lo,
{
    if hi - lo == 0 {
        let r: Vec<u128> = Vec::new();
        proof {
            assert forall|x: u128| r@.contains(x) <==> exists|k: int| lo <= k < hi && keys@[k] == x by {}
        }
        r
    } else if hi - lo == 1 {
        let mut r: Vec<u128> = Vec::new();
        r.push(keys[lo]);
        proof {
            assert forall|x: u128| r@.contains(x) <==> exists|k: int| lo <= k < hi && keys@[k] == x by {
                if r@.contains(x) {
                    assert(keys@[lo as int] == x);
                }
                if exists|k: int| lo <= k < hi && keys@[k] == x {
                    assert(r@[0] == x);
                }
            }
        }
        r
    } else {
        let mid = lo + (hi - lo) / 2;
        let a = distinct_range(keys, lo, mid);
        let b = distinct_range(keys, mid, hi);
        let r = union_merge(&a, &b);
        proof {
            assert forall|x: u128| r@.contains(x) <==> exists|k: int| lo <= k < hi && keys@[k] == x by {
                if exists|k: int| lo <= k < hi && keys@[k] == x {
                    let k = choose|k: int| lo <= k < hi && keys@[k] == x;
                    if k < mid {
                        assert(exists|k2: int| lo <= k2 < mid && keys@[k2] == x);
                    } else {
                        assert(exists|k2: int| mid <= k2 < hi && keys@[k2] == x);
                    }
                }
            }
        }
        r
    }
}

/// The distinct values of `keys`, in increasing order.
pub fn distinct_sorted(keys: &Vec<u128>) -> (r: Vec<u128>)
    ensures
        strictly_sorted(r@),
        forall|x: u128| r@.contains(x) <==> keys@.contains(x),
{
    let r = distinct_range(keys, 0, keys.len());
    proof {
        assert forall|x: u128| r@.contains(x) <==> keys@.contains(x) by {
            if keys@.contains(x) {
                let k = choose|k: int| 0 <= k < keys@.len() && keys@[k] == x;
                assert(exists|k2: int| 0 <= k2 < keys@.len() && keys@[k2] == x);
            }
        }
    }
    r
}

/// The class of a sum of configurations is the componentwise sum of their
/// classes: adding class keys is the group addition of the sandpile group.
pub proof fn lemma_class_key_additive(f: Seq<i128>, u: Seq<Vec<i128>>, x: Seq<u32>, y: Seq<u32>, z: Seq<u32>)
    requires
        forall|k: int| 0 <= k < f.len() ==> #[trigger] z[k] == x[k] + y[k],
    ensures
        key_sum_upto(f, key_upto(f, u, x, f.len() as int), key_upto(f, u, y, f.len() as int), f.len() as int) == key_upto(
            f,
            u,
            z,
            f.len() as int,
        ),
{
    lemma_key_sum_prefix(f, u, x, y, z, f.len() as int);
}

impl SandpileGroup {
    /// componentwise sum of two class keys (group addition)
    pub fn key_add(&self, a: u128, b: u128) -> (r: u128)
        requires
            forall|k: int| 0 <= k <= self.factors@.len() ==> #[trigger] stride_upto(self.factors@, k) <= u128::MAX,
        ensures
            r == key_sum_upto(self.factors@, a as int, b as int, self.factors@.len() as int),
    {
        let ghost f = self.factors@;
        let mut out: u128 = 0;
        let mut stride: u128 = 1;
        let mut ra: u128 = a;
        let mut rb: u128 = b;
        for i in 0..self.factors.len()
            invariant
                f == self.factors@,
                forall|k: int| 0 <= k <= f.len() ==> #[trigger] stride_upto(f, k) <= u128::MAX,
                stride == stride_upto(f, i as int),
                ra == (a as int) / stride_upto(f, i as int),
                rb == (b as int) / stride_upto(f, i as int),
                out == key_sum_upto(f, a as int, b as int, i as int),
        {
            let d = self.factors[i];
            proof {
                lemma_stride_pos(f, i as int);
            }
            if d > 1 {
                let dd = d as u128;
                let ca = ra % dd;
                let cb = rb % dd;
                proof {
                    lemma_key_sum_below(f, a as int, b as int, i as int);
                    assert(stride_upto(f, i + 1) == stride * d);
                    assert(stride_upto(f, i + 1) <= u128::MAX);
                    assert(ca == key_digit(f, a as int, i as int));
                    assert(cb == key_digit(f, b as int, i as int));
                }
                let c = (ca + cb) % dd;
                proof {
                    assert(out + c * stride < stride * d) by (nonlinear_arith)
                        requires 0 <= out < stride, 0 <= c < d, stride >= 1;
                    assert(0 <= c * stride) by (nonlinear_arith)
                        requires 0 <= c, stride >= 1;
                    vstd::arithmetic::div_mod::lemma_div_denominator(a as int, stride as int, d as int);
                    vstd::arithmetic::div_mod::lemma_div_denominator(b as int, stride as int, d as int);
                }
                out = out + c * stride;
                stride = stride * dd;
                ra = ra / dd;
                rb = rb / dd;
            }
        }
        out
    }
}

// ---------------------------------------------------------------------------
// Möbius function of the parking-function poset (domination order) with a top
// element adjoined; crosscut identity  |P| = -sum_x mu(x, 1) * vol(dom(x)).
// ---------------------------------------------------------------------------

/// The entries as integers.
pub open spec fn ints(v: Seq<i128>) -> Seq<int> {
    v.map_values(|x: i128| x as int)
}

/// `x` lies strictly below `y` in the domination order.
pub open spec fn below(x: Seq<u32>, y: Seq<u32>) -> bool {
    x != y && x.len() == y.len() && le_on_common(x, y)
}

/// `sum_{j<k, s[i] < s[j]} mu[j]`.
pub open spec fn mob_sum(s: Seq<Seq<u32>>, mu: Seq<int>, i: int, k: int) -> int
    decreases k,
{
    if k <= 0 {
        0
    } else {
        mob_sum(s, mu, i, k - 1) + if below(s[i], s[k - 1]) {
            mu[k - 1]
        } else {
            0
        }
    }
}

/// `mu[i]` is the Möbius function `mu(s[i], 1hat)` of the poset `s` with a
/// top element adjoined: `mu(x) = -(1 + sum_{y > x} mu(y))`.
pub open spec fn is_mobius(s: Seq<Seq<u32>>, mu: Seq<int>) -> bool {
    mu.len() == s.len() && forall|i: int| 0 <= i < s.len() ==> #[trigger] mu[i] == -(1 + mob_sum(s, mu, i, s.len() as int))
}

/// Sum of the first `k` entries.
pub open spec fn vsum(x: Seq<u32>, k: int) -> int
    decreases k,
{
    if k <= 0 {
        0
    } else {
        vsum(x, k - 1) + x[k - 1]
    }
}

/// The degree of a parking vector.
pub open spec fn vdeg(x: Seq<u32>) -> int {
    vsum(x, x.len() as int)
}

/// Number of points of the principal down-set of `x`: `prod (x[i] + 1)`.
pub open spec fn vvol(x: Seq<u32>, k: int) -> int
    decreases k,
{
    if k <= 0 {
        1
    } else {
        vvol(x, k - 1) * (x[k - 1] + 1)
    }
}

/// `sum_{i<k} mu[i] * vol(s[i])`.
pub open spec fn crosscut(s: Seq<Seq<u32>>, mu: Seq<int>, k: int) -> int
    decreases k,
{
    if k <= 0 {
        0
    } else {
        crosscut(s, mu, k - 1) + mu[k - 1] * vvol(s[k - 1], s[k - 1].len() as int)
    }
}

/// Number of members among the first `k` of degree `d`.
pub open spec fn n_of_degree(s: Seq<Seq<u32>>, d: int, k: int) -> int
    decreases k,
{
    if k <= 0 {
        0
    } else {
        n_of_degree(s, d, k - 1) + if vdeg(s[k - 1]) == d {
            1int
        } else {
            0int
        }
    }
}

/// Number of nonzero values among the first `k`.
pub open spec fn n_nonzero(mu: Seq<int>, k: int) -> int
    decreases k,
{
    if k <= 0 {
        0
    } else {
        n_nonzero(mu, k - 1) + if mu[k - 1] != 0 {
            1int
        } else {
            0int
        }
    }
}

/// Number of members among the first `k` with degree `d` and value `m`.
pub open spec fn n_key(s: Seq<Seq<u32>>, mu: Seq<int>, d: int, m: int, k: int) -> int
    decreases k,
{
    if k <= 0 {
        0
    } else {
        n_key(s, mu, d, m, k - 1) + if vdeg(s[k - 1]) == d && mu[k - 1] == m {
            1int
        } else {
            0int
        }
    }
}

/// The componentwise minimum of the members of `s` of degree `genus` that
/// lie above `x`, over the first `k` members; `u32::MAX` where none does.
pub open spec fn meet_above(s: Seq<Seq<u32>>, genus: int, x: Seq<u32>, k: int) -> Seq<u32>
    decreases k,
{
    if k <= 0 {
        Seq::new(x.len(), |c: int| u32::MAX)
    } else {
        let m = meet_above(s, genus, x, k - 1);
        let y = s[k - 1];
        if vdeg(y) == genus && y.len() == x.len() && le_on_common(x, y) {
            Seq::new(x.len(), |c: int| if y[c] < m[c] { y[c] } else { m[c] })
        } else {
            m
        }
    }
}

proof fn lemma_meet_above_len(s: Seq<Seq<u32>>, genus: int, x: Seq<u32>, k: int)
    ensures
        meet_above(s, genus, x, k).len() == x.len(),
    decreases k,
{
    if k > 0 {
        lemma_meet_above_len(s, genus, x, k - 1);
    }
}

/// BCT Lemma 4.12 on `s`: every member is the meet of the members of degree
/// `genus` above it.
pub open spec fn meets_of_maxima(s: Seq<Seq<u32>>, genus: int) -> bool {
    forall|i: int| 0 <= i < s.len() ==> meet_above(s, genus, #[trigger] s[i], s.len() as int) == s[i]
}

/// `s` lists every parking vector of `a`, each once, in increasing
/// colexicographic order.
pub open spec fn is_parking_list(a: Seq<Vec<u32>>, s: Seq<Seq<u32>>) -> bool {
    &&& forall|i: int| 0 <= i < s.len() ==> #[trigger] is_parking_vector(a, s[i])
    &&& forall|x: Seq<u32>| #[trigger] is_parking_vector(a, x) ==> exists|i: int| 0 <= i < s.len() && #[trigger] s[i] == x
    &&& forall|i: int, j: int| 0 <= i < j < s.len() ==> colex_lt(#[trigger] s[i], #[trigger] s[j])
}

/// The (degree, mu) histogram: strictly increasing keys, each with the
/// number of members that have it, and every member's key listed.
pub open spec fn histogram_ok(h: Seq<(u64, i128, usize)>, s: Seq<Seq<u32>>, mu: Seq<int>) -> bool {
    &&& forall|a: int, b: int|
        0 <= a < b < h.len() ==> (#[trigger] h[a]).0 < (#[trigger] h[b]).0 || (h[a].0 == h[b].0 && h[a].1 < h[b].1)
    &&& forall|a: int|
        0 <= a < h.len() ==> (#[trigger] h[a]).2 == n_key(s, mu, h[a].0 as int, h[a].1 as int, s.len() as int)
    &&& forall|a: int| 0 <= a < h.len() ==> (#[trigger] h[a]).2 >= 1
    &&& forall|i: int| 0 <= i < s.len() ==> #[trigger] has_key(h, vdeg(s[i]), mu[i])
}

/// Some entry of `h` has the key `(d, m)`.
pub open spec fn has_key(h: Seq<(u64, i128, usize)>, d: int, m: int) -> bool {
    exists|a: int| 0 <= a < h.len() && (#[trigger] h[a]).0 == d && h[a].1 == m
}

/// What the Möbius experiment reports.
pub struct MobiusReport {
    pub total: usize,
    pub maximal: usize,
    pub nonzero_mu: usize,
    pub identity_lhs: i128,
    /// (degree, mu value, count), by increasing (degree, mu value)
    pub by_degree: Vec<(u64, i128, usize)>,
    pub lemma_412_holds: bool,
}

proof fn lemma_vsum_le(x: Seq<u32>, y: Seq<u32>, k: int)
    requires
        0 <= k <= x.len(),
        x.len() == y.len(),
        le_on_common(x, y),
    ensures
        vsum(x, k) <= vsum(y, k),
        vsum(x, k) == vsum(y, k) ==> forall|c: int| 0 <= c < k ==> x[c] == y[c],
    decreases k,
{
    if k > 0 {
        lemma_vsum_le(x, y, k - 1);
    }
}

proof fn lemma_below_degree(x: Seq<u32>, y: Seq<u32>)
    requires
        below(x, y),
    ensures
        vdeg(x) < vdeg(y),
{
    lemma_vsum_le(x, y, x.len() as int);
    if vdeg(x) == vdeg(y) {
        assert(x =~= y);
    }
}

proof fn lemma_vsum_bound(x: Seq<u32>, k: int)
    requires
        0 <= k <= x.len(),
    ensures
        0 <= vsum(x, k) <= k * 0xffff_ffff,
    decreases k,
{
    if k > 0 {
        lemma_vsum_bound(x, k - 1);
    }
}

proof fn lemma_mob_sum_agree(s: Seq<Seq<u32>>, mu1: Seq<int>, mu2: Seq<int>, i: int, k: int)
    requires
        forall|j: int| 0 <= j < k && below(s[i], s[j]) ==> #[trigger] mu1[j] == mu2[j],
    ensures
        mob_sum(s, mu1, i, k) == mob_sum(s, mu2, i, k),
    decreases k,
{
    if k > 0 {
        lemma_mob_sum_agree(s, mu1, mu2, i, k - 1);
    }
}

/// Entrywise `x <= y`.
fn le_u32s(x: &[u32], y: &[u32]) -> (r: bool)
    requires
        x@.len() == y@.len(),
    ensures
        r == le_on_common(x@, y@),
{
    for k in 0..x.len()
        invariant
            x@.len() == y@.len(),
            forall|t: int| 0 <= t < k ==> x@[t] <= y@[t],
    {
        if x[k] > y[k] {
            return false;
        }
    }
    true
}

/// The running sums `1 + sum_{j'<j, s[i] < s[j']} mu[j']` of member `i`
/// fit in `i128`, and so does the negation of the last.
pub open spec fn mob_row_fits(s: Seq<Seq<u32>>, mu: Seq<int>, i: int) -> bool {
    &&& forall|j: int| 0 <= j <= s.len() ==> in_i128(1 + #[trigger] mob_sum(s, mu, i, j))
    &&& 1 + mob_sum(s, mu, i, s.len() as int) != i128::MIN
}

/// Every running sum of the Möbius recurrence fits in `i128`.
pub open spec fn mob_fits(s: Seq<Seq<u32>>, mu: Seq<int>) -> bool {
    forall|i: int| 0 <= i < s.len() ==> #[trigger] mob_row_fits(s, mu, i)
}

proof fn lemma_row_fits_agree(s: Seq<Seq<u32>>, mu1: Seq<int>, mu2: Seq<int>, i: int)
    requires
        forall|j: int| 0 <= j < s.len() && below(s[i], s[j]) ==> #[trigger] mu1[j] == mu2[j],
    ensures
        mob_row_fits(s, mu1, i) == mob_row_fits(s, mu2, i),
        forall|j: int| 0 <= j <= s.len() ==> #[trigger] mob_sum(s, mu1, i, j) == mob_sum(s, mu2, i, j),
{
    assert forall|j: int| 0 <= j <= s.len() implies #[trigger] mob_sum(s, mu1, i, j) == mob_sum(s, mu2, i, j) by {
        lemma_mob_sum_agree(s, mu1, mu2, i, j);
    }
    if mob_row_fits(s, mu1, i) {
        assert forall|j: int| 0 <= j <= s.len() implies in_i128(1 + #[trigger] mob_sum(s, mu2, i, j)) by {
            assert(in_i128(1 + mob_sum(s, mu1, i, j)));
        }
    }
    if mob_row_fits(s, mu2, i) {
        assert forall|j: int| 0 <= j <= s.len() implies in_i128(1 + #[trigger] mob_sum(s, mu1, i, j)) by {
            assert(in_i128(1 + mob_sum(s, mu2, i, j)));
        }
    }
}

/// The Möbius values are determined from the top down: a solution of the
/// recurrence on the members of degree above `lv` agrees there with every
/// solution of the whole recurrence.
proof fn lemma_mobius_unique(s: Seq<Seq<u32>>, mu1: Seq<int>, mu2: Seq<int>, lv: int, d: int, i: int)
    requires
        is_mobius(s, mu1),
        mu2.len() == s.len(),
        forall|j: int| 0 <= j < s.len() && vdeg(s[j]) > lv ==> #[trigger] mu2[j] == -(1 + mob_sum(s, mu2, j, s.len() as int)),
        forall|j: int| 0 <= j < s.len() ==> vdeg(#[trigger] s[j]) <= d,
        0 <= i < s.len(),
        vdeg(s[i]) > lv,
    ensures
        mu1[i] == mu2[i],
    decreases d - vdeg(s[i]),
{
    assert forall|j: int| 0 <= j < s.len() && below(s[i], s[j]) implies #[trigger] mu1[j] == mu2[j] by {
        lemma_below_degree(s[i], s[j]);
        lemma_mobius_unique(s, mu1, mu2, lv, d, j);
    }
    lemma_mob_sum_agree(s, mu1, mu2, i, s.len() as int);
}

/// Where a running sum of member `i` (at prefix `j`, or its negation for
/// `j < 0`) does not fit, computed from values that solve the recurrence on
/// the members above the level of `i`, no solution of the recurrence fits.
proof fn lemma_no_fit(s: Seq<Seq<u32>>, mv: Seq<int>, deg: Seq<u64>, lv: int, d: int, i: int, j: int)
    requires
        mv.len() == s.len(),
        deg.len() == s.len(),
        forall|k: int| 0 <= k < s.len() ==> #[trigger] deg[k] == vdeg(s[k]) && deg[k] <= d,
        forall|k: int| 0 <= k < s.len() && #[trigger] deg[k] > lv ==> mv[k] == -(1 + mob_sum(s, mv, k, s.len() as int)),
        0 <= i < s.len(),
        deg[i] == lv,
        j <= s.len(),
        j >= 0 ==> !in_i128(1 + mob_sum(s, mv, i, j)),
        j < 0 ==> 1 + mob_sum(s, mv, i, s.len() as int) == i128::MIN,
    ensures
        forall|mu2: Seq<int>| is_mobius(s, mu2) ==> !mob_fits(s, mu2),
{
    assert forall|mu2: Seq<int>| is_mobius(s, mu2) implies !mob_fits(s, mu2) by {
        assert forall|k: int| 0 <= k < s.len() && vdeg(s[k]) > lv implies #[trigger] mv[k] == -(1 + mob_sum(s, mv, k, s.len() as int)) by {
            assert(deg[k] > lv);
        }
        assert forall|k: int| 0 <= k < s.len() implies vdeg(#[trigger] s[k]) <= d by {
            assert(deg[k] == vdeg(s[k]));
        }
        assert forall|k: int| 0 <= k < s.len() && below(s[i], s[k]) implies #[trigger] mu2[k] == mv[k] by {
            lemma_below_degree(s[i], s[k]);
            assert(deg[k] == vdeg(s[k]));
            lemma_mobius_unique(s, mu2, mv, lv, d, k);
        }
        lemma_row_fits_agree(s, mu2, mv, i);
        if j >= 0 {
            assert(mob_sum(s, mu2, i, j) == mob_sum(s, mv, i, j));
        }
        assert(!mob_row_fits(s, mu2, i));
    }
}

/// The Möbius values `mu(x, 1hat)` of a list of distinct vectors of one
/// length, computed from the top degree down; `None` where a value leaves
/// `i128`.
#[verifier::rlimit(40)]
fn mobius_values(all: &Vec<Vec<u32>>, deg: &Vec<u64>, maxdeg: u64) -> (r: Option<Vec<i128>>)
    requires
        deg@.len() == all@.len(),
        forall|i: int| 0 <= i < all@.len() ==> #[trigger] deg@[i] == vdeg(all@[i]@) && deg@[i] <= maxdeg,
        forall|i: int, j: int| 0 <= i < all@.len() && 0 <= j < all@.len() ==> (#[trigger] all@[i])@.len() == (#[trigger] all@[j])@.len(),
    ensures
        match r {
            Some(mu) => is_mobius(rows_view(all@), ints(mu@)) && mob_fits(rows_view(all@), ints(mu@)),
            None => forall|mu2: Seq<int>| is_mobius(rows_view(all@), mu2) ==> !mob_fits(rows_view(all@), mu2),
        },
{
    let ghost s = rows_view(all@);
    let n = all.len();
    let mut mu: Vec<i128> = Vec::new();
    for i in 0..n
        invariant
            mu@.len() == i,
    {
        mu.push(0);
    }
    let mut lvl: u64 = maxdeg;
    let mut done_all = false;
    while !done_all
        invariant
            n == all@.len(),
            s == rows_view(all@),
            mu@.len() == n,
            deg@.len() == n,
            lvl <= maxdeg,
            forall|i: int| 0 <= i < n ==> #[trigger] deg@[i] == vdeg(all@[i]@) && deg@[i] <= maxdeg,
            forall|i: int, j: int| 0 <= i < n && 0 <= j < n ==> (#[trigger] all@[i])@.len() == (#[trigger] all@[j])@.len(),
            forall|i: int|
                0 <= i < n && #[trigger] deg@[i] > lvl ==> mu@[i] == -(1 + mob_sum(
                    s,
                    ints(mu@),
                    i,
                    n as int,
                )),
            done_all ==> forall|i: int|
                0 <= i < n ==> #[trigger] mu@[i] == -(1 + mob_sum(
                    s,
                    ints(mu@),
                    i,
                    n as int,
                )),
            forall|i: int| 0 <= i < n && #[trigger] deg@[i] > lvl ==> mob_row_fits(s, ints(mu@), i),
            done_all ==> forall|i: int| 0 <= i < n ==> #[trigger] mob_row_fits(s, ints(mu@), i),
            s.len() == n,
        decreases lvl + (if done_all { 0int } else { 1int }),
    {
        let ghost mu_lvl = mu@;
        for i in 0..n
            invariant
                n == all@.len(),
                s == rows_view(all@),
                mu@.len() == n,
                deg@.len() == n,
                forall|i2: int| 0 <= i2 < n ==> #[trigger] deg@[i2] == vdeg(all@[i2]@) && deg@[i2] <= maxdeg,
                forall|i2: int, j: int|
                    0 <= i2 < n && 0 <= j < n ==> (#[trigger] all@[i2])@.len() == (#[trigger] all@[j])@.len(),
                forall|i2: int| 0 <= i2 < n && (deg@[i2] != lvl || i2 >= i) ==> #[trigger] mu@[i2] == mu_lvl[i2],
                forall|i2: int|
                    0 <= i2 < n && (#[trigger] deg@[i2] > lvl || (deg@[i2] == lvl && i2 < i)) ==> mu@[i2] == -(1
                        + mob_sum(s, ints(mu@), i2, n as int)),
                forall|i2: int|
                    0 <= i2 < n && #[trigger] deg@[i2] > lvl ==> mu_lvl[i2] == -(1 + mob_sum(
                        s,
                        ints(mu_lvl),
                        i2,
                        n as int,
                    )),
                forall|i2: int|
                    0 <= i2 < n && (#[trigger] deg@[i2] > lvl || (deg@[i2] == lvl && i2 < i)) ==> mob_row_fits(s, ints(mu@), i2),
                s.len() == n,
        {
            if deg[i] == lvl {
                let mut acc: i128 = 1;
                let ghost mv = ints(mu@);
                proof {
                    assert forall|k: int| 0 <= k < n implies #[trigger] deg@[k] == vdeg(s[k]) && deg@[k] <= maxdeg by {
                        assert(s[k] == all@[k]@);
                    }
                    assert forall|k: int| 0 <= k < n && #[trigger] deg@[k] > lvl implies mv[k] == -(1 + mob_sum(s, mv, k, n as int)) by {
                        assert(mv[k] == mu@[k] as int);
                    }
                }
                for j in 0..n
                    invariant
                        deg@.len() == n,
                        s.len() == n,
                        forall|k: int| 0 <= k < n ==> #[trigger] deg@[k] == vdeg(s[k]) && deg@[k] <= maxdeg,
                        forall|k: int| 0 <= k < n && #[trigger] deg@[k] > lvl ==> mv[k] == -(1 + mob_sum(s, mv, k, n as int)),
                        deg@[i as int] == lvl,
                        n == all@.len(),
                        s == rows_view(all@),
                        mu@.len() == n,
                        i < n,
                        mv == ints(mu@),
                        forall|i2: int, j2: int|
                            0 <= i2 < n && 0 <= j2 < n ==> (#[trigger] all@[i2])@.len() == (#[trigger] all@[j2])@.len(),
                        acc == 1 + mob_sum(s, mv, i as int, j as int),
                        forall|j2: int| 0 <= j2 <= j ==> in_i128(1 + #[trigger] mob_sum(s, mv, i as int, j2)),
                {
                    let x = &all[i];
                    let y = &all[j];
                    proof {
                        assert(s[i as int] == x@);
                        assert(s[j as int] == y@);
                    }
                    let below_ij = !crate::vecs::eq_u32s(x.as_slice(), y.as_slice()) && le_u32s(x.as_slice(), y.as_slice());
                    if below_ij {
                        match acc.checked_add(mu[j]) {
                            Some(z) => {
                                acc = z;
                            },
                            None => {
                                proof {
                                    assert(!in_i128(1 + mob_sum(s, mv, i as int, j + 1)));
                                    lemma_no_fit(s, mv, deg@, lvl as int, maxdeg as int, i as int, j + 1);
                                }
                                return None;
                            },
                        }
                    }
                }
                if acc == i128::MIN {
                    proof {
                        assert(1 + mob_sum(s, mv, i as int, n as int) == i128::MIN);
                        lemma_no_fit(s, mv, deg@, lvl as int, maxdeg as int, i as int, -1);
                    }
                    return None;
                }
                proof {
                    assert(mob_row_fits(s, mv, i as int));
                }
                let ghost m0 = mu@;
                mu.set(i, -acc);
                proof {
                    let mv2 = ints(mu@);
                    assert forall|i2: int|
                        0 <= i2 < n && (#[trigger] deg@[i2] > lvl || (deg@[i2] == lvl && i2 < i + 1)) implies mu@[i2] == -(1
                            + mob_sum(s, mv2, i2, n as int)) by {
                        let mvo = ints(m0);
                        assert forall|j: int| 0 <= j < n && below(s[i2], s[j]) implies #[trigger] mvo[j] == mv2[j] by {
                            lemma_below_degree(s[i2], s[j]);
                            assert(deg@[j] == vdeg(s[j]));
                            assert(deg@[i2] == vdeg(s[i2]));
                        }
                        lemma_mob_sum_agree(s, mvo, mv2, i2, n as int);
                    }
                    assert forall|i2: int|
                        0 <= i2 < n && (#[trigger] deg@[i2] > lvl || (deg@[i2] == lvl && i2 < i + 1)) implies mob_row_fits(s, mv2, i2) by {
                        let mvo = ints(m0);
                        assert forall|j: int| 0 <= j < s.len() && below(s[i2], s[j]) implies #[trigger] mvo[j] == mv2[j] by {
                            lemma_below_degree(s[i2], s[j]);
                            assert(deg@[j] == vdeg(s[j]));
                            assert(deg@[i2] == vdeg(s[i2]));
                        }
                        lemma_row_fits_agree(s, mvo, mv2, i2);
                    }
                }
            }
        }
        proof {
            assert forall|i2: int|
                0 <= i2 < n && #[trigger] deg@[i2] >= lvl implies mu@[i2] == -(1 + mob_sum(
                    s,
                    ints(mu@),
                    i2,
                    n as int,
                )) by {}
            assert forall|i2: int| 0 <= i2 < n && #[trigger] deg@[i2] >= lvl implies mob_row_fits(s, ints(mu@), i2) by {}
        }
        if lvl == 0 {
            proof {
                assert forall|i: int| 0 <= i < n implies #[trigger] mu@[i] == -(1 + mob_sum(
                    s,
                    ints(mu@),
                    i,
                    n as int,
                )) by {
                    assert(deg@[i] >= lvl);
                }
                assert forall|i: int| 0 <= i < n implies #[trigger] mob_row_fits(s, ints(mu@), i) by {
                    assert(deg@[i] >= lvl);
                }
            }
            done_all = true;
        } else {
            lvl = lvl - 1;
        }
    }
    proof {
        let mv = ints(mu@);
        assert(s.len() == n);
        assert(mob_fits(s, mv));
        assert forall|i: int| 0 <= i < s.len() implies #[trigger] mv[i] == -(1 + mob_sum(s, mv, i, s.len() as int)) by {
            assert(mv[i] == mu@[i] as int);

        }
    }
    Some(mu)
}

/// Degrees of the members, and their maximum.
fn degrees_of(all: &Vec<Vec<u32>>) -> (r: (Vec<u64>, u64))
    requires
        forall|i: int| 0 <= i < all@.len() ==> (#[trigger] all@[i])@.len() <= 64,
    ensures
        r.0@.len() == all@.len(),
        forall|i: int| 0 <= i < all@.len() ==> #[trigger] r.0@[i] == vdeg(all@[i]@) && r.0@[i] <= r.1,
{
    let mut deg: Vec<u64> = Vec::new();
    let mut maxdeg: u64 = 0;
    for i in 0..all.len()
        invariant
            forall|i: int| 0 <= i < all@.len() ==> (#[trigger] all@[i])@.len() <= 64,
            deg@.len() == i,
            forall|k: int| 0 <= k < i ==> #[trigger] deg@[k] == vdeg(all@[k]@) && deg@[k] <= maxdeg,
    {
        let x = &all[i];
        let mut d: u64 = 0;
        for c in 0..x.len()
            invariant
                x@.len() <= 64,
                d == vsum(x@, c as int),
        {
            proof {
                lemma_vsum_bound(x@, c + 1);
                assert((c + 1) * 0xffff_ffff <= 64 * 0xffff_ffff) by (nonlinear_arith)
                    requires c + 1 <= 64;
            }
            d = d + x[c] as u64;
        }
        if d > maxdeg {
            maxdeg = d;
        }
        deg.push(d);
    }
    (deg, maxdeg)
}

/// Number of members of degree `genus`.
fn count_of_degree(deg: &Vec<u64>, genus: u64, Ghost(s): Ghost<Seq<Seq<u32>>>) -> (c: usize)
    requires
        deg@.len() == s.len(),
        forall|i: int| 0 <= i < s.len() ==> #[trigger] deg@[i] == vdeg(s[i]),
    ensures
        c == n_of_degree(s, genus as int, s.len() as int),
{
    let mut c: usize = 0;
    for i in 0..deg.len()
        invariant
            deg@.len() == s.len(),
            forall|i: int| 0 <= i < s.len() ==> #[trigger] deg@[i] == vdeg(s[i]),
            c == n_of_degree(s, genus as int, i as int),
            c <= i,
    {
        if deg[i] == genus {
            c += 1;
        }
    }
    c
}

/// Number of nonzero values.
fn count_nonzero(mu: &Vec<i128>) -> (c: usize)
    ensures
        c == n_nonzero(ints(mu@), mu@.len() as int),
{
    let mut c: usize = 0;
    for i in 0..mu.len()
        invariant
            c == n_nonzero(ints(mu@), i as int),
            c <= i,
    {
        if mu[i] != 0 {
            c += 1;
        }
    }
    c
}

/// Every value of the crosscut sum fits in `i128`: the partial products of
/// each down-set volume, each term, each partial sum, and the negated total.
pub open spec fn cross_fits(s: Seq<Seq<u32>>, mu: Seq<int>) -> bool {
    &&& forall|i: int, c: int| 0 <= i < s.len() && 0 <= c <= s[i].len() ==> in_i128(#[trigger] vvol(s[i], c))
    &&& forall|i: int| 0 <= i < s.len() ==> in_i128(#[trigger] (mu[i] * vvol(s[i], s[i].len() as int)))
    &&& forall|k: int| 0 <= k <= s.len() ==> in_i128(#[trigger] crosscut(s, mu, k))
    &&& crosscut(s, mu, s.len() as int) != i128::MIN
}

/// `-sum_i mu[i] vol(s[i])`, or `None` where a value leaves `i128`.
fn crosscut_of(all: &Vec<Vec<u32>>, mu: &Vec<i128>) -> (r: Option<i128>)
    requires
        mu@.len() == all@.len(),
    ensures
        match r {
            Some(v) => v == -crosscut(rows_view(all@), ints(mu@), all@.len() as int),
            None => true,
        },
        r is Some <==> cross_fits(rows_view(all@), ints(mu@)),
{
    let ghost s = rows_view(all@);
    let ghost mv = ints(mu@);
    let mut acc: i128 = 0;
    for i in 0..all.len()
        invariant
            s == rows_view(all@),
            mv == ints(mu@),
            s.len() == all@.len(),
            mu@.len() == all@.len(),
            acc == crosscut(s, mv, i as int),
            forall|i2: int, c: int| 0 <= i2 < i && 0 <= c <= s[i2].len() ==> in_i128(#[trigger] vvol(s[i2], c)),
            forall|i2: int| 0 <= i2 < i ==> in_i128(#[trigger] (mv[i2] * vvol(s[i2], s[i2].len() as int))),
            forall|k: int| 0 <= k <= i ==> in_i128(#[trigger] crosscut(s, mv, k)),
    {
        let x = &all[i];
        proof {
            assert(s[i as int] == x@);
        }
        let mut vol: i128 = 1;
        for c in 0..x.len()
            invariant
                s == rows_view(all@),
                mv == ints(mu@),
                s.len() == all@.len(),
                i < all@.len(),
                s[i as int] == x@,
                vol == vvol(x@, c as int),
                forall|c2: int| 0 <= c2 <= c ==> in_i128(#[trigger] vvol(x@, c2)),
        {
            match vol.checked_mul(x[c] as i128 + 1) {
                Some(v) => {
                    vol = v;
                },
                None => {
                    proof {
                        assert(!in_i128(vvol(s[i as int], c + 1)));
                    }
                    return None;
                },
            }
        }
        proof {
            assert(mv[i as int] == mu@[i as int] as int);
        }
        match mu[i].checked_mul(vol) {
            Some(t) => match acc.checked_add(t) {
                Some(z) => {
                    acc = z;
                },
                None => {
                    proof {
                        assert(!in_i128(crosscut(s, mv, i + 1)));
                    }
                    return None;
                },
            },
            None => {
                proof {
                    assert(!in_i128(mv[i as int] * vvol(s[i as int], s[i as int].len() as int)));
                }
                return None;
            },
        }
    }
    if acc == i128::MIN {
        return None;
    }
    Some(-acc)
}

/// Whether every member is the meet of the members of degree `genus` above it.
fn meets_check(all: &Vec<Vec<u32>>, deg: &Vec<u64>, genus: u64) -> (ok: bool)
    requires
        deg@.len() == all@.len(),
        forall|i: int| 0 <= i < all@.len() ==> #[trigger] deg@[i] == vdeg(all@[i]@),
    ensures
        ok == meets_of_maxima(rows_view(all@), genus as int),
{
    let ghost s = rows_view(all@);
    let n = all.len();
    for i in 0..n
        invariant
            n == all@.len(),
            s == rows_view(all@),
            deg@.len() == n,
            forall|i: int| 0 <= i < n ==> #[trigger] deg@[i] == vdeg(all@[i]@),
            forall|k: int| 0 <= k < i ==> meet_above(s, genus as int, #[trigger] s[k], n as int) == s[k],
    {
        let x = &all[i];
        let mut meet: Vec<u32> = Vec::new();
        for c in 0..x.len()
            invariant
                meet@.len() == c,
                forall|k: int| 0 <= k < c ==> #[trigger] meet@[k] == u32::MAX,
        {
            meet.push(u32::MAX);
        }
        proof {
            assert(meet@ =~= meet_above(s, genus as int, x@, 0));
        }
        for j in 0..n
            invariant
                n == all@.len(),
                s == rows_view(all@),
                i < n,
                deg@.len() == n,
                forall|i: int| 0 <= i < n ==> #[trigger] deg@[i] == vdeg(all@[i]@),
                x == &all@[i as int],
                meet@ == meet_above(s, genus as int, x@, j as int),
        {
            let y = &all[j];
            proof {
                assert(s[j as int] == y@);
                lemma_meet_above_len(s, genus as int, x@, j as int);
            }
            if deg[j] == genus && y.len() == x.len() && le_u32s(x.as_slice(), y.as_slice()) {
                let ghost m0 = meet@;
                for c in 0..x.len()
                    invariant
                        x@.len() == y@.len(),
                        meet@.len() == x@.len(),
                        m0.len() == x@.len(),
                        forall|k: int| 0 <= k < c ==> #[trigger] meet@[k] == if y@[k] < m0[k] { y@[k] } else { m0[k] },
                        forall|k: int| c <= k < x@.len() ==> #[trigger] meet@[k] == m0[k],
                {
                    if y[c] < meet[c] {
                        meet.set(c, y[c]);
                    }
                }
                proof {
                    assert(meet@ =~= meet_above(s, genus as int, x@, j + 1));
                }
            }
        }
        proof {
            assert(s[i as int] == x@);
        }
        if !crate::vecs::eq_u32s(meet.as_slice(), x.as_slice()) {
            return false;
        }
    }
    true
}

proof fn lemma_n_key_zero(s: Seq<Seq<u32>>, mu: Seq<int>, d: int, m: int, k: int)
    requires
        forall|j: int| 0 <= j < k ==> !(vdeg(#[trigger] s[j]) == d && mu[j] == m),
    ensures
        n_key(s, mu, d, m, k) == 0,
    decreases k,
{
    if k > 0 {
        lemma_n_key_zero(s, mu, d, m, k - 1);
    }
}

proof fn lemma_n_key_bound(s: Seq<Seq<u32>>, mu: Seq<int>, d: int, m: int, k: int)
    requires
        0 <= k,
    ensures
        0 <= n_key(s, mu, d, m, k) <= k,
    decreases k,
{
    if k > 0 {
        lemma_n_key_bound(s, mu, d, m, k - 1);
    }
}

/// The (degree, value) histogram, by increasing key.
#[verifier::rlimit(40)]
fn histogram_of(deg: &Vec<u64>, mu: &Vec<i128>, Ghost(s): Ghost<Seq<Seq<u32>>>) -> (h: Vec<(u64, i128, usize)>)
    requires
        deg@.len() == s.len(),
        mu@.len() == s.len(),
        forall|i: int| 0 <= i < s.len() ==> #[trigger] deg@[i] == vdeg(s[i]),
    ensures
        histogram_ok(h@, s, ints(mu@)),
{
    let ghost mv = ints(mu@);
    let n = deg.len();
    let mut h: Vec<(u64, i128, usize)> = Vec::new();
    for i in 0..n
        invariant
            n == s.len(),
            deg@.len() == n,
            mu@.len() == n,
            mv == ints(mu@),
            forall|i: int| 0 <= i < s.len() ==> #[trigger] deg@[i] == vdeg(s[i]),
            forall|a: int, b: int|
                0 <= a < b < h@.len() ==> (#[trigger] h@[a]).0 < (#[trigger] h@[b]).0 || (h@[a].0 == h@[b].0 && h@[a].1
                    < h@[b].1),
            forall|a: int| 0 <= a < h@.len() ==> (#[trigger] h@[a]).2 == n_key(s, mv, h@[a].0 as int, h@[a].1 as int, i as int),
            forall|a: int| 0 <= a < h@.len() ==> (#[trigger] h@[a]).2 >= 1,
            forall|k: int| 0 <= k < i ==> #[trigger] has_key(h@, vdeg(s[k]), mv[k]),
    {
        let d = deg[i];
        let m = mu[i];
        let mut p: usize = 0;
        while p < h.len() && (h[p].0 < d || (h[p].0 == d && h[p].1 < m))
            invariant
                p <= h@.len(),
                forall|a: int| 0 <= a < p ==> (#[trigger] h@[a]).0 < d || (h@[a].0 == d && h@[a].1 < m),
            decreases h@.len() - p,
        {
            p += 1;
        }
        let ghost h0 = h@;
        proof {
            assert(mv[i as int] == m as int);
            assert forall|a: int| 0 <= a < h0.len() implies n_key(s, mv, h0[a].0 as int, h0[a].1 as int, i + 1) == n_key(
                s,
                mv,
                h0[a].0 as int,
                h0[a].1 as int,
                i as int,
            ) + if h0[a].0 == d && h0[a].1 == m {
                1int
            } else {
                0int
            } by {}
        }
        if p < h.len() && h[p].0 == d && h[p].1 == m {
            let (d0, m0, c0) = h[p];
            proof {
                lemma_n_key_bound(s, mv, d as int, m as int, i as int);
            }
            h.set(p, (d0, m0, c0 + 1));
            proof {
                assert forall|a: int| 0 <= a < h@.len() implies (#[trigger] h@[a]).2 >= 1 by {
                    if a != p {
                        assert(h@[a] == h0[a]);
                    }
                }
                assert forall|a: int, b: int|
                    0 <= a < b < h@.len() implies (#[trigger] h@[a]).0 < (#[trigger] h@[b]).0 || (h@[a].0 == h@[b].0
                        && h@[a].1 < h@[b].1) by {
                    assert(h@[a].0 == h0[a].0 && h@[a].1 == h0[a].1);
                    assert(h@[b].0 == h0[b].0 && h@[b].1 == h0[b].1);
                }
                assert forall|a: int| 0 <= a < h@.len() implies (#[trigger] h@[a]).2 == n_key(
                    s,
                    mv,
                    h@[a].0 as int,
                    h@[a].1 as int,
                    i + 1,
                ) by {
                    if a != p {
                        if h0[a].0 == d && h0[a].1 == m {
                            if a < p {
                                assert(h0[a].0 < h0[p as int].0 || (h0[a].0 == h0[p as int].0 && h0[a].1 < h0[p as int].1));
                            } else {
                                assert(h0[p as int].0 < h0[a].0 || (h0[p as int].0 == h0[a].0 && h0[p as int].1 < h0[a].1));
                            }
                        }
                    }
                }
                assert forall|k: int| 0 <= k < i + 1 implies #[trigger] has_key(h@, vdeg(s[k]), mv[k]) by {
                    if k < i {
                        assert(has_key(h0, vdeg(s[k]), mv[k]));
                        let a = choose|a: int| 0 <= a < h0.len() && (#[trigger] h0[a]).0 == vdeg(s[k]) && h0[a].1 == mv[k];
                        assert(h@[a].0 == h0[a].0 && h@[a].1 == h0[a].1);
                    } else {
                        assert(h@[p as int].0 == vdeg(s[k]) && h@[p as int].1 == mv[k]);
                    }
                }
            }
        } else {
            proof {
                assert forall|k: int| 0 <= k < i implies !(vdeg(#[trigger] s[k]) == d && mv[k] == m) by {
                    assert(has_key(h0, vdeg(s[k]), mv[k]));
                    let a = choose|a: int| 0 <= a < h0.len() && (#[trigger] h0[a]).0 == vdeg(s[k]) && h0[a].1 == mv[k];
                    if vdeg(s[k]) == d && mv[k] == m {
                        if a < p {
                        } else if a == p {
                        } else {
                            assert(h0[p as int].0 < h0[a].0 || (h0[p as int].0 == h0[a].0 && h0[p as int].1 < h0[a].1));
                        }
                    }
                }
                lemma_n_key_zero(s, mv, d as int, m as int, i as int);
            }
            h.insert(p, (d, m, 1));
            proof {
                assert forall|a: int| 0 <= a < h@.len() implies (#[trigger] h@[a]).2 >= 1 by {
                    if a < p {
                        assert(h@[a] == h0[a]);
                    } else if a > p {
                        assert(h@[a] == h0[a - 1]);
                    }
                }
                assert forall|a: int, b: int|
                    0 <= a < b < h@.len() implies (#[trigger] h@[a]).0 < (#[trigger] h@[b]).0 || (h@[a].0 == h@[b].0
                        && h@[a].1 < h@[b].1) by {
                    if b < p {
                        assert(h@[a] == h0[a] && h@[b] == h0[b]);
                    } else if b == p {
                        assert(h@[a] == h0[a]);
                    } else if a < p {
                        assert(h@[a] == h0[a] && h@[b] == h0[b - 1]);
                        assert(h0[p as int].0 > d || (h0[p as int].0 == d && h0[p as int].1 > m));
                    } else if a == p {
                        assert(h@[b] == h0[b - 1]);
                        assert(h0[p as int].0 > d || (h0[p as int].0 == d && h0[p as int].1 > m));
                        if b - 1 > p {
                            assert(h0[p as int].0 < h0[b - 1].0 || (h0[p as int].0 == h0[b - 1].0 && h0[p as int].1 < h0[b - 1].1));
                        }
                    } else {
                        assert(h@[a] == h0[a - 1] && h@[b] == h0[b - 1]);
                    }
                }
                assert forall|a: int| 0 <= a < h@.len() implies (#[trigger] h@[a]).2 == n_key(
                    s,
                    mv,
                    h@[a].0 as int,
                    h@[a].1 as int,
                    i + 1,
                ) by {
                    if a < p {
                        assert(h@[a] == h0[a]);
                    } else if a > p {
                        assert(h@[a] == h0[a - 1]);
                    }
                }
                assert forall|k: int| 0 <= k < i + 1 implies #[trigger] has_key(h@, vdeg(s[k]), mv[k]) by {
                    if k < i {
                        assert(has_key(h0, vdeg(s[k]), mv[k]));
                        let a = choose|a: int| 0 <= a < h0.len() && (#[trigger] h0[a]).0 == vdeg(s[k]) && h0[a].1 == mv[k];
                        if a < p {
                            assert(h@[a] == h0[a]);
                        } else {
                            assert(h@[a + 1] == h0[a]);
                        }
                    } else {
                        assert(h@[p as int].0 == vdeg(s[k]) && h@[p as int].1 == mv[k]);
                    }
                }
            }
        }
    }
    h
}

/// The Möbius experiment on all parking functions of `g`; `None` where a
/// value leaves `i128`.
#[verifier::rlimit(40)]
pub fn mobius_experiment(g: &Graph) -> (r: Option<MobiusReport>)
    requires
        g.wf(),
        degrees_fit(g.adj@),
    ensures
        match r {
            Some(rep) => exists|s: Seq<Seq<u32>>, mu: Seq<int>|
                {
                    &&& is_parking_list(g.adj@, s)
                    &&& is_mobius(s, mu)
                    &&& rep.total == s.len()
                    &&& rep.maximal == n_of_degree(s, crate::burn::cyclomatic(g.adj@), s.len() as int)
                    &&& rep.nonzero_mu == n_nonzero(mu, s.len() as int)
                    &&& rep.identity_lhs == -crosscut(s, mu, s.len() as int)
                    &&& rep.lemma_412_holds == meets_of_maxima(s, crate::burn::cyclomatic(g.adj@))
                    &&& histogram_ok(rep.by_degree@, s, mu)
                    &&& mob_fits(s, mu)
                    &&& cross_fits(s, mu)
                },
            None => exists|s: Seq<Seq<u32>>|
                #[trigger] is_parking_list(g.adj@, s) && forall|mu: Seq<int>|
                    is_mobius(s, mu) ==> !(mob_fits(s, mu) && cross_fits(s, mu)),
        },
{
    let all = crate::dhar::brute_all(g);
    let ghost s = rows_view(all@);
    proof {
        assert forall|i: int| 0 <= i < all@.len() implies (#[trigger] all@[i])@.len() <= 64 by {
            assert(is_parking_vector(g.adj@, all@[i]@));
        }
        assert forall|i: int, j: int| 0 <= i < all@.len() && 0 <= j < all@.len() implies (#[trigger] all@[i])@.len() == (
        #[trigger] all@[j])@.len() by {
            assert(is_parking_vector(g.adj@, all@[i]@));
            assert(is_parking_vector(g.adj@, all@[j]@));
        }
    }
    let (deg, maxdeg) = degrees_of(&all);
    proof {
        assert(is_parking_list(g.adj@, s)) by {
            assert forall|i: int| 0 <= i < s.len() implies #[trigger] is_parking_vector(g.adj@, s[i]) by {
                assert(s[i] == all@[i]@);
            }
            assert forall|x: Seq<u32>| #[trigger] is_parking_vector(g.adj@, x) implies exists|i: int|
                0 <= i < s.len() && #[trigger] s[i] == x by {
                let i = choose|i: int| 0 <= i < all@.len() && #[trigger] all@[i]@ == x;
                assert(s[i] == x);
            }
            assert forall|i: int, j: int| 0 <= i < j < s.len() implies colex_lt(#[trigger] s[i], #[trigger] s[j]) by {
                assert(s[i] == all@[i]@ && s[j] == all@[j]@);
            }
        }
    }
    let mu = match mobius_values(&all, &deg, maxdeg) {
        Some(mu) => mu,
        None => {
            return None;
        },
    };
    let identity_lhs = match crosscut_of(&all, &mu) {
        Some(v) => v,
        None => {
            proof {
                let mv = ints(mu@);
                assert forall|mu2: Seq<int>| is_mobius(s, mu2) implies !(mob_fits(s, mu2) && cross_fits(s, mu2)) by {
                    assert forall|k: int| 0 <= k < s.len() implies vdeg(#[trigger] s[k]) <= maxdeg by {
                        assert(s[k] == all@[k]@);
                        assert(deg@[k] == vdeg(all@[k]@) && deg@[k] <= maxdeg);
                    }
                    assert forall|k: int| 0 <= k < s.len() && vdeg(s[k]) > -1 implies #[trigger] mv[k] == -(1 + mob_sum(s, mv, k, s.len() as int)) by {}
                    assert forall|k: int| 0 <= k < s.len() implies #[trigger] mu2[k] == mv[k] by {
                        lemma_vsum_bound(s[k], s[k].len() as int);
                        lemma_mobius_unique(s, mu2, mv, -1, maxdeg as int, k);
                    }
                    assert(mu2 =~= mv);
                }
            }
            return None;
        },
    };
    let genus = g.genus();
    let maximal = count_of_degree(&deg, genus, Ghost(s));
    let nonzero_mu = count_nonzero(&mu);
    let lemma_412_holds = meets_check(&all, &deg, genus);
    let by_degree = histogram_of(&deg, &mu, Ghost(s));
    proof {
        assert(genus == crate::burn::cyclomatic(g.adj@));
    }
    Some(MobiusReport {
        total: all.len(),
        maximal,
        nonzero_mu,
        identity_lhs,
        by_degree,
        lemma_412_holds,
    })
}

// ---------------------------------------------------------------------------
// Orbit census of the maximal parking functions under the root-fixing
// automorphisms of Q_dim (coordinate permutations, order dim!).
// ---------------------------------------------------------------------------

pub open spec fn factorial(k: nat) -> nat
    decreases k,
{
    if k == 0 {
        1
    } else {
        k * factorial((k - 1) as nat)
    }
}

/// `p` is a permutation of `0..k`.
pub open spec fn is_perm(p: Seq<usize>, k: int) -> bool {
    &&& p.len() == k
    &&& p.no_duplicates()
    &&& forall|i: int| 0 <= i < k ==> #[trigger] p[i] < k
}

proof fn lemma_factorial_pos(k: nat)
    ensures
        factorial(k) >= 1,
    decreases k,
{
    if k > 0 {
        lemma_factorial_pos((k - 1) as nat);
        assert(k * factorial((k - 1) as nat) >= 1) by (nonlinear_arith)
            requires k >= 1, factorial((k - 1) as nat) >= 1;
    }
}

fn swap_entries(p: &mut Vec<usize>, i: usize, j: usize)
    requires
        i < old(p)@.len(),
        j < old(p)@.len(),
    ensures
        final(p)@ == old(p)@.update(i as int, old(p)@[j as int]).update(j as int, old(p)@[i as int]),
{
    let x = p[i];
    let y = p[j];
    p.set(i, y);
    p.set(j, x);
}

proof fn lemma_swap_perm(p: Seq<usize>, k: int, i: int, j: int)
    requires
        is_perm(p, k),
        0 <= i < k,
        0 <= j < k,
    ensures
        is_perm(p.update(i, p[j]).update(j, p[i]), k),
{
    let q = p.update(i, p[j]).update(j, p[i]);
    assert forall|a: int, b: int| 0 <= a < q.len() && 0 <= b < q.len() && a != b implies q[a] != q[b] by {
        let a0 = if a == i { j } else if a == j { i } else { a };
        let b0 = if b == i { j } else if b == j { i } else { b };
        assert(q[a] == p[a0]);
        assert(q[b] == p[b0]);
    }
}

/// `p` with entries `i` and `j` exchanged.
pub open spec fn swapped(p: Seq<usize>, i: int, j: int) -> Seq<usize> {
    p.update(i, p[j]).update(j, p[i])
}

/// Heap's algorithm on the first `k` entries of `p`: the arrangements it
/// lists, and the arrangement it leaves.
pub open spec fn heap_run(k: nat, p: Seq<usize>) -> (Seq<Seq<usize>>, Seq<usize>)
    decreases k, k + 2,
{
    if k <= 1 {
        (seq![p], p)
    } else {
        heap_loop(k, 0, p)
    }
}

/// Rounds `i..k` of Heap's algorithm on `k` entries: each lists the
/// arrangements of the first `k - 1` entries, then exchanges entry `k - 1`
/// with entry `i` (for even `k`) or entry `0` (for odd `k`).
pub open spec fn heap_loop(k: nat, i: nat, p: Seq<usize>) -> (Seq<Seq<usize>>, Seq<usize>)
    decreases k, k - i + 1,
{
    if i >= k || k <= 1 {
        (seq![], p)
    } else {
        let r = heap_run((k - 1) as nat, p);
        let p2 = if k % 2 == 0 { swapped(r.1, i as int, k - 1) } else { swapped(r.1, 0, k - 1) };
        let rest = heap_loop(k, i + 1, p2);
        (r.0 + rest.0, rest.1)
    }
}

/// The arrangements of `0..k` that Heap's algorithm lists.
pub open spec fn heap_perms(k: nat) -> Seq<Seq<usize>> {
    heap_run(k, Seq::new(k, |j: int| j as usize)).0
}

// Heap's algorithm lists every arrangement once: on `k` entries it leaves
// the arrangement unchanged for odd `k` and rotated by one for even `k`, so
// the entry moved to position `k - 1` before each round is a new one.

/// The first `k` entries rotated by one place: entry `k - 1` first.
pub open spec fn rot(p: Seq<usize>, k: int) -> Seq<usize> {
    Seq::new(p.len(), |j: int| if j == 0 { p[k - 1] } else if j < k { p[j - 1] } else { p[j] })
}

/// The first `k` entries rotated by `i` places.
pub open spec fn rot_by(p: Seq<usize>, k: int, i: int) -> Seq<usize> {
    Seq::new(p.len(), |j: int| if j < i { p[j + k - i] } else if j < k { p[j - i] } else { p[j] })
}

/// The arrangement before round `i` of Heap's algorithm on an even number
/// `k` of entries (for `1 <= i <= k - 1`).
pub open spec fn even_state(p: Seq<usize>, k: int, i: int) -> Seq<usize> {
    if i == 0 {
        p
    } else {
        Seq::new(
            p.len(),
            |j: int|
                if j == 0 {
                    p[k - 1]
                } else if j == k - 1 {
                    p[i - 1]
                } else if j < i {
                    p[j - 1]
                } else {
                    p[j]
                },
        )
    }
}

/// The arrangement before round `i` of Heap's algorithm on `k` entries.
pub open spec fn heap_state(p: Seq<usize>, k: int, i: int) -> Seq<usize> {
    if k % 2 == 0 {
        even_state(p, k, if i >= k { k - 1 } else { i })
    } else {
        rot_by(p, k, i)
    }
}

/// The arrangement Heap's algorithm leaves on `k` entries.
pub open spec fn heap_final(p: Seq<usize>, k: int) -> Seq<usize> {
    if k % 2 == 0 {
        rot(p, k)
    } else {
        p
    }
}

/// The entry at position `k - 1` during round `i`.
pub open spec fn round_last(p: Seq<usize>, k: int, i: int) -> usize {
    if k % 2 == 0 {
        if i == 0 {
            p[k - 1]
        } else {
            p[i - 1]
        }
    } else {
        p[k - 1 - i]
    }
}

/// `x` is one of the first `k` entries of `p`.
pub open spec fn among(p: Seq<usize>, k: int, x: usize) -> bool {
    exists|m: int| 0 <= m < k && #[trigger] p[m] == x
}

/// `t` rearranges the first `k` entries of `p` and keeps the others:
/// no repeated entry, each of its first `k` entries among those of `p`.
pub open spec fn arrangement(p: Seq<usize>, k: int, t: Seq<usize>) -> bool {
    &&& t.len() == p.len()
    &&& t.no_duplicates()
    &&& forall|j: int| k <= j < p.len() ==> t[j] == p[j]
    &&& forall|j: int| #![trigger t[j]] 0 <= j < k ==> among(p, k, t[j])
}

/// Each of the first `k` entries of `p` stands among the first `k` entries
/// of the arrangement before round `i`.
proof fn lemma_state_covers(p: Seq<usize>, k: int, i: int, m: int) -> (j: int)
    requires
        2 <= k <= p.len(),
        0 <= i < k,
        0 <= m < k,
    ensures
        0 <= j < k,
        heap_state(p, k, i)[j] == p[m],
{
    if k % 2 == 0 {
        if i == 0 {
            m
        } else if m == k - 1 {
            0
        } else if m == i - 1 {
            k - 1
        } else if m < i - 1 {
            m + 1
        } else {
            m
        }
    } else {
        if m + i < k {
            m + i
        } else {
            m + i - k
        }
    }
}

/// The arrangements of `s` are pairwise different.
pub open spec fn all_different(s: Seq<Seq<usize>>) -> bool {
    forall|a: int, b: int| 0 <= a < b < s.len() ==> #[trigger] s[a] != #[trigger] s[b]
}

proof fn lemma_rot_no_dup(p: Seq<usize>, k: int)
    requires
        1 <= k <= p.len(),
        p.no_duplicates(),
    ensures
        rot(p, k).no_duplicates(),
{
    let q = rot(p, k);
    assert forall|a: int, b: int| 0 <= a < q.len() && 0 <= b < q.len() && a != b implies q[a] != q[b] by {
        let a0 = if a == 0 { k - 1 } else if a < k { a - 1 } else { a };
        let b0 = if b == 0 { k - 1 } else if b < k { b - 1 } else { b };
        assert(q[a] == p[a0]);
        assert(q[b] == p[b0]);
    }
}

proof fn lemma_swapped_no_dup(p: Seq<usize>, i: int, j: int)
    requires
        0 <= i < p.len(),
        0 <= j < p.len(),
        p.no_duplicates(),
    ensures
        swapped(p, i, j).no_duplicates(),
        swapped(p, i, j).len() == p.len(),
{
    let q = swapped(p, i, j);
    assert forall|a: int, b: int| 0 <= a < q.len() && 0 <= b < q.len() && a != b implies q[a] != q[b] by {
        let a0 = if a == j { i } else if a == i { j } else { a };
        let b0 = if b == j { i } else if b == i { j } else { b };
        assert(q[a] == p[a0]);
        assert(q[b] == p[b0]);
    }
}

/// Heap's algorithm on the first `k` entries of an arrangement without
/// repeated entries lists pairwise different arrangements, each keeping the
/// entries from `k` on, and leaves the arrangement `heap_final`.
proof fn lemma_heap_run(k: nat, p: Seq<usize>)
    requires
        1 <= k <= p.len(),
        p.no_duplicates(),
    ensures
        heap_run(k, p).1 == heap_final(p, k as int),
        all_different(heap_run(k, p).0),
        forall|a: int|
            0 <= a < heap_run(k, p).0.len() ==> (#[trigger] heap_run(k, p).0[a]).len() == p.len() && forall|j: int|
                k <= j < p.len() ==> heap_run(k, p).0[a][j] == p[j],
        forall|t: Seq<usize>| #[trigger] arrangement(p, k as int, t) ==> exists|a: int| 0 <= a < heap_run(k, p).0.len() && heap_run(k, p).0[a] == t,
    decreases k, k + 2,
{
    if k == 1 {
        assert(heap_run(k, p) == (seq![p], p));
        assert forall|t: Seq<usize>| #[trigger] arrangement(p, k as int, t) implies exists|a: int|
            0 <= a < heap_run(k, p).0.len() && heap_run(k, p).0[a] == t by {
            let m = choose|m: int| 0 <= m < 1 && #[trigger] p[m] == t[0];
            assert(t =~= p);
            assert(heap_run(k, p).0[0] == t);
        }
    } else {
        assert(heap_run(k, p) == heap_loop(k, 0, p));
        assert(heap_state(p, k as int, 0) =~= p) by {
            if k % 2 == 1 {
                assert(rot_by(p, k as int, 0) =~= p);
            }
        }
        lemma_heap_loop(k, 0, p, p);
        let kk = k as int;
        assert forall|t: Seq<usize>| #[trigger] arrangement(p, kk, t) implies exists|a: int|
            0 <= a < heap_run(k, p).0.len() && heap_run(k, p).0[a] == t by {
            let m = choose|m: int| 0 <= m < kk && #[trigger] p[m] == t[kk - 1];
            let r = if k % 2 == 0 {
                if m == kk - 1 { 0 } else { m + 1 }
            } else {
                kk - 1 - m
            };
            assert(t[kk - 1] == round_last(p, kk, r));
        }
    }
}

proof fn lemma_heap_loop(k: nat, i: nat, p: Seq<usize>, q: Seq<usize>)
    requires
        2 <= k <= p.len(),
        i <= k,
        p.no_duplicates(),
        q.no_duplicates(),
        q == heap_state(p, k as int, i as int),
    ensures
        heap_loop(k, i, q).1 == heap_final(p, k as int),
        all_different(heap_loop(k, i, q).0),
        forall|a: int|
            0 <= a < heap_loop(k, i, q).0.len() ==> {
                &&& (#[trigger] heap_loop(k, i, q).0[a]).len() == p.len()
                &&& forall|j: int| k <= j < p.len() ==> heap_loop(k, i, q).0[a][j] == p[j]
                &&& exists|r: int| i <= r < k && heap_loop(k, i, q).0[a][k - 1] == round_last(p, k as int, r)
            },
        forall|t: Seq<usize>|
            #[trigger] arrangement(p, k as int, t) && (exists|r: int| i <= r < k && t[k - 1] == round_last(p, k as int, r))
                ==> exists|a: int| 0 <= a < heap_loop(k, i, q).0.len() && heap_loop(k, i, q).0[a] == t,
    decreases k, k - i + 1,
{
    let kk = k as int;
    let len = p.len() as int;
    if i >= k {
        assert(heap_loop(k, i, q) == (Seq::<Seq<usize>>::empty(), q));
        if k % 2 == 0 {
            assert(q =~= rot(p, kk));
        } else {
            assert(q =~= p);
        }
    } else {
        let r = heap_run((k - 1) as nat, q);
        lemma_heap_run((k - 1) as nat, q);
        // the entries of this round keep entry `k - 1` of `q`
        assert(q[kk - 1] == round_last(p, kk, i as int)) by {
            if k % 2 == 1 {
                assert(rot_by(p, kk, i as int)[kk - 1] == p[kk - 1 - i]);
            }
        }
        assert forall|j: int| kk <= j < len implies q[j] == p[j] by {}
        let p2 = if k % 2 == 0 { swapped(r.1, i as int, kk - 1) } else { swapped(r.1, 0, kk - 1) };
        // the next arrangement
        if k % 2 == 0 {
            assert((kk - 1) % 2 == 1);
            assert(r.1 == q);
            lemma_swapped_no_dup(q, i as int, kk - 1);
            assert(p2 =~= heap_state(p, kk, i + 1int));
        } else {
            assert((kk - 1) % 2 == 0);
            assert(r.1 == rot(q, kk - 1));
            lemma_rot_no_dup(q, kk - 1);
            lemma_swapped_no_dup(rot(q, kk - 1), 0, kk - 1);
            assert(p2 =~= heap_state(p, kk, i + 1int));
        }
        let rest = heap_loop(k, i + 1, p2);
        lemma_heap_loop(k, i + 1, p, p2);
        assert(heap_loop(k, i, q) == (r.0 + rest.0, rest.1));
        let all = r.0 + rest.0;
        assert forall|a: int|
            0 <= a < all.len() implies {
                &&& (#[trigger] all[a]).len() == p.len()
                &&& forall|j: int| k <= j < p.len() ==> all[a][j] == p[j]
                &&& exists|r2: int| i <= r2 < k && all[a][k - 1] == round_last(p, kk, r2)
            } by {
            if a < r.0.len() {
                assert(all[a] == r.0[a]);
                assert(r.0[a][kk - 1] == q[kk - 1]);
            } else {
                assert(all[a] == rest.0[a - r.0.len()]);
                let r2 = choose|r2: int| i + 1 <= r2 < k && rest.0[a - r.0.len()][k - 1] == round_last(p, kk, r2);
            }
        }
        assert forall|a: int, b: int| 0 <= a < b < all.len() implies #[trigger] all[a] != #[trigger] all[b] by {
            if b < r.0.len() {
                assert(all[a] == r.0[a] && all[b] == r.0[b]);
            } else if a >= r.0.len() {
                assert(all[a] == rest.0[a - r.0.len()] && all[b] == rest.0[b - r.0.len()]);
            } else {
                assert(all[a] == r.0[a]);
                assert(all[b] == rest.0[b - r.0.len()]);
                assert(all[a][kk - 1] == round_last(p, kk, i as int));
                let r2 = choose|r2: int| i + 1 <= r2 < k && rest.0[b - r.0.len()][k - 1] == round_last(p, kk, r2);
                if k % 2 == 0 {
                    if i == 0 {
                        assert(p[kk - 1] != p[r2 - 1]);
                    } else {
                        assert(p[i - 1] != p[r2 - 1]);
                    }
                } else {
                    assert(p[kk - 1 - i] != p[kk - 1 - r2]);
                }
            }
        }
        assert forall|t: Seq<usize>|
            #[trigger] arrangement(p, kk, t) && (exists|r3: int| i <= r3 < k && t[k - 1] == round_last(p, kk, r3))
                implies exists|a: int| 0 <= a < all.len() && all[a] == t by {
            let r3 = choose|r3: int| i <= r3 < k && t[k - 1] == round_last(p, kk, r3);
            if r3 == i {
                assert(t[kk - 1] == q[kk - 1]);
                assert(arrangement(q, kk - 1, t)) by {
                    assert forall|j: int| kk - 1 <= j < q.len() implies t[j] == q[j] by {}
                    assert forall|j: int| #![trigger t[j]] 0 <= j < kk - 1 implies among(q, kk - 1, t[j]) by {
                        let m0 = choose|m0: int| 0 <= m0 < kk && #[trigger] p[m0] == t[j];
                        let j2 = lemma_state_covers(p, kk, i as int, m0);
                        assert(t[j] != t[kk - 1]);
                        assert(j2 != kk - 1);
                        assert(q[j2] == t[j]);
                    }
                }
                let a = choose|a: int| 0 <= a < r.0.len() && r.0[a] == t;
                assert(all[a] == r.0[a]);
            } else {
                let a = choose|a: int| 0 <= a < rest.0.len() && rest.0[a] == t;
                assert(all[a + r.0.len()] == rest.0[a]);
            }
        }
    }
}

/// The arrangements of `0..k` that Heap's algorithm lists are pairwise
/// different: none is listed twice.
pub proof fn lemma_heap_perms_distinct(k: nat)
    requires
        1 <= k <= usize::MAX,
    ensures
        all_different(heap_perms(k)),
{
    let p = Seq::new(k, |j: int| j as usize);
    assert forall|a: int, b: int| 0 <= a < p.len() && 0 <= b < p.len() && a != b implies p[a] != p[b] by {}
    assert(p.no_duplicates());
    lemma_heap_run(k, p);
}

/// Every permutation of `0..k` is among those that Heap's algorithm lists.
pub proof fn lemma_heap_perms_complete(k: nat, t: Seq<usize>)
    requires
        1 <= k <= usize::MAX,
        is_perm(t, k as int),
    ensures
        heap_perms(k).contains(t),
{
    let p = Seq::new(k, |j: int| j as usize);
    let kk = k as int;
    assert forall|a: int, b: int| 0 <= a < p.len() && 0 <= b < p.len() && a != b implies p[a] != p[b] by {}
    assert(p.no_duplicates());
    lemma_heap_run(k, p);
    assert(t.len() == p.len());
    assert forall|j: int| kk <= j < p.len() implies t[j] == p[j] by {}
    assert forall|j: int| #![trigger t[j]] 0 <= j < kk implies among(p, kk, t[j]) by {
        assert(t[j] < k);
        assert(p[t[j] as int] == t[j]);
    }
    assert(arrangement(p, kk, t));
    let a = choose|a: int| 0 <= a < heap_run(k, p).0.len() && heap_run(k, p).0[a] == t;
    assert(heap_perms(k)[a] == t);
}

/// The views of a list of vectors.
pub open spec fn views_usize(v: Seq<Vec<usize>>) -> Seq<Seq<usize>> {
    v.map_values(|x: Vec<usize>| x@)
}

/// Heap's algorithm on the first `k` entries of `p`: appends `k!`
/// arrangements of `p`, each a permutation.
fn heap(k: usize, p: &mut Vec<usize>, out: &mut Vec<Vec<usize>>)
    requires
        1 <= k <= old(p)@.len(),
        is_perm(old(p)@, old(p)@.len() as int),
        forall|i: int| 0 <= i < old(out)@.len() ==> is_perm(#[trigger] old(out)@[i]@, old(p)@.len() as int),
    ensures
        is_perm(final(p)@, old(p)@.len() as int),
        final(out)@.len() == old(out)@.len() + factorial(k as nat),
        forall|i: int| 0 <= i < final(out)@.len() ==> is_perm(#[trigger] final(out)@[i]@, old(p)@.len() as int),
        views_usize(final(out)@) == views_usize(old(out)@) + heap_run(k as nat, old(p)@).0,
        final(p)@ == heap_run(k as nat, old(p)@).1,
    decreases k,
{
    let ghost len = p@.len() as int;
    let ghost out_in = out@;
    let ghost p_in = p@;
    if k == 1 {
        let c = copy_usizes(p);
        out.push(c);
        proof {
            assert(views_usize(out@) =~= views_usize(out_in) + heap_run(1, p_in).0);
            assert(factorial(1) == 1) by {
                assert(factorial(0) == 1);
            }
            let o = out@;
            assert forall|i: int| 0 <= i < o.len() implies is_perm(#[trigger] o[i]@, len) by {
                if i < o.len() - 1 {
                } else {
                    assert(o[i]@ == p@);
                }
            }
        }
        return;
    }
    let ghost start = out@.len();
    proof {
        assert(0 * factorial((k - 1) as nat) == 0);
        assert(heap_run(k as nat, p_in) == heap_loop(k as nat, 0, p_in));
    }
    for i in 0..k
        invariant
            2 <= k <= p@.len(),
            p@.len() == len,
            is_perm(p@, len),
            forall|j: int| 0 <= j < out@.len() ==> is_perm(#[trigger] out@[j]@, len),
            out@.len() == start + i * factorial((k - 1) as nat),
            views_usize(out@) + heap_loop(k as nat, i as nat, p@).0 == views_usize(out_in) + heap_run(k as nat, p_in).0,
            heap_loop(k as nat, i as nat, p@).1 == heap_run(k as nat, p_in).1,
    {
        let ghost o_i = out@;
        let ghost p_i = p@;
        heap(k - 1, p, out);
        let ghost p_mid = p@;
        if k % 2 == 0 {
            proof {
                lemma_swap_perm(p@, len, i as int, k - 1);
            }
            swap_entries(p, i, k - 1);
        } else {
            proof {
                lemma_swap_perm(p@, len, 0, k - 1);
            }
            swap_entries(p, 0, k - 1);
        }
        proof {
            assert(start + i * factorial((k - 1) as nat) + factorial((k - 1) as nat) == start + (i + 1) * factorial(
                (k - 1) as nat,
            )) by (nonlinear_arith);
            let r = heap_run((k - 1) as nat, p_i);
            assert(p_mid == r.1);
            assert(p@ =~= if k % 2 == 0 { swapped(r.1, i as int, k - 1) } else { swapped(r.1, 0, k - 1) });
            let rest = heap_loop(k as nat, (i + 1) as nat, p@);
            assert(heap_loop(k as nat, i as nat, p_i) == (r.0 + rest.0, rest.1));
            assert(views_usize(out@) == views_usize(o_i) + r.0);
            assert(views_usize(out@) + rest.0 =~= views_usize(o_i) + (r.0 + rest.0));
        }
    }
    proof {
        assert(heap_loop(k as nat, k as nat, p@) == (Seq::<Seq<usize>>::empty(), p@));
        assert(views_usize(out@) + Seq::<Seq<usize>>::empty() =~= views_usize(out@));
        assert(heap_run(k as nat, p_in) == heap_loop(k as nat, 0, p_in));
        assert(k * factorial((k - 1) as nat) == factorial(k as nat));
    }
}

fn copy_usizes(v: &Vec<usize>) -> (r: Vec<usize>)
    ensures
        r@ == v@,
{
    let mut r: Vec<usize> = Vec::new();
    for i in 0..v.len()
        invariant
            r@ == v@.subrange(0, i as int),
    {
        r.push(v[i]);
        proof {
            assert(r@ =~= v@.subrange(0, i + 1));
        }
    }
    proof {
        assert(r@ =~= v@);
    }
    r
}

/// All `k!` arrangements of `0..k` by Heap's algorithm (none for `k = 0`).
fn permutations(k: usize) -> (out: Vec<Vec<usize>>)
    ensures
        out@.len() == if k == 0 { 0 } else { factorial(k as nat) },
        forall|i: int| 0 <= i < out@.len() ==> is_perm(#[trigger] out@[i]@, k as int),
        k > 0 ==> views_usize(out@) == heap_perms(k as nat),
        forall|a: int, b: int| 0 <= a < b < out@.len() ==> (#[trigger] out@[a])@ != (#[trigger] out@[b])@,
        forall|t: Seq<usize>| k > 0 && #[trigger] is_perm(t, k as int) ==> exists|a: int| 0 <= a < out@.len() && out@[a]@ == t,
{
    let mut out: Vec<Vec<usize>> = Vec::new();
    let mut p: Vec<usize> = Vec::new();
    for i in 0..k
        invariant
            p@.len() == i,
            forall|j: int| 0 <= j < i ==> #[trigger] p@[j] == j,
    {
        p.push(i);
    }
    if k == 0 {
        return out;
    }
    proof {
        assert forall|a: int, b: int| 0 <= a < p@.len() && 0 <= b < p@.len() && a != b implies p@[a] != p@[b] by {}
    }
    proof {
        assert(p@ =~= Seq::new(k as nat, |j: int| j as usize));
        assert(views_usize(out@) =~= Seq::<Seq<usize>>::empty());
    }
    heap(k, &mut p, &mut out);
    proof {
        lemma_heap_perms_distinct(k as nat);
        assert forall|a: int, b: int| 0 <= a < b < out@.len() implies (#[trigger] out@[a])@ != (#[trigger] out@[b])@ by {
            let hp = heap_perms(k as nat);
            assert(views_usize(out@)[a] == out@[a]@);
            assert(views_usize(out@)[b] == out@[b]@);
            assert(hp[a] != hp[b]);
        }
        assert(Seq::<Seq<usize>>::empty() + heap_run(k as nat, Seq::new(k as nat, |j: int| j as usize)).0 =~= heap_run(
            k as nat,
            Seq::new(k as nat, |j: int| j as usize),
        ).0);
        assert forall|t: Seq<usize>| k > 0 && #[trigger] is_perm(t, k as int) implies exists|a: int|
            0 <= a < out@.len() && out@[a]@ == t by {
            lemma_heap_perms_complete(k as nat, t);
            let a = choose|a: int| 0 <= a < heap_perms(k as nat).len() && heap_perms(k as nat)[a] == t;
            assert(views_usize(out@)[a] == out@[a]@);
        }
    }
    out
}

/// The 2-bit field `i` of a packed key.
pub open spec fn field(key: u64, i: int) -> u64 {
    (key >> ((2 * i) as u64)) & 3u64
}

proof fn lemma_pack_step(acc: u64, x: u64, i: u64)
    requires
        i < 32,
        x < 4,
        i == 0 || acc >> (2 * i) == 0,
        i == 0 ==> acc == 0,
    ensures
        forall|j: u64| j < 32 ==> #[trigger] (((acc | (x << (2 * i))) >> (2 * j)) & 3u64) == if j == i {
            x
        } else {
            (acc >> (2 * j)) & 3u64
        },
        i < 31 ==> (acc | (x << (2 * i))) >> (2 * (i + 1)) == 0,
{
    assert forall|j: u64| j < 32 implies #[trigger] (((acc | (x << (2 * i))) >> (2 * j)) & 3u64) == if j == i {
        x
    } else {
        (acc >> (2 * j)) & 3u64
    } by {
        assert((((acc | (x << (2 * i))) >> (2 * j)) & 3u64) == if j == i {
            x
        } else {
            (acc >> (2 * j)) & 3u64
        }) by (bit_vector)
            requires
                i < 32,
                j < 32,
                x < 4,
                i == 0 || acc >> (2 * i) == 0,
                i == 0 ==> acc == 0,
        ;
    }
    if i < 31 {
        assert((acc | (x << (2 * i))) >> (2 * (i + 1)) == 0) by (bit_vector)
            requires
                i < 31,
                x < 4,
                i == 0 || acc >> (2 * i) == 0,
                i == 0 ==> acc == 0,
        ;
    }
}

/// Pack a parking function on at most 32 non-root vertices, values < 4,
/// into u64: value `i` in bits `2i, 2i + 1`.
pub fn pack(f: &[u32]) -> (key: u64)
    requires
        f@.len() <= 32,
        forall|i: int| 0 <= i < f@.len() ==> #[trigger] f@[i] < 4,
    ensures
        forall|i: int| 0 <= i < f@.len() ==> #[trigger] field(key, i) == f@[i] as u64,
        forall|i: int| f@.len() <= i < 32 ==> #[trigger] field(key, i) == 0,
{
    let mut acc: u64 = 0;
    proof {
        assert forall|j: int| 0 <= j < 32 implies #[trigger] field(acc, j) == 0 by {
            let s = (2 * j) as u64;
            assert((0u64 >> s) & 3u64 == 0) by (bit_vector);
        }
    }
    for i in 0..f.len()
        invariant
            f@.len() <= 32,
            forall|i: int| 0 <= i < f@.len() ==> #[trigger] f@[i] < 4,
            forall|j: int| 0 <= j < i ==> #[trigger] field(acc, j) == f@[j] as u64,
            forall|j: int| i <= j < 32 ==> #[trigger] field(acc, j) == 0,
            i == 0 ==> acc == 0,
            i > 0 && i < 32 ==> acc >> ((2 * i) as u64) == 0,
    {
        let x = f[i] as u64;
        let ii = i as u64;
        let ghost acc0 = acc;
        proof {
            lemma_pack_step(acc, x, ii);
        }
        acc = acc | (x << (2 * ii));
        proof {
            assert forall|j: int| 0 <= j < 32 implies #[trigger] field(acc, j) == if j == i { x } else { field(acc0, j) } by {
                let jj = j as u64;
                assert((2 * j) as u64 == 2 * jj);
                assert(((acc0 | (x << (2 * ii))) >> (2 * jj)) & 3u64 == if jj == ii { x } else { (acc0 >> (2 * jj)) & 3u64 });
            }
            if i + 1 < 32 {
                assert((2 * (i + 1)) as u64 == 2 * (ii + 1));
            }
        }
    }
    acc
}

fn unpack(key: u64, len: usize, out: &mut Vec<u32>)
    requires
        len <= old(out)@.len(),
        len <= 32,
    ensures
        final(out)@.len() == old(out)@.len(),
        forall|i: int| 0 <= i < len ==> #[trigger] final(out)@[i] == field(key, i) as u32,
        forall|i: int| len <= i < old(out)@.len() ==> #[trigger] final(out)@[i] == old(out)@[i],
{
    let ghost o0 = out@;
    for i in 0..len
        invariant
            len <= o0.len(),
            len <= 32,
            out@.len() == o0.len(),
            forall|j: int| 0 <= j < i ==> #[trigger] out@[j] == field(key, j) as u32,
            forall|j: int| i <= j < o0.len() ==> #[trigger] out@[j] == o0[j],
    {
        let ii = i as u64;
        proof {
            assert((2 * i) as u64 == 2 * ii);
        }
        out.set(i, ((key >> (2 * ii)) & 3) as u32);
    }
}

/// The image of vertex `v` under the coordinate permutation `p`, from the
/// first `b` coordinates.
pub open spec fn vmap_upto(p: Seq<usize>, v: u64, b: int) -> u64
    decreases b,
{
    if b <= 0 {
        0
    } else if (v >> ((b - 1) as u64)) & 1u64 == 1u64 {
        vmap_upto(p, v, b - 1) | (1u64 << (p[b - 1] as u64))
    } else {
        vmap_upto(p, v, b - 1)
    }
}

/// The vertex map of a coordinate permutation on `Q_dim`.
pub open spec fn is_vertex_map(vm: Seq<usize>, p: Seq<usize>, dim: int) -> bool {
    &&& vm.len() == vertex_count(dim)
    &&& forall|v: int| 0 <= v < vm.len() ==> #[trigger] vm[v] as u64 == vmap_upto(p, v as u64, dim)
    &&& forall|v: int| 1 <= v < vm.len() ==> 1 <= #[trigger] vm[v] < vm.len()
}

/// The vertex map of some coordinate permutation.
pub open spec fn is_coord_map(vm: Seq<usize>, dim: int) -> bool {
    exists|p: Seq<usize>| is_perm(p, dim) && #[trigger] is_vertex_map(vm, p, dim)
}

pub open spec fn vertex_count(dim: int) -> int {
    vstd::arithmetic::power2::pow2(dim as nat) as int
}

proof fn lemma_vmap_step(w: u64, v: u64, b: u64, pb: u64, d: u64)
    requires
        d <= 6,
        b < d,
        pb < d,
        v < (1u64 << d),
        w < (1u64 << d),
        w == 0 ==> v & (((1u64 << b) - 1) as u64) == 0,
    ensures
        ((v >> b) & 1u64 == 1u64) ==> (w | (1u64 << pb)) < (1u64 << d) && (w | (1u64 << pb)) != 0,
        ((v >> b) & 1u64 != 1u64) && w == 0 ==> v & (((1u64 << ((b + 1) as u64)) - 1) as u64) == 0,
{
    assert(((v >> b) & 1u64 == 1u64) ==> (w | (1u64 << pb)) < (1u64 << d) && (w | (1u64 << pb)) != 0) by (bit_vector)
        requires
            d <= 6,
            pb < d,
            w < (1u64 << d),
    ;
    assert(((v >> b) & 1u64 != 1u64) && w == 0 ==> v & (((1u64 << ((b + 1) as u64)) - 1) as u64) == 0) by (bit_vector)
        requires
            b < 6,
            w == 0 ==> v & (((1u64 << b) - 1) as u64) == 0,
    ;
}

/// Images of all vertices of `Q_dim` under the coordinate permutation `p`.
fn vertex_map(p: &Vec<usize>, dim: usize) -> (vm: Vec<usize>)
    requires
        1 <= dim <= 5,
        is_perm(p@, dim as int),
    ensures
        is_vertex_map(vm@, p@, dim as int),
{
    proof {
        vstd::bits::lemma_u64_pow2_no_overflow(dim as nat);
        vstd::bits::lemma_u64_shl_is_mul(1, dim as u64);
    }
    let n: u64 = 1u64 << (dim as u64);
    proof {
        assert(n <= 32) by (bit_vector)
            requires dim <= 5, n == 1u64 << (dim as u64);
    }
    let mut vm: Vec<usize> = Vec::new();
    let mut v: u64 = 0;
    while v < n
        invariant
            1 <= dim <= 5,
            is_perm(p@, dim as int),
            n == vstd::arithmetic::power2::pow2(dim as nat),
            n == 1u64 << (dim as u64),
            n <= 32,
            v <= n,
            vm@.len() == v,
            forall|x: int| 0 <= x < v ==> #[trigger] vm@[x] as u64 == vmap_upto(p@, x as u64, dim as int),
            forall|x: int| 1 <= x < v ==> 1 <= #[trigger] vm@[x] < n,
        decreases n - v,
    {
        let mut w: u64 = 0;
        proof {
            assert(v & (((1u64 << 0u64) - 1) as u64) == 0) by (bit_vector);
            assert(vmap_upto(p@, v, 0) == 0);
        }
        for b in 0..dim
            invariant
                1 <= dim <= 5,
                is_perm(p@, dim as int),
                n == 1u64 << (dim as u64),
                v < n,
                w == vmap_upto(p@, v, b as int),
                w < n,
                w == 0 ==> v & (((1u64 << (b as u64)) - 1) as u64) == 0,
        {
            let pb = p[b] as u64;
            proof {
                assert(p@[b as int] < dim);
                lemma_vmap_step(w, v, b as u64, pb, dim as u64);
            }
            if (v >> (b as u64)) & 1 == 1 {
                w = w | (1u64 << pb);
            }
        }
        proof {
            if v != 0 {
                assert(w != 0) by (bit_vector)
                    requires
                        v != 0,
                        v < n,
                        n == 1u64 << (dim as u64),
                        w == 0 ==> v & (((1u64 << (dim as u64)) - 1) as u64) == 0;
            }
        }
        vm.push(w as usize);
        v = v + 1;
    }
    vm
}

/// The packed image of `key` under a vertex map, from vertices `1..v`.
pub open spec fn image_upto(key: u64, vm: Seq<usize>, v: int) -> u64
    decreases v,
{
    if v <= 1 {
        0
    } else {
        image_upto(key, vm, v - 1) | (field(key, v - 2) << ((2 * (vm[v - 1] - 1)) as u64))
    }
}

/// The least packed image of `key` under the first `k` vertex maps
/// (`u64::MAX` for none).
pub open spec fn canon_upto(key: u64, vmaps: Seq<Vec<usize>>, n1: int, k: int) -> u64
    decreases k,
{
    if k <= 0 {
        u64::MAX
    } else {
        let c = canon_upto(key, vmaps, n1, k - 1);
        let img = image_upto(key, vmaps[k - 1]@, n1 + 1);
        if img < c {
            img
        } else {
            c
        }
    }
}

/// Vertex maps on `n1 + 1` vertices, each sending the non-root vertices to
/// non-root vertices.
pub open spec fn maps_ok(vmaps: Seq<Vec<usize>>, n1: int) -> bool {
    forall|k: int|
        0 <= k < vmaps.len() ==> (#[trigger] vmaps[k])@.len() == n1 + 1 && forall|v: int|
            1 <= v <= n1 ==> 1 <= #[trigger] vmaps[k]@[v] <= n1
}

/// The canonical form of a packed key: its least image under the maps.
fn canon_of(key: u64, vmaps: &Vec<Vec<usize>>, n1: usize) -> (c: u64)
    requires
        n1 <= 31,
        maps_ok(vmaps@, n1 as int),
    ensures
        c == canon_upto(key, vmaps@, n1 as int, vmaps@.len() as int),
{
    let mut f: Vec<u32> = Vec::new();
    for i in 0..n1
        invariant
            f@.len() == i,
    {
        f.push(0);
    }
    unpack(key, n1, &mut f);
    let mut best: u64 = u64::MAX;
    for k in 0..vmaps.len()
        invariant
            n1 <= 31,
            maps_ok(vmaps@, n1 as int),
            f@.len() == n1,
            forall|i: int| 0 <= i < n1 ==> #[trigger] f@[i] == field(key, i) as u32,
            best == canon_upto(key, vmaps@, n1 as int, k as int),
    {
        let vm = &vmaps[k];
        let mut img: u64 = 0;
        let mut v: usize = 1;
        while v <= n1
            invariant
                n1 <= 31,
                1 <= v <= n1 + 1,
                vm@.len() == n1 + 1,
                forall|x: int| 1 <= x <= n1 ==> 1 <= #[trigger] vm@[x] <= n1,
                f@.len() == n1,
                forall|i: int| 0 <= i < n1 ==> #[trigger] f@[i] == field(key, i) as u32,
                img == image_upto(key, vm@, v as int),
            decreases n1 + 1 - v,
        {
            let sh = (2 * (vm[v] - 1)) as u64;
            proof {
                assert(vm@[v as int] <= n1);
                let fx = field(key, v - 1);
                assert(fx < 4) by (bit_vector)
                    requires fx == (key >> ((2 * (v - 1)) as u64)) & 3u64;
                assert(f@[v - 1] as u64 == fx);
            }
            img = img | ((f[v - 1] as u64) << sh);
            v = v + 1;
        }
        proof {
            assert(vmaps@[k as int] == vm);
        }
        if img < best {
            best = img;
        }
    }
    best
}

/// Run structure of a sequence: `k` begins a maximal block of equal values.
pub open spec fn run_start(t: Seq<u64>, k: int) -> bool {
    k == 0 || t[k] != t[k - 1]
}

/// Length of the block of values equal to `t[k]` that begins at `k`.
pub open spec fn run_len(t: Seq<u64>, k: int) -> int
    decreases t.len() - k,
{
    if 0 <= k && k + 1 < t.len() && t[k + 1] == t[k] {
        1 + run_len(t, k + 1)
    } else {
        1
    }
}

/// Number of blocks beginning before `k`.
pub open spec fn n_starts(t: Seq<u64>, k: int) -> int
    decreases k,
{
    if k <= 0 {
        0
    } else {
        n_starts(t, k - 1) + if run_start(t, k - 1) {
            1int
        } else {
            0int
        }
    }
}

/// Number of blocks of length `size` beginning before `k`.
pub open spec fn n_runs_of(t: Seq<u64>, size: int, k: int) -> int
    decreases k,
{
    if k <= 0 {
        0
    } else {
        n_runs_of(t, size, k - 1) + if run_start(t, k - 1) && run_len(t, k - 1) == size {
            1int
        } else {
            0int
        }
    }
}

/// Some entry of `h` is for block length `size`.
pub open spec fn has_size(h: Seq<(usize, usize)>, size: int) -> bool {
    exists|a: int| 0 <= a < h.len() && (#[trigger] h[a]).0 == size
}

/// The block-length histogram of `t`: strictly increasing lengths, each with
/// the number of blocks of that length, every block's length listed.
pub open spec fn sizes_ok(h: Seq<(usize, usize)>, t: Seq<u64>) -> bool {
    &&& forall|a: int, b: int| 0 <= a < b < h.len() ==> (#[trigger] h[a]).0 < (#[trigger] h[b]).0
    &&& forall|a: int| 0 <= a < h.len() ==> (#[trigger] h[a]).1 == n_runs_of(t, h[a].0 as int, t.len() as int)
    &&& forall|a: int| 0 <= a < h.len() ==> (#[trigger] h[a]).1 >= 1
    &&& forall|k: int| 0 <= k < t.len() && run_start(t, k) ==> #[trigger] has_size(h, run_len(t, k))
}

pub open spec fn is_sorted_u64(t: Seq<u64>) -> bool {
    forall|i: int, j: int| 0 <= i < j < t.len() ==> t[i] <= t[j]
}

/// What the orbit census reports.
pub struct OrbitReport {
    pub items: usize,
    pub orbits: usize,
    /// orbit size -> number of orbits of that size
    pub size_histogram: Vec<(usize, usize)>,
}

proof fn lemma_run_len(t: Seq<u64>, i: int, j: int)
    requires
        0 <= i < j <= t.len(),
        forall|k: int| i <= k < j ==> #[trigger] t[k] == t[i],
        j == t.len() || t[j] != t[i],
    ensures
        run_len(t, i) == j - i,
    decreases j - i,
{
    if i + 1 < j {
        lemma_run_len(t, i + 1, j);
    }
}

proof fn lemma_runs_inside(t: Seq<u64>, i: int, j: int, size: int)
    requires
        0 <= i < j <= t.len(),
        forall|k: int| i <= k < j ==> #[trigger] t[k] == t[i],
    ensures
        n_starts(t, j) == n_starts(t, i + 1) + 0,
        n_runs_of(t, size, j) == n_runs_of(t, size, i + 1),
    decreases j - i,
{
    if j > i + 1 {
        lemma_runs_inside(t, i, j - 1, size);
        assert(t[j - 1] == t[i] && t[j - 2] == t[i]);
    }
}

proof fn lemma_n_runs_bound(t: Seq<u64>, size: int, k: int)
    requires
        0 <= k,
    ensures
        0 <= n_runs_of(t, size, k) <= k,
    decreases k,
{
    if k > 0 {
        lemma_n_runs_bound(t, size, k - 1);
    }
}

proof fn lemma_n_runs_zero(t: Seq<u64>, size: int, k: int)
    requires
        forall|j: int| 0 <= j < k && run_start(t, j) ==> run_len(t, j) != size,
    ensures
        n_runs_of(t, size, k) == 0,
    decreases k,
{
    if k > 0 {
        lemma_n_runs_zero(t, size, k - 1);
    }
}

/// `sum_{a<k} size_a * count_a` of a block-length histogram, counting the
/// blocks of `t` beginning before `i`.
pub open spec fn hist_weight(h: Seq<(usize, usize)>, t: Seq<u64>, i: int) -> int {
    sum(h.len() as int, |a: int| h[a].0 * n_runs_of(t, h[a].0 as int, i))
}

/// The total length of the blocks of `t` beginning before `i`.
pub open spec fn run_cover(t: Seq<u64>, i: int) -> int
    decreases i,
{
    if i <= 0 {
        0
    } else {
        run_cover(t, i - 1) + if run_start(t, i - 1) {
            run_len(t, i - 1)
        } else {
            0
        }
    }
}

proof fn lemma_run_len_shape(t: Seq<u64>, i: int)
    requires
        0 <= i < t.len(),
    ensures
        1 <= run_len(t, i) <= t.len() - i,
        forall|j: int| i < j < i + run_len(t, i) ==> #[trigger] t[j] == t[j - 1],
        i + run_len(t, i) == t.len() || t[i + run_len(t, i)] != t[i + run_len(t, i) - 1],
    decreases t.len() - i,
{
    if i + 1 < t.len() && t[i + 1] == t[i] {
        lemma_run_len_shape(t, i + 1);
    }
}

proof fn lemma_cover_within(t: Seq<u64>, i: int, j: int)
    requires
        0 <= i < j <= t.len(),
        forall|k: int| i < k < j ==> #[trigger] t[k] == t[k - 1],
    ensures
        run_cover(t, j) == run_cover(t, i + 1),
    decreases j - i,
{
    if j > i + 1 {
        lemma_cover_within(t, i, j - 1);
        assert(!run_start(t, j - 1));
    }
}

/// The blocks beginning before a block start cover exactly the positions
/// before it.
proof fn lemma_run_cover(t: Seq<u64>, i: int)
    requires
        0 <= i <= t.len(),
        i == t.len() || run_start(t, i),
    ensures
        run_cover(t, i) == i,
    decreases i,
{
    if i > 0 {
        // the block holding position i - 1 begins at some start p < i
        let p = lemma_block_start_of(t, i - 1);
        lemma_run_len_shape(t, p);
        lemma_run_cover(t, p);
        let r = run_len(t, p);
        // the block from p ends exactly at i
        if p + r < i {
            assert(t[p + r] != t[p + r - 1]);
            lemma_equal_from(t, p, p + r);
            assert(t[p + r] == t[p]);
            assert(t[p + r - 1] == t[p]) by {
                lemma_equal_from(t, p, p + r - 1);
            }
        } else if p + r > i {
            assert(t[i] == t[i - 1]);
        }
        assert(run_cover(t, p + 1) == p + r);
        lemma_cover_within(t, p, i);
    }
}

/// Positions `p..=j` hold equal values where none of `p + 1..=j` begins a
/// block.
proof fn lemma_equal_from(t: Seq<u64>, p: int, j: int)
    requires
        0 <= p <= j < t.len(),
        forall|k: int| p < k <= j ==> !run_start(t, k),
    ensures
        t[j] == t[p],
    decreases j - p,
{
    if j > p {
        lemma_equal_from(t, p, j - 1);
        assert(!run_start(t, j));
    }
}

/// The start of the block holding position `j`.
proof fn lemma_block_start_of(t: Seq<u64>, j: int) -> (p: int)
    requires
        0 <= j < t.len(),
    ensures
        0 <= p <= j,
        run_start(t, p),
        forall|k: int| p < k <= j ==> !run_start(t, k),
    decreases j,
{
    if run_start(t, j) {
        j
    } else {
        let p = lemma_block_start_of(t, j - 1);
        p
    }
}

/// Counting the blocks by length: `sum size * count` over a block-length
/// histogram equals the total length of the blocks beginning before `i`.
proof fn lemma_hist_weight(h: Seq<(usize, usize)>, t: Seq<u64>, i: int)
    requires
        0 <= i <= t.len(),
        forall|a: int, b: int| 0 <= a < b < h.len() ==> (#[trigger] h[a]).0 < (#[trigger] h[b]).0,
        forall|k: int| 0 <= k < t.len() && run_start(t, k) ==> #[trigger] has_size(h, run_len(t, k)),
    ensures
        hist_weight(h, t, i) == run_cover(t, i),
    decreases i,
{
    let m = h.len() as int;
    if i == 0 {
        let f = |a: int| h[a].0 * n_runs_of(t, h[a].0 as int, 0);
        assert forall|a: int| 0 <= a < m implies #[trigger] f(a) == 0 by {}
        crate::sums::lemma_sum_ext(m, f, |a: int| 0int);
        crate::sums::lemma_sum_zero(m);
    } else {
        let k = i - 1;
        lemma_hist_weight(h, t, k);
        let f0 = |a: int| h[a].0 * n_runs_of(t, h[a].0 as int, k);
        let d = |a: int| if run_start(t, k) && run_len(t, k) == h[a].0 { h[a].0 as int } else { 0int };
        let f1 = |a: int| h[a].0 * n_runs_of(t, h[a].0 as int, i);
        assert forall|a: int| 0 <= a < m implies #[trigger] f1(a) == f0(a) + d(a) by {
            let c = n_runs_of(t, h[a].0 as int, k);
            if run_start(t, k) && run_len(t, k) == h[a].0 {
                assert(n_runs_of(t, h[a].0 as int, i) == c + 1);
                assert(h[a].0 * (c + 1) == h[a].0 * c + h[a].0) by (nonlinear_arith);
            }
        }
        crate::sums::lemma_sum_ext(m, f1, |a: int| f0(a) + d(a));
        crate::sums::lemma_sum_add(m, f0, d);
        if run_start(t, k) {
            assert(has_size(h, run_len(t, k)));
            let a0 = choose|a: int| 0 <= a < h.len() && (#[trigger] h[a]).0 == run_len(t, k);
            assert forall|a: int| 0 <= a < m && a != a0 implies #[trigger] d(a) == 0 by {
                if a < a0 {
                    assert(h[a].0 < h[a0].0);
                } else {
                    assert(h[a0].0 < h[a].0);
                }
            }
            crate::sums::lemma_sum_point(m, d, a0);
        } else {
            assert forall|a: int| 0 <= a < m implies #[trigger] d(a) == 0 by {}
            crate::sums::lemma_sum_ext(m, d, |a: int| 0int);
            crate::sums::lemma_sum_zero(m);
        }
    }
}

/// The orbit sizes account for every item: `sum size * count` over the
/// histogram of a census is the number of keys.
pub proof fn lemma_census_total(dim: int, keys: Seq<u64>, vmaps: Seq<Vec<usize>>, t: Seq<u64>, orbits: int, hist: Seq<(usize, usize)>)
    requires
        census_of(dim, keys, vmaps, t, orbits, hist),
    ensures
        hist_weight(hist, t, t.len() as int) == keys.len(),
{
    lemma_hist_weight(hist, t, t.len() as int);
    lemma_run_cover(t, t.len() as int);
    let cs = Seq::new(keys.len(), |i: int| canon_upto(keys[i], vmaps, vertex_count(dim) - 1, vmaps.len() as int));
    vstd::seq_lib::to_multiset_len(t);
    vstd::seq_lib::to_multiset_len(cs);
}

/// Sorts with rayon's `par_sort_unstable`. Claimed: the result is in
/// increasing order and holds the same values, each as often.
#[verifier::external_body]
fn par_sort(v: &mut Vec<u64>)
    ensures
        final(v)@.to_multiset() == old(v)@.to_multiset(),
        is_sorted_u64(final(v)@),
{
    v.par_sort_unstable();
}

/// The canonical form of every key, computed in parallel by rayon
/// (`par_iter`, `map` to `canon_of`, `collect` into a vector). Claimed: the
/// result has one entry per key, in order, each the key's canonical form.
#[verifier::external_body]
fn par_canon(keys: &[u64], vmaps: &Vec<Vec<usize>>, n1: usize) -> (r: Vec<u64>)
    requires
        n1 <= 31,
        maps_ok(vmaps@, n1 as int),
    ensures
        r@.len() == keys@.len(),
        forall|i: int| 0 <= i < keys@.len() ==> #[trigger] r@[i] == canon_upto(keys@[i], vmaps@, n1 as int, vmaps@.len() as int),
{
    keys.par_iter().map(|&key| canon_of(key, vmaps, n1)).collect()
}

/// The census over the vertex maps `vmaps` of the coordinate permutations
/// that Heap's algorithm lists: `t` is the sorted list of canonical forms of
/// the keys, with `orbits` blocks and block-length histogram `hist`.
pub open spec fn census_of(
    dim: int,
    keys: Seq<u64>,
    vmaps: Seq<Vec<usize>>,
    t: Seq<u64>,
    orbits: int,
    hist: Seq<(usize, usize)>,
) -> bool {
    &&& vmaps.len() == factorial(dim as nat)
    &&& forall|k: int| 0 <= k < vmaps.len() ==> #[trigger] is_coord_map(vmaps[k]@, dim)
    &&& forall|k: int|
        0 <= k < vmaps.len() ==> #[trigger] is_vertex_map(
            vmaps[k]@,
            heap_perms(dim as nat)[k],
            dim,
        )
    &&& all_different(heap_perms(dim as nat))
    &&& heap_perms(dim as nat).len() == vmaps.len()
    &&& forall|q: Seq<usize>| #[trigger] is_perm(q, dim) ==> heap_perms(dim as nat).contains(q)
    &&& is_sorted_u64(t)
    &&& t.to_multiset() == Seq::new(
        keys.len(),
        |i: int| canon_upto(keys[i], vmaps, vertex_count(dim) - 1, vmaps.len() as int),
    ).to_multiset()
    &&& orbits == n_starts(t, t.len() as int)
    &&& sizes_ok(hist, t)
}

/// Orbits of packed maximal parking functions of `Q_dim` under the
/// coordinate permutations: the canonical form of each key is its least
/// image, and the orbits are the blocks of equal canonical forms.
#[verifier::rlimit(40)]
pub fn orbit_census(dim: u32, packed_maximals: &[u64]) -> (r: OrbitReport)
    requires
        1 <= dim <= 5,
    ensures
        r.items == packed_maximals@.len(),
        exists|vmaps: Seq<Vec<usize>>, t: Seq<u64>| #[trigger] census_of(dim as int, packed_maximals@, vmaps, t, r.orbits as int, r.size_histogram@),
{
    proof {
        vstd::bits::lemma_u64_pow2_no_overflow(dim as nat);
        vstd::bits::lemma_u64_shl_is_mul(1, dim as u64);
    }
    let nv: u64 = 1u64 << (dim as u64);
    proof {
        assert(2 <= nv <= 32) by (bit_vector)
            requires 1 <= dim <= 5, nv == 1u64 << (dim as u64);
    }
    let n1: usize = (nv - 1) as usize;
    let perms = permutations(dim as usize);
    let mut vmaps: Vec<Vec<usize>> = Vec::new();
    for k in 0..perms.len()
        invariant
            1 <= dim <= 5,
            nv == vstd::arithmetic::power2::pow2(dim as nat),
            n1 == nv - 1,
            n1 <= 31,
            forall|i: int| 0 <= i < perms@.len() ==> is_perm(#[trigger] perms@[i]@, dim as int),
            vmaps@.len() == k,
            forall|i: int| 0 <= i < k ==> #[trigger] is_vertex_map(vmaps@[i]@, perms@[i]@, dim as int),
    {
        let vm = vertex_map(&perms[k], dim as usize);
        vmaps.push(vm);
    }
    proof {
        assert(maps_ok(vmaps@, n1 as int)) by {
            assert forall|k: int| 0 <= k < vmaps@.len() implies (#[trigger] vmaps@[k])@.len() == n1 + 1 && forall|v: int|
                1 <= v <= n1 ==> 1 <= #[trigger] vmaps@[k]@[v] <= n1 by {
                assert(is_vertex_map(vmaps@[k]@, perms@[k]@, dim as int));
            }
        }
    }
    let canon = par_canon(packed_maximals, &vmaps, n1);
    let ghost cseq = canon@;
    let mut sorted = canon;
    par_sort(&mut sorted);
    let ghost t = sorted@;
    let len = sorted.len();
    let mut orbits: usize = 0;
    let mut hist: Vec<(usize, usize)> = Vec::new();
    let mut i: usize = 0;
    while i < len
        invariant
            len == t.len(),
            t == sorted@,
            i <= len,
            i < len ==> run_start(t, i as int),
            orbits == n_starts(t, i as int),
            orbits <= i,
            forall|a: int, b: int| 0 <= a < b < hist@.len() ==> (#[trigger] hist@[a]).0 < (#[trigger] hist@[b]).0,
            forall|a: int| 0 <= a < hist@.len() ==> (#[trigger] hist@[a]).1 == n_runs_of(t, hist@[a].0 as int, i as int),
            forall|a: int| 0 <= a < hist@.len() ==> (#[trigger] hist@[a]).1 >= 1,
            forall|k: int| 0 <= k < i && run_start(t, k) ==> #[trigger] has_size(hist@, run_len(t, k)),
            forall|sz: int| !has_size(hist@, sz) ==> #[trigger] n_runs_of(t, sz, i as int) == 0,
        decreases len - i,
    {
        let mut j = i;
        while j < len && sorted[j] == sorted[i]
            invariant
                t == sorted@,
                len == t.len(),
                i < len,
                i <= j <= len,
                forall|k: int| i <= k < j ==> #[trigger] t[k] == t[i as int],
            decreases len - j,
        {
            j += 1;
        }
        if j == i {
            j = i + 1;
        }
        let size = j - i;
        proof {
            assert(t[i as int] == t[i as int]);
            lemma_run_len(t, i as int, j as int);
            assert forall|sz: int| #[trigger] n_runs_of(t, sz, j as int) == n_runs_of(t, sz, i as int) + if sz == size {
                1int
            } else {
                0int
            } by {
                lemma_runs_inside(t, i as int, j as int, sz);
            }
            lemma_runs_inside(t, i as int, j as int, 0);
            assert(n_starts(t, i + 1) == n_starts(t, i as int) + 1);
        }
        orbits += 1;
        // record one block of this size
        let mut p: usize = 0;
        while p < hist.len() && hist[p].0 < size
            invariant
                p <= hist@.len(),
                forall|a: int| 0 <= a < p ==> (#[trigger] hist@[a]).0 < size,
            decreases hist@.len() - p,
        {
            p += 1;
        }
        let ghost h0 = hist@;
        if p < hist.len() && hist[p].0 == size {
            let (s0, c0) = hist[p];
            proof {
                lemma_n_runs_bound(t, size as int, i as int);
            }
            hist.set(p, (s0, c0 + 1));
            proof {
                assert forall|a: int| 0 <= a < hist@.len() implies (#[trigger] hist@[a]).1 >= 1 by {
                    if a != p {
                        assert(hist@[a] == h0[a]);
                    }
                }
                assert forall|a: int, b: int| 0 <= a < b < hist@.len() implies (#[trigger] hist@[a]).0 < (#[trigger] hist@[b]).0 by {
                    assert(hist@[a].0 == h0[a].0 && hist@[b].0 == h0[b].0);
                }
                assert forall|a: int| 0 <= a < hist@.len() implies (#[trigger] hist@[a]).1 == n_runs_of(t, hist@[a].0 as int, j as int) by {
                    assert(hist@[a].0 == h0[a].0);
                    if a != p {
                        assert(h0[a].0 != size) by {
                            if a < p {
                                assert(h0[a].0 < h0[p as int].0);
                            } else {
                                assert(h0[p as int].0 < h0[a].0);
                            }
                        }
                    }
                }
                assert forall|k: int| 0 <= k < j && run_start(t, k) implies #[trigger] has_size(hist@, run_len(t, k)) by {
                    if k < i {
                        assert(has_size(h0, run_len(t, k)));
                        let a = choose|a: int| 0 <= a < h0.len() && (#[trigger] h0[a]).0 == run_len(t, k);
                        assert(hist@[a].0 == h0[a].0);
                    } else if k == i {
                        assert(hist@[p as int].0 == size);
                    } else {
                        assert(t[k] == t[i as int] && t[k - 1] == t[i as int]);
                    }
                }
                assert forall|sz: int| !has_size(hist@, sz) implies #[trigger] n_runs_of(t, sz, j as int) == 0 by {
                    if has_size(h0, sz) {
                        let a = choose|a: int| 0 <= a < h0.len() && (#[trigger] h0[a]).0 == sz;
                        assert(hist@[a].0 == h0[a].0);
                    }
                    if sz == size {
                        assert(hist@[p as int].0 == size);
                    }
                }
            }
        } else {
            proof {
                assert(!has_size(h0, size as int)) by {
                    if has_size(h0, size as int) {
                        let a = choose|a: int| 0 <= a < h0.len() && (#[trigger] h0[a]).0 == size;
                        if a > p {
                            assert(h0[p as int].0 < h0[a].0);
                        }
                    }
                }
            }
            hist.insert(p, (size, 1));
            proof {
                assert forall|a: int| 0 <= a < hist@.len() implies (#[trigger] hist@[a]).1 >= 1 by {
                    if a < p {
                        assert(hist@[a] == h0[a]);
                    } else if a > p {
                        assert(hist@[a] == h0[a - 1]);
                    }
                }
                assert forall|a: int, b: int| 0 <= a < b < hist@.len() implies (#[trigger] hist@[a]).0 < (#[trigger] hist@[b]).0 by {
                    if b < p {
                        assert(hist@[a] == h0[a] && hist@[b] == h0[b]);
                    } else if b == p {
                        assert(hist@[a] == h0[a]);
                    } else if a < p {
                        assert(hist@[a] == h0[a] && hist@[b] == h0[b - 1]);
                        assert(h0[p as int].0 > size);
                    } else if a == p {
                        assert(hist@[b] == h0[b - 1]);
                        assert(h0[p as int].0 > size);
                        if b - 1 > p {
                            assert(h0[p as int].0 < h0[b - 1].0);
                        }
                    } else {
                        assert(hist@[a] == h0[a - 1] && hist@[b] == h0[b - 1]);
                    }
                }
                assert forall|a: int| 0 <= a < hist@.len() implies (#[trigger] hist@[a]).1 == n_runs_of(t, hist@[a].0 as int, j as int) by {
                    if a < p {
                        assert(hist@[a] == h0[a]);
                        assert(h0[a].0 != size);
                    } else if a > p {
                        assert(hist@[a] == h0[a - 1]);
                        assert(h0[a - 1].0 != size) by {
                            if a - 1 > p {
                                assert(h0[p as int].0 < h0[a - 1].0);
                            }
                        }
                    } else {
                        assert(n_runs_of(t, size as int, i as int) == 0);
                    }
                }
                assert forall|k: int| 0 <= k < j && run_start(t, k) implies #[trigger] has_size(hist@, run_len(t, k)) by {
                    if k < i {
                        assert(has_size(h0, run_len(t, k)));
                        let a = choose|a: int| 0 <= a < h0.len() && (#[trigger] h0[a]).0 == run_len(t, k);
                        if a < p {
                            assert(hist@[a] == h0[a]);
                        } else {
                            assert(hist@[a + 1] == h0[a]);
                        }
                    } else if k == i {
                        assert(hist@[p as int].0 == size);
                    } else {
                        assert(t[k] == t[i as int] && t[k - 1] == t[i as int]);
                    }
                }
                assert forall|sz: int| !has_size(hist@, sz) implies #[trigger] n_runs_of(t, sz, j as int) == 0 by {
                    if has_size(h0, sz) {
                        let a = choose|a: int| 0 <= a < h0.len() && (#[trigger] h0[a]).0 == sz;
                        if a < p {
                            assert(hist@[a] == h0[a]);
                        } else {
                            assert(hist@[a + 1] == h0[a]);
                        }
                    }
                    if sz == size {
                        assert(hist@[p as int].0 == size);
                    }
                }
            }
        }
        proof {
            if j < len {
                assert(t[j as int] != t[i as int]);
                assert(t[j - 1] == t[i as int]);
            }
        }
        i = j;
    }
    proof {
        let keys = packed_maximals@;
        let cs = Seq::new(
            keys.len(),
            |i: int| canon_upto(keys[i], vmaps@, vertex_count(dim as int) - 1, vmaps@.len() as int),
        );
        assert(cs =~= cseq);
        assert forall|k: int| 0 <= k < vmaps@.len() implies #[trigger] is_coord_map(vmaps@[k]@, dim as int) by {
            assert(is_perm(perms@[k]@, dim as int));
            assert(is_vertex_map(vmaps@[k]@, perms@[k]@, dim as int));
        }
        assert forall|k: int| 0 <= k < vmaps@.len() implies #[trigger] is_vertex_map(
            vmaps@[k]@,
            heap_perms(dim as nat)[k],
            dim as int,
        ) by {
            assert(is_vertex_map(vmaps@[k]@, perms@[k]@, dim as int));
            assert(views_usize(perms@)[k] == perms@[k]@);
        }
        assert(perms@.len() == factorial(dim as nat));
        assert(views_usize(perms@).len() == perms@.len());
        assert forall|q: Seq<usize>| #[trigger] is_perm(q, dim as int) implies heap_perms(dim as nat).contains(q) by {
            lemma_heap_perms_complete(dim as nat, q);
        }
        assert(census_of(dim as int, keys, vmaps@, t, orbits as int, hist@));
    }
    let r = OrbitReport { items: packed_maximals.len(), orbits, size_histogram: hist };
    proof {
        assert(census_of(dim as int, packed_maximals@, vmaps@, t, r.orbits as int, r.size_histogram@));
    }
    r
}

// ---------------------------------------------------------------------------
// The BCT canonical box dom(f^n), f^n(v) = wgt(v) - 1, mapped into the
// sandpile group: are its classes distinct, and do they form a subgroup?
// ---------------------------------------------------------------------------

/// Limits as integers.
pub open spec fn lims(v: Seq<u32>) -> Seq<int> {
    v.map_values(|x: u32| x as int)
}

/// Every point `x` with `0 <= x[i] < lim[i]`, each once, in increasing
/// colexicographic order.
pub(crate) fn box_points(lim: &Vec<u32>) -> (out: Vec<Vec<u32>>)
    requires
        lim@.len() >= 1,
        forall|i: int| 0 <= i < lim@.len() ==> #[trigger] lim@[i] >= 1,
    ensures
        forall|i: int| 0 <= i < out@.len() ==> #[trigger] crate::dhar::in_box(out@[i]@, lims(lim@)),
        forall|x: Seq<u32>| #[trigger] crate::dhar::in_box(x, lims(lim@)) ==> exists|i: int|
            0 <= i < out@.len() && #[trigger] out@[i]@ == x,
        forall|i: int, j: int| 0 <= i < j < out@.len() ==> colex_lt(#[trigger] out@[i]@, #[trigger] out@[j]@),
{
    let ghost lv = lims(lim@);
    let len = lim.len();
    let mut f: Vec<u32> = Vec::new();
    for _i in 0..len
        invariant
            f@.len() == _i,
            forall|k: int| 0 <= k < f@.len() ==> #[trigger] f@[k] == 0u32,
    {
        f.push(0);
    }
    let mut out: Vec<Vec<u32>> = Vec::new();
    proof {
        assert(lv.len() == len);
        assert forall|i: int| 0 <= i < lv.len() implies #[trigger] lv[i] >= 1 by {
            assert(lv[i] == lim@[i] as int);
        }
        assert(crate::dhar::in_box(f@, lv));
        crate::dhar::lemma_rank_bound(f@, lv, lv.len() as int);
    }
    loop
        invariant
            len == lim@.len(),
            len >= 1,
            lv == lims(lim@),
            lv.len() == len,
            forall|i: int| 0 <= i < len ==> #[trigger] lv[i] == lim@[i] as int,
            forall|i: int| 0 <= i < lv.len() ==> #[trigger] lv[i] >= 1,
            f@.len() == len,
            crate::dhar::in_box(f@, lv),
            forall|i: int| 0 <= i < out@.len() ==> #[trigger] crate::dhar::in_box(out@[i]@, lv),
            forall|i: int| 0 <= i < out@.len() ==> colex_lt(#[trigger] out@[i]@, f@),
            forall|x: Seq<u32>|
                #[trigger] crate::dhar::in_box(x, lv) && colex_lt(x, f@) ==> exists|i: int|
                    0 <= i < out@.len() && #[trigger] out@[i]@ == x,
            forall|i: int, j: int| 0 <= i < j < out@.len() ==> colex_lt(#[trigger] out@[i]@, #[trigger] out@[j]@),
        decreases crate::dhar::place(lv, lv.len() as int) - crate::dhar::rank(f@, lv, lv.len() as int),
    {
        let ghost cur = f@;
        let ghost out0 = out@;
        out.push(crate::vecs::copy_u32s(f.as_slice()));
        proof {
            assert forall|i: int, j: int| 0 <= i < j < out@.len() implies colex_lt(#[trigger] out@[i]@, #[trigger] out@[j]@) by {
                if j == out@.len() - 1 {
                    assert(out@[i] == out0[i]);
                } else {
                    assert(out@[i] == out0[i]);
                    assert(out@[j] == out0[j]);
                }
            }
            assert forall|i: int| 0 <= i < out@.len() implies #[trigger] crate::dhar::in_box(out@[i]@, lv) by {
                if i < out0.len() {
                    assert(out@[i] == out0[i]);
                }
            }
        }
        let ghost out1 = out@;
        proof {
            assert(forall|i: int| 0 <= i < out1.len() ==> out1[i]@ == cur || colex_lt(#[trigger] out1[i]@, cur));
            assert forall|y: Seq<u32>| #[trigger] crate::dhar::in_box(y, lv) && (colex_lt(y, cur) || y == cur) implies exists|i: int|
                0 <= i < out1.len() && #[trigger] out1[i]@ == y by {
                if colex_lt(y, cur) {
                    let i = choose|i: int| 0 <= i < out0.len() && #[trigger] out0[i]@ == y;
                    assert(out1[i] == out0[i]);
                } else {
                    assert(out1[out1.len() - 1]@ == y);
                }
            }
        }
        let mut i: usize = 0;
        loop
            invariant_except_break
                forall|k: int| i <= k < len ==> #[trigger] f@[k] == cur[k],
            invariant
                len == lim@.len(),
                0 <= i <= len,
                forall|k: int| 0 <= k < len ==> #[trigger] lv[k] == lim@[k] as int,
                f@.len() == len,
                cur.len() == len,
                crate::dhar::in_box(cur, lv),
                forall|k: int| 0 <= k < i ==> #[trigger] f@[k] == 0 && cur[k] == lv[k] - 1,
            ensures
                i == len ==> forall|k: int| 0 <= k < cur.len() ==> #[trigger] cur[k] == lv[k] - 1,
                i < len ==> f@[i as int] == cur[i as int] + 1 && f@[i as int] < lv[i as int] && (forall|k: int|
                    0 <= k < i ==> #[trigger] f@[k] == 0) && (forall|k: int| i < k < len ==> #[trigger] f@[k] == cur[k]),
                f@.len() == len,
            decreases len - i,
        {
            if i == len {
                proof {
                    assert forall|k: int| 0 <= k < cur.len() implies #[trigger] cur[k] == lv[k] - 1 by {
                        assert(f@[k] == 0);
                    }
                }
                break;
            }
            assert(f@[i as int] == cur[i as int] && cur[i as int] < lv[i as int]);
            f.set(i, f[i] + 1);
            if f[i] < lim[i] {
                break;
            }
            f.set(i, 0);
            i += 1;
        }
        if i == len {
            proof {
                assert forall|y: Seq<u32>| #[trigger] crate::dhar::in_box(y, lv) implies exists|k: int|
                    0 <= k < out@.len() && #[trigger] out@[k]@ == y by {
                    assert forall|k: int| 0 <= k < y.len() implies #[trigger] y[k] <= cur[k] by {
                        assert(y[k] < lv[k]);
                    }
                    crate::dhar::lemma_colex_le(y, cur, y.len() as int);
                }
            }
            return out;
        }
        proof {
            let nxt = f@;
            let p = i as int;
            assert forall|k: int| 0 <= k < p implies #[trigger] cur[k] == lv[k] - 1 && nxt[k] == 0 by {
                assert(f@[k] == 0);
            }
            assert(crate::dhar::in_box(nxt, lv)) by {
                assert forall|k: int| 0 <= k < nxt.len() implies #[trigger] nxt[k] < lv[k] by {
                    if k < p {
                        assert(nxt[k] == 0);
                    } else if k > p {
                        assert(nxt[k] == cur[k]);
                    }
                }
            }
            crate::dhar::lemma_rank_succ(cur, nxt, lv, p);
            crate::dhar::lemma_rank_bound(nxt, lv, lv.len() as int);
            assert forall|y: Seq<u32>| crate::dhar::in_box(y, lv) implies (colex_lt(y, nxt) <==> (colex_lt(y, cur) || y == cur)) by {
                crate::dhar::lemma_colex_succ(cur, nxt, y, lv, p);
            }
            assert forall|k: int| 0 <= k < out@.len() implies colex_lt(#[trigger] out@[k]@, nxt) by {
                assert(crate::dhar::in_box(out@[k]@, lv));
            }
        }
    }
}

/// Number of set bits of `v` below position `b`.
pub open spec fn popcount(v: u64, b: int) -> int
    decreases b,
{
    if b <= 0 {
        0
    } else {
        popcount(v, b - 1) + if (v >> ((b - 1) as u64)) & 1u64 == 1u64 {
            1int
        } else {
            0int
        }
    }
}

fn count_ones(v: u64) -> (c: u32)
    ensures
        c == popcount(v, 64),
{
    let mut c: u32 = 0;
    for b in 0..64u64
        invariant
            c == popcount(v, b as int),
            c <= b,
    {
        if (v >> b) & 1 == 1 {
            c += 1;
        }
    }
    c
}

/// The limits of the BCT canonical box on `n` vertices: vertex `v` ranges
/// over `0..popcount(v)`.
pub open spec fn box_lims(n: int) -> Seq<int> {
    Seq::new((n - 1) as nat, |i: int| popcount((i + 1) as u64, 64))
}

/// `prod_{i<k} lim[i]`.
pub open spec fn lim_prod(lim: Seq<int>, k: int) -> int
    decreases k,
{
    if k <= 0 {
        1
    } else {
        lim_prod(lim, k - 1) * lim[k - 1]
    }
}

/// The class keys of the points of a box.
pub open spec fn box_keys(f: Seq<i128>, u: Seq<Vec<i128>>, lim: Seq<int>) -> Set<int> {
    Set::new(|k: int| exists|x: Seq<u32>| crate::dhar::in_box(x, lim) && #[trigger] key_upto(f, u, x, f.len() as int) == k)
}

/// Whether the set of keys is closed under the componentwise sum, when the
/// check is small enough to run.
pub open spec fn subgroup_spec(f: Seq<i128>, s: Set<int>) -> Option<bool> {
    if s.len() * s.len() > 2_000_000_000 {
        None
    } else {
        Some(forall|a: int, b: int| s.contains(a) && s.contains(b) ==> #[trigger] s.contains(key_sum_upto(f, a, b, f.len() as int)))
    }
}

/// Number of factors `d > 1` that are even.
pub open spec fn even_count(f: Seq<i128>, k: int) -> int
    decreases k,
{
    if k <= 0 {
        0
    } else {
        even_count(f, k - 1) + if f[k - 1] > 1 && f[k - 1] % 2 == 0 {
            1int
        } else {
            0int
        }
    }
}

proof fn lemma_key_sum_comm(f: Seq<i128>, a: int, b: int, i: int)
    ensures
        key_sum_upto(f, a, b, i) == key_sum_upto(f, b, a, i),
    decreases i,
{
    if i > 0 {
        lemma_key_sum_comm(f, a, b, i - 1);
    }
}

/// What the box-map experiment reports.
pub struct BoxmapReport {
    pub box_volume: u128,
    pub distinct_classes: usize,
    pub contains_zero: bool,
    pub is_subgroup: Option<bool>,
    pub group_order: u128,
    pub two_rank: usize,
}

/// The keys of a list, as a set of integers.
pub open spec fn class_set(v: Seq<u128>) -> Set<int> {
    v.map_values(|x: u128| x as int).to_set()
}

/// Whether a sorted list holds `x`.
fn sorted_contains(v: &Vec<u128>, x: u128) -> (r: bool)
    ensures
        r == v@.contains(x),
{
    for i in 0..v.len()
        invariant
            forall|k: int| 0 <= k < i ==> v@[k] != x,
    {
        if v[i] == x {
            proof {
                assert(v@[i as int] == x);
            }
            return true;
        }
    }
    false
}

/// Closure under addition; None if the check was skipped for size.
fn subgroup_check(sp: &SandpileGroup, classes: &Vec<u128>) -> (r: Option<bool>)
    requires
        classes@.no_duplicates(),
        forall|k: int| 0 <= k <= sp.factors@.len() ==> #[trigger] stride_upto(sp.factors@, k) <= u128::MAX,
    ensures
        r == subgroup_spec(sp.factors@, class_set(classes@)),
{
    let ghost f = sp.factors@;
    let ghost cs = classes@.map_values(|x: u128| x as int);
    let ghost set = cs.to_set();
    let m = classes.len();
    proof {
        assert(set == class_set(classes@));
    }
    proof {
        assert(cs.no_duplicates()) by {
            assert forall|i: int, j: int| 0 <= i < cs.len() && 0 <= j < cs.len() && i != j implies cs[i] != cs[j] by {
                assert(classes@[i] != classes@[j]);
            }
        }
        cs.unique_seq_to_set();
        assert forall|a: int| #[trigger] set.contains(a) <==> exists|i: int| 0 <= i < m && classes@[i] as int == a by {
            if set.contains(a) {
                let i = choose|i: int| 0 <= i < cs.len() && cs[i] == a;
            }
            if exists|i: int| 0 <= i < m && classes@[i] as int == a {
                let i = choose|i: int| 0 <= i < m && classes@[i] as int == a;
                assert(cs[i] == a);
            }
        }
    }
    let too_big = match (m as u128).checked_mul(m as u128) {
        Some(sq) => sq > 2_000_000_000,
        None => true,
    };
    if too_big {
        return None;
    }
    for i in 0..m
        invariant
            m == classes@.len(),
            f == sp.factors@,
            cs == classes@.map_values(|x: u128| x as int),
            set == cs.to_set(),
            set == class_set(classes@),
            set.len() == m,
            m * m <= 2_000_000_000,
            forall|k: int| 0 <= k <= f.len() ==> #[trigger] stride_upto(f, k) <= u128::MAX,
            forall|a: int| #[trigger] set.contains(a) <==> exists|i: int| 0 <= i < m && classes@[i] as int == a,
            forall|i2: int, j: int|
                0 <= i2 < i && i2 <= j < m ==> #[trigger] set.contains(key_sum_upto(f, classes@[i2] as int, classes@[j] as int, f.len() as int)),
    {
        for j in i..m
            invariant
                m == classes@.len(),
                i < m,
                f == sp.factors@,
                set == cs.to_set(),
                set == class_set(classes@),
                set.len() == m,
                m * m <= 2_000_000_000,
                forall|k: int| 0 <= k <= f.len() ==> #[trigger] stride_upto(f, k) <= u128::MAX,
                forall|a: int| #[trigger] set.contains(a) <==> exists|i: int| 0 <= i < m && classes@[i] as int == a,
                forall|i2: int, j2: int|
                    (0 <= i2 < i && i2 <= j2 < m) || (i2 == i && i <= j2 < j) ==> #[trigger] set.contains(
                        key_sum_upto(f, classes@[i2] as int, classes@[j2] as int, f.len() as int),
                    ),
        {
            let s = sp.key_add(classes[i], classes[j]);
            if !sorted_contains(classes, s) {
                proof {
                    let a = classes@[i as int] as int;
                    let b = classes@[j as int] as int;
                    assert(set.contains(a));
                    assert(set.contains(b));
                    if set.contains(key_sum_upto(f, a, b, f.len() as int)) {
                        let k = choose|k: int| 0 <= k < m && classes@[k] as int == key_sum_upto(f, a, b, f.len() as int);
                        assert(classes@[k] == s);
                    }
                    assert(!(forall|a: int, b: int| set.contains(a) && set.contains(b) ==> #[trigger] set.contains(key_sum_upto(f, a, b, f.len() as int))));
                }
                return Some(false);
            }
            proof {
                let k = choose|k: int| 0 <= k < classes@.len() && classes@[k] == s;
                assert(set.contains(classes@[k] as int));
            }
        }
    }
    proof {
        assert forall|a: int, b: int| set.contains(a) && set.contains(b) implies #[trigger] set.contains(key_sum_upto(f, a, b, f.len() as int)) by {
            let ia = choose|i: int| 0 <= i < m && classes@[i] as int == a;
            let ib = choose|i: int| 0 <= i < m && classes@[i] as int == b;
            if ia <= ib {
                assert(set.contains(key_sum_upto(f, classes@[ia] as int, classes@[ib] as int, f.len() as int)));
            } else {
                assert(set.contains(key_sum_upto(f, classes@[ib] as int, classes@[ia] as int, f.len() as int)));
                lemma_key_sum_comm(f, a, b, f.len() as int);
            }
        }
    }
    Some(true)
}

proof fn lemma_popcount_mask(v: u64, b: u64)
    requires
        b <= 63,
    ensures
        popcount(v, b as int) == 0 ==> v & (((1u64 << b) - 1) as u64) == 0,
    decreases b,
{
    if b == 0 {
        assert(v & (((1u64 << 0u64) - 1) as u64) == 0) by (bit_vector);
    } else {
        let c = (b - 1) as u64;
        lemma_popcount_mask(v, c);
        lemma_popcount_bound(v, c as int);
        assert(((v >> c) & 1u64 != 1u64) && v & (((1u64 << c) - 1) as u64) == 0 ==> v & (((1u64 << ((c + 1) as u64))
            - 1) as u64) == 0) by (bit_vector)
            requires c < 63;
        assert(b == c + 1);
    }
}

proof fn lemma_popcount_pos(v: u64)
    requires
        v != 0,
    ensures
        1 <= popcount(v, 64) <= 64,
{
    lemma_popcount_bound(v, 64);
    lemma_popcount_mask(v, 63);
    lemma_popcount_bound(v, 63);
    if popcount(v, 64) == 0 {
        assert(popcount(v, 63) == 0);
        assert((v >> 63u64) & 1u64 != 1u64);
        assert(v == 0) by (bit_vector)
            requires
                v & (((1u64 << 63u64) - 1) as u64) == 0,
                (v >> 63u64) & 1u64 != 1u64;
    }
}

proof fn lemma_popcount_bound(v: u64, b: int)
    requires
        0 <= b,
    ensures
        0 <= popcount(v, b) <= b,
    decreases b,
{
    if b > 0 {
        lemma_popcount_bound(v, b - 1);
    }
}

impl SandpileGroup {
    /// The product of the factors, or `None` where a partial product leaves
    /// `u128`.
    pub fn order_checked(&self) -> (r: Option<u128>)
        requires
            forall|i: int| 0 <= i < self.factors@.len() ==> 0 <= #[trigger] self.factors@[i],
        ensures
            match r {
                Some(v) => v == factor_prod(self.factors@, self.factors@.len() as int),
                None => true,
            },
            r is Some <==> forall|k: int| 0 <= k <= self.factors@.len() ==> #[trigger] factor_prod(self.factors@, k) <= u128::MAX,
    {
        let mut r: u128 = 1;
        for i in 0..self.factors.len()
            invariant
                forall|i: int| 0 <= i < self.factors@.len() ==> 0 <= #[trigger] self.factors@[i],
                r == factor_prod(self.factors@, i as int),
                forall|k: int| 0 <= k <= i ==> #[trigger] factor_prod(self.factors@, k) <= u128::MAX,
        {
            r = match r.checked_mul(self.factors[i] as u128) {
                Some(z) => z,
                None => {
                    proof {
                        assert(factor_prod(self.factors@, i + 1) > u128::MAX);
                    }
                    return None;
                },
            };
        }
        Some(r)
    }
}

/// Every value that the box-map experiment computes fits its integer
/// type: the partial box volumes, the class keys of the box points, and the
/// partial products of the factors.
pub open spec fn boxmap_fits(f: Seq<i128>, u: Seq<Vec<i128>>, lim: Seq<int>) -> bool {
    &&& forall|k: int| 0 <= k <= lim.len() ==> #[trigger] lim_prod(lim, k) <= u128::MAX
    &&& forall|x: Seq<u32>| #[trigger] crate::dhar::in_box(x, lim) ==> key_fits(f, u, x)
    &&& forall|k: int| 0 <= k <= f.len() ==> #[trigger] factor_prod(f, k) <= u128::MAX
}

/// The image of the BCT canonical box of `Q_dim` in the sandpile group:
/// vertex `v` ranges over `0..popcount(v)`; the report gives the box volume,
/// the number of distinct classes, whether the identity class is hit,
/// whether the classes are closed under addition, the group order and the
/// number of even invariant factors. `None` where a value leaves its
/// integer type.
#[verifier::rlimit(40)]
pub fn boxmap_experiment(g: &Graph, dim: u32, sp: &SandpileGroup) -> (r: Option<BoxmapReport>)
    requires
        g.wf(),
        1 <= dim <= 6,
        g.n == vstd::arithmetic::power2::pow2(dim as nat),
        sp.factors@.len() == g.n - 1,
        is_square_mat(sp.u@, g.n - 1),
        forall|i: int| 0 <= i < sp.factors@.len() ==> 0 <= #[trigger] sp.factors@[i],
    ensures
        match r {
            Some(rep) => {
                let f = sp.factors@;
                let lim = box_lims(g.n as int);
                let keys = box_keys(f, sp.u@, lim);
                &&& rep.box_volume == lim_prod(lim, lim.len() as int)
                &&& rep.distinct_classes == keys.len()
                &&& rep.contains_zero == keys.contains(key_upto(f, sp.u@, Seq::new((g.n - 1) as nat, |i: int| 0u32), f.len() as int))
                &&& rep.is_subgroup == subgroup_spec(f, keys)
                &&& rep.group_order == factor_prod(f, f.len() as int)
                &&& rep.two_rank == even_count(f, f.len() as int)
            },
            None => true,
        },
        r is Some <==> boxmap_fits(sp.factors@, sp.u@, box_lims(g.n as int)),
{
    let n = g.n;
    let ghost f = sp.factors@;
    let ghost lim = box_lims(n as int);
    let mut ranges: Vec<u32> = Vec::new();
    for v in 1..n
        invariant
            n == g.n,
            2 <= n <= 64,
            ranges@.len() == v - 1,
            forall|i: int| 0 <= i < ranges@.len() ==> #[trigger] ranges@[i] as int == popcount((i + 1) as u64, 64) && ranges@[i] >= 1,
    {
        let c = count_ones(v as u64);
        proof {
            lemma_popcount_pos(v as u64);
        }
        ranges.push(c);
    }
    proof {
        assert(lims(ranges@) =~= lim);
    }
    let mut box_volume: u128 = 1;
    for i in 0..ranges.len()
        invariant
            lims(ranges@) == lim,
            lim == box_lims(g.n as int),
            f == sp.factors@,
            box_volume == lim_prod(lim, i as int),
            forall|k: int| 0 <= k <= i ==> #[trigger] lim_prod(lim, k) <= u128::MAX,
            forall|k: int| 0 <= k < ranges@.len() ==> #[trigger] ranges@[k] >= 1,
    {
        proof {
            assert(lim[i as int] == ranges@[i as int] as int);
        }
        box_volume = match box_volume.checked_mul(ranges[i] as u128) {
            Some(z) => z,
            None => {
                proof {
                    assert(lim_prod(lim, i + 1) > u128::MAX);
                    assert(!boxmap_fits(f, sp.u@, lim));
                }
                return None;
            },
        };
    }
    let pts = box_points(&ranges);
    let mut classes: Vec<u128> = Vec::new();
    for i in 0..pts.len()
        invariant
            n == g.n,
            f == sp.factors@,
            f.len() == n - 1,
            is_square_mat(sp.u@, n - 1),
            lims(ranges@) == lim,
            lim == box_lims(g.n as int),
            lim.len() == n - 1,
            forall|k: int| 0 <= k < pts@.len() ==> #[trigger] crate::dhar::in_box(pts@[k]@, lim),
            forall|a: int, b: int| 0 <= a < b < classes@.len() ==> classes@[a] < classes@[b],
            forall|x: int| #[trigger] class_set(classes@).contains(x) <==> exists|k: int|
                0 <= k < i && key_fits(f, sp.u@, pts@[k]@) && #[trigger] key_upto(f, sp.u@, pts@[k]@, f.len() as int) == x,
            forall|k: int| 0 <= k < i ==> key_fits(f, sp.u@, #[trigger] pts@[k]@),
    {
        proof {
            assert(crate::dhar::in_box(pts@[i as int]@, lim));
        }
        let key = match sp.class_key_checked(pts[i].as_slice()) {
            Some(k) => k,
            None => {
                proof {
                    assert(!key_fits(f, sp.u@, pts@[i as int]@));
                    assert(!boxmap_fits(f, sp.u@, lim));
                }
                return None;
            },
        };
        let ghost c0 = classes@;
        let mut p: usize = 0;
        while p < classes.len() && classes[p] < key
            invariant
                p <= classes@.len(),
                forall|a: int| 0 <= a < p ==> classes@[a] < key,
            decreases classes@.len() - p,
        {
            p += 1;
        }
        proof {
            lemma_key_below_stride(f, sp.u@, pts@[i as int]@, f.len() as int);
            assert(key as int == key_upto(f, sp.u@, pts@[i as int]@, f.len() as int));
        }
        if !(p < classes.len() && classes[p] == key) {
            classes.insert(p, key);
            proof {
                assert forall|a: int, b: int| 0 <= a < b < classes@.len() implies classes@[a] < classes@[b] by {
                    if b < p {
                        assert(classes@[a] == c0[a] && classes@[b] == c0[b]);
                    } else if b == p {
                        assert(classes@[a] == c0[a]);
                    } else if a < p {
                        assert(classes@[a] == c0[a] && classes@[b] == c0[b - 1]);
                    } else if a == p {
                        assert(classes@[b] == c0[b - 1]);
                        assert(c0[p as int] >= key);
                        if b - 1 > p {
                            assert(c0[p as int] < c0[b - 1]);
                        }
                    } else {
                        assert(classes@[a] == c0[a - 1] && classes@[b] == c0[b - 1]);
                    }
                }
            }
        }
        proof {
            assert forall|x: int| #[trigger] class_set(classes@).contains(x) <==> exists|k: int|
                0 <= k < i + 1 && key_fits(f, sp.u@, pts@[k]@) && #[trigger] key_upto(f, sp.u@, pts@[k]@, f.len() as int) == x by {
                let ci = classes@.map_values(|y: u128| y as int);
                let co = c0.map_values(|y: u128| y as int);
                if class_set(classes@).contains(x) {
                    let a = choose|a: int| 0 <= a < ci.len() && ci[a] == x;
                    if classes@[a] != key {
                        let a0 = if classes@.len() == c0.len() { a } else if a < p { a } else { a - 1 };
                        assert(c0[a0] == classes@[a]);
                        assert(co[a0] == x);
                        assert(class_set(c0).contains(x));
                    } else {
                        assert(key_upto(f, sp.u@, pts@[i as int]@, f.len() as int) == x);
                    }
                }
                if exists|k: int| 0 <= k < i + 1 && key_fits(f, sp.u@, pts@[k]@) && #[trigger] key_upto(f, sp.u@, pts@[k]@, f.len() as int) == x {
                    let k = choose|k: int| 0 <= k < i + 1 && key_fits(f, sp.u@, pts@[k]@) && #[trigger] key_upto(f, sp.u@, pts@[k]@, f.len() as int) == x;
                    if k < i {
                        assert(class_set(c0).contains(x));
                        let a0 = choose|a: int| 0 <= a < co.len() && co[a] == x;
                        let a = if classes@.len() == c0.len() { a0 } else if a0 < p { a0 } else { a0 + 1 };
                        assert(classes@[a] == c0[a0]);
                        assert(ci[a] == x);
                    } else {
                        if classes@.len() == c0.len() {
                            assert(classes@[p as int] == key);
                            assert(ci[p as int] == x);
                        } else {
                            assert(classes@[p as int] == key);
                            assert(ci[p as int] == x);
                        }
                    }
                }
            }
        }
    }
    let ghost keys = box_keys(f, sp.u@, lim);
    proof {
        assert(class_set(classes@) =~= keys) by {
            assert forall|x: int| #[trigger] class_set(classes@).contains(x) <==> keys.contains(x) by {
                if class_set(classes@).contains(x) {
                    let k = choose|k: int| 0 <= k < pts@.len() && key_fits(f, sp.u@, pts@[k]@) && #[trigger] key_upto(f, sp.u@, pts@[k]@, f.len() as int) == x;
                    assert(crate::dhar::in_box(pts@[k]@, lim));
                }
                if keys.contains(x) {
                    let y = choose|y: Seq<u32>| crate::dhar::in_box(y, lim) && #[trigger] key_upto(f, sp.u@, y, f.len() as int) == x;
                    let k = choose|k: int| 0 <= k < pts@.len() && #[trigger] pts@[k]@ == y;
                    assert(key_fits(f, sp.u@, pts@[k]@));
                }
            }
        }
        let cs = classes@.map_values(|y: u128| y as int);
        assert(cs.no_duplicates()) by {
            assert forall|a: int, b: int| 0 <= a < cs.len() && 0 <= b < cs.len() && a != b implies cs[a] != cs[b] by {
                if a < b {
                    assert(classes@[a] < classes@[b]);
                } else {
                    assert(classes@[b] < classes@[a]);
                }
            }
        }
        cs.unique_seq_to_set();
        assert(classes@.no_duplicates()) by {
            assert forall|a: int, b: int| 0 <= a < classes@.len() && 0 <= b < classes@.len() && a != b implies classes@[a] != classes@[b] by {
                assert(cs[a] != cs[b]);
            }
        }
    }
    let distinct = classes.len();
    let mut zeros: Vec<u32> = Vec::new();
    for i in 0..n - 1
        invariant
            zeros@.len() == i,
            forall|k: int| 0 <= k < i ==> #[trigger] zeros@[k] == 0u32,
    {
        zeros.push(0);
    }
    proof {
        assert(zeros@ =~= Seq::new((n - 1) as nat, |i: int| 0u32));
    }
    let zkey = match sp.class_key_checked(zeros.as_slice()) {
        Some(k) => k,
        None => {
            proof {
                assert(crate::dhar::in_box(zeros@, lim)) by {
                    assert forall|i: int| 0 <= i < zeros@.len() implies #[trigger] zeros@[i] < lim[i] by {
                        lemma_popcount_pos((i + 1) as u64);
                    }
                }
                assert(!boxmap_fits(f, sp.u@, lim));
            }
            return None;
        },
    };
    proof {
        lemma_key_below_stride(f, sp.u@, zeros@, f.len() as int);
    }
    let contains_zero = sorted_contains(&classes, zkey);
    proof {
        let cs = classes@.map_values(|y: u128| y as int);
        if contains_zero {
            let a = choose|a: int| 0 <= a < classes@.len() && classes@[a] == zkey;
            assert(cs[a] == zkey as int);
        }
        if class_set(classes@).contains(zkey as int) {
            let a = choose|a: int| 0 <= a < cs.len() && cs[a] == zkey as int;
            assert(classes@[a] == zkey);
        }
    }
    let is_subgroup = subgroup_check(sp, &classes);
    let group_order = match sp.order_checked() {
        Some(v) => v,
        None => {
            return None;
        },
    };
    proof {
        assert forall|x: Seq<u32>| #[trigger] crate::dhar::in_box(x, lim) implies key_fits(f, sp.u@, x) by {
            let k = choose|k: int| 0 <= k < pts@.len() && #[trigger] pts@[k]@ == x;
        }
        assert(boxmap_fits(f, sp.u@, lim));
    }
    let mut two_rank: usize = 0;
    for i in 0..sp.factors.len()
        invariant
            f == sp.factors@,
            two_rank == even_count(f, i as int),
            two_rank <= i,
    {
        let d = sp.factors[i];
        if d > 1 && d % 2 == 0 {
            two_rank += 1;
        }
    }
    Some(BoxmapReport { box_volume, distinct_classes: distinct, contains_zero, is_subgroup, group_order, two_rank })
}

} // verus!
