//! Closed formulas and determinant cross-checks.
use vstd::prelude::*;

verus! {

use vstd::arithmetic::power::pow;
use vstd::arithmetic::power2::pow2;
use crate::graph::{degree, degrees_fit, Graph};

/// The binomial coefficient, by Pascal's rule.
pub open spec fn binomial(n: nat, k: nat) -> nat
    decreases n,
{
    if k == 0 {
        1
    } else if n == 0 {
        0
    } else {
        binomial((n - 1) as nat, (k - 1) as nat) + binomial((n - 1) as nat, k)
    }
}

/// `(k + 1) C(n + 1, k + 1) = (n + 1) C(n, k)`.
proof fn lemma_absorption(n: nat, k: nat)
    ensures
        (k + 1) * binomial(n + 1, k + 1) == (n + 1) * binomial(n, k),
    decreases n,
{
    let b1 = binomial(n, k);
    let b2 = binomial(n, k + 1);
    assert(binomial(n + 1, k + 1) == b1 + b2);
    if n == 0 {
        assert(b2 == 0);
        if k > 0 {
            assert(b1 == 0);
            assert((k + 1) * (b1 + b2) == 0) by (nonlinear_arith)
                requires
                    b1 == 0,
                    b2 == 0,
            ;
        } else {
            assert(b1 == 1);
        }
    } else {
        lemma_absorption((n - 1) as nat, k);
        assert((k + 1) * b2 == n * binomial((n - 1) as nat, k));
        if k > 0 {
            lemma_absorption((n - 1) as nat, (k - 1) as nat);
            assert(k * b1 == n * binomial((n - 1) as nat, (k - 1) as nat));
            assert(b1 == binomial((n - 1) as nat, (k - 1) as nat) + binomial((n - 1) as nat, k));
            assert(k * b1 + n * binomial((n - 1) as nat, k) == n * b1) by (nonlinear_arith)
                requires
                    k * b1 == n * binomial((n - 1) as nat, (k - 1) as nat),
                    b1 == binomial((n - 1) as nat, (k - 1) as nat) + binomial((n - 1) as nat, k),
            ;
        } else {
            assert(b1 == 1);
            assert(binomial((n - 1) as nat, k) == 1);
            assert(k * b1 + n * binomial((n - 1) as nat, k) == n * b1) by (nonlinear_arith)
                requires
                    k == 0,
                    b1 == 1,
                    binomial((n - 1) as nat, k) == 1,
            ;
        }
        assert((k + 1) * (b1 + b2) == (k + 1) * b1 + (k + 1) * b2) by (nonlinear_arith);
        assert((k + 1) * b1 + n * binomial((n - 1) as nat, k) == (n + 1) * b1) by (nonlinear_arith)
            requires
                k * b1 + n * binomial((n - 1) as nat, k) == n * b1,
        ;
    }
}

/// `C(n, i) (n - i) = C(n, i + 1) (i + 1)`: the step of the product formula.
proof fn lemma_binomial_step(n: nat, i: nat)
    requires
        i < n,
    ensures
        binomial(n, i) * (n - i) == binomial(n, i + 1) * (i + 1),
{
    let m = (n - 1) as nat;
    lemma_absorption(m, i);
    assert((i + 1) * binomial(n, i + 1) == n * binomial(m, i));
    if i == 0 {
        assert(binomial(n, 0) == 1);
        assert(binomial(m, 0) == 1);
        assert(binomial(n, 1) == n) by (nonlinear_arith)
            requires
                (0 + 1) * binomial(n, 0 + 1) == n * binomial(m, 0),
                binomial(m, 0) == 1,
        ;
    } else {
        lemma_absorption(m, (i - 1) as nat);
        let b = binomial(n, i);
        assert(i * b == n * binomial(m, (i - 1) as nat));
        assert(b == binomial(m, (i - 1) as nat) + binomial(m, i));
        assert(b * (n - i) == n * binomial(m, i)) by (nonlinear_arith)
            requires
                i * b == n * binomial(m, (i - 1) as nat),
                b == binomial(m, (i - 1) as nat) + binomial(m, i),
                i < n,
        ;
        assert(binomial(n, i + 1) * (i + 1) == (i + 1) * binomial(n, i + 1)) by (nonlinear_arith);
    }
}

proof fn lemma_binomial_bound(n: nat, k: nat)
    ensures
        binomial(n, k) <= pow2(n),
    decreases n,
{
    reveal(pow);
    if n > 0 {
        lemma_binomial_bound((n - 1) as nat, k);
        if k > 0 {
            lemma_binomial_bound((n - 1) as nat, (k - 1) as nat);
        }
        assert(pow(2, n) == 2 * pow(2, (n - 1) as nat));
        vstd::arithmetic::power::lemma_pow_positive(2, (n - 1) as nat);
    } else {
        assert(pow2(0) == 1);
    }
}

fn binom(n: u32, k: u32) -> (r: u32)
    requires
        k <= n <= 6,
    ensures
        r == binomial(n as nat, k as nat),
{
    let mut r: u64 = 1;
    for i in 0..k
        invariant
            k <= n <= 6,
            r == binomial(n as nat, i as nat),
    {
        proof {
            lemma_binomial_step(n as nat, i as nat);
            lemma_binomial_bound(n as nat, i as nat);
            reveal_with_fuel(pow, 7);
            assert(pow2(n as nat) <= 64) by {
                vstd::arithmetic::power::lemma_pow_increases(2, n as nat, 6);
            }
            assert(r * (n - i) <= 64 * 6) by (nonlinear_arith)
                requires
                    r <= 64,
                    n - i <= 6,
            ;
        }
        let x: u64 = r * (n - i) as u64;
        proof {
            assert(x == binomial(n as nat, (i + 1) as nat) * (i + 1));
            vstd::arithmetic::div_mod::lemma_div_by_multiple(binomial(n as nat, (i + 1) as nat) as int, (i + 1) as int);
        }
        r = x / (i + 1) as u64;
    }
    proof {
        lemma_binomial_bound(n as nat, k as nat);
        reveal_with_fuel(pow, 7);
        assert(pow2(n as nat) <= 64) by {
            vstd::arithmetic::power::lemma_pow_increases(2, n as nat, 6);
        }
    }
    r as u32
}

/// `prod_{j=2}^{k} j^C(n, j)`.
pub open spec fn factor_product(n: nat, k: nat) -> int
    decreases k,
{
    if k < 2 {
        1
    } else {
        factor_product(n, (k - 1) as nat) * pow(k as int, binomial(n, k))
    }
}

/// Stanley's formula for the number of spanning trees of the hypercube
/// `Q_n`: `2^(2^n - n - 1) prod_{k=2}^{n} k^C(n, k)`.
pub open spec fn stanley(n: nat) -> int {
    pow2((pow2(n) - n - 1) as nat) * factor_product(n, n)
}

/// The values of Stanley's formula for `n = 1..=5`.
pub proof fn lemma_stanley_values()
    ensures
        stanley(1) == 1,
        stanley(2) == 4,
        stanley(3) == 384,
        stanley(4) == 42_467_328,
        stanley(5) == 20_776_019_874_734_407_680,
{
    reveal_with_fuel(pow, 27);
    reveal_with_fuel(binomial, 6);
    reveal_with_fuel(factor_product, 6);
    assert(pow2(0) == 1);
    assert(pow2(1) == 2);
    assert(pow2(2) == 4);
    assert(pow2(3) == 8);
    assert(pow2(4) == 16);
    assert(pow2(5) == 32);
    assert(pow2(11) == 2048);
    assert(pow2(26) == 67108864);
    assert(factor_product(1, 1) == 1);
    assert(binomial(2, 2) == 1);
    assert(factor_product(2, 2) == 2);
    assert(binomial(3, 2) == 3);
    assert(binomial(3, 3) == 1);
    assert(factor_product(3, 2) == 8);
    assert(pow(3, 1) == 3);
    assert(factor_product(3, 3) == 24);
    assert(binomial(4, 2) == 6);
    assert(binomial(4, 3) == 4);
    assert(binomial(4, 4) == 1);
    assert(pow(3, 4) == 81);
    assert(pow(4, 1) == 4);
    assert(factor_product(4, 2) == 64);
    assert(factor_product(4, 3) == 64 * 81);
    assert(factor_product(4, 4) == 64 * 81 * 4);
    assert(binomial(5, 2) == 10);
    assert(binomial(5, 3) == 10);
    assert(binomial(5, 4) == 5);
    assert(binomial(5, 5) == 1);
    assert(pow(2, 10) == 1024);
    assert(pow(3, 10) == 59049);
    assert(pow(4, 5) == 1024);
    assert(pow(5, 1) == 5);
    assert(factor_product(5, 2) == 1024);
    assert(factor_product(5, 3) == 1024 * 59049);
    assert(factor_product(5, 4) == 1024 * 59049 * 1024);
    assert(factor_product(5, 5) == 1024 * 59049 * 1024 * 5);
    assert(pow2(5) - 5 - 1 == 26);
    assert(stanley(5) == pow2(26) * factor_product(5, 5));
}

proof fn lemma_factor_product_pos(n: nat, k: nat)
    ensures
        1 <= factor_product(n, k),
    decreases k,
{
    if k >= 2 {
        lemma_factor_product_pos(n, (k - 1) as nat);
        vstd::arithmetic::power::lemma_pow_positive(k as int, binomial(n, k));
        let p = pow(k as int, binomial(n, k));
        let f = factor_product(n, (k - 1) as nat);
        assert(1 <= f * p) by (nonlinear_arith)
            requires
                p >= 1,
                f >= 1,
        ;
    }
}

proof fn lemma_factor_product_mono(n: nat, j: nat, k: nat)
    requires
        j <= k,
    ensures
        1 <= factor_product(n, j) <= factor_product(n, k),
    decreases k,
{
    lemma_factor_product_pos(n, j);
    if k > j {
        lemma_factor_product_mono(n, j, (k - 1) as nat);
        if k >= 2 {
            vstd::arithmetic::power::lemma_pow_positive(k as int, binomial(n, k));
            let p = pow(k as int, binomial(n, k));
            let f = factor_product(n, (k - 1) as nat);
            assert(f <= f * p) by (nonlinear_arith)
                requires
                    p >= 1,
                    f >= 1,
            ;
        }
    }
}

proof fn lemma_stanley_fits(n: nat)
    requires
        1 <= n <= 5,
    ensures
        0 < stanley(n) <= u128::MAX,
{
    lemma_stanley_values();
}

/// Stanley's formula (EC2, Example 5.6.10): spanning trees of `Q_n`.
pub fn stanley_qn_trees(n: u32) -> (t: u128)
    requires
        1 <= n <= 5,
    ensures
        t == stanley(n as nat),
{
    proof {
        reveal_with_fuel(pow, 6);
        assert(pow2(1) == 2);
        assert(pow2(2) == 4);
        assert(pow2(3) == 8);
        assert(pow2(4) == 16);
        assert(pow2(5) == 32);
        vstd::bits::lemma_u32_shl_is_mul(1, n);
    }
    let e: u32 = (1u32 << n) - n - 1;
    proof {
        assert(e <= 26);
        vstd::arithmetic::power::lemma_pow_increases(2, e as nat, 26);
        reveal_with_fuel(pow, 27);
        assert(pow2(26) == 67108864);
        vstd::bits::lemma_u64_shl_is_mul(1, e as u64);
    }
    let mut t: u128 = (1u64 << (e as u64)) as u128;
    let ghost p2 = pow2(e as nat) as int;
    proof {
        lemma_stanley_fits(n as nat);
        vstd::arithmetic::power::lemma_pow_positive(2, e as nat);
        assert(t == p2 * factor_product(n as nat, 1));
    }
    let mut k: u32 = 2;
    while k <= n
        invariant
            1 <= n <= 5,
            2 <= k <= n + 1,
            p2 == pow2(e as nat),
            p2 >= 1,
            e == pow2(n as nat) - n - 1,
            t == p2 * factor_product(n as nat, (k - 1) as nat),
            stanley(n as nat) == p2 * factor_product(n as nat, n as nat),
            stanley(n as nat) <= u128::MAX,
        decreases n + 1 - k,
    {
        let b = binom(n, k);
        let ghost f0 = factor_product(n as nat, (k - 1) as nat);
        let mut j: u32 = 0;
        proof {
            reveal_with_fuel(pow, 1);
        }
        while j < b
            invariant
                1 <= n <= 5,
                2 <= k <= n,
                b == binomial(n as nat, k as nat),
                j <= b,
                p2 >= 1,
                f0 == factor_product(n as nat, (k - 1) as nat),
                t == p2 * f0 * pow(k as int, j as nat),
                stanley(n as nat) == p2 * factor_product(n as nat, n as nat),
                stanley(n as nat) <= u128::MAX,
            decreases b - j,
        {
            proof {
                reveal_with_fuel(pow, 2);
                vstd::arithmetic::power::lemma_pow_increases(k as nat, (j + 1) as nat, b as nat);
                lemma_factor_product_mono(n as nat, (k - 1) as nat, k as nat);
                lemma_factor_product_mono(n as nat, k as nat, n as nat);
                let pj = pow(k as int, (j + 1) as nat);
                let pb = pow(k as int, b as nat);
                assert(factor_product(n as nat, k as nat) == f0 * pb);
                assert(p2 * f0 * pj <= p2 * factor_product(n as nat, n as nat)) by (nonlinear_arith)
                    requires
                        pj <= pb,
                        p2 >= 1,
                        f0 >= 1,
                        f0 * pb <= factor_product(n as nat, n as nat),
                ;
                assert(pow(k as int, (j + 1) as nat) == k * pow(k as int, j as nat));
                assert(p2 * f0 * pj == (p2 * f0 * pow(k as int, j as nat)) * k) by (nonlinear_arith)
                    requires
                        pj == k * pow(k as int, j as nat),
                ;
            }
            t = t * (k as u128);
            j = j + 1;
        }
        proof {
            assert(factor_product(n as nat, k as nat) == f0 * pow(k as int, b as nat));
            assert(t == p2 * factor_product(n as nat, k as nat)) by (nonlinear_arith)
                requires
                    t == p2 * f0 * pow(k as int, b as nat),
                    factor_product(n as nat, k as nat) == f0 * pow(k as int, b as nat),
            ;
        }
        k = k + 1;
    }
    t
}

// ---------------------------------------------------------------------------
// Matrix-Tree count by fraction-free (Bareiss) elimination.
// ---------------------------------------------------------------------------

/// The reduced Laplacian: the Laplacian with the root's row and column
/// removed, as integers.
pub open spec fn laplacian_model(a: Seq<Vec<u32>>) -> Seq<Seq<int>> {
    let m = a.len() - 1;
    Seq::new(
        m as nat,
        |i: int| Seq::new(m as nat, |j: int| if i == j { degree(a, i + 1) } else { -(a[i + 1]@[j + 1] as int) }),
    )
}

/// A matrix of `i128` entries as integers.
pub open spec fn mat_view(a: Seq<Vec<i128>>) -> Seq<Seq<int>> {
    Seq::new(a.len(), |i: int| Seq::new(a[i]@.len(), |j: int| a[i]@[j] as int))
}

/// Division rounding toward zero, as integer division does on `i128`.
pub open spec fn tdiv(x: int, d: int) -> int {
    if x == 0 {
        0
    } else if x > 0 && d > 0 {
        x / d
    } else if x < 0 && d < 0 {
        (x * -1) / (d * -1)
    } else if x < 0 {
        ((x * -1) / d) * -1
    } else {
        (x / (d * -1)) * -1
    }
}

/// The value lies in the range of `i128`.
pub open spec fn in_i128(x: int) -> bool {
    i128::MIN <= x <= i128::MAX
}

/// The first row at or after `lo` with a nonzero entry in column `k`, or
/// the number of rows.
pub open spec fn pivot_row(a: Seq<Seq<int>>, k: int, lo: int) -> int
    decreases a.len() - lo,
{
    if lo >= a.len() {
        a.len() as int
    } else if a[lo][k] != 0 {
        lo
    } else {
        pivot_row(a, k, lo + 1)
    }
}

/// Rows `i` and `j` exchanged.
pub open spec fn swap_rows(a: Seq<Seq<int>>, i: int, j: int) -> Seq<Seq<int>> {
    Seq::new(a.len(), |r: int| if r == i { a[j] } else if r == j { a[i] } else { a[r] })
}

/// The matrix with its pivot for column `k` moved to row `k`.
pub open spec fn pivoted(a: Seq<Seq<int>>, k: int) -> Seq<Seq<int>> {
    let p = pivot_row(a, k, k);
    if p == k {
        a
    } else {
        swap_rows(a, k, p)
    }
}

/// The new entry `(i, j)` of elimination step `k`.
pub open spec fn bareiss_entry(a: Seq<Seq<int>>, k: int, prev: int, i: int, j: int) -> int {
    tdiv(a[i][j] * a[k][k] - a[i][k] * a[k][j], prev)
}

/// Elimination step `k`: rows below `k` are updated right of column `k`
/// and cleared in column `k`.
pub open spec fn bareiss_step(a: Seq<Seq<int>>, k: int, prev: int) -> Seq<Seq<int>> {
    Seq::new(
        a.len(),
        |i: int|
            if i <= k {
                a[i]
            } else {
                Seq::new(
                    a[i].len(),
                    |j: int|
                        if j < k {
                            a[i][j]
                        } else if j == k {
                            0
                        } else {
                            bareiss_entry(a, k, prev, i, j)
                        },
                )
            },
    )
}

/// Every intermediate value of the new entry `(i, j)` of step `k` fits in
/// an `i128`.
pub open spec fn entry_fits(a: Seq<Seq<int>>, k: int, prev: int, i: int, j: int) -> bool {
    &&& in_i128(a[i][j] * a[k][k])
    &&& in_i128(a[i][k] * a[k][j])
    &&& in_i128(a[i][j] * a[k][k] - a[i][k] * a[k][j])
    &&& in_i128(bareiss_entry(a, k, prev, i, j))
}

/// Every intermediate value of elimination step `k` fits in an `i128`.
pub open spec fn step_fits(a: Seq<Seq<int>>, k: int, prev: int) -> bool {
    forall|i: int, j: int| k < i < a.len() && k < j < a.len() ==> #[trigger] entry_fits(a, k, prev, i, j)
}

/// The signed last pivot of the elimination from step `k` on, or 0 when
/// some column has no pivot: the determinant of the matrix that the
/// elimination started from.
pub open spec fn bareiss(a: Seq<Seq<int>>, k: int, prev: int, sign: int) -> int
    decreases a.len() - k,
{
    let m = a.len() as int;
    if k >= m || k < 0 {
        sign * a[m - 1][m - 1]
    } else if pivot_row(a, k, k) >= m {
        0
    } else {
        let b = pivoted(a, k);
        let s = if pivot_row(a, k, k) == k { sign } else { -sign };
        bareiss(bareiss_step(b, k, prev), k + 1, b[k][k], s)
    }
}

/// Every intermediate value of the elimination from step `k` on fits in an
/// `i128`.
pub open spec fn bareiss_fits(a: Seq<Seq<int>>, k: int, prev: int, sign: int) -> bool
    decreases a.len() - k,
{
    let m = a.len() as int;
    if k >= m || k < 0 {
        in_i128(sign * a[m - 1][m - 1])
    } else if pivot_row(a, k, k) >= m {
        true
    } else {
        let b = pivoted(a, k);
        let s = if pivot_row(a, k, k) == k { sign } else { -sign };
        step_fits(b, k, prev) && bareiss_fits(bareiss_step(b, k, prev), k + 1, b[k][k], s)
    }
}

/// The determinant of the reduced Laplacian as the elimination computes it.
pub open spec fn kirchhoff_det(a: Seq<Vec<u32>>) -> int {
    bareiss(laplacian_model(a), 0, 1, 1)
}

/// The elimination on the reduced Laplacian stays within `i128`.
pub open spec fn kirchhoff_fits(a: Seq<Vec<u32>>) -> bool {
    bareiss_fits(laplacian_model(a), 0, 1, 1)
}

proof fn lemma_pivot_skip(a: Seq<Seq<int>>, k: int, lo: int)
    requires
        0 <= lo < a.len(),
        a[lo][k] == 0,
    ensures
        pivot_row(a, k, lo) == pivot_row(a, k, lo + 1),
{
}

proof fn lemma_pivot_range(a: Seq<Seq<int>>, k: int, lo: int)
    requires
        0 <= lo,
    ensures
        lo <= pivot_row(a, k, lo) <= a.len() || (lo > a.len() && pivot_row(a, k, lo) == a.len()),
        pivot_row(a, k, lo) < a.len() ==> a[pivot_row(a, k, lo)][k] != 0,
    decreases a.len() - lo,
{
    if lo < a.len() && a[lo][k] == 0 {
        lemma_pivot_range(a, k, lo + 1);
    }
}

/// Number of spanning trees by the Matrix-Tree theorem: the determinant of
/// the reduced Laplacian (root row and column removed), by fraction-free
/// Bareiss elimination in `i128`; `None` where an intermediate value of the
/// elimination leaves `i128`.
#[verifier::rlimit(40)]
pub fn kirchhoff_checked(g: &Graph) -> (r: Option<u128>)
    requires
        g.wf(),
        degrees_fit(g.adj@),
    ensures
        r == (if kirchhoff_fits(g.adj@) {
            Some(kirchhoff_det(g.adj@) as u128)
        } else {
            None::<u128>
        }),
{
    let m = g.n - 1;
    let mut a = crate::analyze::reduced_laplacian(g);
    let ghost l0 = laplacian_model(g.adj@);
    let mut sign: i128 = 1;
    let mut prev: i128 = 1;
    let mut k: usize = 0;
    while k < m
        invariant
            1 <= m,
            k <= m,
            a@.len() == m,
            forall|r: int| 0 <= r < m ==> (#[trigger] a@[r])@.len() == m,
            prev != 0,
            sign == 1 || sign == -1,
            l0 == laplacian_model(g.adj@),
            bareiss(l0, 0, 1, 1) == bareiss(mat_view(a@), k as int, prev as int, sign as int),
            bareiss_fits(l0, 0, 1, 1) == bareiss_fits(mat_view(a@), k as int, prev as int, sign as int),
        decreases m - k,
    {
        let ghost a0 = mat_view(a@);
        let ghost sign0 = sign as int;
        proof {
            lemma_pivot_range(a0, k as int, k as int);
        }
        if a[k][k] == 0 {
            let mut p: usize = k + 1;
            while p < m && a[p][k] == 0
                invariant
                    k < p <= m,
                    a@.len() == m,
                    forall|r: int| 0 <= r < m ==> (#[trigger] a@[r])@.len() == m,
                    a0 == mat_view(a@),
                    a0[k as int][k as int] == 0,
                    pivot_row(a0, k as int, k as int) == pivot_row(a0, k as int, p as int),
                decreases m - p,
            {
                proof {
                    lemma_pivot_skip(a0, k as int, p as int);
                }
                p += 1;
            }
            proof {
                lemma_pivot_skip(a0, k as int, k as int);
            }
            if p == m {
                return Some(0);
            }
            for j in 0..m
                invariant
                    k < p < m,
                    a@.len() == m,
                    forall|r: int| 0 <= r < m ==> (#[trigger] a@[r])@.len() == m,
                    forall|r: int, c: int|
                        0 <= r < m && 0 <= c < m ==> (#[trigger] a@[r]@[c]) as int == if r == k && c < j {
                            a0[p as int][c]
                        } else if r == p && c < j {
                            a0[k as int][c]
                        } else {
                            a0[r][c]
                        },
            {
                let t = a[k][j];
                let u = a[p][j];
                a[k][j] = u;
                a[p][j] = t;
            }
            sign = -sign;
            proof {
                assert forall|r: int| 0 <= r < m implies #[trigger] mat_view(a@)[r] =~= swap_rows(a0, k as int, p as int)[r] by {}
                assert(mat_view(a@) =~= swap_rows(a0, k as int, p as int));
            }
        }
        let ghost b = mat_view(a@);
        proof {
            assert(b == pivoted(a0, k as int));
            assert(b[k as int][k as int] != 0);
        }
        for i in k + 1..m
            invariant
                k < m,
                a@.len() == m,
                forall|r: int| 0 <= r < m ==> (#[trigger] a@[r])@.len() == m,
                b.len() == m,
                forall|r: int| 0 <= r < m ==> (#[trigger] b[r]).len() == m,
                forall|r: int, c: int|
                    0 <= r < m && 0 <= c < m ==> (#[trigger] a@[r]@[c]) as int == if k < r < i {
                        bareiss_step(b, k as int, prev as int)[r][c]
                    } else {
                        b[r][c]
                    },
                prev != 0,
                pivot_row(a0, k as int, k as int) < m,
                b == pivoted(a0, k as int),
                bareiss_fits(l0, 0, 1, 1) == bareiss_fits(a0, k as int, prev as int, sign0),
                l0 == laplacian_model(g.adj@),
                forall|r: int, c: int| k < r < i && k < c < m ==> #[trigger] entry_fits(b, k as int, prev as int, r, c),
        {
            for j in k + 1..m
                invariant
                    k < i < m,
                    a@.len() == m,
                    forall|r: int| 0 <= r < m ==> (#[trigger] a@[r])@.len() == m,
                    b.len() == m,
                    forall|r: int| 0 <= r < m ==> (#[trigger] b[r]).len() == m,
                    forall|r: int, c: int|
                        0 <= r < m && 0 <= c < m ==> (#[trigger] a@[r]@[c]) as int == if k < r < i || (r == i
                            && k < c < j) {
                            bareiss_step(b, k as int, prev as int)[r][c]
                        } else {
                            b[r][c]
                        },
                    prev != 0,
                    pivot_row(a0, k as int, k as int) < m,
                    b == pivoted(a0, k as int),
                    bareiss_fits(l0, 0, 1, 1) == bareiss_fits(a0, k as int, prev as int, sign0),
                    l0 == laplacian_model(g.adj@),
                    forall|r: int, c: int|
                        (k < r < i && k < c < m) || (r == i && k < c < j) ==> #[trigger] entry_fits(
                            b,
                            k as int,
                            prev as int,
                            r,
                            c,
                        ),
            {
                let x = a[i][j].checked_mul(a[k][k]);
                let y = a[i][k].checked_mul(a[k][j]);
                let ok = match (x, y) {
                    (Some(x), Some(y)) => match x.checked_sub(y) {
                        Some(z) => z.checked_div(prev),
                        None => None,
                    },
                    _ => None,
                };
                match ok {
                    Some(q) => {
                        proof {
                            assert(entry_fits(b, k as int, prev as int, i as int, j as int));
                        }
                        a[i][j] = q;
                    },
                    None => {
                        proof {
                            assert(!entry_fits(b, k as int, prev as int, i as int, j as int));
                            assert(!step_fits(b, k as int, prev as int));
                            assert(!bareiss_fits(a0, k as int, prev as int, sign0));
                        }
                        return None;
                    },
                }
            }
            a[i][k] = 0;
        }
        proof {
            assert forall|r: int| 0 <= r < m implies #[trigger] mat_view(a@)[r] =~= bareiss_step(b, k as int, prev as int)[r] by {}
            assert(mat_view(a@) =~= bareiss_step(b, k as int, prev as int));
            assert(step_fits(b, k as int, prev as int));
        }
        prev = a[k][k];
        k += 1;
    }
    match sign.checked_mul(a[m - 1][m - 1]) {
        Some(v) => Some(v as u128),
        None => None,
    }
}

/// Number of spanning trees by the Matrix-Tree theorem, for a graph whose
/// elimination stays within `i128`.
pub fn kirchhoff(g: &Graph) -> (t: u128)
    requires
        g.wf(),
        degrees_fit(g.adj@),
        kirchhoff_fits(g.adj@),
    ensures
        t == kirchhoff_det(g.adj@) as u128,
{
    match kirchhoff_checked(g) {
        Some(t) => t,
        None => 0,
    }
}

} // verus!
