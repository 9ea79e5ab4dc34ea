//! Finite sums `f(0) + ... + f(k-1)` over integers and the facts about them
//! that the counting arguments of the library rest on.
use vstd::prelude::*;

verus! {

/// `f(0) + f(1) + ... + f(k - 1)`.
pub open spec fn sum(k: int, f: spec_fn(int) -> int) -> int
    decreases k,
{
    if k <= 0 {
        0
    } else {
        sum(k - 1, f) + f(k - 1)
    }
}

pub proof fn lemma_sum_ext(k: int, f: spec_fn(int) -> int, g: spec_fn(int) -> int)
    requires
        forall|i: int| 0 <= i < k ==> #[trigger] f(i) == g(i),
    ensures
        sum(k, f) == sum(k, g),
    decreases k,
{
    if k > 0 {
        lemma_sum_ext(k - 1, f, g);
    }
}

pub proof fn lemma_sum_add(k: int, f: spec_fn(int) -> int, g: spec_fn(int) -> int)
    ensures
        sum(k, |i: int| f(i) + g(i)) == sum(k, f) + sum(k, g),
    decreases k,
{
    if k > 0 {
        lemma_sum_add(k - 1, f, g);
    }
}

pub proof fn lemma_sum_nonneg(k: int, f: spec_fn(int) -> int)
    requires
        forall|i: int| 0 <= i < k ==> #[trigger] f(i) >= 0,
    ensures
        sum(k, f) >= 0,
    decreases k,
{
    if k > 0 {
        lemma_sum_nonneg(k - 1, f);
    }
}

pub proof fn lemma_sum_mono(k: int, f: spec_fn(int) -> int, g: spec_fn(int) -> int)
    requires
        forall|i: int| 0 <= i < k ==> #[trigger] f(i) <= g(i),
    ensures
        sum(k, f) <= sum(k, g),
    decreases k,
{
    if k > 0 {
        lemma_sum_mono(k - 1, f, g);
    }
}

/// A prefix of a sum of nonnegative terms is at most the whole sum.
pub proof fn lemma_sum_prefix_le(j: int, k: int, f: spec_fn(int) -> int)
    requires
        0 <= j <= k,
        forall|i: int| 0 <= i < k ==> #[trigger] f(i) >= 0,
    ensures
        sum(j, f) <= sum(k, f),
    decreases k - j,
{
    if j < k {
        lemma_sum_prefix_le(j, k - 1, f);
    }
}

/// One nonnegative-sum term is at most the sum.
pub proof fn lemma_sum_ge_term(k: int, f: spec_fn(int) -> int, x: int)
    requires
        0 <= x < k,
        forall|i: int| 0 <= i < k ==> #[trigger] f(i) >= 0,
    ensures
        f(x) <= sum(k, f),
    decreases k,
{
    if x < k - 1 {
        lemma_sum_ge_term(k - 1, f, x);
    } else {
        lemma_sum_nonneg(k - 1, f);
    }
}

/// A sum whose only nonzero term sits at `x`.
pub proof fn lemma_sum_point(k: int, f: spec_fn(int) -> int, x: int)
    requires
        0 <= x < k,
        forall|i: int| 0 <= i < k && i != x ==> #[trigger] f(i) == 0,
    ensures
        sum(k, f) == f(x),
    decreases k,
{
    if x < k - 1 {
        lemma_sum_point(k - 1, f, x);
    } else {
        lemma_sum_ext(k - 1, f, |i: int| 0int);
        lemma_sum_zero(k - 1);
    }
}

pub proof fn lemma_sum_zero(k: int)
    ensures
        sum(k, |i: int| 0int) == 0,
    decreases k,
{
    if k > 0 {
        lemma_sum_zero(k - 1);
    }
}

/// Terms bounded by `c` give a sum of at most `k * c`.
pub proof fn lemma_sum_le_bound(k: int, f: spec_fn(int) -> int, c: int)
    requires
        k >= 0,
        forall|i: int| 0 <= i < k ==> #[trigger] f(i) <= c,
    ensures
        sum(k, f) <= k * c,
    decreases k,
{
    if k > 0 {
        lemma_sum_le_bound(k - 1, f, c);
        assert(k * c == (k - 1) * c + c) by (nonlinear_arith);
    } else {
        assert(k * c == 0) by (nonlinear_arith) requires k == 0;
    }
}

/// `k` copies of `c`.
pub proof fn lemma_sum_const(k: int, c: int)
    requires
        k >= 0,
    ensures
        sum(k, |i: int| c) == k * c,
    decreases k,
{
    if k > 0 {
        lemma_sum_const(k - 1, c);
        assert(k * c == (k - 1) * c + c) by (nonlinear_arith);
    } else {
        assert(k * c == 0) by (nonlinear_arith) requires k == 0;
    }
}

/// A sum of nonnegative terms is zero exactly when every term is.
pub proof fn lemma_sum_zero_iff(k: int, f: spec_fn(int) -> int)
    requires
        forall|i: int| 0 <= i < k ==> #[trigger] f(i) >= 0,
    ensures
        sum(k, f) == 0 <==> forall|i: int| 0 <= i < k ==> #[trigger] f(i) == 0,
    decreases k,
{
    if k > 0 {
        lemma_sum_zero_iff(k - 1, f);
        lemma_sum_nonneg(k - 1, f);
    }
}

/// Sums are linear: `sum (f - q g) = sum f - q sum g`.
pub proof fn lemma_sum_lin(k: int, f: spec_fn(int) -> int, g: spec_fn(int) -> int, q: int)
    ensures
        sum(k, |i: int| f(i) - q * g(i)) == sum(k, f) - q * sum(k, g),
    decreases k,
{
    if k > 0 {
        lemma_sum_lin(k - 1, f, g, q);
        assert(sum(k - 1, f) - q * sum(k - 1, g) + (f(k - 1) - q * g(k - 1)) == (sum(k - 1, f) + f(k - 1)) - q * (sum(
            k - 1,
            g,
        ) + g(k - 1))) by (nonlinear_arith);
    }
}

/// The order of a double sum can be exchanged.
pub proof fn lemma_sum_swap(m: int, n: int, f: spec_fn(int, int) -> int)
    ensures
        sum(m, |i: int| sum(n, |j: int| f(i, j))) == sum(n, |j: int| sum(m, |i: int| f(i, j))),
    decreases m,
{
    if m > 0 {
        lemma_sum_swap(m - 1, n, f);
        let g = |j: int| sum(m - 1, |i: int| f(i, j));
        let h = |j: int| f(m - 1, j);
        lemma_sum_add(n, g, h);
        assert forall|j: int| 0 <= j < n implies sum(m, |i: int| f(i, j)) == #[trigger] g(j) + h(j) by {
            let fj = |i: int| f(i, j);
            assert(sum(m, fj) == sum(m - 1, fj) + fj(m - 1));
        }
        lemma_sum_ext(n, |j: int| sum(m, |i: int| f(i, j)), |j: int| g(j) + h(j));
        let s1 = |i: int| sum(n, |j: int| f(i, j));
        assert(sum(m, s1) == sum(m - 1, s1) + s1(m - 1));
        assert(s1(m - 1) == sum(n, h)) by {
            lemma_sum_ext(n, |j: int| f(m - 1, j), h);
        }
        assert(sum(n, |j: int| sum(m - 1, |i: int| f(i, j))) == sum(n, g)) by {
            lemma_sum_ext(n, |j: int| sum(m - 1, |i: int| f(i, j)), g);
        }
    } else {
        lemma_sum_ext(n, |j: int| sum(m, |i: int| f(i, j)), |j: int| 0int);
        lemma_sum_zero(n);
    }
}

/// A constant factor comes out of a sum.
pub proof fn lemma_sum_scale_left(k: int, c: int, f: spec_fn(int) -> int)
    ensures
        sum(k, |i: int| c * f(i)) == c * sum(k, f),
    decreases k,
{
    if k > 0 {
        lemma_sum_scale_left(k - 1, c, f);
        assert(c * sum(k - 1, f) + c * f(k - 1) == c * (sum(k - 1, f) + f(k - 1))) by (nonlinear_arith);
    }
}

/// A sum over `0..k` is its first term plus the sum of the others.
pub proof fn lemma_sum_first(k: int, f: spec_fn(int) -> int)
    requires
        k >= 1,
    ensures
        sum(k, f) == f(0) + sum(k - 1, |i: int| f(i + 1)),
    decreases k,
{
    let g = |i: int| f(i + 1);
    if k > 1 {
        lemma_sum_first(k - 1, f);
        assert(sum(k - 1, g) == sum(k - 2, g) + g(k - 2));
    } else {
        assert(sum(0, g) == 0);
        assert(sum(1, f) == sum(0, f) + f(0));
    }
}

/// `sum_i a_i (sum_t b_it c_t) = sum_t (sum_i a_i b_it) c_t`.
pub proof fn lemma_sum_assoc(m: int, a: spec_fn(int) -> int, b: spec_fn(int, int) -> int, c: spec_fn(int) -> int)
    ensures
        sum(m, |i: int| a(i) * sum(m, |t: int| b(i, t) * c(t))) == sum(m, |t: int| sum(m, |i: int| a(i) * b(i, t)) * c(t)),
{
    let f = |i: int, t: int| a(i) * (b(i, t) * c(t));
    assert forall|i: int| 0 <= i < m implies (#[trigger] a(i)) * sum(m, |t: int| b(i, t) * c(t)) == sum(m, |t: int| f(i, t)) by {
        let g = |t: int| b(i, t) * c(t);
        lemma_sum_scale_left(m, a(i), g);
        lemma_sum_ext(m, |t: int| a(i) * g(t), |t: int| f(i, t));
        lemma_sum_ext(m, g, |t: int| b(i, t) * c(t));
    }
    lemma_sum_ext(m, |i: int| a(i) * sum(m, |t: int| b(i, t) * c(t)), |i: int| sum(m, |t: int| f(i, t)));
    lemma_sum_swap(m, m, f);
    assert forall|t: int| 0 <= t < m implies sum(m, |i: int| a(i) * b(i, t)) * (#[trigger] c(t)) == sum(m, |i: int| f(i, t)) by {
        let h = |i: int| a(i) * b(i, t);
        lemma_sum_scale_left(m, c(t), h);
        assert forall|i: int| 0 <= i < m implies c(t) * #[trigger] h(i) == f(i, t) by {
            assert(c(t) * (a(i) * b(i, t)) == a(i) * (b(i, t) * c(t))) by (nonlinear_arith);
        }
        lemma_sum_ext(m, |i: int| c(t) * h(i), |i: int| f(i, t));
        lemma_sum_ext(m, h, |i: int| a(i) * b(i, t));
        assert(sum(m, |i: int| a(i) * b(i, t)) * c(t) == c(t) * sum(m, |i: int| a(i) * b(i, t))) by (nonlinear_arith);
    }
    lemma_sum_ext(m, |t: int| sum(m, |i: int| f(i, t)), |t: int| sum(m, |i: int| a(i) * b(i, t)) * c(t));
}

} // verus!
