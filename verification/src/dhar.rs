//! Dhar's burning criterion, brute-force enumeration of all parking
//! functions by odometer, and the domination-maximal elements of a set.
use vstd::prelude::*;

verus! {

use crate::bits::{has_bit, lemma_bit_and_not, lemma_bit_or_single, lemma_bit_zero, lemma_pop_lowest};
use crate::graph::{
    degree, degrees_fit, is_closed, lemma_full_weight, lemma_weight_into_insert,
    lemma_weight_into_mono, lemma_weight_into_nonneg, valid_matrix, zero_diagonal, lemma_unmarked_insert, lemma_unmarked_mono, mask_set, unmarked, weight_into,
    Graph,
};
use crate::vecs::{copy_u32s, eq_u32s};
use crate::sums::{lemma_sum_add, lemma_sum_ge_term, lemma_sum_ext, lemma_sum_mono, lemma_sum_nonneg, lemma_sum_point, sum};

/// Weight from `v` to the vertices outside `s`.
pub open spec fn weight_outside(a: Seq<Vec<u32>>, s: Set<int>, v: int) -> int {
    sum(a.len() as int, |w: int| if s.contains(w) { 0int } else { a[v]@[w] as int })
}

/// `s` is a set of non-root vertices.
pub open spec fn is_nonroot_set(n: int, s: Set<int>) -> bool {
    forall|x: int| #[trigger] s.contains(x) ==> 1 <= x < n
}

/// G-parking function (root 0): every nonempty set `s` of non-root vertices
/// holds a vertex `v` with `f(v)` below the weight from `v` to the outside
/// of `s`. Entry `f[0]` is ignored.
pub open spec fn is_parking_function(a: Seq<Vec<u32>>, f: Seq<u32>) -> bool {
    forall|s: Set<int>|
        #[trigger] is_nonroot_set(a.len() as int, s) && s != Set::<int>::empty() ==> exists|v: int|
            #[trigger] s.contains(v) && (f[v] as int) < weight_outside(a, s, v)
}

/// The vertices burnt before `w`.
pub open spec fn burnt_before(time: Map<int, int>, w: int) -> Set<int> {
    Set::new(|x: int| time.contains_key(x) && time[x] < time[w])
}

/// A vertex of `s` burnt no later than every other vertex of `s`.
proof fn lemma_first_burnt(time: Map<int, int>, s: Set<int>, v: int) -> (u: int)
    requires
        s.contains(v),
        forall|x: int| #[trigger] s.contains(x) ==> time.contains_key(x) && time[x] >= 0,
    ensures
        s.contains(u),
        forall|x: int| #[trigger] s.contains(x) ==> time[u] <= time[x],
    decreases time[v],
{
    if exists|x: int| #[trigger] s.contains(x) && time[x] < time[v] {
        let x = choose|x: int| #[trigger] s.contains(x) && time[x] < time[v];
        lemma_first_burnt(time, s, x)
    } else {
        v
    }
}

/// Dhar's burning criterion: f (indexed by vertex, root entry ignored) is a
/// parking function iff burning from the root consumes every vertex.
pub fn is_parking(g: &Graph, f: &[u32]) -> (r: bool)
    requires
        g.wf(),
        degrees_fit(g.adj@),
        g.n <= f@.len(),
    ensures
        r == is_parking_function(g.adj@, f@),
{
    let n = g.n;
    let ghost a = g.adj@;
    let mut burnt: u64 = 1;
    let mut processed_mask: u64 = 0;
    let mut wcnt: Vec<u32> = Vec::new();
    for _i in 0..n
        invariant
            wcnt.len() == _i,
            forall|k: int| 0 <= k < wcnt.len() ==> #[trigger] wcnt@[k] == 0u32,
    {
        wcnt.push(0);
    }
    let mut stack: Vec<usize> = Vec::new();
    stack.push(0);
    let mut remaining: usize = n - 1;
    let ghost mut time: Map<int, int> = Map::empty().insert(0, 0);
    let ghost mut clock: int = 1;
    proof {
        assert(stack@[0] == 0usize);
        assert forall|k: int| #[trigger] has_bit(1u64, k) <==> k == 0 by {
            if 0 <= k < 64 {
                let j = k as u64;
                assert(((1u64 >> j) & 1u64 == 1u64) <==> j == 0) by (bit_vector);
            }
        }
        assert forall|k: int| !#[trigger] has_bit(0u64, k) by {
            lemma_bit_zero(k);
        }
        lemma_unmarked_root(n as int);
        assert forall|w: int| 0 <= w < n implies #[trigger] wcnt@[w] == weight_into(
            a,
            mask_set(0u64),
            w,
        ) by {
            let h = |x: int| if mask_set(0u64).contains(x) { a[w]@[x] as int } else { 0int };
            lemma_sum_ext(n as int, h, |x: int| 0int);
            crate::sums::lemma_sum_zero(n as int);
        }
    }
    while stack.len() > 0
        invariant
            n == g.n,
            a == g.adj@,
            g.wf(),
            degrees_fit(g.adj@),
            g.n <= f@.len(),
            wcnt.len() == n,
            has_bit(burnt, 0),
            forall|k: int| #[trigger] has_bit(burnt, k) ==> 0 <= k < n,
            forall|k: int| #[trigger] has_bit(processed_mask, k) ==> has_bit(burnt, k),
            forall|i: int| 0 <= i < stack.len() ==> #[trigger] has_bit(burnt, stack@[i] as int),
            forall|i: int|
                0 <= i < stack.len() ==> !#[trigger] has_bit(processed_mask, stack@[i] as int),
            stack@.no_duplicates(),
            forall|k: int|
                #[trigger] has_bit(burnt, k) && !has_bit(processed_mask, k) ==> stack@.contains(
                    k as usize,
                ),
            remaining == unmarked(burnt, n as int),
            forall|w: int|
                0 <= w < n && !#[trigger] has_bit(burnt, w) ==> wcnt@[w] == weight_into(
                    a,
                    mask_set(processed_mask),
                    w,
                ) && f@[w] >= wcnt@[w],
            forall|k: int| #[trigger] has_bit(burnt, k) <==> time.contains_key(k),
            forall|k: int| #[trigger] time.contains_key(k) ==> 0 <= time[k] < clock,
            time.contains_key(0) && time[0] == 0,
            forall|k: int|
                #[trigger] time.contains_key(k) && k != 0 ==> (f@[k] as int) < weight_into(
                    a,
                    burnt_before(time, k),
                    k,
                ),
        decreases unmarked(burnt, n as int), stack.len(),
    {
        let ghost burnt0 = burnt;
        let ghost len0 = stack.len();
        let ghost st0 = stack@;
        let v = stack.pop().unwrap();
        proof {
            assert(v == st0[len0 - 1]);
            assert(has_bit(burnt, st0[len0 - 1] as int));
            assert(!stack@.contains(v)) by {
                if stack@.contains(v) {
                    let i = choose|i: int| 0 <= i < stack.len() && stack@[i] == v;
                    assert(st0[i] == st0[len0 - 1]);
                }
            }
            assert forall|u: usize| #[trigger] st0.contains(u) && u != v implies stack@.contains(u) by {
                let i = choose|i: int| 0 <= i < st0.len() && st0[i] == u;
                assert(i != len0 - 1);
                assert(stack@[i] == st0[i]);
            }
        }
        let ghost popped = stack@;
        let ghost pset = mask_set(processed_mask);
        let m0 = g.nbr[v] & !burnt;
        let mut m = m0;
        proof {
            assert forall|k: int| #[trigger] has_bit(m, k) <==> (has_bit(g.nbr@[v as int], k)
                && !has_bit(burnt, k)) by {
                lemma_bit_and_not(g.nbr@[v as int], burnt, k);
            }
        }
        let ghost mut pushed = false;
        while m != 0
            invariant
                n == g.n,
                a == g.adj@,
                g.wf(),
                degrees_fit(g.adj@),
                g.n <= f@.len(),
                wcnt.len() == n,
                v < n,
                pset == mask_set(processed_mask),
                has_bit(burnt, v as int),
                !has_bit(processed_mask, v as int),
                !stack@.contains(v),
                has_bit(burnt, 0),
                forall|k: int| #[trigger] has_bit(burnt, k) ==> 0 <= k < n,
                forall|k: int| #[trigger] has_bit(burnt0, k) ==> has_bit(burnt, k),
                forall|k: int| #[trigger] has_bit(processed_mask, k) ==> has_bit(burnt, k),
                forall|i: int| 0 <= i < stack.len() ==> #[trigger] has_bit(burnt, stack@[i] as int),
                forall|i: int|
                    0 <= i < stack.len() ==> !#[trigger] has_bit(processed_mask, stack@[i] as int),
                stack@.no_duplicates(),
                forall|k: int|
                    #[trigger] has_bit(burnt, k) && !has_bit(processed_mask, k) && k != v
                        ==> stack@.contains(k as usize),
                remaining == unmarked(burnt, n as int),
                forall|k: int| #[trigger] has_bit(m, k) ==> has_bit(m0, k) && !has_bit(burnt, k),
                forall|k: int| #[trigger] has_bit(m0, k) <==> (has_bit(g.nbr@[v as int], k) && !has_bit(burnt0, k)),
                forall|w: int|
                    0 <= w < n && !#[trigger] has_bit(burnt, w) ==> wcnt@[w] == weight_into(a, pset, w)
                        + (if has_bit(m0, w) && !has_bit(m, w) { a[w]@[v as int] as int } else { 0int })
                        && f@[w] >= wcnt@[w],
                forall|k: int| #[trigger] has_bit(burnt, k) <==> time.contains_key(k),
                forall|k: int| #[trigger] time.contains_key(k) ==> 0 <= time[k] < clock,
                time.contains_key(0) && time[0] == 0,
                forall|k: int|
                    #[trigger] time.contains_key(k) && k != 0 ==> (f@[k] as int) < weight_into(
                        a,
                        burnt_before(time, k),
                        k,
                    ),
                pushed ==> unmarked(burnt, n as int) < unmarked(burnt0, n as int),
                !pushed ==> burnt == burnt0 && stack@ == popped,
                popped.len() + 1 == len0,
            decreases m,
        {
            proof {
                lemma_pop_lowest(m);
            }
            let t = m.trailing_zeros();
            let w = t as usize;
            let ghost mold = m;
            m = m & (m - 1);
            proof {
                assert(has_bit(mold, w as int));
                assert(!has_bit(burnt, w as int));
                assert(has_bit(g.nbr@[v as int], w as int));
                assert(w < n);
                lemma_weight_into_nonneg(a, pset, w as int);
                assert(wcnt@[w as int] == weight_into(a, pset, w as int));
                assert(a[v as int]@[w as int] == a[w as int]@[v as int]);
                lemma_weight_into_mono(a, pset, Set::new(|x: int| 0 <= x < n), w as int);
                lemma_full_weight(a, w as int);
                assert(weight_into(a, pset, w as int) + a[w as int]@[v as int] <= degree(a, w as int))
                    by {
                    lemma_weight_into_insert(a, pset, v as int, w as int);
                    lemma_weight_into_mono(a, pset.insert(v as int), Set::new(|x: int| 0 <= x < n), w as int);
                }
            }
            wcnt.set(w, wcnt[w] + g.adj[v][w]);
            if f[w] < wcnt[w] {
                let ghost bold = burnt;
                let ghost told = time;
                burnt = burnt | (1u64 << t as u64);
                proof {
                    assert forall|k: int| #[trigger] has_bit(burnt, k) <==> (has_bit(bold, k) || k == w) by {
                        lemma_bit_or_single(bold, t as u64, k);
                    }
                    lemma_unmarked_insert(bold, t as u64, n as int);
                    lemma_unmarked_mono(burnt0, bold, n as int);
                    crate::sums::lemma_sum_nonneg(n as int, |k: int| if has_bit(burnt, k) { 0int } else { 1int });
                    time = time.insert(w as int, clock);
                    assert forall|k: int| #[trigger] told.contains_key(k) && k != 0 implies burnt_before(time, k)
                        =~= burnt_before(told, k) by {}
                    let q = burnt_before(time, w as int);
                    assert(weight_into(a, pset.insert(v as int), w as int) <= weight_into(a, q, w as int)) by {
                        assert forall|x: int| 0 <= x < a.len() && #[trigger] pset.insert(v as int).contains(x)
                            implies q.contains(x) by {
                            assert(has_bit(bold, x));
                        }
                        lemma_weight_into_mono(a, pset.insert(v as int), q, w as int);
                    }
                    lemma_weight_into_insert(a, pset, v as int, w as int);
                    clock = clock + 1;
                }
                remaining = remaining - 1;
                let ghost stk = stack@;
                stack.push(w);
                proof {
                    pushed = true;
                    assert(stack@ == stk.push(w));
                    assert(stack@[stack.len() - 1] == w);
                    assert forall|i: int| 0 <= i < stack.len() implies #[trigger] has_bit(burnt, stack@[i] as int) by {
                        if i < stack.len() - 1 {
                            assert(has_bit(bold, stk[i] as int));
                        }
                    }
                    assert forall|i: int| 0 <= i < stack.len() implies !#[trigger] has_bit(processed_mask, stack@[i] as int) by {
                        if i < stack.len() - 1 {
                            assert(stack@[i] == stk[i]);
                        }
                    }
                    assert(!stk.contains(w)) by {
                        if stk.contains(w) {
                            let i = choose|i: int| 0 <= i < stk.len() && stk[i] == w;
                            assert(has_bit(bold, stk[i] as int));
                        }
                    }
                    assert forall|u: usize| #[trigger] stk.contains(u) implies stack@.contains(u) by {
                        let i = choose|i: int| 0 <= i < stk.len() && stk[i] == u;
                        assert(stack@[i] == stk[i]);
                    }
                    assert forall|k: int|
                        #[trigger] has_bit(burnt, k) && !has_bit(processed_mask, k) && k != v
                            implies stack@.contains(k as usize) by {
                        if k != w {
                            assert(has_bit(bold, k));
                            assert(stk.contains(k as usize));
                        }
                    }
                }
            }
        }
        let ghost pm0 = processed_mask;
        processed_mask = processed_mask | (1u64 << v as u64);
        proof {
            assert forall|k: int| #[trigger] has_bit(processed_mask, k) <==> (has_bit(pm0, k) || k == v) by {
                lemma_bit_or_single(pm0, v as u64, k);
            }
            assert(mask_set(processed_mask) =~= pset.insert(v as int));
            assert forall|w: int|
                0 <= w < n && !#[trigger] has_bit(burnt, w) implies wcnt@[w] == weight_into(
                    a,
                    mask_set(processed_mask),
                    w,
                ) && f@[w] >= wcnt@[w] by {
                lemma_bit_zero(w);
                lemma_weight_into_insert(a, pset, v as int, w);
                if !has_bit(m0, w) {
                    assert(!has_bit(burnt0, w));
                    assert(!has_bit(g.nbr@[v as int], w));
                    assert(a[v as int]@[w] == 0);
                    assert(a[w]@[v as int] == a[v as int]@[w]);
                }
            }
            assert forall|i: int| 0 <= i < stack.len() implies !#[trigger] has_bit(processed_mask, stack@[i] as int) by {
                assert(stack@[i] != v);
            }
            crate::sums::lemma_sum_nonneg(n as int, |k: int| if has_bit(burnt, k) { 0int } else { 1int });
        }
    }
    proof {
        let all_burnt = forall|k: int| 0 <= k < n ==> #[trigger] has_bit(burnt, k);
        let uf = |k: int| if has_bit(burnt, k) { 0int } else { 1int };
        assert forall|k: int| 0 <= k < n implies #[trigger] uf(k) >= 0 by {}
        crate::sums::lemma_sum_zero_iff(n as int, uf);
        assert(all_burnt <==> forall|k: int| 0 <= k < n ==> #[trigger] uf(k) == 0) by {
            if all_burnt {
                assert forall|k: int| 0 <= k < n implies #[trigger] uf(k) == 0 by {
                    assert(has_bit(burnt, k));
                }
            }
            if forall|k: int| 0 <= k < n ==> #[trigger] uf(k) == 0 {
                assert forall|k: int| 0 <= k < n implies #[trigger] has_bit(burnt, k) by {
                    assert(uf(k) == 0);
                }
            }
        }
        assert((remaining == 0) == all_burnt);
        if all_burnt {
            assert forall|s: Set<int>|
                #[trigger] is_nonroot_set(a.len() as int, s) && s != Set::<int>::empty() implies exists|v: int|
                    #[trigger] s.contains(v) && (f@[v] as int) < weight_outside(a, s, v) by {
                let v0 = s.choose();
                if !s.contains(v0) {
                    assert(s =~= Set::<int>::empty());
                }
                assert forall|x: int| #[trigger] s.contains(x) implies time.contains_key(x) && time[x] >= 0 by {
                    assert(has_bit(burnt, x));
                }
                let u = lemma_first_burnt(time, s, v0);
                assert(has_bit(burnt, u));
                let bb = burnt_before(time, u);
                let g1 = |w: int| if bb.contains(w) { a[u]@[w] as int } else { 0int };
                let g2 = |w: int| if s.contains(w) { 0int } else { a[u]@[w] as int };
                assert forall|w: int| 0 <= w < n implies #[trigger] g1(w) <= g2(w) by {
                    if bb.contains(w) && s.contains(w) {
                        assert(time[u] <= time[w]);
                    }
                }
                lemma_sum_mono(n as int, g1, g2);
            }
        } else {
            let k = choose|k: int| 0 <= k < n && !#[trigger] has_bit(burnt, k);
            let s = Set::new(|x: int| 0 <= x < n && !has_bit(burnt, x));
            assert(s.contains(k));
            assert(is_nonroot_set(a.len() as int, s));
            assert(s != Set::<int>::empty()) by {
                assert(!Set::<int>::empty().contains(k));
            }
            assert forall|x: int| has_bit(burnt, x) implies #[trigger] has_bit(processed_mask, x) by {
                if !has_bit(processed_mask, x) {
                    assert(stack@.contains(x as usize));
                }
            }
            assert forall|v: int| #[trigger] s.contains(v) implies !((f@[v] as int) < weight_outside(a, s, v)) by {
                let g1 = |w: int| if s.contains(w) { 0int } else { a[v]@[w] as int };
                let g2 = |w: int| if mask_set(processed_mask).contains(w) { a[v]@[w] as int } else { 0int };
                assert forall|w: int| 0 <= w < n implies #[trigger] g1(w) == g2(w) by {}
                lemma_sum_ext(n as int, g1, g2);
            }
            assert(!(exists|v: int| #[trigger] s.contains(v) && (f@[v] as int) < weight_outside(a, s, v)));
            assert(!is_parking_function(a, f@));
        }
    }
    remaining == 0
}

proof fn lemma_unmarked_root(n: int)
    requires
        1 <= n <= 64,
    ensures
        unmarked(1u64, n) == n - 1,
{
    let f = |k: int| if has_bit(1u64, k) { 0int } else { 1int };
    let h = |k: int| if k == 0 { 1int } else { 0int };
    assert forall|k: int| 0 <= k < n implies #[trigger] f(k) + h(k) == 1 by {
        if 0 <= k < 64 {
            let j = k as u64;
            assert(((1u64 >> j) & 1u64 == 1u64) <==> j == 0) by (bit_vector);
        }
    }
    lemma_sum_add(n, f, h);
    lemma_sum_ext(n, |k: int| f(k) + h(k), |k: int| 1int);
    crate::sums::lemma_sum_const(n, 1);
    lemma_sum_point(n, h, 0);
}

// ---------------------------------------------------------------------------
// Brute force over the value box.
// ---------------------------------------------------------------------------

/// `x` precedes `y` in colexicographic order: they differ, and at the last
/// position where they differ `x` is smaller.
pub open spec fn colex_lt(x: Seq<u32>, y: Seq<u32>) -> bool {
    exists|i: int|
        0 <= i < x.len() && #[trigger] x[i] < #[trigger] y[i] && forall|j: int|
            i < j < x.len() ==> x[j] == y[j]
}

/// Each entry `x[i]` lies in `0..lim[i]`.
pub open spec fn in_box(x: Seq<u32>, lim: Seq<int>) -> bool {
    x.len() == lim.len() && forall|i: int| 0 <= i < x.len() ==> #[trigger] x[i] < lim[i]
}

/// The values of a parking function on the non-root vertices `1..n`.
pub open spec fn is_parking_vector(a: Seq<Vec<u32>>, x: Seq<u32>) -> bool {
    x.len() + 1 == a.len() && is_parking_function(a, seq![0u32] + x)
}

/// Degrees of the non-root vertices.
pub open spec fn degree_limits(a: Seq<Vec<u32>>) -> Seq<int> {
    Seq::new((a.len() - 1) as nat, |i: int| degree(a, i + 1))
}

/// Mixed-radix place value of position `i`.
pub open spec fn place(lim: Seq<int>, i: int) -> int
    decreases i,
{
    if i <= 0 {
        1
    } else {
        place(lim, i - 1) * lim[i - 1]
    }
}

/// Mixed-radix value of the first `k` positions of `x`.
pub open spec fn rank(x: Seq<u32>, lim: Seq<int>, k: int) -> int
    decreases k,
{
    if k <= 0 {
        0
    } else {
        rank(x, lim, k - 1) + x[k - 1] * place(lim, k - 1)
    }
}

proof fn lemma_place_pos(lim: Seq<int>, i: int)
    requires
        forall|j: int| 0 <= j < lim.len() ==> #[trigger] lim[j] >= 1,
        0 <= i <= lim.len(),
    ensures
        place(lim, i) >= 1,
    decreases i,
{
    if i > 0 {
        lemma_place_pos(lim, i - 1);
        let p = place(lim, i - 1);
        let l = lim[i - 1];
        assert(p * l >= 1) by (nonlinear_arith) requires p >= 1, l >= 1;
    }
}

pub(crate) proof fn lemma_rank_bound(x: Seq<u32>, lim: Seq<int>, k: int)
    requires
        in_box(x, lim),
        0 <= k <= x.len(),
    ensures
        0 <= rank(x, lim, k) <= place(lim, k) - 1,
    decreases k,
{
    if k > 0 {
        lemma_rank_bound(x, lim, k - 1);
        assert forall|j: int| 0 <= j < lim.len() implies #[trigger] lim[j] >= 1 by {
            assert(x[j] < lim[j]);
        }
        lemma_place_pos(lim, k - 1);
        let r = rank(x, lim, k - 1);
        let p = place(lim, k - 1);
        let v = x[k - 1] as int;
        let l = lim[k - 1];
        assert(r + v * p <= p * l - 1 && r + v * p >= 0) by (nonlinear_arith)
            requires 0 <= r <= p - 1, 0 <= v, v + 1 <= l, p >= 1;
    }
}

/// Positions `j < k` equal, position `k` and above given: the rank over
/// the first `k` positions of a vector at its maximum is `place(k) - 1`.
proof fn lemma_rank_max(x: Seq<u32>, lim: Seq<int>, k: int)
    requires
        0 <= k <= x.len(),
        x.len() == lim.len(),
        forall|j: int| 0 <= j < k ==> #[trigger] x[j] == lim[j] - 1,
    ensures
        rank(x, lim, k) == place(lim, k) - 1,
    decreases k,
{
    if k > 0 {
        lemma_rank_max(x, lim, k - 1);
        let p = place(lim, k - 1);
        let l = lim[k - 1];
        assert(p - 1 + (l - 1) * p == p * l - 1) by (nonlinear_arith);
    }
}

proof fn lemma_rank_zero(x: Seq<u32>, lim: Seq<int>, k: int)
    requires
        0 <= k <= x.len(),
        forall|j: int| 0 <= j < k ==> #[trigger] x[j] == 0,
    ensures
        rank(x, lim, k) == 0,
    decreases k,
{
    if k > 0 {
        lemma_rank_zero(x, lim, k - 1);
    }
}

proof fn lemma_rank_agree(x: Seq<u32>, y: Seq<u32>, lim: Seq<int>, lo: int, k: int)
    requires
        0 <= lo <= k <= x.len(),
        x.len() == y.len(),
        forall|j: int| lo <= j < k ==> #[trigger] x[j] == y[j],
    ensures
        rank(x, lim, k) - rank(x, lim, lo) == rank(y, lim, k) - rank(y, lim, lo),
    decreases k,
{
    if k > lo {
        lemma_rank_agree(x, y, lim, lo, k - 1);
    }
}

/// The odometer step raises the rank by one.
pub(crate) proof fn lemma_rank_succ(cur: Seq<u32>, nxt: Seq<u32>, lim: Seq<int>, i: int)
    requires
        0 <= i < cur.len(),
        cur.len() == nxt.len(),
        cur.len() == lim.len(),
        forall|j: int| 0 <= j < i ==> #[trigger] cur[j] == lim[j] - 1,
        forall|j: int| 0 <= j < i ==> #[trigger] nxt[j] == 0,
        nxt[i] == cur[i] + 1,
        forall|j: int| i < j < cur.len() ==> #[trigger] nxt[j] == cur[j],
    ensures
        rank(nxt, lim, cur.len() as int) == rank(cur, lim, cur.len() as int) + 1,
{
    let l = cur.len() as int;
    lemma_rank_max(cur, lim, i);
    lemma_rank_zero(nxt, lim, i);
    lemma_rank_agree(cur, nxt, lim, i + 1, l);
    let pl = place(lim, i);
    let c = cur[i] as int;
    assert((c + 1) * pl == pl - 1 + c * pl + 1) by (nonlinear_arith);
    assert(rank(nxt, lim, i + 1) == rank(cur, lim, i + 1) + 1);
}

/// Below position `k` `x` is at most `y`, and from `k` on they agree: then
/// `x` precedes or equals `y`.
pub(crate) proof fn lemma_colex_le(x: Seq<u32>, y: Seq<u32>, k: int)
    requires
        x.len() == y.len(),
        0 <= k <= x.len(),
        forall|j: int| 0 <= j < k ==> #[trigger] x[j] <= y[j],
        forall|j: int| k <= j < x.len() ==> #[trigger] x[j] == y[j],
    ensures
        colex_lt(x, y) || x == y,
    decreases k,
{
    if k == 0 {
        assert(x =~= y);
    } else if x[k - 1] < y[k - 1] {
        assert(forall|j: int| k - 1 < j < x.len() ==> x[j] == y[j]);
    } else {
        lemma_colex_le(x, y, k - 1);
    }
}

pub(crate) proof fn lemma_colex_succ(cur: Seq<u32>, nxt: Seq<u32>, x: Seq<u32>, lim: Seq<int>, i: int)
    requires
        0 <= i < cur.len(),
        cur.len() == nxt.len(),
        in_box(cur, lim),
        in_box(x, lim),
        forall|j: int| 0 <= j < i ==> #[trigger] cur[j] == lim[j] - 1,
        forall|j: int| 0 <= j < i ==> #[trigger] nxt[j] == 0,
        nxt[i] == cur[i] + 1,
        forall|j: int| i < j < cur.len() ==> #[trigger] nxt[j] == cur[j],
    ensures
        colex_lt(x, nxt) <==> (colex_lt(x, cur) || x == cur),
{
    let l = cur.len() as int;
    if colex_lt(x, nxt) {
        let p = choose|p: int|
            0 <= p < x.len() && #[trigger] x[p] < #[trigger] nxt[p] && forall|j: int|
                p < j < x.len() ==> x[j] == nxt[j];
        if p > i {
            assert(x[p] < cur[p]);
            assert(forall|j: int| p < j < x.len() ==> x[j] == cur[j]);
        } else if p == i {
            assert forall|j: int| 0 <= j < i implies #[trigger] x[j] <= cur[j] by {
                assert(x[j] < lim[j]);
            }
            if x[i] < cur[i] {
                assert(forall|j: int| i < j < x.len() ==> x[j] == cur[j]);
            } else {
                lemma_colex_le(x, cur, i);
            }
        } else {
            assert(nxt[p] == 0);
        }
    }
    if colex_lt(x, cur) {
        let p = choose|p: int|
            0 <= p < x.len() && #[trigger] x[p] < #[trigger] cur[p] && forall|j: int|
                p < j < x.len() ==> x[j] == cur[j];
        if p >= i {
            assert(x[p] < nxt[p]);
            assert(forall|j: int| p < j < x.len() ==> x[j] == nxt[j]);
        } else {
            assert(x[i] < nxt[i]);
            assert(forall|j: int| i < j < x.len() ==> x[j] == nxt[j]);
        }
    }
    if x == cur {
        assert(x[i] < nxt[i]);
        assert(forall|j: int| i < j < x.len() ==> x[j] == nxt[j]);
    }
}

/// The values of a parking function lie below the degrees.
pub proof fn lemma_parking_below_degree(a: Seq<Vec<u32>>, f: Seq<u32>, v: int)
    requires
        is_parking_function(a, f),
        zero_diagonal(a),
        1 <= v < a.len(),
    ensures
        (f[v] as int) < degree(a, v),
{
    let s = Set::<int>::empty().insert(v);
    assert(is_nonroot_set(a.len() as int, s));
    assert(s.contains(v));
    let u = choose|u: int| #[trigger] s.contains(u) && (f[u] as int) < weight_outside(a, s, u);
    assert(u == v);
    let g1 = |w: int| if s.contains(w) { 0int } else { a[v]@[w] as int };
    let g2 = |w: int| a[v]@[w] as int;
    assert forall|w: int| 0 <= w < a.len() implies #[trigger] g1(w) == g2(w) by {}
    lemma_sum_ext(a.len() as int, g1, g2);
}

/// A parking vector lies in the box of degrees.
pub proof fn lemma_parking_vector_in_box(a: Seq<Vec<u32>>, x: Seq<u32>)
    requires
        is_parking_vector(a, x),
        zero_diagonal(a),
    ensures
        in_box(x, degree_limits(a)),
{
    assert forall|k: int| 0 <= k < x.len() implies #[trigger] x[k] < degree_limits(a)[k] by {
        lemma_parking_below_degree(a, seq![0u32] + x, k + 1);
        assert((seq![0u32] + x)[k + 1] == x[k]);
    }
}

/// In a connected graph on at least two vertices every vertex has an edge.
pub proof fn lemma_degree_pos(a: Seq<Vec<u32>>, v: int)
    requires
        valid_matrix(a),
        0 <= v < a.len(),
    ensures
        degree(a, v) >= 1,
{
    let n = a.len() as int;
    let f = |w: int| a[v]@[w] as int;
    assert forall|w: int| 0 <= w < n implies #[trigger] f(w) >= 0 by {}
    if forall|w: int| 0 <= w < n ==> a[v]@[w] == 0 {
        let s = if v == 0 {
            Set::<int>::empty().insert(0)
        } else {
            Set::new(|x: int| 0 <= x < n && x != v)
        };
        assert(is_closed(a, s)) by {
            assert forall|x: int, w: int|
                #![trigger s.contains(x), a[x]@[w]]
                s.contains(x) && 0 <= w < a.len() && a[x]@[w] > 0 implies s.contains(w) by {
                if v == 0 {
                    assert(x == 0);
                } else {
                    assert(0 <= x < n);
                    assert(a[x]@[w] == a[w]@[x]);
                }
            }
        }
        assert(s.contains(0));
        if v == 0 {
            assert(s.contains(1));
        } else {
            assert(s.contains(v));
        }
    } else {
        let w = choose|w: int| 0 <= w < n && a[v]@[w] != 0;
        lemma_sum_ge_term(n, f, w);
    }
}

/// All parking functions by odometer over the full value box
/// prod_v [0, weighted_degree(v) - 1]. Exponential; small graphs only.
///
/// The result lists exactly the parking functions, restricted to the
/// non-root vertices, each once, in increasing colexicographic order.
#[verifier::rlimit(30)]
pub fn brute_all(g: &Graph) -> (out: Vec<Vec<u32>>)
    requires
        g.wf(),
        degrees_fit(g.adj@),
    ensures
        forall|i: int| 0 <= i < out.len() ==> #[trigger] is_parking_vector(g.adj@, out@[i]@),
        forall|x: Seq<u32>| #[trigger] is_parking_vector(g.adj@, x) ==> exists|i: int|
            0 <= i < out.len() && #[trigger] out@[i]@ == x,
        forall|i: int, j: int| 0 <= i < j < out.len() ==> colex_lt(#[trigger] out@[i]@, #[trigger] out@[j]@),
{
    let n = g.n;
    let ghost a = g.adj@;
    let ghost lim = degree_limits(a);
    let mut limits: Vec<u32> = Vec::new();
    for v in 1..n
        invariant
            n == g.n,
            g.wf(),
            degrees_fit(g.adj@),
            a == g.adj@,
            lim == degree_limits(a),
            limits.len() + 1 == v,
            forall|i: int| 0 <= i < limits.len() ==> #[trigger] limits@[i] == lim[i],
    {
        limits.push(g.weighted_degree(v));
    }
    let mut f: Vec<u32> = Vec::new();
    for _i in 0..n
        invariant
            f.len() == _i,
            forall|k: int| 0 <= k < f.len() ==> #[trigger] f@[k] == 0u32,
    {
        f.push(0);
    }
    let mut out: Vec<Vec<u32>> = Vec::new();
    proof {
        assert forall|i: int| 0 <= i < lim.len() implies #[trigger] lim[i] >= 1 by {
            lemma_degree_pos(a, i + 1);
        }
        assert(in_box(f@.subrange(1, n as int), lim));
        lemma_rank_bound(f@.subrange(1, n as int), lim, lim.len() as int);
    }
    loop
        invariant
            n == g.n,
            2 <= n <= 64,
            g.wf(),
            degrees_fit(g.adj@),
            a == g.adj@,
            lim == degree_limits(a),
            limits.len() + 1 == n,
            forall|i: int| 0 <= i < limits.len() ==> #[trigger] limits@[i] == lim[i],
            forall|i: int| 0 <= i < lim.len() ==> #[trigger] lim[i] >= 1,
            f.len() == n,
            f@[0] == 0,
            in_box(f@.subrange(1, n as int), lim),
            forall|i: int| 0 <= i < out.len() ==> #[trigger] is_parking_vector(a, out@[i]@),
            forall|i: int| 0 <= i < out.len() ==> colex_lt(#[trigger] out@[i]@, f@.subrange(1, n as int)),
            forall|x: Seq<u32>|
                #[trigger] is_parking_vector(a, x) && colex_lt(x, f@.subrange(1, n as int)) ==> exists|i: int|
                    0 <= i < out.len() && #[trigger] out@[i]@ == x,
            forall|i: int, j: int| 0 <= i < j < out.len() ==> colex_lt(#[trigger] out@[i]@, #[trigger] out@[j]@),
        decreases place(lim, lim.len() as int) - rank(f@.subrange(1, n as int), lim, lim.len() as int),
    {
        let ghost cur = f@.subrange(1, n as int);
        let ghost out0 = out@;
        if is_parking(g, f.as_slice()) {
            let mut x: Vec<u32> = Vec::new();
            for k in 1..n
                invariant
                    f.len() == n,
                    x.len() + 1 == k,
                    forall|i: int| 0 <= i < x.len() ==> #[trigger] x@[i] == f@[i + 1],
            {
                x.push(f[k]);
            }
            proof {
                assert(x@ =~= cur);
                assert(seq![0u32] + cur =~= f@);
            }
            out.push(x);
            proof {
                assert forall|i: int, j: int| 0 <= i < j < out.len() implies colex_lt(
                    #[trigger] out@[i]@,
                    #[trigger] out@[j]@,
                ) by {
                    if j == out.len() - 1 {
                        assert(out@[i] == out0[i]);
                    } else {
                        assert(out@[i] == out0[i]);
                        assert(out@[j] == out0[j]);
                    }
                }
            }
        }
        let ghost out1 = out@;
        proof {
            assert(forall|i: int| 0 <= i < out1.len() ==> out1[i]@ == cur || colex_lt(#[trigger] out1[i]@, cur));
            assert forall|y: Seq<u32>| #[trigger] is_parking_vector(a, y) && (colex_lt(y, cur) || y == cur)
                implies exists|i: int| 0 <= i < out1.len() && #[trigger] out1[i]@ == y by {
                if colex_lt(y, cur) {
                    let i = choose|i: int| 0 <= i < out0.len() && #[trigger] out0[i]@ == y;
                    assert(out1[i] == out0[i]);
                } else {
                    assert(seq![0u32] + cur =~= f@);
                    assert(out1[out1.len() - 1]@ == y);
                }
            }
        }
        // odometer increment over positions 1..n
        let mut i: usize = 1;
        loop
            invariant_except_break
                forall|k: int| i <= k < n ==> #[trigger] f@[k] == cur[k - 1],
            invariant
                n == g.n,
                2 <= n <= 64,
                1 <= i <= n,
                limits.len() + 1 == n,
                forall|k: int| 0 <= k < limits.len() ==> #[trigger] limits@[k] == lim[k],
                f.len() == n,
                f@[0] == 0,
                cur.len() + 1 == n,
                in_box(cur, lim),
                forall|k: int| 1 <= k < i ==> #[trigger] f@[k] == 0 && cur[k - 1] == lim[k - 1] - 1,
            ensures
                i == n ==> forall|k: int| 0 <= k < cur.len() ==> #[trigger] cur[k] == lim[k] - 1,
                i < n ==> f@[i as int] == cur[i - 1] + 1 && f@[i as int] < lim[i - 1] && (forall|k: int|
                    1 <= k < i ==> #[trigger] f@[k] == 0) && (forall|k: int|
                    i < k < n ==> #[trigger] f@[k] == cur[k - 1]),
                f.len() == n,
                f@[0] == 0,
            decreases n - i,
        {
            if i == n {
                proof {
                    assert forall|k: int| 0 <= k < cur.len() implies #[trigger] cur[k] == lim[k] - 1 by {
                        assert(f@[k + 1] == 0);
                    }
                }
                break;
            }
            assert(f@[i as int] == cur[i - 1] && cur[i - 1] < lim[i - 1]);
            assert(lim[i - 1] == limits@[i - 1]);
            f.set(i, f[i] + 1);
            if f[i] < limits[i - 1] {
                break;
            }
            f.set(i, 0);
            i += 1;
        }
        if i == n {
            proof {
                assert forall|y: Seq<u32>| #[trigger] is_parking_vector(a, y) implies exists|k: int|
                    0 <= k < out.len() && #[trigger] out@[k]@ == y by {
                    lemma_parking_vector_in_box(a, y);
                    assert forall|k: int| 0 <= k < y.len() implies #[trigger] y[k] <= cur[k] by {
                        assert(y[k] < lim[k]);
                    }
                    lemma_colex_le(y, cur, y.len() as int);
                }
            }
            return out;
        }
        proof {
            let nxt = f@.subrange(1, n as int);
            let p = i - 1;
            assert forall|k: int| 0 <= k < p implies #[trigger] cur[k] == lim[k] - 1 && nxt[k] == 0 by {
                assert(f@[k + 1] == 0);
            }
            assert forall|k: int| p < k < cur.len() implies #[trigger] nxt[k] == cur[k] by {
                assert(f@[k + 1] == cur[k]);
            }
            assert(in_box(nxt, lim)) by {
                assert forall|k: int| 0 <= k < nxt.len() implies #[trigger] nxt[k] < lim[k] by {
                    if k < p {
                        assert(nxt[k] == 0);
                    } else if k > p {
                        assert(nxt[k] == cur[k]);
                    }
                }
            }
            lemma_rank_succ(cur, nxt, lim, p as int);
            lemma_rank_bound(nxt, lim, lim.len() as int);
            assert forall|y: Seq<u32>| in_box(y, lim) implies (colex_lt(y, nxt) <==> (colex_lt(y, cur)
                || y == cur)) by {
                lemma_colex_succ(cur, nxt, y, lim, p as int);
            }
            assert forall|x: Seq<u32>| #[trigger] is_parking_vector(a, x) && colex_lt(x, nxt) implies exists|k: int|
                0 <= k < out.len() && #[trigger] out@[k]@ == x by {
                lemma_parking_vector_in_box(a, x);
            }
            assert forall|k: int| 0 <= k < out.len() implies colex_lt(#[trigger] out@[k]@, nxt) by {
                assert(is_parking_vector(a, out@[k]@));
                lemma_parking_vector_in_box(a, out@[k]@);
            }
        }
    }
}

// ---------------------------------------------------------------------------
// Domination-maximal elements.
// ---------------------------------------------------------------------------

/// `x[i] <= y[i]` on the positions that both have.
pub open spec fn le_on_common(x: Seq<u32>, y: Seq<u32>) -> bool {
    forall|i: int| 0 <= i < x.len() && i < y.len() ==> #[trigger] x[i] <= y[i]
}

/// Some other element of `s` dominates `x`.
pub open spec fn is_dominated(s: Seq<Seq<u32>>, x: Seq<u32>) -> bool {
    exists|j: int| 0 <= j < s.len() && #[trigger] s[j] != x && le_on_common(x, s[j])
}

/// The views of a vector of vectors.
pub open spec fn rows_view(v: Seq<Vec<u32>>) -> Seq<Seq<u32>> {
    v.map_values(|r: Vec<u32>| r@)
}

/// Domination-maximal elements of a set of vectors.
///
/// The result keeps, in order, exactly the elements that no other element
/// dominates.
pub fn maximal_of(set: &[Vec<u32>]) -> (out: Vec<Vec<u32>>)
    ensures
        rows_view(out@) == rows_view(set@).filter(|x: Seq<u32>| !is_dominated(rows_view(set@), x)),
{
    let ghost sv = rows_view(set@);
    let ghost pred = |x: Seq<u32>| !is_dominated(sv, x);
    let mut out: Vec<Vec<u32>> = Vec::new();
    for i in 0..set.len()
        invariant
            sv == rows_view(set@),
            pred == (|x: Seq<u32>| !is_dominated(sv, x)),
            rows_view(out@) == sv.take(i as int).filter(pred),
    {
        let a = &set[i];
        let mut dominated = false;
        for j in 0..set.len()
            invariant
                sv == rows_view(set@),
                i < set.len(),
                a == &set@[i as int],
                dominated <==> exists|k: int| 0 <= k < j && #[trigger] sv[k] != a@ && le_on_common(a@, sv[k]),
        {
            let b = &set[j];
            if !eq_u32s(a.as_slice(), b.as_slice()) {
                let mut le = true;
                let mut k: usize = 0;
                while k < a.len() && k < b.len()
                    invariant
                        k <= a.len(),
                        le <==> forall|t: int| 0 <= t < k && t < b@.len() ==> a@[t] <= b@[t],
                    decreases a.len() - k,
                {
                    if a[k] > b[k] {
                        le = false;
                    }
                    k += 1;
                }
                proof {
                    assert(sv[j as int] == b@);
                    assert(le <==> le_on_common(a@, b@));
                }
                if le {
                    dominated = true;
                }
            } else {
                proof {
                    assert(sv[j as int] == b@);
                }
            }
        }
        proof {
            assert(sv[i as int] == a@);
            reveal_with_fuel(Seq::<Seq<u32>>::filter, 1);
            assert(sv.take(i + 1).drop_last() =~= sv.take(i as int));
        }
        if !dominated {
            let ghost o0 = out@;
            out.push(copy_u32s(a.as_slice()));
            proof {
                assert(rows_view(out@) =~= rows_view(o0).push(a@));
            }
        }
    }
    proof {
        assert(sv.take(set.len() as int) =~= sv);
    }
    out
}

} // verus!
