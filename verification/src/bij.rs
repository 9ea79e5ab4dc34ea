//! The Benson–Chakrabarty–Tetali bijection (Discrete Math. 310 (2010), Thm 4.6)
//! between G-parking functions and spanning trees, for SIMPLE graphs, plus
//! Wilson's algorithm for spanning trees and Bernardi spin statistics on
//! hypercubes.
//!
//! Conventions: root q = 0. Trees are parent arrays (parent[0] = -1). A fixed
//! edge order sigma labels edges lexicographically by (min endpoint, max
//! endpoint); "larger" means larger label. The BCT dominance order >_sigma on
//! vertices w.r.t. an arborescence T: i >_sigma j iff the largest edge on the
//! path from i to meet(i,j) exceeds the largest on the path from j to
//! meet(i,j) (empty path = null edge, smaller than everything).
use vstd::prelude::*;

verus! {

use crate::bits::has_bit;
use crate::graph::{valid_matrix, Graph};
use crate::sums::{lemma_sum_nonneg, lemma_sum_prefix_le, sum};

/// Every edge has multiplicity at most one.
pub open spec fn is_simple(a: Seq<Vec<u32>>) -> bool {
    forall|i: int, j: int| 0 <= i < a.len() && 0 <= j < a.len() ==> #[trigger] a[i]@[j] <= 1
}

/// Number of edges `{x, y}` with `x < y < k`.
pub open spec fn upper_count(a: Seq<Vec<u32>>, x: int, k: int) -> int {
    sum(k, |y: int| if y > x && a[x]@[y] > 0 { 1int } else { 0int })
}

/// The label of the edge `{u, v}`, `u < v`: the number of edges before it
/// in lexicographic order of (smaller endpoint, larger endpoint).
pub open spec fn edge_rank(a: Seq<Vec<u32>>, u: int, v: int) -> int {
    sum(u, |x: int| upper_count(a, x, a.len() as int)) + upper_count(a, u, v)
}

/// The label table: `ids[u][v]` is the label of the edge `{u, v}`, or `-1`
/// where there is no edge.
pub open spec fn is_edge_table(a: Seq<Vec<u32>>, ids: Seq<Vec<i64>>) -> bool {
    &&& ids.len() == a.len()
    &&& forall|u: int| 0 <= u < a.len() ==> (#[trigger] ids[u])@.len() == a.len()
    &&& forall|u: int, v: int|
        0 <= u < a.len() && 0 <= v < a.len() ==> #[trigger] ids[u]@[v] == if a[u]@[v] == 0 {
            -1
        } else if u < v {
            edge_rank(a, u, v)
        } else {
            edge_rank(a, v, u)
        }
}

proof fn lemma_upper_count_bound(a: Seq<Vec<u32>>, x: int, k: int)
    requires
        0 <= k,
    ensures
        0 <= upper_count(a, x, k) <= k,
{
    let f = |y: int| if y > x && a[x]@[y] > 0 { 1int } else { 0int };
    assert forall|i: int| 0 <= i < k implies #[trigger] f(i) >= 0 by {}
    lemma_sum_nonneg(k, f);
    crate::sums::lemma_sum_le_bound(k, f, 1);
}

proof fn lemma_edge_rank_bound(a: Seq<Vec<u32>>, u: int, v: int)
    requires
        0 <= u <= a.len(),
        0 <= v <= a.len(),
        a.len() <= 64,
    ensures
        0 <= sum(u, |x: int| upper_count(a, x, a.len() as int)) <= 64 * u,
        0 <= edge_rank(a, u, v) <= 64 * u + 64,
{
    let n = a.len() as int;
    let f = |x: int| upper_count(a, x, n);
    assert forall|i: int| 0 <= i < u implies 0 <= #[trigger] f(i) <= 64 by {
        lemma_upper_count_bound(a, i, n);
    }
    lemma_sum_nonneg(u, f);
    crate::sums::lemma_sum_le_bound(u, f, 64);
    lemma_upper_count_bound(a, u, v);
}

/// Edge labels of a simple graph, by lexicographic order of endpoints.
pub fn edge_ids(g: &Graph) -> (ids: Vec<Vec<i64>>)
    requires
        g.wf(),
        is_simple(g.adj@),
    ensures
        is_edge_table(g.adj@, ids@),
{
    let n = g.n;
    let ghost a = g.adj@;
    let mut ids: Vec<Vec<i64>> = Vec::new();
    for i in 0..n
        invariant
            n == g.n,
            ids@.len() == i,
            forall|r: int| 0 <= r < i ==> (#[trigger] ids@[r])@.len() == n,
            forall|r: int, c: int| 0 <= r < i && 0 <= c < n ==> #[trigger] ids@[r]@[c] == -1,
    {
        let mut row: Vec<i64> = Vec::new();
        for j in 0..n
            invariant
                row@.len() == j,
                forall|c: int| 0 <= c < j ==> #[trigger] row@[c] == -1,
        {
            row.push(-1);
        }
        ids.push(row);
    }
    let mut next: i64 = 0;
    for u in 0..n
        invariant
            n == g.n,
            a == g.adj@,
            g.wf(),
            ids@.len() == n,
            forall|r: int| 0 <= r < n ==> (#[trigger] ids@[r])@.len() == n,
            next == sum(u as int, |x: int| upper_count(a, x, n as int)),
            forall|x: int, y: int|
                0 <= x < n && 0 <= y < n ==> #[trigger] ids@[x]@[y] == if a[x]@[y] == 0 {
                    -1
                } else if x < y && x < u {
                    edge_rank(a, x, y)
                } else if y < x && y < u {
                    edge_rank(a, y, x)
                } else {
                    -1
                },
    {
        proof {
            lemma_edge_rank_bound(a, u as int, 0);
            lemma_upper_count_bound(a, u as int, u + 1);
            let f = |y: int| if y > u && a[u as int]@[y] > 0 { 1int } else { 0int };
            assert forall|i: int| 0 <= i < u + 1 implies #[trigger] f(i) == 0 by {}
            crate::sums::lemma_sum_zero_iff(u + 1, f);
        }
        let ghost base = next as int;
        for v in u + 1..n
            invariant
                n == g.n,
                a == g.adj@,
                g.wf(),
                u < n,
                ids@.len() == n,
                forall|r: int| 0 <= r < n ==> (#[trigger] ids@[r])@.len() == n,
                base == sum(u as int, |x: int| upper_count(a, x, n as int)),
                0 <= base <= 64 * u,
                next == base + upper_count(a, u as int, v as int),
                forall|x: int, y: int|
                    0 <= x < n && 0 <= y < n ==> #[trigger] ids@[x]@[y] == if a[x]@[y] == 0 {
                        -1
                    } else if x < y && (x < u || (x == u && y < v)) {
                        edge_rank(a, x, y)
                    } else if y < x && (y < u || (y == u && x < v)) {
                        edge_rank(a, y, x)
                    } else {
                        -1
                    },
        {
            proof {
                lemma_upper_count_bound(a, u as int, v as int);
            }
            if g.adj[u][v] > 0 {
                proof {
                    assert(a[u as int]@[v as int] == a[v as int]@[u as int]);
                }
                ids[u][v] = next;
                ids[v][u] = next;
                next += 1;
            }
        }
        proof {
            let f = |x: int| upper_count(a, x, n as int);
            assert(sum(u + 1, f) == sum(u as int, f) + f(u as int));
            let h = |y: int| if y > u && a[u as int]@[y] > 0 { 1int } else { 0int };
            assert(upper_count(a, u as int, n as int) == sum(n as int, h));
        }
    }
    ids
}

/// For a hypercube tree rooted at 0: for each non-root vertex v, its out-edge
/// (toward the root) has direction i = the differing coordinate and spin =
/// the i-th coordinate of the PARENT (Bernardi's convention: the value the
/// edge points to).
pub fn out_edge_spins(dim: u32, parent: &[i32]) -> (out: Vec<(u32, u8)>)
    requires
        dim < 64,
        parent@.len() >= vstd::arithmetic::power2::pow2(dim as nat),
        forall|v: int|
            1 <= v < vstd::arithmetic::power2::pow2(dim as nat) ==> 0 <= #[trigger] parent@[v] && parent@[v] != v,
    ensures
        out@.len() == vstd::arithmetic::power2::pow2(dim as nat) - 1,
        forall|v: int|
            1 <= v < vstd::arithmetic::power2::pow2(dim as nat) ==> {
                let p = parent@[v] as u64;
                let (i, s) = #[trigger] out@[v - 1];
                &&& i < 64
                &&& has_bit(v as u64, i as int) != has_bit(p, i as int)
                &&& forall|k: int| 0 <= k < i ==> has_bit(v as u64, k) == has_bit(p, k)
                &&& s == if has_bit(p, i as int) { 1u8 } else { 0u8 }
            },
{
    proof {
        vstd::bits::lemma_u64_pow2_no_overflow(dim as nat);
        vstd::bits::lemma_u64_shl_is_mul(1, dim as u64);
    }
    let n: u64 = 1u64 << (dim as u64);
    let mut out: Vec<(u32, u8)> = Vec::new();
    let mut v: u64 = 1;
    while v < n
        invariant
            n == vstd::arithmetic::power2::pow2(dim as nat),
            1 <= v <= n || n == 0,
            n <= parent@.len(),
            out@.len() == v - 1,
            forall|w: int| 1 <= w < n ==> 0 <= #[trigger] parent@[w] && parent@[w] != w,
            forall|w: int|
                1 <= w < v ==> {
                    let p = parent@[w] as u64;
                    let (i, s) = #[trigger] out@[w - 1];
                    &&& i < 64
                    &&& has_bit(w as u64, i as int) != has_bit(p, i as int)
                    &&& forall|k: int| 0 <= k < i ==> has_bit(w as u64, k) == has_bit(p, k)
                    &&& s == if has_bit(p, i as int) { 1u8 } else { 0u8 }
                },
        decreases n - v,
    {
        let p: u64 = parent[v as usize] as u64;
        let x: u64 = v ^ p;
        assert(x != 0) by (bit_vector)
            requires
                x == v ^ p,
                v != p,
        ;
        let i: u32 = x.trailing_zeros();
        proof {
            crate::bits::lemma_pop_lowest(x);
            assert forall|k: int| 0 <= k < 64 implies #[trigger] has_bit(x, k) == (has_bit(v, k) != has_bit(p, k)) by {
                let kk = k as u64;
                assert(((x >> kk) & 1u64 == 1u64) == (((v >> kk) & 1u64 == 1u64) != ((p >> kk) & 1u64 == 1u64))) by (bit_vector)
                    requires
                        x == v ^ p,
                        kk < 64,
                ;
            }
        }
        let s: u8 = ((p >> i) & 1) as u8;
        proof {
            let ii = i as u64;
            assert(((p >> ii) & 1u64 == 1u64) || ((p >> ii) & 1u64 == 0u64)) by (bit_vector);
        }
        out.push((i, s));
        proof {
            assert(has_bit(x, i as int));
            assert(has_bit(v, i as int) != has_bit(p, i as int));
            assert forall|k: int| 0 <= k < i implies has_bit(v, k) == has_bit(p, k) by {
                assert(!has_bit(x, k));
            }
            assert(s == if has_bit(p, i as int) { 1u8 } else { 0u8 });
            assert(out@[v - 1] == (i, s));
        }
        v = v + 1;
    }
    out
}

// ---------------------------------------------------------------------------
// Spanning trees as parent arrays, and Wilson's algorithm.
// ---------------------------------------------------------------------------

/// `parent` is an arborescence of `a` rooted at 0 and `rank` strictly
/// decreases from each vertex to its parent.
pub open spec fn tree_ranked(a: Seq<Vec<u32>>, parent: Seq<i32>, rank: Seq<int>) -> bool {
    &&& parent.len() == a.len()
    &&& rank.len() == a.len()
    &&& a.len() >= 1
    &&& parent[0] == -1
    &&& forall|v: int| 0 <= v < a.len() ==> 0 <= #[trigger] rank[v]
    &&& forall|v: int|
        1 <= v < a.len() ==> 0 <= #[trigger] parent[v] < a.len() && a[v]@[parent[v] as int] > 0
            && rank[parent[v] as int] < rank[v]
}

/// `parent` is a spanning tree of `a`: every non-root vertex has a neighbor
/// as its parent, and following parents from any vertex reaches the root.
pub open spec fn is_spanning_tree(a: Seq<Vec<u32>>, parent: Seq<i32>) -> bool {
    exists|rank: Seq<int>| tree_ranked(a, parent, rank)
}

/// The state step of the splitmix64 generator.
pub open spec fn rand_step(x: u64) -> u64 {
    x.wrapping_add(0x9e3779b97f4a7c15)
}

/// The splitmix64 output for a state.
pub open spec fn rand_out(x: u64) -> u64 {
    let z1 = (x ^ (x >> 30u64)).wrapping_mul(0xbf58476d1ce4e5b9);
    let z2 = (z1 ^ (z1 >> 27u64)).wrapping_mul(0x94d049bb133111eb);
    z2 ^ (z2 >> 31u64)
}

/// The generator state after `k` draws.
pub open spec fn rand_advance(x: u64, k: nat) -> u64
    decreases k,
{
    if k == 0 {
        x
    } else {
        rand_step(rand_advance(x, (k - 1) as nat))
    }
}

fn next_rand(x: &mut u64) -> (r: u64)
    ensures
        *final(x) == rand_step(*old(x)),
        r == rand_out(*final(x)),
{
    *x = x.wrapping_add(0x9e3779b97f4a7c15);
    let mut z = *x;
    z = (z ^ (z >> 30)).wrapping_mul(0xbf58476d1ce4e5b9);
    z = (z ^ (z >> 27)).wrapping_mul(0x94d049bb133111eb);
    z ^ (z >> 31)
}

/// Number of `false` entries.
pub open spec fn count_false(s: Seq<bool>) -> int {
    sum(s.len() as int, |i: int| if s[i] { 0int } else { 1int })
}

pub proof fn lemma_count_false_flip(s: Seq<bool>, x: int)
    requires
        0 <= x < s.len(),
        !s[x],
    ensures
        count_false(s.update(x, true)) == count_false(s) - 1,
        count_false(s) >= 1,
{
    let n = s.len() as int;
    let t = s.update(x, true);
    let f = |i: int| if s[i] { 0int } else { 1int };
    let g = |i: int| if t[i] { 0int } else { 1int };
    let h = |i: int| if i == x { 1int } else { 0int };
    assert forall|i: int| 0 <= i < n implies #[trigger] f(i) == g(i) + h(i) by {}
    crate::sums::lemma_sum_ext(n, f, |i: int| g(i) + h(i));
    crate::sums::lemma_sum_add(n, g, h);
    crate::sums::lemma_sum_point(n, h, x);
    assert forall|i: int| 0 <= i < n implies #[trigger] g(i) >= 0 by {}
    lemma_sum_nonneg(n, g);
}

/// The neighbors of `v` below `w`, in increasing order.
pub open spec fn nbr_upto(a: Seq<Vec<u32>>, v: int, w: int) -> Seq<usize>
    decreases w,
{
    if w <= 0 {
        Seq::empty()
    } else {
        let p = nbr_upto(a, v, w - 1);
        if a[v]@[w - 1] > 0 {
            p.push((w - 1) as usize)
        } else {
            p
        }
    }
}

/// The state of Wilson's algorithm: tree membership, parent pointers,
/// generator state and the remaining step budget.
pub type WilsonState = (Seq<bool>, Seq<i32>, u64, u64);

/// The random walk from `v` until it meets the tree or the budget is spent:
/// each step draws once and moves to the neighbor at the drawn index modulo
/// the degree count, recording it as the parent of the vertex left. Gives
/// the parents, the vertex reached, the generator state and the budget.
pub open spec fn walk_from(a: Seq<Vec<u32>>, it: Seq<bool>, nxt: Seq<i32>, v: int, rng: u64, budget: u64) -> (
    Seq<i32>,
    int,
    u64,
    u64,
)
    decreases budget,
{
    if !(0 <= v < it.len()) || it[v] || budget == 0 {
        (nxt, v, rng, budget)
    } else {
        let rng2 = rand_step(rng);
        let ns = nbr_upto(a, v, a.len() as int);
        let w = ns[(rand_out(rng2) % (ns.len() as u64)) as int];
        walk_from(a, it, nxt.update(v, w as i32), w as int, rng2, (budget - 1) as u64)
    }
}

/// Adds to the tree the loop-erased path from `u`, following the parents.
pub open spec fn retrace_from(it: Seq<bool>, nxt: Seq<i32>, u: int) -> Seq<bool>
    decreases count_false(it),
{
    if !(0 <= u < it.len()) || it[u] {
        it
    } else {
        proof {
            lemma_count_false_flip(it, u);
        }
        retrace_from(it.update(u, true), nxt, nxt[u] as int)
    }
}

/// The first `y >= from` with an edge from `x` (outside the tree) to `y`
/// (inside it).
pub open spec fn crossing_in_row(a: Seq<Vec<u32>>, it: Seq<bool>, x: int, from: int) -> Option<int>
    decreases a.len() - from,
{
    if from >= a.len() || from < 0 {
        None
    } else if !it[x] && it[from] && a[x]@[from] > 0 {
        Some(from)
    } else {
        crossing_in_row(a, it, x, from + 1)
    }
}

/// The first edge, in row-major order from row `from`, that enters the tree.
pub open spec fn crossing_from(a: Seq<Vec<u32>>, it: Seq<bool>, from: int) -> Option<(int, int)>
    decreases a.len() - from,
{
    if from >= a.len() || from < 0 {
        None
    } else {
        match crossing_in_row(a, it, from, 0) {
            Some(y) => Some((from, y)),
            None => crossing_from(a, it, from + 1),
        }
    }
}

/// Joins `start` to the tree by adding, one at a time, the first edge that
/// enters the tree, until `start` is in it.
pub open spec fn join_from(a: Seq<Vec<u32>>, it: Seq<bool>, nxt: Seq<i32>, start: int) -> (Seq<bool>, Seq<i32>)
    decreases count_false(it),
{
    if !(0 <= start < it.len()) || it[start] {
        (it, nxt)
    } else {
        match crossing_from(a, it, 0) {
            Some((x, y)) => if 0 <= x < it.len() && !it[x] {
                proof {
                    lemma_count_false_flip(it, x);
                }
                join_from(a, it.update(x, true), nxt.update(x, y as i32), start)
            } else {
                (it, nxt)
            },
            None => (it, nxt),
        }
    }
}

/// One round of Wilson's algorithm for `start`: nothing if it is in the
/// tree; otherwise a walk from it, then the loop-erased path if the walk met
/// the tree, or the edge-by-edge join if the budget ran out.
pub open spec fn wilson_step(a: Seq<Vec<u32>>, st: WilsonState, start: int) -> WilsonState {
    if !(0 <= start < st.0.len()) || st.0[start] {
        st
    } else {
        let w = walk_from(a, st.0, st.1, start, st.2, st.3);
        if 0 <= w.1 < st.0.len() && st.0[w.1] {
            (retrace_from(st.0, w.0, start), w.0, w.2, w.3)
        } else {
            let j = join_from(a, st.0, w.0, start);
            (j.0, j.1, w.2, w.3)
        }
    }
}

/// The rounds for `start`, `start + 1`, .., `n - 1`.
pub open spec fn wilson_from(a: Seq<Vec<u32>>, st: WilsonState, start: int) -> WilsonState
    decreases a.len() - start,
{
    if start >= a.len() || start < 0 {
        st
    } else {
        wilson_from(a, wilson_step(a, st, start), start + 1)
    }
}

/// Wilson's algorithm from the generator state `seed`: only the root in the
/// tree, no parents, and a budget of `u64::MAX` walk steps.
pub open spec fn wilson_run(a: Seq<Vec<u32>>, seed: u64) -> WilsonState {
    let n = a.len();
    wilson_from(a, (Seq::new(n, |x: int| x == 0), Seq::new(n, |x: int| -1i32), seed, u64::MAX), 1)
}

/// The neighbor lists of the graph, each nonempty.
fn neighbor_lists(g: &Graph) -> (nb: Vec<Vec<usize>>)
    requires
        g.wf(),
    ensures
        nb@.len() == g.n,
        forall|v: int| 0 <= v < g.n ==> (#[trigger] nb@[v])@.len() >= 1,
        forall|v: int, i: int|
            0 <= v < g.n && 0 <= i < nb@[v]@.len() ==> (#[trigger] nb@[v]@[i]) < g.n && g.adj@[v]@[nb@[v]@[i] as int]
                > 0,
        forall|v: int| 0 <= v < g.n ==> (#[trigger] nb@[v])@ == nbr_upto(g.adj@, v, g.n as int),
{
    let n = g.n;
    let mut nb: Vec<Vec<usize>> = Vec::new();
    for v in 0..n
        invariant
            n == g.n,
            g.wf(),
            nb@.len() == v,
            forall|x: int| 0 <= x < v ==> (#[trigger] nb@[x])@.len() >= 1,
            forall|x: int, i: int|
                0 <= x < v && 0 <= i < nb@[x]@.len() ==> (#[trigger] nb@[x]@[i]) < n && g.adj@[x]@[nb@[x]@[i] as int]
                    > 0,
            forall|x: int| 0 <= x < v ==> (#[trigger] nb@[x])@ == nbr_upto(g.adj@, x, n as int),
    {
        let mut row: Vec<usize> = Vec::new();
        proof {
            assert(g.adj@[v as int]@.len() == n);
        }
        for w in 0..n
            invariant
                n == g.n,
                g.wf(),
                v < n,
                forall|i: int| 0 <= i < row@.len() ==> (#[trigger] row@[i]) < n && g.adj@[v as int]@[row@[i] as int] > 0,
                row@.len() == 0 ==> forall|x: int| 0 <= x < w ==> g.adj@[v as int]@[x] == 0,
                row@ == nbr_upto(g.adj@, v as int, w as int),
        {
            if g.adj[v][w] > 0 {
                row.push(w);
            }
        }
        proof {
            if row@.len() == 0 {
                crate::dhar::lemma_degree_pos(g.adj@, v as int);
                let f = |w: int| g.adj@[v as int]@[w] as int;
                assert forall|w: int| 0 <= w < n implies #[trigger] f(w) == 0 by {}
                assert forall|w: int| 0 <= w < n implies #[trigger] f(w) >= 0 by {}
                crate::sums::lemma_sum_zero_iff(n as int, f);
            }
        }
        nb.push(row);
    }
    nb
}

/// An edge from a vertex outside the tree to one inside, if there is one.
fn find_crossing(g: &Graph, in_tree: &Vec<bool>) -> (r: Option<(usize, usize)>)
    requires
        g.wf(),
        in_tree@.len() == g.n,
    ensures
        match r {
            Some((x, y)) => x < g.n && y < g.n && !in_tree@[x as int] && in_tree@[y as int] && g.adj@[x as int]@[y as int] > 0,
            None => forall|x: int, y: int|
                0 <= x < g.n && 0 <= y < g.n && !in_tree@[x] && in_tree@[y] ==> #[trigger] g.adj@[x]@[y] == 0,
        },
        (r is Some) == (crossing_from(g.adj@, in_tree@, 0) is Some),
        r matches Some((x, y)) ==> crossing_from(g.adj@, in_tree@, 0) == Some((x as int, y as int)),
{
    let n = g.n;
    for x in 0..n
        invariant
            n == g.n,
            g.wf(),
            in_tree@.len() == n,
            crossing_from(g.adj@, in_tree@, 0) == crossing_from(g.adj@, in_tree@, x as int),
            forall|x2: int, y: int|
                0 <= x2 < x && 0 <= y < n && !in_tree@[x2] && in_tree@[y] ==> #[trigger] g.adj@[x2]@[y] == 0,
    {
        proof {
            assert(g.adj@[x as int]@.len() == n);
        }
        for y in 0..n
            invariant
                n == g.n,
                g.wf(),
                x < n,
                in_tree@.len() == n,
                forall|x2: int, y2: int|
                    0 <= x2 < x && 0 <= y2 < n && !in_tree@[x2] && in_tree@[y2] ==> #[trigger] g.adj@[x2]@[y2] == 0,
                forall|y2: int| 0 <= y2 < y && !in_tree@[x as int] && in_tree@[y2] ==> #[trigger] g.adj@[x as int]@[y2] == 0,
                crossing_from(g.adj@, in_tree@, 0) == crossing_from(g.adj@, in_tree@, x as int),
                crossing_in_row(g.adj@, in_tree@, x as int, 0) == crossing_in_row(g.adj@, in_tree@, x as int, y as int),
        {
            if !in_tree[x] && in_tree[y] && g.adj[x][y] > 0 {
                return Some((x, y));
            }
        }
        proof {
            assert(crossing_in_row(g.adj@, in_tree@, x as int, n as int) == None::<int>);
        }
    }
    None
}

/// The tree built so far: the root, and each other tree vertex pointing to
/// a neighbor in the tree of smaller rank, all ranks below `top`.
pub open spec fn tree_inv(a: Seq<Vec<u32>>, in_tree: Seq<bool>, nxt: Seq<i32>, rank: Seq<int>, top: int) -> bool {
    let n = a.len() as int;
    &&& in_tree.len() == n && nxt.len() == n && rank.len() == n
    &&& n >= 1
    &&& in_tree[0]
    &&& nxt[0] == -1
    &&& top >= 1
    &&& forall|x: int| 0 <= x < n ==> 0 <= #[trigger] rank[x]
    &&& forall|x: int| 0 <= x < n && #[trigger] in_tree[x] ==> rank[x] < top
    &&& forall|x: int|
        1 <= x < n && #[trigger] in_tree[x] ==> 0 <= nxt[x] < n && a[x]@[nxt[x] as int] > 0 && in_tree[nxt[x] as int]
            && rank[nxt[x] as int] < rank[x]
}

/// The random walk so far: each vertex left during the walk points to the
/// vertex it was last left for, which is the current vertex or was left
/// later.
pub open spec fn walk_inv(
    a: Seq<Vec<u32>>,
    in_tree: Seq<bool>,
    nxt: Seq<i32>,
    vis: Seq<bool>,
    last: Seq<int>,
    t: int,
    v: int,
    start: int,
) -> bool {
    let n = a.len() as int;
    &&& vis.len() == n && last.len() == n
    &&& 0 <= v < n
    &&& 0 <= start < n
    &&& (start == v || vis[start])
    &&& forall|x: int|
        0 <= x < n && #[trigger] vis[x] ==> !in_tree[x] && 0 <= last[x] < t && 0 <= nxt[x] < n && a[x]@[nxt[x] as int]
            > 0 && (nxt[x] == v || (vis[nxt[x] as int] && last[nxt[x] as int] > last[x]))
}

/// Wilson's algorithm: a random spanning tree rooted at 0 (parent array),
/// by loop-erased random walks drawn from the splitmix64 generator in `rng`.
///
/// The walks of one call take at most `u64::MAX` steps in all; should that
/// budget run out, each remaining vertex is joined to the tree along an edge
/// that enters it.
#[verifier::rlimit(40)]
pub fn wilson(g: &Graph, rng: &mut u64) -> (t: Vec<i32>)
    requires
        g.wf(),
    ensures
        is_spanning_tree(g.adj@, t@),
        exists|k: nat| *final(rng) == rand_advance(*old(rng), k),
        t@ == wilson_run(g.adj@, *old(rng)).1,
        *final(rng) == wilson_run(g.adj@, *old(rng)).2,
{
    let n = g.n;
    let ghost a = g.adj@;
    let ghost rng0 = *rng;
    let ghost mut draws: nat = 0;
    let mut in_tree: Vec<bool> = Vec::new();
    let mut nxt: Vec<i32> = Vec::new();
    for i in 0..n
        invariant
            in_tree@.len() == i,
            nxt@.len() == i,
            forall|x: int| 0 <= x < i ==> (#[trigger] in_tree@[x]) == (x == 0),
            forall|x: int| 0 <= x < i ==> #[trigger] nxt@[x] == -1,
    {
        in_tree.push(i == 0);
        nxt.push(-1);
    }
    let nbrs = neighbor_lists(g);
    let ghost mut rank: Seq<int> = Seq::new(n as nat, |x: int| 0int);
    let ghost mut top: int = 1;
    let mut budget: u64 = u64::MAX;
    proof {
        assert(tree_inv(a, in_tree@, nxt@, rank, top));
        assert(in_tree@ =~= Seq::new(n as nat, |x: int| x == 0));
        assert(nxt@ =~= Seq::new(n as nat, |x: int| -1i32));
    }
    for start in 1..n
        invariant
            n == g.n,
            a == g.adj@,
            g.wf(),
            nbrs@.len() == n,
            forall|v: int| 0 <= v < n ==> (#[trigger] nbrs@[v])@.len() >= 1,
            forall|v: int, i: int|
                0 <= v < n && 0 <= i < nbrs@[v]@.len() ==> (#[trigger] nbrs@[v]@[i]) < n && a[v]@[nbrs@[v]@[i] as int]
                    > 0,
            tree_inv(a, in_tree@, nxt@, rank, top),
            forall|x: int| 0 <= x < start ==> #[trigger] in_tree@[x],
            *rng == rand_advance(rng0, draws),
            forall|v: int| 0 <= v < n ==> (#[trigger] nbrs@[v])@ == nbr_upto(a, v, n as int),
            wilson_from(a, (in_tree@, nxt@, *rng, budget), start as int) == wilson_run(a, rng0),
    {
        let ghost cur: WilsonState = (in_tree@, nxt@, *rng, budget);
        proof {
            assert(wilson_from(a, cur, start as int) == wilson_from(a, wilson_step(a, cur, start as int), start + 1));
        }
        if !in_tree[start] {
        // loop-erased random walk to the tree
        let ghost mut vis: Seq<bool> = Seq::new(n as nat, |x: int| false);
        let ghost mut last: Seq<int> = Seq::new(n as nat, |x: int| 0int);
        let ghost mut time: int = 0;
        let mut v: usize = start;
        while !in_tree[v] && budget > 0
            invariant
                n == g.n,
                a == g.adj@,
                g.wf(),
                nbrs@.len() == n,
                forall|v: int| 0 <= v < n ==> (#[trigger] nbrs@[v])@.len() >= 1,
                forall|v: int, i: int|
                    0 <= v < n && 0 <= i < nbrs@[v]@.len() ==> (#[trigger] nbrs@[v]@[i]) < n && a[v]@[nbrs@[v]@[i] as int]
                        > 0,
                tree_inv(a, in_tree@, nxt@, rank, top),
                walk_inv(a, in_tree@, nxt@, vis, last, time, v as int, start as int),
                !in_tree@[start as int],
                time >= 0,
                *rng == rand_advance(rng0, draws),
                start < n,
                in_tree@ == cur.0,
                forall|v: int| 0 <= v < n ==> (#[trigger] nbrs@[v])@ == nbr_upto(a, v, n as int),
                walk_from(a, cur.0, nxt@, v as int, *rng, budget) == walk_from(a, cur.0, cur.1, start as int, cur.2, cur.3),
            decreases budget,
        {
            let ghost wprev = (nxt@, v as int, *rng, budget);
            let ns = &nbrs[v];
            let r = next_rand(rng);
            proof {
                draws = draws + 1;
            }
            let w = ns[(r % ns.len() as u64) as usize];
            let ghost nxt0 = nxt@;
            nxt.set(v, w as i32);
            proof {
                vis = vis.update(v as int, true);
                last = last.update(v as int, time);
                time = time + 1;
                assert forall|x: int| 1 <= x < n && #[trigger] in_tree@[x] implies 0 <= nxt@[x] < n && a[x]@[nxt@[x] as int] > 0
                    && in_tree@[nxt@[x] as int] && rank[nxt@[x] as int] < rank[x] by {
                    assert(x != v);
                    assert(nxt@[x] == nxt0[x]);
                }
                assert(nxt@[0] == -1);
            }
            v = w;
            budget = budget - 1;
            proof {
                assert(ns@ == nbr_upto(a, wprev.1, n as int));
                assert(walk_from(a, cur.0, wprev.0, wprev.1, wprev.2, wprev.3) == walk_from(
                    a,
                    cur.0,
                    nxt@,
                    v as int,
                    *rng,
                    budget,
                ));
            }
        }
        let ghost wres = walk_from(a, cur.0, cur.1, start as int, cur.2, cur.3);
        proof {
            assert(wres == (nxt@, v as int, *rng, budget));
        }
        if in_tree[v] {
            // retrace the loop-erased path from the start
            let ghost tt = time;
            let ghost vend = v as int;
            let ghost in0 = in_tree@;
            let mut u: usize = start;
            while !in_tree[u]
                invariant
                    n == g.n,
                    a == g.adj@,
                    g.wf(),
                    in_tree@.len() == n && nxt@.len() == n && rank.len() == n,
                    vis.len() == n && last.len() == n,
                    top >= 1,
                    forall|x: int| 0 <= x < n ==> 0 <= #[trigger] rank[x],
                    0 <= vend < n,
                    in0[vend],
                    in_tree@[0],
                    nxt@[0] == -1,
                    0 <= u < n,
                    forall|x: int|
                        0 <= x < n && #[trigger] vis[x] ==> !in0[x] && 0 <= last[x] < tt && 0 <= nxt@[x] < n
                            && a[x]@[nxt@[x] as int] > 0 && (nxt@[x] == vend || (vis[nxt@[x] as int]
                            && last[nxt@[x] as int] > last[x])),
                    in_tree@[u as int] ==> u == vend,
                    !in_tree@[u as int] ==> vis[u as int],
                    forall|x: int| 0 <= x < n && #[trigger] in_tree@[x] && !in0[x] ==> vis[x] && rank[x] == top + tt - last[x]
                        && (!in_tree@[u as int] ==> last[x] < last[u as int]),
                    forall|x: int| 0 <= x < n && #[trigger] in0[x] ==> in_tree@[x] && rank[x] < top,
                    forall|x: int|
                        1 <= x < n && #[trigger] in_tree@[x] ==> 0 <= nxt@[x] < n && a[x]@[nxt@[x] as int] > 0 && ((
                        in_tree@[nxt@[x] as int] && rank[nxt@[x] as int] < rank[x]) || (nxt@[x] == u && !in_tree@[u as int]
                            && top + tt - last[u as int] < rank[x])),
                    forall|x: int| 0 <= x < start ==> #[trigger] in_tree@[x],
                    start < n,
                    u == start || in_tree@[start as int],
                    in0[start as int] == false,
                    in0 == cur.0,
                    nxt@ == wres.0,
                    *rng == wres.2,
                    budget == wres.3,
                    retrace_from(in_tree@, nxt@, u as int) == retrace_from(in0, nxt@, start as int),
                decreases (if in_tree@[u as int] { 0 } else { tt - last[u as int] + 1 }),
            {
                let ghost it0 = in_tree@;
                let ghost r0 = rank;
                let ghost u0 = u as int;
                in_tree.set(u, true);
                proof {
                    rank = rank.update(u as int, top + tt - last[u as int]);
                }
                let nu = nxt[u] as usize;
                proof {
                    let uu = u as int;
                    let y = nu as int;
                    if y != vend {
                        assert(vis[y] && last[y] > last[uu]);
                        if it0[y] {
                            assert(!in0[y]);
                            assert(last[y] < last[uu]);
                        }
                    }
                    assert forall|x: int| 0 <= x < n && #[trigger] in_tree@[x] && !in0[x] implies vis[x] && rank[x] == top + tt
                        - last[x] && (!in_tree@[y] ==> last[x] < last[y]) by {
                        if x != uu {
                            assert(it0[x]);
                        }
                    }
                    assert forall|x: int|
                        1 <= x < n && #[trigger] in_tree@[x] implies 0 <= nxt@[x] < n && a[x]@[nxt@[x] as int] > 0 && ((
                        in_tree@[nxt@[x] as int] && rank[nxt@[x] as int] < rank[x]) || (nxt@[x] == nu && !in_tree@[y]
                            && top + tt - last[y] < rank[x])) by {
                        if x == uu {
                            if y == vend {
                                assert(in0[y]);
                            }
                        } else {
                            assert(it0[x]);
                            if nxt@[x] == u {
                            }
                        }
                    }
                    assert forall|x: int| 0 <= x < n && #[trigger] in0[x] implies in_tree@[x] && rank[x] < top by {
                        assert(x != uu);
                    }
                }
                u = nu;
                proof {
                    assert(retrace_from(it0, nxt@, u0) == retrace_from(in_tree@, nxt@, u as int));
                }
            }
            proof {
                assert(retrace_from(in_tree@, nxt@, u as int) == in_tree@);
                assert(tree_inv(a, in_tree@, nxt@, rank, top + tt + 1)) by {
                    assert forall|x: int| 0 <= x < n && #[trigger] in_tree@[x] implies rank[x] < top + tt + 1 by {
                        if !in0[x] {
                            assert(vis[x]);
                        }
                    }
                }
                top = top + tt + 1;
                assert(in_tree@[start as int]);
            }
        } else {
            // the budget ran out: join the start along crossing edges
            while !in_tree[start]
                invariant
                    n == g.n,
                    a == g.adj@,
                    g.wf(),
                    start < n,
                    tree_inv(a, in_tree@, nxt@, rank, top),
                    forall|x: int| 0 <= x < start ==> #[trigger] in_tree@[x],
                    *rng == wres.2,
                    budget == wres.3,
                    join_from(a, in_tree@, nxt@, start as int) == join_from(a, cur.0, wres.0, start as int),
                decreases count_false(in_tree@),
            {
                match find_crossing(g, &in_tree) {
                    Some((x, y)) => {
                        proof {
                            lemma_count_false_flip(in_tree@, x as int);
                        }
                        let ghost it0 = in_tree@;
                        let ghost nx0 = nxt@;
                        nxt.set(x, y as i32);
                        in_tree.set(x, true);
                        proof {
                            assert(join_from(a, it0, nx0, start as int) == join_from(a, in_tree@, nxt@, start as int));
                        }
                        proof {
                            assert(it0[0]);
                            assert(x != 0);
                            rank = rank.update(x as int, top);
                            assert forall|z: int| 1 <= z < n && #[trigger] in_tree@[z] implies 0 <= nxt@[z] < n && a[z]@[nxt@[z] as int]
                                > 0 && in_tree@[nxt@[z] as int] && rank[nxt@[z] as int] < rank[z] by {
                                if z != x {
                                    assert(it0[z]);
                                    assert(nxt@[z] == nx0[z]);
                                }
                            }
                            top = top + 1;
                        }
                    },
                    None => {
                        proof {
                            let sset = Set::new(|i: int| 0 <= i < n && in_tree@[i]);
                            assert(crate::graph::is_closed(a, sset)) by {
                                assert forall|p: int, q: int|
                                    #![trigger sset.contains(p), a[p]@[q]]
                                    sset.contains(p) && 0 <= q < a.len() && a[p]@[q] > 0 implies sset.contains(q) by {
                                    assert(a[p]@[q] == a[q]@[p]);
                                    if !in_tree@[q] {
                                        assert(a[q]@[p] == 0);
                                    }
                                }
                            }
                            assert(sset.contains(0));
                            assert(sset.contains(start as int));
                            assert(false);
                        }
                    },
                }
            }
            assert(in_tree@[start as int]);
            proof {
                assert(join_from(a, in_tree@, nxt@, start as int) == (in_tree@, nxt@));
            }
        }
        }
        proof {
            assert((in_tree@, nxt@, *rng, budget) == wilson_step(a, cur, start as int));
        }
    }
    proof {
        assert(wilson_from(a, (in_tree@, nxt@, *rng, budget), n as int) == (in_tree@, nxt@, *rng, budget));
    }
    proof {
        assert(tree_ranked(a, nxt@, rank)) by {
            assert forall|v: int| 1 <= v < n implies 0 <= #[trigger] nxt@[v] < n && a[v]@[nxt@[v] as int] > 0 && rank[nxt@[v] as int]
                < rank[v] by {
                assert(in_tree@[v]);
            }
        }
    }
    nxt
}

// ---------------------------------------------------------------------------
// Paths toward the root in a parent array.
// ---------------------------------------------------------------------------

/// Ranks that strictly decrease from each vertex to its parent, so that
/// following parents always ends at a vertex without one.
pub open spec fn forest_ranked(p: Seq<i32>, rank: Seq<int>) -> bool {
    &&& rank.len() == p.len()
    &&& forall|v: int| 0 <= v < p.len() ==> 0 <= #[trigger] rank[v]
    &&& forall|v: int| 0 <= v < p.len() && #[trigger] p[v] >= 0 ==> p[v] < p.len() && rank[p[v] as int] < rank[v]
}

/// The vertex `k` steps up from `v`, staying at a vertex without parent.
pub open spec fn anc(p: Seq<i32>, v: int, k: nat) -> int
    decreases k,
{
    if k == 0 {
        v
    } else {
        let u = anc(p, v, (k - 1) as nat);
        if 0 <= u < p.len() && p[u] >= 0 {
            p[u] as int
        } else {
            u
        }
    }
}

/// `x` lies on the path from `v` toward the root.
pub open spec fn on_path(p: Seq<i32>, v: int, x: int) -> bool {
    exists|j: nat| #[trigger] anc(p, v, j) == x
}

pub open spec fn max_i(x: int, y: int) -> int {
    if x > y {
        x
    } else {
        y
    }
}

/// Largest edge label on the first `k` steps up from `v`; `-1` for none.
pub open spec fn path_max(p: Seq<i32>, eids: Seq<Vec<i64>>, v: int, k: nat) -> int
    decreases k,
{
    if k == 0 {
        -1
    } else {
        max_i(
            path_max(p, eids, v, (k - 1) as nat),
            eids[anc(p, v, (k - 1) as nat)]@[anc(p, v, k)] as int,
        )
    }
}

/// The number of steps from `b` to the first vertex on the root path of `a`.
#[verifier::opaque]
pub open spec fn meet_steps_b(p: Seq<i32>, a: int, b: int) -> nat {
    choose|kb: nat| on_path(p, a, anc(p, b, kb)) && forall|k: nat| k < kb ==> !on_path(p, a, #[trigger] anc(p, b, k))
}

/// The number of steps from `a` to the meet of `a` and `b`.
#[verifier::opaque]
pub open spec fn meet_steps_a(p: Seq<i32>, a: int, b: int) -> nat {
    let m = anc(p, b, meet_steps_b(p, a, b));
    choose|ka: nat| anc(p, a, ka) == m && forall|j: nat| j < ka ==> #[trigger] anc(p, a, j) != m
}

/// The largest edge labels on the paths from `a` and from `b` to their
/// meet.
pub open spec fn meet_max(p: Seq<i32>, eids: Seq<Vec<i64>>, a: int, b: int) -> (int, int) {
    (path_max(p, eids, a, meet_steps_a(p, a, b)), path_max(p, eids, b, meet_steps_b(p, a, b)))
}

/// `a` and `b` have a common ancestor.
pub open spec fn share_root(p: Seq<i32>, a: int, b: int) -> bool {
    exists|ka: nat, kb: nat| #[trigger] anc(p, a, ka) == #[trigger] anc(p, b, kb)
}

proof fn lemma_anc_range(p: Seq<i32>, rank: Seq<int>, v: int, k: nat)
    requires
        forest_ranked(p, rank),
        0 <= v < p.len(),
    ensures
        0 <= anc(p, v, k) < p.len(),
        rank[anc(p, v, k)] <= rank[v],
        k > 0 && p[anc(p, v, (k - 1) as nat)] >= 0 ==> rank[anc(p, v, k)] < rank[anc(p, v, (k - 1) as nat)],
    decreases k,
{
    if k > 0 {
        lemma_anc_range(p, rank, v, (k - 1) as nat);
    }
}

/// Past a vertex without parent the path stays there.
proof fn lemma_anc_stuck(p: Seq<i32>, v: int, k: nat, k2: nat)
    requires
        k <= k2,
        0 <= anc(p, v, k) < p.len(),
        p[anc(p, v, k)] < 0,
    ensures
        anc(p, v, k2) == anc(p, v, k),
    decreases k2 - k,
{
    if k2 > k {
        lemma_anc_stuck(p, v, k, (k2 - 1) as nat);
    }
}

proof fn lemma_meet_b_unique(p: Seq<i32>, a: int, b: int, kb: nat)
    requires
        on_path(p, a, anc(p, b, kb)),
        forall|k: nat| k < kb ==> !on_path(p, a, #[trigger] anc(p, b, k)),
    ensures
        meet_steps_b(p, a, b) == kb,
{
    reveal(meet_steps_b);
    let c = meet_steps_b(p, a, b);
    assert(on_path(p, a, anc(p, b, c)) && forall|k: nat| k < c ==> !on_path(p, a, #[trigger] anc(p, b, k)));
    if c < kb {
        assert(!on_path(p, a, anc(p, b, c)));
    } else if c > kb {
        assert(!on_path(p, a, anc(p, b, kb)));
    }
}

proof fn lemma_meet_a_unique(p: Seq<i32>, a: int, b: int, ka: nat)
    requires
        anc(p, a, ka) == anc(p, b, meet_steps_b(p, a, b)),
        forall|j: nat| j < ka ==> #[trigger] anc(p, a, j) != anc(p, b, meet_steps_b(p, a, b)),
    ensures
        meet_steps_a(p, a, b) == ka,
{
    reveal(meet_steps_a);
    let m = anc(p, b, meet_steps_b(p, a, b));
    let c = meet_steps_a(p, a, b);
    assert(anc(p, a, c) == m && forall|j: nat| j < c ==> #[trigger] anc(p, a, j) != m);
    if c < ka {
        assert(anc(p, a, c) != m);
    } else if c > ka {
        assert(anc(p, a, ka) != m);
    }
}

/// Largest edge label on the path from a to meet(a,b), and same from b.
/// Returns (e_ab, e_ba); a path of length zero yields -1 (the null edge).
#[verifier::rlimit(40)]
fn meet_maxima(a: usize, b: usize, parent: &[i32], eids: &[Vec<i64>], Ghost(rank): Ghost<Seq<int>>) -> (r: (i64, i64))
    requires
        forest_ranked(parent@, rank),
        a < parent@.len(),
        b < parent@.len(),
        share_root(parent@, a as int, b as int),
        eids@.len() == parent@.len(),
        forall|u: int| 0 <= u < eids@.len() ==> (#[trigger] eids@[u])@.len() == parent@.len(),
    ensures
        (r.0 as int, r.1 as int) == meet_max(parent@, eids@, a as int, b as int),
{
    let ghost p = parent@;
    let n = parent.len();
    let mut on_pa: Vec<bool> = Vec::new();
    for i in 0..n
        invariant
            on_pa@.len() == i,
            forall|x: int| 0 <= x < i ==> !#[trigger] on_pa@[x],
    {
        on_pa.push(false);
    }
    // mark the root path of a
    let mut x: usize = a;
    let ghost mut ja: nat = 0;
    on_pa.set(x, true);
    proof {
        assert forall|y: int| 0 <= y < n implies (#[trigger] on_pa@[y] <==> exists|j: nat| j <= ja && #[trigger] anc(
            p,
            a as int,
            j,
        ) == y) by {
            if y == a {
                assert(anc(p, a as int, 0) == y);
            }
            if exists|j: nat| j <= ja && #[trigger] anc(p, a as int, j) == y {
                let j = choose|j: nat| j <= ja && #[trigger] anc(p, a as int, j) == y;
                assert(j == 0);
            }
        }
    }
    while parent[x] >= 0
        invariant
            forest_ranked(p, rank),
            p == parent@,
            n == p.len(),
            on_pa@.len() == n,
            x < n,
            a < n,
            x == anc(p, a as int, ja),
            forall|y: int| 0 <= y < n ==> (#[trigger] on_pa@[y] <==> exists|j: nat| j <= ja && #[trigger] anc(p, a as int, j) == y),
        decreases rank[x as int],
    {
        proof {
            lemma_anc_range(p, rank, a as int, ja + 1);
        }
        x = parent[x] as usize;
        proof {
            ja = ja + 1;
        }
        let ghost o0 = on_pa@;
        on_pa.set(x, true);
        proof {
            assert forall|y: int| 0 <= y < n implies (#[trigger] on_pa@[y] <==> exists|j: nat| j <= ja && #[trigger] anc(
                p,
                a as int,
                j,
            ) == y) by {
                if on_pa@[y] && y != x {
                    assert(o0[y]);
                    let j = choose|j: nat| j <= ja - 1 && #[trigger] anc(p, a as int, j) == y;
                }
                if exists|j: nat| j <= ja && #[trigger] anc(p, a as int, j) == y {
                    let j = choose|j: nat| j <= ja && #[trigger] anc(p, a as int, j) == y;
                    if j < ja {
                        assert(o0[y]);
                    }
                }
            }
        }
    }
    proof {
        assert forall|y: int| 0 <= y < n implies (#[trigger] on_pa@[y] <==> on_path(p, a as int, y)) by {
            if on_path(p, a as int, y) {
                let j = choose|j: nat| #[trigger] anc(p, a as int, j) == y;
                if j > ja {
                    lemma_anc_stuck(p, a as int, ja, j);
                }
            }
        }
    }
    // walk from b to the first marked vertex = meet, tracking max label
    let mut e_ba: i64 = -1;
    let mut y: usize = b;
    let ghost mut kb: nat = 0;
    while !on_pa[y]
        invariant
            forest_ranked(p, rank),
            p == parent@,
            n == p.len(),
            on_pa@.len() == n,
            y < n,
            a < n,
            b < n,
            eids@.len() == n,
            forall|u: int| 0 <= u < eids@.len() ==> (#[trigger] eids@[u])@.len() == n,
            share_root(p, a as int, b as int),
            forall|z: int| 0 <= z < n ==> (#[trigger] on_pa@[z] <==> on_path(p, a as int, z)),
            y == anc(p, b as int, kb),
            e_ba == path_max(p, eids@, b as int, kb),
            forall|k: nat| k < kb ==> !on_path(p, a as int, #[trigger] anc(p, b as int, k)),
        decreases rank[y as int],
    {
        proof {
            if p[y as int] < 0 {
                let (k1, k2) = choose|k1: nat, k2: nat| #[trigger] anc(p, a as int, k1) == #[trigger] anc(p, b as int, k2);
                if k2 >= kb {
                    lemma_anc_stuck(p, b as int, kb, k2);
                    assert(on_path(p, a as int, y as int));
                } else {
                    assert(!on_path(p, a as int, anc(p, b as int, k2)));
                }
            }
            lemma_anc_range(p, rank, b as int, kb + 1);
        }
        let pp = parent[y] as usize;
        let e = eids[y][pp];
        if e > e_ba {
            e_ba = e;
        }
        y = pp;
        proof {
            kb = kb + 1;
        }
    }
    let meet = y;
    proof {
        lemma_meet_b_unique(p, a as int, b as int, kb);
    }
    // max label from a down to meet
    let mut e_ab: i64 = -1;
    let mut z: usize = a;
    let ghost mut ka: nat = 0;
    let ghost jm = choose|j: nat| #[trigger] anc(p, a as int, j) == meet as int;
    proof {
        assert(on_path(p, a as int, meet as int));
    }
    while z != meet
        invariant
            forest_ranked(p, rank),
            p == parent@,
            n == p.len(),
            z < n,
            a < n,
            meet < n,
            eids@.len() == n,
            forall|u: int| 0 <= u < eids@.len() ==> (#[trigger] eids@[u])@.len() == n,
            anc(p, a as int, jm) == meet as int,
            z == anc(p, a as int, ka),
            e_ab == path_max(p, eids@, a as int, ka),
            forall|j: nat| j < ka ==> #[trigger] anc(p, a as int, j) != meet as int,
        decreases rank[z as int],
    {
        proof {
            if ka > jm {
                assert(anc(p, a as int, jm) != meet as int);
            }
            if p[z as int] < 0 {
                lemma_anc_stuck(p, a as int, ka, jm);
            }
            lemma_anc_range(p, rank, a as int, ka + 1);
        }
        let pp = parent[z] as usize;
        let e = eids[z][pp];
        if e > e_ab {
            e_ab = e;
        }
        z = pp;
        proof {
            ka = ka + 1;
        }
    }
    proof {
        lemma_meet_a_unique(p, a as int, b as int, ka);
    }
    (e_ab, e_ba)
}

/// i >_sigma j in the arborescence given by parent
fn dominates(i: usize, j: usize, parent: &[i32], eids: &[Vec<i64>], Ghost(rank): Ghost<Seq<int>>) -> (r: bool)
    requires
        forest_ranked(parent@, rank),
        i < parent@.len(),
        j < parent@.len(),
        share_root(parent@, i as int, j as int),
        eids@.len() == parent@.len(),
        forall|u: int| 0 <= u < eids@.len() ==> (#[trigger] eids@[u])@.len() == parent@.len(),
    ensures
        r == (meet_max(parent@, eids@, i as int, j as int).0 > meet_max(parent@, eids@, i as int, j as int).1),
{
    let (eij, eji) = meet_maxima(i, j, parent, eids, Ghost(rank));
    eij > eji
}

proof fn lemma_meet_self(p: Seq<i32>, eids: Seq<Vec<i64>>, x: int)
    ensures
        meet_max(p, eids, x, x).0 == -1,
{
    assert(anc(p, x, 0) == x);
    assert(on_path(p, x, anc(p, x, 0)));
    lemma_meet_b_unique(p, x, x, 0);
    lemma_meet_a_unique(p, x, x, 0);
}

proof fn lemma_share_root(p: Seq<i32>, x: int, y: int, r: int)
    requires
        on_path(p, x, r),
        on_path(p, y, r),
    ensures
        share_root(p, x, y),
{
    let j1 = choose|j: nat| #[trigger] anc(p, x, j) == r;
    let j2 = choose|j: nat| #[trigger] anc(p, y, j) == r;
    assert(anc(p, x, j1) == anc(p, y, j2));
}

/// A candidate list for `power_order`: distinct vertices, each joined to
/// `u` by an edge and reaching the root.
pub open spec fn candidates_ok(p: Seq<i32>, eids: Seq<Vec<i64>>, u: int, xs: Seq<usize>) -> bool {
    &&& xs.no_duplicates()
    &&& forall|i: int|
        0 <= i < xs.len() ==> (#[trigger] xs[i]) < p.len() && eids[u]@[xs[i] as int] >= 0 && on_path(p, xs[i] as int, 0)
}

/// The position of the dominator among the first `k` candidates: scanning
/// left to right, each candidate that dominates the current one replaces it.
pub open spec fn dom_scan(p: Seq<i32>, eids: Seq<Vec<i64>>, xs: Seq<usize>, k: int) -> int
    decreases k,
{
    if k <= 1 {
        0
    } else {
        let x = dom_scan(p, eids, xs, k - 1);
        let mm = meet_max(p, eids, xs[k - 1] as int, xs[x] as int);
        if mm.0 > mm.1 {
            k - 1
        } else {
            x
        }
    }
}

/// The position of the strongest among the first `k` candidates toward
/// `u`: of largest label toward `u` among those whose label exceeds the
/// largest edge on the path from `x` to the meet with them.
pub open spec fn best_scan(p: Seq<i32>, eids: Seq<Vec<i64>>, u: int, x: int, xs: Seq<usize>, k: int) -> Option<int>
    decreases k,
{
    if k <= 0 {
        None
    } else {
        let b = best_scan(p, eids, u, x, xs, k - 1);
        let v = xs[k - 1] as int;
        if eids[u]@[v] > meet_max(p, eids, x, v).0 && match b {
            None => true,
            Some(bi) => eids[u]@[v] > eids[u]@[xs[bi] as int],
        } {
            Some(k - 1)
        } else {
            b
        }
    }
}

/// The position picked from a candidate list: the strongest relative to
/// its dominator.
pub open spec fn pick(p: Seq<i32>, eids: Seq<Vec<i64>>, u: int, xs: Seq<usize>) -> int {
    let x = xs[dom_scan(p, eids, xs, xs.len() as int)] as int;
    match best_scan(p, eids, u, x, xs, xs.len() as int) {
        Some(b) => b,
        None => 0,
    }
}

/// The BCT power order of the candidates toward `u`: repeatedly the picked
/// candidate, removed from the list.
pub open spec fn power_order_spec(p: Seq<i32>, eids: Seq<Vec<i64>>, u: int, xs: Seq<usize>) -> Seq<usize>
    decreases xs.len(),
{
    if xs.len() == 0 {
        seq![]
    } else {
        let b = pick(p, eids, u, xs);
        if 0 <= b < xs.len() {
            seq![xs[b]] + power_order_spec(p, eids, u, xs.remove(b))
        } else {
            seq![]
        }
    }
}

/// The position of the dominator of a candidate list: scanning left to
/// right, each candidate that dominates the current one replaces it.
fn dominator(xs: &Vec<usize>, parent: &[i32], eids: &[Vec<i64>], Ghost(rank): Ghost<Seq<int>>, Ghost(u): Ghost<int>) -> (xi: usize)
    requires
        forest_ranked(parent@, rank),
        0 <= u < parent@.len(),
        eids@.len() == parent@.len(),
        forall|w: int| 0 <= w < eids@.len() ==> (#[trigger] eids@[w])@.len() == parent@.len(),
        candidates_ok(parent@, eids@, u, xs@),
        xs@.len() >= 1,
    ensures
        xi < xs@.len(),
        xi == dom_scan(parent@, eids@, xs@, xs@.len() as int),
{
    let ghost p = parent@;
    let mut xi: usize = 0;
    for idx in 1..xs.len()
        invariant
            forest_ranked(p, rank),
            p == parent@,
            eids@.len() == p.len(),
            forall|w: int| 0 <= w < eids@.len() ==> (#[trigger] eids@[w])@.len() == p.len(),
            0 <= u < p.len(),
            candidates_ok(p, eids@, u, xs@),
            xi < xs@.len(),
            xi < idx,
            xi == dom_scan(p, eids@, xs@, idx as int),
    {
        let v = xs[idx];
        let x = xs[xi];
        proof {
            lemma_share_root(p, v as int, x as int, 0);
        }
        if dominates(v, x, parent, eids, Ghost(rank)) {
            xi = idx;
        }
    }
    xi
}

/// The candidate of largest label toward `u` among those whose label
/// exceeds the largest edge on the path from the dominator to its meet with
/// them.
fn strongest(u: usize, xi: usize, xs: &Vec<usize>, parent: &[i32], eids: &[Vec<i64>], Ghost(rank): Ghost<Seq<int>>) -> (bi: usize)
    requires
        forest_ranked(parent@, rank),
        u < parent@.len(),
        eids@.len() == parent@.len(),
        forall|w: int| 0 <= w < eids@.len() ==> (#[trigger] eids@[w])@.len() == parent@.len(),
        candidates_ok(parent@, eids@, u as int, xs@),
        xi < xs@.len(),
    ensures
        bi < xs@.len(),
        bi == match best_scan(parent@, eids@, u as int, xs@[xi as int] as int, xs@, xs@.len() as int) {
            Some(b) => b,
            None => 0,
        },
{
    let ghost p = parent@;
    let x = xs[xi];
    let mut best: Option<usize> = None;
    for idx in 0..xs.len()
        invariant
            forest_ranked(p, rank),
            p == parent@,
            eids@.len() == p.len(),
            forall|w: int| 0 <= w < eids@.len() ==> (#[trigger] eids@[w])@.len() == p.len(),
            u < p.len(),
            candidates_ok(p, eids@, u as int, xs@),
            xi < xs@.len(),
            x == xs@[xi as int],
            match best {
                Some(i) => i < idx,
                None => true,
            },
            xi < idx ==> best is Some,
            idx <= xs@.len(),
            match best {
                Some(i) => best_scan(p, eids@, u as int, x as int, xs@, idx as int) == Some(i as int),
                None => best_scan(p, eids@, u as int, x as int, xs@, idx as int) is None,
            },
    {
        let v = xs[idx];
        proof {
            lemma_share_root(p, x as int, v as int, 0);
            if idx == xi {
                lemma_meet_self(p, eids@, x as int);
            }
        }
        let (exv, _) = meet_maxima(x, v, parent, eids, Ghost(rank));
        proof {
            assert(xs@[idx as int] == v);
        }
        if eids[u][v] > exv {
            match best {
                None => {
                    best = Some(idx);
                },
                Some(b) => {
                    if eids[u][v] > eids[u][xs[b]] {
                        best = Some(idx);
                    }
                },
            }
        }
    }
    proof {
        assert(x == xs@[xi as int]);
    }
    match best {
        Some(b) => b,
        None => 0,
    }
}

/// BCT power order of X_u (the neighbors of u inside the labeled set) with
/// respect to the arborescence: returns vertices from most to least powerful.
fn power_order(u: usize, xu: Vec<usize>, parent: &[i32], eids: &[Vec<i64>], Ghost(rank): Ghost<Seq<int>>) -> (out: Vec<usize>)
    requires
        forest_ranked(parent@, rank),
        u < parent@.len(),
        eids@.len() == parent@.len(),
        forall|w: int| 0 <= w < eids@.len() ==> (#[trigger] eids@[w])@.len() == parent@.len(),
        candidates_ok(parent@, eids@, u as int, xu@),
    ensures
        out@.len() == xu@.len(),
        out@.no_duplicates(),
        forall|v: usize| out@.contains(v) <==> xu@.contains(v),
        out@ == power_order_spec(parent@, eids@, u as int, xu@),
{
    let ghost p = parent@;
    let ghost orig = xu@;
    let mut xu = xu;
    let mut out: Vec<usize> = Vec::new();
    while xu.len() > 0
        invariant
            forest_ranked(p, rank),
            p == parent@,
            u < p.len(),
            eids@.len() == p.len(),
            forall|w: int| 0 <= w < eids@.len() ==> (#[trigger] eids@[w])@.len() == p.len(),
            candidates_ok(p, eids@, u as int, xu@),
            out@.no_duplicates(),
            out@.len() + xu@.len() == orig.len(),
            out@ + power_order_spec(p, eids@, u as int, xu@) == power_order_spec(p, eids@, u as int, orig),
            forall|v: usize| orig.contains(v) <==> (out@.contains(v) || xu@.contains(v)),
            forall|v: usize| !(out@.contains(v) && xu@.contains(v)),
        decreases xu.len(),
    {
        let xi = dominator(&xu, parent, eids, Ghost(rank), Ghost(u as int));
        let bi = strongest(u, xi, &xu, parent, eids, Ghost(rank));
        let vstar = xu[bi];
        let ghost xs0 = xu@;
        let ghost o0 = out@;
        proof {
            assert(bi as int == pick(p, eids@, u as int, xs0));
            assert(power_order_spec(p, eids@, u as int, xs0) == seq![xs0[bi as int]] + power_order_spec(p, eids@, u as int, xs0.remove(bi as int)));
        }
        out.push(vstar);
        xu.remove(bi);
        proof {
            assert forall|i: int, j: int| 0 <= i < xu@.len() && 0 <= j < xu@.len() && i != j implies xu@[i] != xu@[j] by {
                let i0 = if i < bi { i } else { i + 1 };
                let j0 = if j < bi { j } else { j + 1 };
                assert(xu@[i] == xs0[i0]);
                assert(xu@[j] == xs0[j0]);
            }
            assert forall|i: int| 0 <= i < xu@.len() implies (#[trigger] xu@[i]) < p.len() && eids@[u as int]@[xu@[i] as int] >= 0
                && on_path(p, xu@[i] as int, 0) by {
                let i0 = if i < bi { i } else { i + 1 };
                assert(xu@[i] == xs0[i0]);
            }
            assert forall|v: usize| xu@.contains(v) <==> (xs0.contains(v) && v != vstar) by {
                if xu@.contains(v) {
                    let i = choose|i: int| 0 <= i < xu@.len() && xu@[i] == v;
                    let i0 = if i < bi { i } else { i + 1 };
                    assert(xu@[i] == xs0[i0]);
                    assert(i0 != bi);
                }
                if xs0.contains(v) && v != vstar {
                    let i0 = choose|i: int| 0 <= i < xs0.len() && xs0[i] == v;
                    assert(i0 != bi);
                    let i = if i0 < bi { i0 } else { i0 - 1 };
                    assert(xu@[i] == v);
                }
            }
            assert forall|v: usize| out@.contains(v) <==> (o0.contains(v) || v == vstar) by {
                if out@.contains(v) {
                    let i = choose|i: int| 0 <= i < out@.len() && out@[i] == v;
                    if i < o0.len() {
                        assert(o0[i] == v);
                    }
                }
                if o0.contains(v) {
                    let i = choose|i: int| 0 <= i < o0.len() && o0[i] == v;
                    assert(out@[i] == v);
                }
                if v == vstar {
                    assert(out@[o0.len() as int] == v);
                }
            }
            assert(xs0.contains(vstar));
            assert(!o0.contains(vstar));
            assert(xu@ == xs0.remove(bi as int));
            assert(out@ + power_order_spec(p, eids@, u as int, xu@) =~= o0 + (seq![vstar] + power_order_spec(p, eids@, u as int, xu@)));
            assert forall|v: usize| !(out@.contains(v) && xu@.contains(v)) by {
                if out@.contains(v) && xu@.contains(v) {
                    assert(o0.contains(v) || v == vstar);
                    assert(xs0.contains(v));
                }
            }
            assert forall|i: int, j: int| 0 <= i < out@.len() && 0 <= j < out@.len() && i != j implies out@[i] != out@[j] by {
                if i < o0.len() && j < o0.len() {
                    assert(out@[i] == o0[i]);
                    assert(out@[j] == o0[j]);
                } else if i < o0.len() {
                    assert(out@[i] == o0[i]);
                    assert(o0.contains(o0[i]));
                } else if j < o0.len() {
                    assert(out@[j] == o0[j]);
                    assert(o0.contains(o0[j]));
                }
            }
        }
    }
    proof {
        assert(power_order_spec(p, eids@, u as int, xu@) == Seq::<usize>::empty());
        assert(out@ + Seq::<usize>::empty() =~= out@);
        assert forall|v: usize| out@.contains(v) <==> orig.contains(v) by {
            if xu@.contains(v) {
                let i = choose|i: int| 0 <= i < xu@.len() && xu@[i] == v;
            }
        }
    }
    out
}

proof fn lemma_anc_shift(p: Seq<i32>, v: int, k: nat)
    requires
        0 <= v < p.len(),
        0 <= p[v] < p.len(),
    ensures
        anc(p, v, k + 1) == anc(p, p[v] as int, k),
    decreases k,
{
    if k > 0 {
        lemma_anc_shift(p, v, (k - 1) as nat);
        assert(anc(p, v, k) == anc(p, p[v] as int, (k - 1) as nat));
        assert(anc(p, v, k + 1) == (if 0 <= anc(p, v, k) < p.len() && p[anc(p, v, k)] >= 0 {
            p[anc(p, v, k)] as int
        } else {
            anc(p, v, k)
        }));
    } else {
        assert(anc(p, v, 0) == v);
        assert(anc(p, p[v] as int, 0) == p[v]);
    }
}

/// The marked vertices form a tree: the root is marked and every other
/// marked vertex has a marked parent of smaller rank.
pub open spec fn labeled_tree(p: Seq<i32>, rank: Seq<int>, x: Seq<bool>) -> bool {
    &&& p.len() == x.len() && rank.len() == x.len()
    &&& x.len() >= 1
    &&& x[0]
    &&& forall|v: int| 0 <= v < x.len() ==> 0 <= #[trigger] rank[v]
    &&& forall|v: int|
        0 <= v < x.len() && #[trigger] x[v] && v != 0 ==> 0 <= p[v] < x.len() && x[p[v] as int] && rank[p[v] as int]
            < rank[v]
}

proof fn lemma_reaches_root(p: Seq<i32>, rank: Seq<int>, x: Seq<bool>, v: int)
    requires
        labeled_tree(p, rank, x),
        0 <= v < x.len(),
        x[v],
    ensures
        on_path(p, v, 0),
    decreases rank[v],
{
    if v == 0 {
        assert(anc(p, v, 0) == 0);
    } else {
        let u = p[v] as int;
        lemma_reaches_root(p, rank, x, u);
        let j = choose|j: nat| #[trigger] anc(p, u, j) == 0;
        lemma_anc_shift(p, v, j);
        assert(anc(p, v, j + 1) == 0);
    }
}

/// Number of marked neighbors of `v`.
pub open spec fn marked_nbrs(a: Seq<Vec<u32>>, x: Seq<bool>, v: int, k: int) -> int {
    sum(k, |w: int| if x[w] && a[v]@[w] > 0 { 1int } else { 0int })
}

/// The marked neighbors of `u`, in increasing order, with their count.
fn marked_neighbors(g: &Graph, in_x: &Vec<bool>, u: usize) -> (xu: Vec<usize>)
    requires
        g.wf(),
        in_x@.len() == g.n,
        u < g.n,
    ensures
        xu@.len() == marked_nbrs(g.adj@, in_x@, u as int, g.n as int),
        xu@ == marked_list(g.adj@, in_x@, u as int, g.n as int),
        xu@.no_duplicates(),
        forall|i: int| 0 <= i < xu@.len() ==> (#[trigger] xu@[i]) < g.n && in_x@[xu@[i] as int] && g.adj@[u as int]@[xu@[i] as int] > 0,
{
    let n = g.n;
    let ghost a = g.adj@;
    let mut xu: Vec<usize> = Vec::new();
    proof {
        assert(a[u as int]@.len() == n);
    }
    for w in 0..n
        invariant
            n == g.n,
            a == g.adj@,
            g.wf(),
            u < n,
            in_x@.len() == n,
            xu@.len() == marked_nbrs(a, in_x@, u as int, w as int),
            xu@ == marked_list(a, in_x@, u as int, w as int),
            forall|i: int| 0 <= i < xu@.len() ==> (#[trigger] xu@[i]) < w && in_x@[xu@[i] as int] && a[u as int]@[xu@[i] as int] > 0,
            forall|i: int, j: int| 0 <= i < j < xu@.len() ==> xu@[i] < xu@[j],
    {
        if in_x[w] && g.adj[u][w] > 0 {
            xu.push(w);
        }
    }
    proof {
        assert forall|i: int, j: int| 0 <= i < xu@.len() && 0 <= j < xu@.len() && i != j implies xu@[i] != xu@[j] by {
            if i < j {
                assert(xu@[i] < xu@[j]);
            } else {
                assert(xu@[j] < xu@[i]);
            }
        }
    }
    xu
}

proof fn lemma_simple_weight(a: Seq<Vec<u32>>, x: Seq<bool>, v: int)
    requires
        valid_matrix(a),
        is_simple(a),
        x.len() == a.len(),
        x[0],
        0 <= v < a.len(),
    ensures
        marked_nbrs(a, x, v, a.len() as int) == crate::dhar::weight_outside(
            a,
            Set::new(|w: int| 1 <= w < a.len() && !x[w]),
            v,
        ),
{
    let n = a.len() as int;
    let us = Set::new(|w: int| 1 <= w < n && !x[w]);
    let f1 = |w: int| if x[w] && a[v]@[w] > 0 { 1int } else { 0int };
    let f2 = |w: int| if us.contains(w) { 0int } else { a[v]@[w] as int };
    assert forall|w: int| 0 <= w < n implies #[trigger] f1(w) == f2(w) by {
        assert(a[v]@[w] <= 1);
        if w == 0 {
            assert(x[0]);
        }
    }
    crate::sums::lemma_sum_ext(n, f1, f2);
}

/// The marked neighbors of `u` among `0..k`, in increasing order.
pub open spec fn marked_list(a: Seq<Vec<u32>>, x: Seq<bool>, u: int, k: int) -> Seq<usize>
    decreases k,
{
    if k <= 0 {
        seq![]
    } else {
        let r = marked_list(a, x, u, k - 1);
        if x[k - 1] && a[u]@[k - 1] > 0 {
            r.push((k - 1) as usize)
        } else {
            r
        }
    }
}

/// The unmarked vertices among `1..k` with more marked neighbors than their
/// value under `f`, in increasing order.
pub open spec fn over_list(a: Seq<Vec<u32>>, x: Seq<bool>, f: Seq<u32>, k: int) -> Seq<usize>
    decreases k,
{
    if k <= 1 {
        seq![]
    } else {
        let r = over_list(a, x, f, k - 1);
        let v = k - 1;
        if !x[v] && marked_nbrs(a, x, v, a.len() as int) > f[v] {
            r.push(v as usize)
        } else {
            r
        }
    }
}

/// The tentative parent of `u`: its `(|X_u| - f(u))`-th marked neighbor in
/// power order.
pub open spec fn tentative(a: Seq<Vec<u32>>, eids: Seq<Vec<i64>>, p: Seq<i32>, x: Seq<bool>, f: Seq<u32>, u: int) -> int {
    let xu = marked_list(a, x, u, a.len() as int);
    power_order_spec(p, eids, u, xu)[xu.len() - f[u] - 1] as int
}

/// The parent array with every over-threshold vertex joined to its
/// tentative parent.
pub open spec fn t_prime(a: Seq<Vec<u32>>, eids: Seq<Vec<i64>>, p: Seq<i32>, x: Seq<bool>, f: Seq<u32>) -> Seq<i32> {
    let s = over_list(a, x, f, a.len() as int);
    Seq::new(
        a.len(),
        |v: int|
            if s.contains(v as usize) {
                tentative(a, eids, p, x, f, v) as i32
            } else {
                p[v]
            },
    )
}

/// Scanning the first `k` over-threshold vertices, each that the current
/// choice dominates replaces it.
pub open spec fn ustar_scan(tp: Seq<i32>, eids: Seq<Vec<i64>>, s: Seq<usize>, k: int) -> int
    decreases k,
{
    if k <= 1 {
        s[0] as int
    } else {
        let us = ustar_scan(tp, eids, s, k - 1);
        let u = s[k - 1] as int;
        let mm = meet_max(tp, eids, us, u);
        if mm.0 > mm.1 {
            u
        } else {
            us
        }
    }
}

/// One step of the BCT construction: the chosen over-threshold vertex is
/// joined to its tentative parent and marked.
pub open spec fn pi_step(a: Seq<Vec<u32>>, eids: Seq<Vec<i64>>, f: Seq<u32>, p: Seq<i32>, x: Seq<bool>) -> (Seq<i32>, Seq<bool>) {
    let s = over_list(a, x, f, a.len() as int);
    let tp = t_prime(a, eids, p, x, f);
    let us = ustar_scan(tp, eids, s, s.len() as int);
    (p.update(us, tentative(a, eids, p, x, f, us) as i32), x.update(us, true))
}

/// Parent array and marked set after `t` steps of the BCT construction.
pub open spec fn pi_state(a: Seq<Vec<u32>>, eids: Seq<Vec<i64>>, f: Seq<u32>, t: nat) -> (Seq<i32>, Seq<bool>)
    decreases t,
{
    if t == 0 {
        (Seq::new(a.len(), |v: int| -1i32), Seq::new(a.len(), |v: int| v == 0))
    } else {
        let st = pi_state(a, eids, f, (t - 1) as nat);
        pi_step(a, eids, f, st.0, st.1)
    }
}

/// The over-threshold vertices: unmarked, with more marked neighbors than
/// their value under `f`, in increasing order.
fn over_threshold(g: &Graph, in_x: &Vec<bool>, f: &[u32]) -> (s: Vec<usize>)
    requires
        g.wf(),
        in_x@.len() == g.n,
        f@.len() >= g.n,
    ensures
        s@ == over_list(g.adj@, in_x@, f@, g.n as int),
        forall|i: int| 0 <= i < s@.len() ==> 1 <= #[trigger] s@[i] < g.n && !in_x@[s@[i] as int] && (f@[s@[i] as int] as int)
            < marked_nbrs(g.adj@, in_x@, s@[i] as int, g.n as int),
        forall|w: int|
            1 <= w < g.n && !in_x@[w] && (f@[w] as int) < marked_nbrs(g.adj@, in_x@, w, g.n as int) ==> s@.contains(w as usize),
        forall|i: int, j: int| 0 <= i < j < s@.len() ==> s@[i] < s@[j],
{
    let n = g.n;
    let ghost a = g.adj@;
    let mut s: Vec<usize> = Vec::new();
    for v in 1..n
        invariant
            n == g.n,
            a == g.adj@,
            g.wf(),
            in_x@.len() == n,
            f@.len() >= n,
            forall|i: int| 0 <= i < s@.len() ==> 1 <= #[trigger] s@[i] < v && !in_x@[s@[i] as int] && (f@[s@[i] as int] as int)
                < marked_nbrs(a, in_x@, s@[i] as int, n as int),
            forall|w: int|
                1 <= w < v && !in_x@[w] && (f@[w] as int) < marked_nbrs(a, in_x@, w, n as int) ==> s@.contains(w as usize),
            forall|i: int, j: int| 0 <= i < j < s@.len() ==> s@[i] < s@[j],
            s@ == over_list(a, in_x@, f@, v as int),
    {
        if !in_x[v] {
            let xv = marked_neighbors(g, in_x, v);
            if xv.len() > f[v] as usize {
                let ghost s0 = s@;
                s.push(v);
                proof {
                    assert(s@[s0.len() as int] == v);
                    assert(s@.contains(v));
                    assert forall|w: int|
                        1 <= w < v && !in_x@[w] && (f@[w] as int) < marked_nbrs(a, in_x@, w, n as int) implies s@.contains(w as usize) by {
                        assert(s0.contains(w as usize));
                        let i = choose|i: int| 0 <= i < s0.len() && s0[i] == w as usize;
                        assert(s@[i] == w as usize);
                    }
                }
            }
        }
    }
    s
}

/// The tentative parent of every over-threshold vertex, indexed by vertex.
fn tentatives(
    g: &Graph,
    eids: &[Vec<i64>],
    f: &[u32],
    parent: &Vec<i32>,
    in_x: &Vec<bool>,
    s: &Vec<usize>,
    Ghost(rank): Ghost<Seq<int>>,
) -> (m: Vec<usize>)
    requires
        g.wf(),
        is_simple(g.adj@),
        is_edge_table(g.adj@, eids@),
        f@.len() >= g.n,
        parent@.len() == g.n,
        in_x@.len() == g.n,
        labeled_tree(parent@, rank, in_x@),
        forest_ranked(parent@, rank),
        forall|i: int| 0 <= i < s@.len() ==> 1 <= #[trigger] s@[i] < g.n && !in_x@[s@[i] as int] && (f@[s@[i] as int] as int)
            < marked_nbrs(g.adj@, in_x@, s@[i] as int, g.n as int),
        forall|i: int, j: int| 0 <= i < j < s@.len() ==> s@[i] < s@[j],
    ensures
        m@.len() == g.n,
        forall|i: int|
            0 <= i < s@.len() ==> #[trigger] m@[s@[i] as int] < g.n && in_x@[m@[s@[i] as int] as int] && g.adj@[s@[i] as int]@[m@[s@[i] as int] as int] > 0,
        forall|i: int|
            0 <= i < s@.len() ==> #[trigger] m@[s@[i] as int] as int == tentative(g.adj@, eids@, parent@, in_x@, f@, s@[i] as int),
{
    let n = g.n;
    let ghost a = g.adj@;
    let mut m: Vec<usize> = Vec::new();
    for i in 0..n
        invariant
            m@.len() == i,
    {
        m.push(0);
    }
    for si in 0..s.len()
        invariant
            n == g.n,
            a == g.adj@,
            g.wf(),
            is_simple(a),
            is_edge_table(a, eids@),
            f@.len() >= n,
            parent@.len() == n,
            in_x@.len() == n,
            m@.len() == n,
            labeled_tree(parent@, rank, in_x@),
            forest_ranked(parent@, rank),
            forall|i: int| 0 <= i < s@.len() ==> 1 <= #[trigger] s@[i] < n && !in_x@[s@[i] as int] && (f@[s@[i] as int] as int)
                < marked_nbrs(a, in_x@, s@[i] as int, n as int),
            forall|i: int, j: int| 0 <= i < j < s@.len() ==> s@[i] < s@[j],
            forall|i: int|
                0 <= i < si ==> #[trigger] m@[s@[i] as int] < n && in_x@[m@[s@[i] as int] as int] && a[s@[i] as int]@[m@[s@[i] as int] as int] > 0,
            forall|i: int|
                0 <= i < si ==> #[trigger] m@[s@[i] as int] as int == tentative(a, eids@, parent@, in_x@, f@, s@[i] as int),
    {
        let u = s[si];
        let xu = marked_neighbors(g, in_x, u);
        proof {
            assert(eids@.len() == n);
            assert forall|i: int| 0 <= i < xu@.len() implies (#[trigger] xu@[i]) < parent@.len() && eids@[u as int]@[xu@[i] as int]
                >= 0 && on_path(parent@, xu@[i] as int, 0) by {
                let w = xu@[i] as int;
                lemma_reaches_root(parent@, rank, in_x@, w);
                assert(eids@[u as int]@[w] == if (u as int) < w { edge_rank(a, u as int, w) } else { edge_rank(a, w, u as int) });
                if (u as int) < w {
                    lemma_edge_rank_bound(a, u as int, w);
                } else {
                    lemma_edge_rank_bound(a, w, u as int);
                }
            }
        }
        let k = xu.len();
        let order = power_order(u, xu, parent.as_slice(), eids, Ghost(rank));
        let pick = order[k - f[u] as usize - 1];
        proof {
            assert(order@.contains(pick));
            assert(pick as int == tentative(a, eids@, parent@, in_x@, f@, u as int));
        }
        let ghost m0 = m@;
        m.set(u, pick);
        proof {
            assert forall|i: int|
                0 <= i < si + 1 implies #[trigger] m@[s@[i] as int] < n && in_x@[m@[s@[i] as int] as int]
                    && a[s@[i] as int]@[m@[s@[i] as int] as int] > 0 by {
                if i < si {
                    assert(s@[i] < s@[si as int]);
                    assert(m@[s@[i] as int] == m0[s@[i] as int]);
                } else {
                    let j = choose|j: int| 0 <= j < xu@.len() && xu@[j] == pick;
                    assert(xu@[j] == pick);
                }
            }
            assert forall|i: int|
                0 <= i < si + 1 implies #[trigger] m@[s@[i] as int] as int == tentative(a, eids@, parent@, in_x@, f@, s@[i] as int) by {
                if i < si {
                    assert(s@[i] < s@[si as int]);
                    assert(m@[s@[i] as int] == m0[s@[i] as int]);
                }
            }
        }
    }
    m
}

/// The vertex chosen among the over-threshold ones: scanning them, each
/// that the current choice dominates in `tprime` replaces it.
fn choose_ustar(
    tprime: &Vec<i32>,
    eids: &[Vec<i64>],
    s: &Vec<usize>,
    Ghost(rank2): Ghost<Seq<int>>,
    Ghost(in2): Ghost<Seq<bool>>,
) -> (us: usize)
    requires
        s@.len() >= 1,
        eids@.len() == tprime@.len(),
        forall|w: int| 0 <= w < tprime@.len() ==> (#[trigger] eids@[w])@.len() == tprime@.len(),
        forest_ranked(tprime@, rank2),
        labeled_tree(tprime@, rank2, in2),
        in2.len() == tprime@.len(),
        forall|i: int| 0 <= i < s@.len() ==> 1 <= #[trigger] s@[i] < tprime@.len() && in2[s@[i] as int],
    ensures
        s@.contains(us),
        us as int == ustar_scan(tprime@, eids@, s@, s@.len() as int),
{
    let n = tprime.len();
    let mut ustar: usize = s[0];
    proof {
        assert(s@.contains(ustar));
    }
    for si in 1..s.len()
        invariant
            n == tprime@.len(),
            eids@.len() == n,
            forall|w: int| 0 <= w < n ==> (#[trigger] eids@[w])@.len() == n,
            forest_ranked(tprime@, rank2),
            labeled_tree(tprime@, rank2, in2),
            in2.len() == n,
            forall|i: int| 0 <= i < s@.len() ==> 1 <= #[trigger] s@[i] < n && in2[s@[i] as int],
            s@.contains(ustar),
            ustar as int == ustar_scan(tprime@, eids@, s@, si as int),
    {
        let u = s[si];
        proof {
            let i = choose|i: int| 0 <= i < s@.len() && s@[i] == ustar;
            assert(in2[s@[i] as int]);
            lemma_reaches_root(tprime@, rank2, in2, ustar as int);
            lemma_reaches_root(tprime@, rank2, in2, u as int);
            lemma_share_root(tprime@, ustar as int, u as int, 0);
        }
        if dominates(ustar, u, tprime.as_slice(), eids, Ghost(rank2)) {
            ustar = u;
            proof {
                assert(s@.contains(u)) by {
                    assert(s@[si as int] == u);
                }
            }
        }
    }
    ustar
}

/// Ranks after joining the over-threshold vertices: each gets rank `t`.
pub open spec fn rank_join(rank: Seq<int>, s: Seq<usize>, t: int) -> Seq<int> {
    Seq::new(rank.len(), |v: int| if s.contains(v as usize) { t } else { rank[v] })
}

/// The marked vertices together with the over-threshold ones.
pub open spec fn marked_join(x: Seq<bool>, s: Seq<usize>) -> Seq<bool> {
    Seq::new(x.len(), |v: int| x[v] || s.contains(v as usize))
}

/// The parent array with every over-threshold vertex joined to its
/// tentative parent: a tree on the marked and over-threshold vertices.
fn joined_tree(
    parent: &Vec<i32>,
    in_x: &Vec<bool>,
    s: &Vec<usize>,
    m: &Vec<usize>,
    Ghost(rank): Ghost<Seq<int>>,
    Ghost(t): Ghost<int>,
) -> (tprime: Vec<i32>)
    requires
        parent@.len() <= 64,
        parent@.len() >= 1,
        parent@[0] == -1,
        in_x@.len() == parent@.len(),
        m@.len() == parent@.len(),
        rank.len() == parent@.len(),
        labeled_tree(parent@, rank, in_x@),
        forall|v: int| 0 <= v < parent@.len() && !#[trigger] in_x@[v] ==> parent@[v] == -1,
        forall|v: int| 0 <= v < parent@.len() && #[trigger] in_x@[v] ==> rank[v] < t,
        forall|i: int| 0 <= i < s@.len() ==> 1 <= #[trigger] s@[i] < parent@.len() && !in_x@[s@[i] as int],
        forall|i: int| 0 <= i < s@.len() ==> #[trigger] m@[s@[i] as int] < parent@.len() && in_x@[m@[s@[i] as int] as int],
    ensures
        tprime@.len() == parent@.len(),
        forall|v: int|
            0 <= v < parent@.len() ==> #[trigger] tprime@[v] == if s@.contains(v as usize) {
                m@[v] as i32
            } else {
                parent@[v]
            },
        labeled_tree(tprime@, rank_join(rank, s@, t), marked_join(in_x@, s@)),
        forest_ranked(tprime@, rank_join(rank, s@, t)),
{
    let n = parent.len();
    let mut tprime: Vec<i32> = Vec::new();
    for i in 0..n
        invariant
            parent@.len() == n,
            tprime@.len() == i,
            forall|v: int| 0 <= v < i ==> #[trigger] tprime@[v] == parent@[v],
    {
        tprime.push(parent[i]);
    }
    let ghost mut rank2: Seq<int> = rank;
    for si in 0..s.len()
        invariant
            n == parent@.len(),
            n <= 64,
            tprime@.len() == n,
            parent@.len() == n,
            in_x@.len() == n,
            m@.len() == n,
            rank.len() == n,
            rank2.len() == n,
            forall|i: int| 0 <= i < s@.len() ==> 1 <= #[trigger] s@[i] < n && !in_x@[s@[i] as int],
            forall|i: int| 0 <= i < s@.len() ==> #[trigger] m@[s@[i] as int] < n && in_x@[m@[s@[i] as int] as int],
            forall|v: int|
                0 <= v < n ==> #[trigger] tprime@[v] == if exists|i: int| 0 <= i < si && s@[i] == v {
                    m@[v] as i32
                } else {
                    parent@[v]
                },
            forall|v: int|
                0 <= v < n ==> #[trigger] rank2[v] == if exists|i: int| 0 <= i < si && s@[i] == v {
                    t as int
                } else {
                    rank[v]
                },
    {
        let u = s[si];
        tprime.set(u, m[u] as i32);
        proof {
            rank2 = rank2.update(u as int, t as int);
            assert forall|v: int| 0 <= v < n implies #[trigger] tprime@[v] == if exists|i: int| 0 <= i < si + 1 && s@[i] == v {
                m@[v] as i32
            } else {
                parent@[v]
            } by {
                if v == u {
                    assert(s@[si as int] == v);
                } else if exists|i: int| 0 <= i < si + 1 && s@[i] == v {
                    let i = choose|i: int| 0 <= i < si + 1 && s@[i] == v;
                    assert(i < si);
                }
            }
            assert forall|v: int| 0 <= v < n implies #[trigger] rank2[v] == if exists|i: int| 0 <= i < si + 1 && s@[i] == v {
                t as int
            } else {
                rank[v]
            } by {
                if v == u {
                    assert(s@[si as int] == v);
                } else if exists|i: int| 0 <= i < si + 1 && s@[i] == v {
                    let i = choose|i: int| 0 <= i < si + 1 && s@[i] == v;
                    assert(i < si);
                }
            }
        }
    }
    // the marked vertices together with S form a tree in T'
    let ghost in2 = Seq::new(n as nat, |v: int| in_x@[v] || s@.contains(v as usize));
    proof {
        assert forall|v: int| 0 <= v < n && #[trigger] in_x@[v] implies !s@.contains(v as usize) by {
            if s@.contains(v as usize) {
                let i = choose|i: int| 0 <= i < s@.len() && s@[i] == v as usize;
            }
        }
        assert forall|v: int| 0 <= v < n implies (#[trigger] s@.contains(v as usize)) == (exists|i: int| 0 <= i < s@.len() && s@[i] == v) by {
            if s@.contains(v as usize) {
                let i = choose|i: int| 0 <= i < s@.len() && s@[i] == v as usize;
            }
        }
        assert(labeled_tree(tprime@, rank2, in2)) by {
            assert forall|v: int| 0 <= v < n implies 0 <= #[trigger] rank2[v] by {}
            assert forall|v: int|
                0 <= v < n && #[trigger] in2[v] && v != 0 implies 0 <= tprime@[v] < n && in2[tprime@[v] as int]
                    && rank2[tprime@[v] as int] < rank2[v] by {
                if s@.contains(v as usize) {
                    let i = choose|i: int| 0 <= i < s@.len() && s@[i] == v as usize;
                    let w = m@[v] as int;
                    assert(in_x@[w]);
                    assert(tprime@[v] == w);
                    assert(!s@.contains(w as usize));
                } else {
                    assert(in_x@[v]);
                    let w = parent@[v] as int;
                    assert(in_x@[w]);
                    assert(!s@.contains(w as usize));
                }
            }
        }
        assert(forest_ranked(tprime@, rank2)) by {
            assert forall|v: int| 0 <= v < n && #[trigger] tprime@[v] >= 0 implies tprime@[v] < n && rank2[tprime@[v] as int]
                < rank2[v] by {
                if !s@.contains(v as usize) {
                    assert(in_x@[v]);
                }
            }
        }
    }
    proof {
        assert forall|v: int| 0 <= v < n implies #[trigger] rank2[v] == rank_join(rank, s@, t)[v] by {
            if s@.contains(v as usize) {
                let i = choose|i: int| 0 <= i < s@.len() && s@[i] == v as usize;
            }
        }
        assert(rank2 =~= rank_join(rank, s@, t));
        assert(in2 =~= marked_join(in_x@, s@));
        assert forall|v: int| 0 <= v < n implies #[trigger] tprime@[v] == if s@.contains(v as usize) {
            m@[v] as i32
        } else {
            parent@[v]
        } by {
            if s@.contains(v as usize) {
                let i = choose|i: int| 0 <= i < s@.len() && s@[i] == v as usize;
            }
        }
    }
    tprime
}

/// BCT pi: parking function -> spanning tree (parent array).
#[verifier::rlimit(40)]
pub fn pi(g: &Graph, eids: &[Vec<i64>], f: &[u32]) -> (parent: Vec<i32>)
    requires
        g.wf(),
        is_simple(g.adj@),
        is_edge_table(g.adj@, eids@),
        f@.len() >= g.n,
        crate::dhar::is_parking_function(g.adj@, f@),
    ensures
        is_spanning_tree(g.adj@, parent@),
        parent@ == pi_state(g.adj@, eids@, f@, (g.n - 1) as nat).0,
{
    let n = g.n;
    let ghost a = g.adj@;
    let mut parent: Vec<i32> = Vec::new();
    let mut in_x: Vec<bool> = Vec::new();
    for i in 0..n
        invariant
            parent@.len() == i,
            in_x@.len() == i,
            forall|v: int| 0 <= v < i ==> #[trigger] parent@[v] == -1,
            forall|v: int| 0 <= v < i ==> (#[trigger] in_x@[v]) == (v == 0),
    {
        parent.push(-1);
        in_x.push(i == 0);
    }
    let ghost mut rank: Seq<int> = Seq::new(n as nat, |v: int| 0int);
    proof {
        let h = |w: int| if in_x@[w] { 0int } else { 1int };
        assert forall|w: int| 0 <= w < n implies #[trigger] h(w) == (if w == 0 { 0int } else { 1int }) by {}
        crate::sums::lemma_sum_ext(n as int, h, |w: int| if w == 0 { 0int } else { 1int });
        crate::sums::lemma_sum_const(n as int, 1);
        let c = |w: int| 1int;
        let d = |w: int| if w == 0 { 0int } else { 1int };
        let e = |w: int| if w == 0 { 1int } else { 0int };
        assert forall|w: int| 0 <= w < n implies #[trigger] c(w) == d(w) + e(w) by {}
        crate::sums::lemma_sum_ext(n as int, c, |w: int| d(w) + e(w));
        crate::sums::lemma_sum_add(n as int, d, e);
        crate::sums::lemma_sum_point(n as int, e, 0);
        crate::sums::lemma_sum_ext(n as int, c, |i: int| 1int);
        assert(parent@ =~= pi_state(a, eids@, f@, 0).0);
        assert(in_x@ =~= pi_state(a, eids@, f@, 0).1);
    }
    for t in 1..n
        invariant
            n == g.n,
            a == g.adj@,
            g.wf(),
            is_simple(a),
            is_edge_table(a, eids@),
            f@.len() >= n,
            crate::dhar::is_parking_function(a, f@),
            parent@.len() == n,
            in_x@.len() == n,
            rank.len() == n,
            parent@[0] == -1,
            labeled_tree(parent@, rank, in_x@),
            forall|v: int| 0 <= v < n && !#[trigger] in_x@[v] ==> parent@[v] == -1,
            forall|v: int| 0 <= v < n && #[trigger] in_x@[v] ==> rank[v] < t,
            forall|v: int| 1 <= v < n && #[trigger] in_x@[v] ==> a[v]@[parent@[v] as int] > 0,
            count_false(in_x@) == n - t,
            parent@ == pi_state(a, eids@, f@, (t - 1) as nat).0,
            in_x@ == pi_state(a, eids@, f@, (t - 1) as nat).1,
    {
        proof {
            assert(forest_ranked(parent@, rank)) by {
                assert forall|v: int| 0 <= v < n && #[trigger] parent@[v] >= 0 implies parent@[v] < n && rank[parent@[v] as int]
                    < rank[v] by {
                    assert(in_x@[v]);
                }
            }
        }
        // S = unlabeled vertices that are over-threshold
        let s = over_threshold(g, &in_x, f);
        proof {
            let us = Set::new(|w: int| 1 <= w < n && !in_x@[w]);
            assert(us != Set::<int>::empty()) by {
                let ind = |k: int| if in_x@[k] { 0int } else { 1int };
                crate::sums::lemma_sum_zero_iff(n as int, ind);
                let x = choose|x: int| 0 <= x < n && #[trigger] ind(x) != 0;
                assert(x != 0);
                assert(us.contains(x));
            }
            assert(crate::dhar::is_nonroot_set(n as int, us));
            let v = choose|v: int| #[trigger] us.contains(v) && (f@[v] as int) < crate::dhar::weight_outside(a, us, v);
            lemma_simple_weight(a, in_x@, v);
            assert(s@.contains(v as usize));
            assert(s@.len() >= 1);
        }
        // tentative connection M(u) for each u in S
        let m = tentatives(g, eids, f, &parent, &in_x, &s, Ghost(rank));
        // T' = current arborescence plus all tentative edges
        let tprime = joined_tree(&parent, &in_x, &s, &m, Ghost(rank), Ghost(t as int));
        let ghost rank2 = rank_join(rank, s@, t as int);
        let ghost in2 = marked_join(in_x@, s@);
        proof {
            assert(tprime@ =~= t_prime(a, eids@, parent@, in_x@, f@)) by {
                assert forall|v: int| 0 <= v < n implies #[trigger] tprime@[v] == t_prime(a, eids@, parent@, in_x@, f@)[v] by {
                    if s@.contains(v as usize) {
                        let i = choose|i: int| 0 <= i < s@.len() && s@[i] == v as usize;
                        assert(m@[s@[i] as int] as int == tentative(a, eids@, parent@, in_x@, f@, s@[i] as int));
                    }
                }
            }
        }
        // u* = element of S dominated by all others in S (w.r.t. T')
        let ustar = choose_ustar(&tprime, eids, &s, Ghost(rank2), Ghost(in2));
        let target = m[ustar];
        let ghost p0 = parent@;
        let ghost x0 = in_x@;
        proof {
            let i = choose|i: int| 0 <= i < s@.len() && s@[i] == ustar;
            assert(m@[s@[i] as int] < n && in_x@[m@[s@[i] as int] as int] && a[s@[i] as int]@[m@[s@[i] as int] as int] > 0);
            lemma_count_false_flip(in_x@, ustar as int);
        }
        parent.set(ustar, target as i32);
        in_x.set(ustar, true);
        proof {
            rank = rank.update(ustar as int, t as int);
            assert(labeled_tree(parent@, rank, in_x@)) by {
                assert forall|v: int| 0 <= v < n implies 0 <= #[trigger] rank[v] by {}
                assert forall|v: int|
                    0 <= v < n && #[trigger] in_x@[v] && v != 0 implies 0 <= parent@[v] < n && in_x@[parent@[v] as int]
                        && rank[parent@[v] as int] < rank[v] by {
                    if v != ustar {
                        assert(x0[v]);
                        assert(p0[v] != ustar) by {
                            assert(x0[p0[v] as int]);
                        }
                    }
                }
            }
            assert forall|v: int| 1 <= v < n && #[trigger] in_x@[v] implies a[v]@[parent@[v] as int] > 0 by {
                if v != ustar {
                    assert(x0[v]);
                }
            }
            assert forall|v: int| 0 <= v < n && #[trigger] in_x@[v] implies rank[v] < t + 1 by {
                if v != ustar {
                    assert(x0[v]);
                }
            }
            assert forall|v: int| 0 <= v < n && !#[trigger] in_x@[v] implies parent@[v] == -1 by {
                assert(!x0[v]);
            }
        }
    }
    proof {
        assert forall|v: int| 0 <= v < n implies #[trigger] in_x@[v] by {
            if !in_x@[v] {
                lemma_count_false_flip(in_x@, v);
            }
        }
        assert(tree_ranked(a, parent@, rank)) by {
            assert forall|v: int| 1 <= v < n implies 0 <= #[trigger] parent@[v] < n && a[v]@[parent@[v] as int] > 0
                && rank[parent@[v] as int] < rank[v] by {
                assert(in_x@[v]);
            }
        }
    }
    parent
}

/// The edge `{u, w}`, `u < w`, is a non-tree edge that is not externally
/// active (not the largest in its fundamental cycle) and is oriented out of
/// `v`: from the dominant endpoint to the dominated one.
pub open spec fn orients_out(a: Seq<Vec<u32>>, eids: Seq<Vec<i64>>, p: Seq<i32>, u: int, w: int, v: int) -> bool {
    let (e1, e2) = meet_max(p, eids, u, w);
    &&& a[u]@[w] > 0
    &&& p[u] != w
    &&& p[w] != u
    &&& eids[u]@[w] <= max_i(e1, e2)
    &&& v == if e1 > e2 { u } else { w }
}

/// Number of edges `{r, c}`, `r < c < k`, oriented out of `v`.
pub open spec fn row_out(a: Seq<Vec<u32>>, eids: Seq<Vec<i64>>, p: Seq<i32>, r: int, k: int, v: int) -> int {
    sum(k, |c: int| if r < c && orients_out(a, eids, p, r, c, v) { 1int } else { 0int })
}

/// Number of kept non-tree edges oriented out of `v`.
pub open spec fn nontree_out(a: Seq<Vec<u32>>, eids: Seq<Vec<i64>>, p: Seq<i32>, v: int) -> int {
    sum(a.len() as int, |r: int| row_out(a, eids, p, r, a.len() as int, v))
}

proof fn lemma_row_out_bound(a: Seq<Vec<u32>>, eids: Seq<Vec<i64>>, p: Seq<i32>, r: int, k: int, v: int)
    requires
        0 <= k,
    ensures
        0 <= row_out(a, eids, p, r, k, v) <= k,
{
    let f = |c: int| if r < c && orients_out(a, eids, p, r, c, v) { 1int } else { 0int };
    assert forall|i: int| 0 <= i < k implies #[trigger] f(i) >= 0 by {}
    lemma_sum_nonneg(k, f);
    crate::sums::lemma_sum_le_bound(k, f, 1);
}

proof fn lemma_rows_out_bound(a: Seq<Vec<u32>>, eids: Seq<Vec<i64>>, p: Seq<i32>, u: int, v: int)
    requires
        0 <= u <= a.len() <= 64,
    ensures
        0 <= sum(u, |r: int| row_out(a, eids, p, r, a.len() as int, v)) <= 64 * u,
{
    let f = |r: int| row_out(a, eids, p, r, a.len() as int, v);
    assert forall|i: int| 0 <= i < u implies 0 <= #[trigger] f(i) <= 64 by {
        lemma_row_out_bound(a, eids, p, i, a.len() as int, v);
    }
    lemma_sum_nonneg(u, f);
    crate::sums::lemma_sum_le_bound(u, f, 64);
}

/// BCT mu: spanning tree -> parking function. Deletes the externally active
/// non-tree edges (largest in their fundamental cycle), orients every
/// remaining edge from the dominant endpoint to the dominated one (tree edges
/// then point toward the root), and sets f(v) = outdegree(v) - 1.
#[verifier::rlimit(40)]
pub fn mu(g: &Graph, eids: &[Vec<i64>], parent: &[i32]) -> (f: Vec<u32>)
    requires
        g.wf(),
        is_edge_table(g.adj@, eids@),
        is_spanning_tree(g.adj@, parent@),
    ensures
        f@.len() == g.n,
        forall|v: int| 0 <= v < g.n ==> #[trigger] f@[v] == nontree_out(g.adj@, eids@, parent@, v),
{
    let n = g.n;
    let ghost a = g.adj@;
    let ghost p = parent@;
    let ghost rank = choose|rank: Seq<int>| tree_ranked(a, p, rank);
    let ghost all = Seq::new(n as nat, |v: int| true);
    proof {
        assert(forest_ranked(p, rank)) by {
            assert forall|v: int| 0 <= v < p.len() && #[trigger] p[v] >= 0 implies p[v] < p.len() && rank[p[v] as int] < rank[v] by {
                if v == 0 {
                    assert(p[0] == -1);
                }
            }
        }
        assert(labeled_tree(p, rank, all));
    }
    let mut outdeg: Vec<u32> = Vec::new();
    for v in 0..n
        invariant
            outdeg@.len() == v,
            forall|x: int| 0 <= x < v ==> #[trigger] outdeg@[x] == (if x == 0 { 0u32 } else { 1u32 }),
    {
        outdeg.push(if v == 0 { 0 } else { 1 });
    }
    for u in 0..n
        invariant
            n == g.n,
            a == g.adj@,
            p == parent@,
            g.wf(),
            is_edge_table(a, eids@),
            forest_ranked(p, rank),
            labeled_tree(p, rank, all),
            all == Seq::new(n as nat, |v: int| true),
            outdeg@.len() == n,
            forall|x: int|
                0 <= x < n ==> #[trigger] outdeg@[x] == (if x == 0 { 0int } else { 1int }) + sum(
                    u as int,
                    |r: int| row_out(a, eids@, p, r, n as int, x),
                ),
    {
        proof {
            assert forall|x: int| 0 <= x < n implies #[trigger] row_out(a, eids@, p, u as int, u + 1, x) == 0 by {
                let f = |c: int| if u < c && orients_out(a, eids@, p, u as int, c, x) { 1int } else { 0int };
                assert forall|i: int| 0 <= i < u + 1 implies #[trigger] f(i) == 0 by {}
                assert forall|i: int| 0 <= i < u + 1 implies #[trigger] f(i) >= 0 by {}
                crate::sums::lemma_sum_zero_iff(u + 1, f);
            }
            assert(a[u as int]@.len() == n);
        }
        for w in u + 1..n
            invariant
                n == g.n,
                a == g.adj@,
                p == parent@,
                g.wf(),
                u < n,
                is_edge_table(a, eids@),
                forest_ranked(p, rank),
                labeled_tree(p, rank, all),
                all == Seq::new(n as nat, |v: int| true),
                outdeg@.len() == n,
                forall|x: int|
                    0 <= x < n ==> #[trigger] outdeg@[x] == (if x == 0 { 0int } else { 1int }) + sum(
                        u as int,
                        |r: int| row_out(a, eids@, p, r, n as int, x),
                    ) + row_out(a, eids@, p, u as int, w as int, x),
        {
            let ghost o0 = outdeg@;
            proof {
                assert forall|x: int| 0 <= x < n implies #[trigger] row_out(a, eids@, p, u as int, w + 1, x) == row_out(
                    a,
                    eids@,
                    p,
                    u as int,
                    w as int,
                    x,
                ) + (if orients_out(a, eids@, p, u as int, w as int, x) { 1int } else { 0int }) by {}
                assert forall|x: int| 0 <= x < n implies #[trigger] outdeg@[x] <= 1 + 64 * 64 + 64 by {
                    lemma_rows_out_bound(a, eids@, p, u as int, x);
                    lemma_row_out_bound(a, eids@, p, u as int, w as int, x);
                    assert(64 * u <= 64 * 64) by (nonlinear_arith)
                        requires
                            u < 64,
                    ;
                }
            }
            if g.adj[u][w] > 0 && parent[u] != w as i32 && parent[w] != u as i32 {
                proof {
                    lemma_reaches_root(p, rank, all, u as int);
                    lemma_reaches_root(p, rank, all, w as int);
                    lemma_share_root(p, u as int, w as int, 0);
                }
                let (euv, evu) = meet_maxima(u, w, parent, eids, Ghost(rank));
                let path_max = if euv > evu { euv } else { evu };
                if eids[u][w] <= path_max {
                    if euv > evu {
                        outdeg.set(u, outdeg[u] + 1);
                    } else {
                        outdeg.set(w, outdeg[w] + 1);
                    }
                }
                proof {
                    let m = meet_max(p, eids@, u as int, w as int);
                    assert(m == (euv as int, evu as int));
                    assert forall|x: int| 0 <= x < n implies #[trigger] outdeg@[x] == o0[x] + (if orients_out(
                        a,
                        eids@,
                        p,
                        u as int,
                        w as int,
                        x,
                    ) { 1int } else { 0int }) by {}
                }
            } else {
                proof {
                    assert forall|x: int| 0 <= x < n implies !orients_out(a, eids@, p, u as int, w as int, x) by {}
                }
            }
        }
        proof {
            assert forall|x: int| 0 <= x < n implies #[trigger] outdeg@[x] == (if x == 0 { 0int } else { 1int }) + sum(
                u + 1,
                |r: int| row_out(a, eids@, p, r, n as int, x),
            ) by {}
        }
    }
    let mut f: Vec<u32> = Vec::new();
    for v in 0..n
        invariant
            n == g.n,
            a == g.adj@,
            p == parent@,
            g.wf(),
            outdeg@.len() == n,
            f@.len() == v,
            forall|x: int|
                0 <= x < n ==> #[trigger] outdeg@[x] == (if x == 0 { 0int } else { 1int }) + sum(
                    n as int,
                    |r: int| row_out(a, eids@, p, r, n as int, x),
                ),
            forall|x: int| 0 <= x < v ==> #[trigger] f@[x] == nontree_out(a, eids@, p, x),
    {
        proof {
            lemma_rows_out_bound(a, eids@, p, n as int, v as int);
            assert(64 * n <= 64 * 64) by (nonlinear_arith)
                requires
                    n <= 64,
            ;
        }
        f.push(outdeg[v] - if v != 0 { 1 } else { 0 });
    }
    f
}

} // verus!
