//! Canonical enumeration of G-parking functions, grouped into boxes.
//!
//! Every parking function f (root q = 0, Dhar convention: f is superstable
//! iff repeatedly burning any vertex v with f(v) < (edge-multiplicity-weighted
//! count of burnt neighbors), starting from q burnt, burns everything) has a
//! unique LEX-MINIMAL burn order sigma(f): at each step burn the smallest
//! burnable vertex. This search enumerates exactly the orders arising as
//! sigma(f) for some f, once each, WITHOUT constructing f up front:
//!
//!   * Burnability of the k-th burned vertex v requires f(v) < wcnt_k(v),
//!     where wcnt_k is v's burnt-neighbor weight at that moment.
//!   * Lex-minimality requires every unburnt u < v to NOT be burnable at
//!     step k, i.e. f(u) >= wcnt_k(u). Since wcnt is nondecreasing along the
//!     order, the binding constraint is the LAST such skip: keep a watermark
//!     w2(u) = wcnt(u) at the most recent step that burned some v > u.
//!
//! So at the step burning v, the compatible values are exactly the interval
//! f(v) in [w2(v), wcnt(v) - 1], nonempty precisely when wcnt(v) > w2(v),
//! which is the branch condition. Each leaf is the box {bottom <= f <= top}
//! of parking functions whose lex-min burn order is that leaf's order
//! (bottom = w2 at burn time, top = wcnt - 1 at burn time).
use vstd::prelude::*;

verus! {

use crate::bits::{has_bit, lemma_bit_and_not, lemma_bit_or_single, lemma_bit_zero, lemma_pop_lowest};
use crate::graph::{
    degree, degrees_fit, inner_weight, lemma_full_weight, lemma_inner_weight_insert, lemma_unmarked_insert, lemma_weight_into_insert,
    lemma_weight_into_mono, lemma_weight_into_nonneg, mask_set, unmarked, valid_matrix,
    weight_into, Graph,
};
use crate::sums::{lemma_sum_ext, lemma_sum_nonneg, lemma_sum_point, sum};
use rayon::iter::{IntoParallelRefIterator, ParallelIterator};

/// A leaf of the search: burn order, bottom and top of its box.
pub type LeafView = (Seq<u32>, Seq<u32>, Seq<u32>);

/// The search state as mathematical sequences.
pub struct SearchView {
    pub burnt: u64,
    pub order: Seq<u32>,
    pub wcnt: Seq<u32>,
    pub w2: Seq<u32>,
    pub bottom: Seq<u32>,
    pub top: Seq<u32>,
}

/// The box of a leaf, borrowed from the search state.
pub struct Boxes<'a> {
    pub order: &'a [u32],
    /// bottom[v], top[v] indexed by vertex; entries for the root are unused
    pub bottom: &'a [u32],
    pub top: &'a [u32],
}

impl<'a> Boxes<'a> {
    pub open spec fn leaf_view(&self) -> LeafView {
        (self.order@, self.bottom@, self.top@)
    }
}

/// A search state: burnt set, burn order so far, burnt-neighbor weights,
/// watermarks, and the box bounds of the burnt vertices.
#[derive(Clone)]
pub struct State {
    burnt: u64,
    order: Vec<u32>,
    wcnt: Vec<u32>,
    w2: Vec<u32>,
    bottom: Vec<u32>,
    top: Vec<u32>,
}

impl State {
    pub closed spec fn view(&self) -> SearchView {
        SearchView {
            burnt: self.burnt,
            order: self.order@,
            wcnt: self.wcnt@,
            w2: self.w2@,
            bottom: self.bottom@,
            top: self.top@,
        }
    }
}

// ---------------------------------------------------------------------------
// The search, as a mathematical object.
// ---------------------------------------------------------------------------

/// The root state: only the root burnt, weights from the root.
pub open spec fn root_view(a: Seq<Vec<u32>>) -> SearchView {
    let n = a.len() as int;
    SearchView {
        burnt: 1u64,
        order: seq![0u32],
        wcnt: Seq::new(n as nat, |w: int| if w == 0 { 0u32 } else { a[0]@[w] }),
        w2: Seq::new(n as nat, |w: int| 0u32),
        bottom: Seq::new(n as nat, |w: int| 0u32),
        top: Seq::new(n as nat, |w: int| 0u32),
    }
}

/// `v` may be burnt next: it is unburnt and its interval
/// `[w2(v), wcnt(v) - 1]` is nonempty.
pub open spec fn can_burn(a: Seq<Vec<u32>>, s: SearchView, v: int) -> bool {
    1 <= v < a.len() && !has_bit(s.burnt, v) && s.wcnt[v] > s.w2[v]
}

/// Burning `v`: record its interval, raise the watermark of every smaller
/// unburnt vertex to its weight, and add `v`'s edges to the weights of its
/// unburnt neighbors.
pub open spec fn after_burn(a: Seq<Vec<u32>>, s: SearchView, v: int) -> SearchView {
    let b2 = s.burnt | (1u64 << (v as u64));
    SearchView {
        burnt: b2,
        order: s.order.push(v as u32),
        wcnt: Seq::new(
            s.wcnt.len(),
            |w: int|
                if 0 <= w < a.len() && !has_bit(b2, w) && a[v]@[w] > 0 {
                    (s.wcnt[w] + a[v]@[w]) as u32
                } else {
                    s.wcnt[w]
                },
        ),
        w2: Seq::new(
            s.w2.len(),
            |u: int|
                if 1 <= u < v && !has_bit(s.burnt, u) {
                    s.wcnt[u]
                } else {
                    s.w2[u]
                },
        ),
        bottom: s.bottom.update(v, s.w2[v]),
        top: s.top.update(v, (s.wcnt[v] - 1) as u32),
    }
}

/// Some unburnt vertex can never be burnt again: its interval is empty and
/// it has no unburnt neighbor left to raise its weight.
pub open spec fn is_dead_end(a: Seq<Vec<u32>>, s: SearchView) -> bool {
    exists|u: int|
        0 <= u < a.len() && !#[trigger] has_bit(s.burnt, u) && s.wcnt[u] <= s.w2[u] && forall|w: int|
            0 <= w < a.len() && a[u]@[w] > 0 ==> has_bit(s.burnt, w)
}

/// The leaves below `s`, in search order.
pub open spec fn leaves(a: Seq<Vec<u32>>, s: SearchView) -> Seq<LeafView>
    decreases a.len() - s.order.len(), a.len() + 1,
{
    if s.order.len() >= a.len() {
        seq![(s.order, s.bottom, s.top)]
    } else {
        children(a, s, 1)
    }
}

/// The leaves below `s` whose next burnt vertex is at least `v`.
pub open spec fn children(a: Seq<Vec<u32>>, s: SearchView, v: int) -> Seq<LeafView>
    decreases a.len() - s.order.len(), a.len() - v,
{
    if v >= a.len() || s.order.len() >= a.len() || v < 1 {
        seq![]
    } else {
        let rest = children(a, s, v + 1);
        if can_burn(a, s, v) && !is_dead_end(a, after_burn(a, s, v)) {
            leaves(a, after_burn(a, s, v)) + rest
        } else {
            rest
        }
    }
}

/// The leaves of the whole search.
pub open spec fn all_leaves(a: Seq<Vec<u32>>) -> Seq<LeafView> {
    leaves(a, root_view(a))
}

/// The invariant of search states.
pub open spec fn state_inv(a: Seq<Vec<u32>>, s: SearchView) -> bool {
    let n = a.len() as int;
    &&& valid_matrix(a)
    &&& degrees_fit(a)
    &&& 1 <= s.order.len() <= n
    &&& s.wcnt.len() == n && s.w2.len() == n && s.bottom.len() == n && s.top.len() == n
    &&& s.order[0] == 0
    &&& s.order.no_duplicates()
    &&& forall|i: int| 0 <= i < s.order.len() ==> #[trigger] s.order[i] < n
    &&& forall|k: int| #[trigger] has_bit(s.burnt, k) <==> s.order.contains(k as u32) && 0 <= k < n
    &&& unmarked(s.burnt, n) == n - s.order.len()
    &&& forall|u: int|
        0 <= u < n && !#[trigger] has_bit(s.burnt, u) ==> s.wcnt[u] == weight_into(a, mask_set(s.burnt), u)
            && s.w2[u] <= s.wcnt[u]
    &&& forall|u: int|
        1 <= u < n && #[trigger] has_bit(s.burnt, u) ==> s.bottom[u] <= s.top[u] && s.top[u] < u32::MAX
    &&& 2 * burnt_top_sum(s, n) == inner_weight(a, mask_set(s.burnt))
    &&& order_inv(a, s)
}

/// The vertices at positions `0..i` of a burn order.
pub open spec fn prefix_set(order: Seq<u32>, i: int) -> Set<int> {
    Set::new(|x: int| exists|j: int| 0 <= j < i && #[trigger] order[j] as int == x)
}

/// What the burn order records: the top of each burnt vertex is one below
/// its weight from the vertices burnt before it, and its bottom (for
/// unburnt vertices: its watermark) is at least its weight from the vertices
/// burnt before any later step that burnt a larger vertex.
pub open spec fn order_inv(a: Seq<Vec<u32>>, s: SearchView) -> bool {
    let n = a.len() as int;
    let len = s.order.len() as int;
    &&& forall|i: int|
        1 <= i < len ==> s.top[#[trigger] s.order[i] as int] + 1 == weight_into(a, prefix_set(s.order, i), s.order[i] as int)
    &&& forall|i: int, k: int|
        #![trigger s.order[i], s.order[k]]
        1 <= k < i < len && s.order[k] > s.order[i] ==> s.bottom[s.order[i] as int] >= weight_into(
            a,
            prefix_set(s.order, k),
            s.order[i] as int,
        )
    &&& forall|u: int, k: int|
        #![trigger has_bit(s.burnt, u), s.order[k]]
        0 <= u < n && !has_bit(s.burnt, u) && 1 <= k < len && s.order[k] > u ==> s.w2[u] >= weight_into(
            a,
            prefix_set(s.order, k),
            u,
        )
}

/// Sum of `top[u] + 1` over the burnt non-root vertices: the weight of
/// the edges inside the burnt set.
pub open spec fn burnt_top_sum(s: SearchView, n: int) -> int {
    sum(n, |u: int| if u != 0 && has_bit(s.burnt, u) { s.top[u] + 1 } else { 0int })
}

/// Two states that differ at most in the box bounds of unburnt vertices.
pub open spec fn same_search(s: SearchView, t: SearchView) -> bool {
    &&& s.burnt == t.burnt
    &&& s.order == t.order
    &&& s.wcnt == t.wcnt
    &&& s.w2 == t.w2
    &&& s.bottom.len() == t.bottom.len()
    &&& s.top.len() == t.top.len()
    &&& forall|k: int| #[trigger] has_bit(s.burnt, k) ==> s.bottom[k] == t.bottom[k] && s.top[k] == t.top[k]
}


proof fn lemma_weight_fits(a: Seq<Vec<u32>>, p: Set<int>, u: int)
    requires
        degrees_fit(a),
        0 <= u < a.len(),
    ensures
        0 <= weight_into(a, p, u) <= degree(a, u) <= u32::MAX,
{
    lemma_weight_into_nonneg(a, p, u);
    lemma_weight_into_mono(a, p, Set::new(|x: int| 0 <= x < a.len()), u);
    lemma_full_weight(a, u);
}

pub proof fn lemma_root_inv(a: Seq<Vec<u32>>)
    requires
        valid_matrix(a),
        degrees_fit(a),
    ensures
        state_inv(a, root_view(a)),
{
    let n = a.len() as int;
    let s = root_view(a);
    assert forall|k: int| #[trigger] has_bit(1u64, k) <==> k == 0 by {
        if 0 <= k < 64 {
            let j = k as u64;
            assert(((1u64 >> j) & 1u64 == 1u64) <==> j == 0) by (bit_vector);
        }
    }
    assert forall|k: int| #[trigger] has_bit(s.burnt, k) <==> s.order.contains(k as u32) && 0 <= k < n by {
        if k == 0 {
            assert(s.order[0] == 0u32);
        }
    }
    // unmarked(1, n) == n - 1
    let f = |k: int| if has_bit(1u64, k) { 0int } else { 1int };
    let h = |k: int| if k == 0 { 1int } else { 0int };
    assert forall|k: int| 0 <= k < n implies #[trigger] f(k) + h(k) == 1 by {}
    crate::sums::lemma_sum_add(n, f, h);
    lemma_sum_ext(n, |k: int| f(k) + h(k), |k: int| 1int);
    crate::sums::lemma_sum_const(n, 1);
    lemma_sum_point(n, h, 0);
    assert forall|u: int|
        0 <= u < n && !#[trigger] has_bit(s.burnt, u) implies s.wcnt[u] == weight_into(a, mask_set(s.burnt), u)
            && s.w2[u] <= s.wcnt[u] by {
        let g = |w: int| if mask_set(1u64).contains(w) { a[u]@[w] as int } else { 0int };
        assert forall|w: int| 0 <= w < n && w != 0 implies #[trigger] g(w) == 0 by {}
        lemma_sum_point(n, g, 0);
        assert(a[u]@[0] == a[0]@[u]);
    }
    let bt = |u: int| if u != 0 && has_bit(s.burnt, u) { s.top[u] + 1 } else { 0int };
    assert forall|u: int| 0 <= u < n implies #[trigger] bt(u) == 0 by {}
    lemma_sum_ext(n, bt, |u: int| 0int);
    crate::sums::lemma_sum_zero(n);
    let iw = |v: int| if mask_set(1u64).contains(v) { weight_into(a, mask_set(1u64), v) } else { 0int };
    assert forall|v: int| 0 <= v < n && v != 0 implies #[trigger] iw(v) == 0 by {}
    lemma_sum_point(n, iw, 0);
    let w0 = |w: int| if mask_set(1u64).contains(w) { a[0]@[w] as int } else { 0int };
    assert forall|w: int| 0 <= w < n && w != 0 implies #[trigger] w0(w) == 0 by {}
    lemma_sum_point(n, w0, 0);
}

/// The burnt set and the set of all vertices in the burn order give the same
/// weights.
proof fn lemma_prefix_mask(a: Seq<Vec<u32>>, s: SearchView, v: int)
    requires
        s.order.len() <= a.len(),
        forall|k: int| #[trigger] has_bit(s.burnt, k) <==> s.order.contains(k as u32) && 0 <= k < a.len(),
        forall|i: int| 0 <= i < s.order.len() ==> #[trigger] s.order[i] < a.len(),
    ensures
        weight_into(a, prefix_set(s.order, s.order.len() as int), v) == weight_into(a, mask_set(s.burnt), v),
{
    let n = a.len() as int;
    let p = prefix_set(s.order, s.order.len() as int);
    let f = |w: int| if p.contains(w) { a[v]@[w] as int } else { 0int };
    let g = |w: int| if mask_set(s.burnt).contains(w) { a[v]@[w] as int } else { 0int };
    assert forall|w: int| 0 <= w < n implies #[trigger] f(w) == g(w) by {
        if p.contains(w) {
            let j = choose|j: int| 0 <= j < s.order.len() && #[trigger] s.order[j] as int == w;
            assert(s.order.contains(w as u32));
        }
        if has_bit(s.burnt, w) {
            assert(s.order.contains(w as u32));
            let j = choose|j: int| 0 <= j < s.order.len() && s.order[j] == w as u32;
            assert(s.order[j] as int == w);
        }
    }
    lemma_sum_ext(n, f, g);
}

proof fn lemma_prefix_push(order: Seq<u32>, x: u32, i: int)
    requires
        0 <= i <= order.len(),
    ensures
        prefix_set(order.push(x), i) == prefix_set(order, i),
{
    assert forall|y: int| prefix_set(order.push(x), i).contains(y) <==> prefix_set(order, i).contains(y) by {
        if prefix_set(order.push(x), i).contains(y) {
            let j = choose|j: int| 0 <= j < i && #[trigger] order.push(x)[j] as int == y;
            assert(order[j] as int == y);
        }
        if prefix_set(order, i).contains(y) {
            let j = choose|j: int| 0 <= j < i && #[trigger] order[j] as int == y;
            assert(order.push(x)[j] as int == y);
        }
    }
    assert(prefix_set(order.push(x), i) =~= prefix_set(order, i));
}

/// Burning a burnable vertex keeps the invariant.
pub proof fn lemma_after_inv(a: Seq<Vec<u32>>, s: SearchView, v: int)
    requires
        state_inv(a, s),
        can_burn(a, s, v),
        s.order.len() < a.len(),
    ensures
        state_inv(a, after_burn(a, s, v)),
        forall|w: int|
            0 <= w < a.len() && !has_bit(after_burn(a, s, v).burnt, w) && a[v]@[w] > 0 ==> s.wcnt[w]
                + a[v]@[w] <= u32::MAX,
        s.wcnt[v] >= 1,
{
    let n = a.len() as int;
    let t = after_burn(a, s, v);
    let b2 = t.burnt;
    assert forall|k: int| #[trigger] has_bit(b2, k) <==> (has_bit(s.burnt, k) || k == v) by {
        lemma_bit_or_single(s.burnt, v as u64, k);
    }
    assert(!s.order.contains(v as u32));
    assert forall|k: int| #[trigger] has_bit(t.burnt, k) <==> t.order.contains(k as u32) && 0 <= k < n by {
        if has_bit(t.burnt, k) {
            if k == v {
                assert(t.order[t.order.len() - 1] == v as u32);
            } else {
                let i = choose|i: int| 0 <= i < s.order.len() && s.order[i] == k as u32;
                assert(t.order[i] == k as u32);
            }
        }
        if t.order.contains(k as u32) && 0 <= k < n {
            let i = choose|i: int| 0 <= i < t.order.len() && t.order[i] == k as u32;
            if i < s.order.len() {
                assert(s.order.contains(k as u32));
            }
        }
    }
    assert(t.order.no_duplicates()) by {
        assert forall|i: int, j: int| 0 <= i < t.order.len() && 0 <= j < t.order.len() && i != j implies t.order[i]
            != t.order[j] by {
            if i == s.order.len() as int {
                assert(s.order.contains(t.order[j]));
            } else if j == s.order.len() as int {
                assert(s.order.contains(t.order[i]));
            }
        }
    }
    lemma_unmarked_insert(s.burnt, v as u64, n);
    assert(mask_set(b2) =~= mask_set(s.burnt).insert(v));
    assert forall|u: int| 0 <= u < n && !#[trigger] has_bit(t.burnt, u) implies t.wcnt[u] == weight_into(
        a,
        mask_set(t.burnt),
        u,
    ) && t.w2[u] <= t.wcnt[u] && (a[v]@[u] > 0 ==> s.wcnt[u] + a[v]@[u] <= u32::MAX) by {
        lemma_weight_into_insert(a, mask_set(s.burnt), v, u);
        lemma_weight_fits(a, mask_set(b2), u);
        assert(a[u]@[v] == a[v]@[u]);
    }
    lemma_weight_fits(a, mask_set(s.burnt), v);
    assert forall|u: int| 1 <= u < n && #[trigger] has_bit(t.burnt, u) implies t.bottom[u] <= t.top[u] && t.top[u]
        < u32::MAX by {}
    // edges inside the burnt set
    lemma_inner_weight_insert(a, mask_set(s.burnt), v);
    let f = |u: int| if u != 0 && has_bit(s.burnt, u) { s.top[u] + 1 } else { 0int };
    let g = |u: int| if u != 0 && has_bit(t.burnt, u) { t.top[u] + 1 } else { 0int };
    let h = |u: int| if u == v { s.wcnt[v] as int } else { 0int };
    assert forall|u: int| 0 <= u < n implies #[trigger] g(u) == f(u) + h(u) by {}
    lemma_sum_ext(n, g, |u: int| f(u) + h(u));
    crate::sums::lemma_sum_add(n, f, h);
    lemma_sum_point(n, h, v);
    let w1 = |w: int| if mask_set(s.burnt).contains(w) { a[v]@[w] as int } else { 0int };
    assert(s.wcnt[v] == weight_into(a, mask_set(s.burnt), v));
    lemma_after_order_inv(a, s, v);
}

proof fn lemma_after_order_inv(a: Seq<Vec<u32>>, s: SearchView, v: int)
    requires
        state_inv(a, s),
        can_burn(a, s, v),
        s.order.len() < a.len(),
    ensures
        order_inv(a, after_burn(a, s, v)),
{
    let n = a.len() as int;
    let t = after_burn(a, s, v);
    let len = s.order.len() as int;
    assert forall|k: int| #[trigger] has_bit(t.burnt, k) <==> (has_bit(s.burnt, k) || k == v) by {
        lemma_bit_or_single(s.burnt, v as u64, k);
    }
    assert(!s.order.contains(v as u32));
    assert forall|i: int| 0 <= i <= len implies #[trigger] prefix_set(t.order, i) == prefix_set(s.order, i) by {
        lemma_prefix_push(s.order, v as u32, i);
    }
    assert forall|u: int| 0 <= u < n implies #[trigger] weight_into(a, prefix_set(t.order, len), u) == weight_into(
        a,
        mask_set(s.burnt),
        u,
    ) by {
        lemma_prefix_mask(a, s, u);
    }
    assert forall|i: int| 1 <= i < len + 1 implies t.top[#[trigger] t.order[i] as int] + 1 == weight_into(
        a,
        prefix_set(t.order, i),
        t.order[i] as int,
    ) by {
        if i < len {
            assert(t.order[i] == s.order[i]);
            assert(s.order[i] as int != v) by {
                assert(s.order.contains(s.order[i]));
            }
        } else {
            assert(t.order[i] as int == v);
        }
    }
    assert forall|i: int, k: int|
        #![trigger t.order[i], t.order[k]]
        1 <= k < i < len + 1 && t.order[k] > t.order[i] implies t.bottom[t.order[i] as int] >= weight_into(
            a,
            prefix_set(t.order, k),
            t.order[i] as int,
        ) by {
        assert(t.order[k] == s.order[k]);
        if i < len {
            assert(t.order[i] == s.order[i]);
            assert(s.order[i] as int != v) by {
                assert(s.order.contains(s.order[i]));
            }
        } else {
            assert(t.order[i] as int == v);
            assert(has_bit(s.burnt, v) == false);
            assert(s.w2[v] >= weight_into(a, prefix_set(s.order, k), v));
        }
    }
    assert forall|u: int, k: int|
        #![trigger has_bit(t.burnt, u), t.order[k]]
        0 <= u < n && !has_bit(t.burnt, u) && 1 <= k < len + 1 && t.order[k] > u implies t.w2[u] >= weight_into(
            a,
            prefix_set(t.order, k),
            u,
        ) by {
        if k < len {
            assert(t.order[k] == s.order[k]);
            assert(s.w2[u] >= weight_into(a, prefix_set(s.order, k), u));
        } else {
            assert(t.order[k] as int == v);
            assert(t.w2[u] == s.wcnt[u]);
        }
    }
}

/// The invariant only reads the box bounds of burnt vertices.
pub proof fn lemma_inv_same(a: Seq<Vec<u32>>, s: SearchView, t: SearchView)
    requires
        state_inv(a, t),
        same_search(s, t),
    ensures
        state_inv(a, s),
{
    let n = a.len() as int;
    let f = |u: int| if u != 0 && has_bit(s.burnt, u) { s.top[u] + 1 } else { 0int };
    let g = |u: int| if u != 0 && has_bit(t.burnt, u) { t.top[u] + 1 } else { 0int };
    assert forall|u: int| 0 <= u < n implies #[trigger] f(u) == g(u) by {}
    lemma_sum_ext(n, f, g);
    assert forall|i: int| 0 <= i < s.order.len() implies #[trigger] has_bit(s.burnt, s.order[i] as int) by {
        assert(s.order.contains(s.order[i]));
        assert(t.order[i] < n);
    }
    let len = s.order.len() as int;
    assert forall|i: int| 1 <= i < len implies s.top[#[trigger] s.order[i] as int] + 1 == weight_into(
        a,
        prefix_set(s.order, i),
        s.order[i] as int,
    ) by {
        assert(has_bit(s.burnt, s.order[i] as int));
    }
    assert forall|i: int, k: int|
        #![trigger s.order[i], s.order[k]]
        1 <= k < i < len && s.order[k] > s.order[i] implies s.bottom[s.order[i] as int] >= weight_into(
            a,
            prefix_set(s.order, k),
            s.order[i] as int,
        ) by {
        assert(has_bit(s.burnt, s.order[i] as int));
    }
}

/// A state with a full burn order has every vertex burnt.
pub proof fn lemma_all_burnt(a: Seq<Vec<u32>>, s: SearchView)
    requires
        state_inv(a, s),
        s.order.len() >= a.len(),
    ensures
        forall|k: int| 0 <= k < a.len() ==> #[trigger] has_bit(s.burnt, k),
{
    let n = a.len() as int;
    let f = |k: int| if has_bit(s.burnt, k) { 0int } else { 1int };
    assert forall|k: int| 0 <= k < n implies #[trigger] f(k) >= 0 by {}
    crate::sums::lemma_sum_zero_iff(n, f);
    assert forall|k: int| 0 <= k < n implies #[trigger] has_bit(s.burnt, k) by {
        assert(f(k) == 0);
    }
}

/// The leaves below a state do not depend on the box bounds of vertices that
/// are still unburnt.
pub proof fn lemma_leaves_same(a: Seq<Vec<u32>>, s: SearchView, t: SearchView)
    requires
        state_inv(a, s),
        same_search(s, t),
    ensures
        leaves(a, s) == leaves(a, t),
    decreases a.len() - s.order.len(), a.len() + 1,
{
    if s.order.len() >= a.len() {
        let n = a.len() as int;
        lemma_all_burnt(a, s);
        assert forall|k: int| 0 <= k < n implies s.bottom[k] == t.bottom[k] && s.top[k] == t.top[k] by {
            assert(has_bit(s.burnt, k));
        }
        assert(s.bottom =~= t.bottom);
        assert(s.top =~= t.top);
    } else {
        lemma_children_same(a, s, t, 1);
    }
}

pub proof fn lemma_children_same(a: Seq<Vec<u32>>, s: SearchView, t: SearchView, v: int)
    requires
        state_inv(a, s),
        same_search(s, t),
    ensures
        children(a, s, v) == children(a, t, v),
    decreases a.len() - s.order.len(), a.len() - v,
{
    if v >= a.len() || s.order.len() >= a.len() || v < 1 {
    } else {
        lemma_children_same(a, s, t, v + 1);
        if can_burn(a, s, v) {
            let s2 = after_burn(a, s, v);
            let t2 = after_burn(a, t, v);
            lemma_after_inv(a, s, v);
            assert(s2.wcnt =~= t2.wcnt);
            assert(s2.w2 =~= t2.w2);
            assert(same_search(s2, t2)) by {
                assert forall|k: int| #[trigger] has_bit(s2.burnt, k) implies s2.bottom[k] == t2.bottom[k]
                    && s2.top[k] == t2.top[k] by {
                    lemma_bit_or_single(s.burnt, v as u64, k);
                }
            }
            lemma_leaves_same(a, s2, t2);
        }
    }
}


proof fn lemma_low_bit(x: u64, u: u64)
    requires
        u < 64,
    ensures
        ((x >> u) & 1u64 == 0u64) == !has_bit(x, u as int),
{
    assert(((x >> u) & 1u64 == 0u64) == !((x >> u) & 1u64 == 1u64)) by (bit_vector);
}

impl State {
    /// The root state of the search on `g`.
    pub fn root(g: &Graph) -> (s: State)
        requires
            g.wf(),
            degrees_fit(g.adj@),
        ensures
            s.view() == root_view(g.adj@),
            state_inv(g.adj@, s.view()),
    {
        let n = g.n;
        let mut s = State {
            burnt: 1,
            order: vec![0],
            wcnt: crate::vecs::zeros_u32(n),
            w2: crate::vecs::zeros_u32(n),
            bottom: crate::vecs::zeros_u32(n),
            top: crate::vecs::zeros_u32(n),
        };
        for w in 1..n
            invariant
                n == g.n,
                g.wf(),
                s.wcnt@.len() == n,
                forall|k: int| 0 <= k < n ==> #[trigger] s.wcnt@[k] == (if 1 <= k < w { g.adj@[0]@[k] } else { 0u32 }),
                s.burnt == 1u64,
                s.order@ == seq![0u32],
                s.w2@ == Seq::new(n as nat, |k: int| 0u32),
                s.bottom@ == Seq::new(n as nat, |k: int| 0u32),
                s.top@ == Seq::new(n as nat, |k: int| 0u32),
        {
            s.wcnt.set(w, g.adj[0][w]);
        }
        proof {
            assert(s.w2@ =~= Seq::new(n as nat, |k: int| 0u32));
            assert(s.wcnt@ =~= root_view(g.adj@).wcnt);
            lemma_root_inv(g.adj@);
        }
        s
    }

    /// Number of vertices burnt so far.
    pub fn depth(&self) -> (d: usize)
        ensures
            d == self.view().order.len(),
    {
        self.order.len()
    }
}

/// Burns `v`; returns the watermarks it overwrote, to be put back by
/// `undo_burn`.
fn apply_burn(g: &Graph, s: &mut State, v: usize) -> (undo: Vec<(usize, u32)>)
    requires
        g.wf(),
        state_inv(g.adj@, old(s).view()),
        can_burn(g.adj@, old(s).view(), v as int),
        old(s).view().order.len() < g.n,
    ensures
        final(s).view() == after_burn(g.adj@, old(s).view(), v as int),
        forall|i: int| 0 <= i < undo.len() ==> (#[trigger] undo@[i]).0 < g.n && undo@[i].1 == old(s).view().w2[undo@[i].0 as int],
        forall|k: int| 0 <= k < g.n ==> final(s).view().w2[k] == old(s).view().w2[k] || exists|i: int|
            0 <= i < undo.len() && (#[trigger] undo@[i]).0 == k,
{
    let ghost a = g.adj@;
    let ghost s0 = s.view();
    let ghost t = after_burn(a, s0, v as int);
    proof {
        lemma_after_inv(a, s0, v as int);
    }
    let n = g.n;
    s.bottom.set(v, s.w2[v]);
    s.top.set(v, s.wcnt[v] - 1);
    // burning v commits every smaller unburnt vertex to stay unburnable now
    let mut undo: Vec<(usize, u32)> = Vec::new();
    for u in 1..v
        invariant
            n == g.n,
            n <= 64,
            v < n,
            s.w2@.len() == n,
            s0.wcnt.len() == n,
            s.burnt == s0.burnt,
            s.wcnt@ == s0.wcnt,
            s.order@ == s0.order,
            s.bottom@ == t.bottom,
            s.top@ == t.top,
            forall|k: int| 0 <= k < n ==> #[trigger] s.w2@[k] == (if 1 <= k < u && !has_bit(s0.burnt, k) {
                s0.wcnt[k]
            } else {
                s0.w2[k]
            }),
            forall|i: int| 0 <= i < undo.len() ==> (#[trigger] undo@[i]).0 < n && undo@[i].1 == s0.w2[undo@[i].0 as int],
            forall|k: int| 0 <= k < n ==> s.w2@[k] == s0.w2[k] || exists|i: int|
                0 <= i < undo.len() && (#[trigger] undo@[i]).0 == k,
    {
        proof {
            lemma_low_bit(s.burnt, u as u64);
        }
        if (s.burnt >> u as u64) & 1u64 == 0 && s.w2[u] != s.wcnt[u] {
            let ghost u0 = undo@;
            undo.push((u, s.w2[u]));
            s.w2.set(u, s.wcnt[u]);
            proof {
                assert(undo@[undo.len() - 1].0 == u);
                assert forall|k: int| 0 <= k < n implies s.w2@[k] == s0.w2[k] || exists|i: int|
                    0 <= i < undo.len() && (#[trigger] undo@[i]).0 == k by {
                    if k != u && s.w2@[k] != s0.w2[k] {
                        let i = choose|i: int| 0 <= i < u0.len() && (#[trigger] u0[i]).0 == k;
                        assert(undo@[i] == u0[i]);
                    }
                }
            }
        }
    }
    assert(s.w2@ =~= t.w2);
    let ghost b0 = s.burnt;
    s.burnt = s.burnt | (1u64 << v as u64);
    s.order.push(v as u32);
    let m0 = g.nbr[v] & !s.burnt;
    let mut m = m0;
    proof {
        assert forall|k: int| #[trigger] has_bit(m0, k) <==> (0 <= k < n && a[v as int]@[k] > 0 && !has_bit(t.burnt, k)) by {
            lemma_bit_and_not(g.nbr@[v as int], s.burnt, k);
        }
    }
    while m != 0
        invariant
            n == g.n,
            g.wf(),
            a == g.adj@,
            v < n,
            s.burnt == t.burnt,
            s.order@ == t.order,
            s.w2@ == t.w2,
            s.bottom@ == t.bottom,
            s.top@ == t.top,
            s.wcnt@.len() == n,
            forall|k: int| #[trigger] has_bit(m0, k) <==> (0 <= k < n && a[v as int]@[k] > 0 && !has_bit(t.burnt, k)),
            forall|k: int| #[trigger] has_bit(m, k) ==> has_bit(m0, k),
            forall|w: int|
                0 <= w < a.len() && !has_bit(t.burnt, w) && a[v as int]@[w] > 0 ==> s0.wcnt[w] + a[v as int]@[w]
                    <= u32::MAX,
            forall|k: int| 0 <= k < n ==> #[trigger] s.wcnt@[k] == (if has_bit(m0, k) && !has_bit(m, k) {
                (s0.wcnt[k] + a[v as int]@[k]) as u32
            } else {
                s0.wcnt[k]
            }),
        decreases m,
    {
        proof {
            lemma_pop_lowest(m);
        }
        let w = m.trailing_zeros() as usize;
        let ghost mold = m;
        m = m & (m - 1);
        proof {
            assert(has_bit(m0, w as int));
            assert(s.wcnt@[w as int] == s0.wcnt[w as int]);
        }
        s.wcnt.set(w, s.wcnt[w] + g.adj[v][w]);
        proof {
            assert forall|k: int| 0 <= k < n implies #[trigger] s.wcnt@[k] == (if has_bit(m0, k) && !has_bit(m, k) {
                (s0.wcnt[k] + a[v as int]@[k]) as u32
            } else {
                s0.wcnt[k]
            }) by {
                if k != w {
                    assert(has_bit(m, k) == has_bit(mold, k));
                }
            }
        }
    }
    proof {
        assert forall|k: int| 0 <= k < n implies #[trigger] s.wcnt@[k] == t.wcnt[k] by {
            lemma_bit_zero(k);
        }
        assert(s.wcnt@ =~= t.wcnt);
    }
    undo
}


/// Takes back the burn of `v` made from state `s0`: weights, burn order,
/// burnt set and watermarks return to those of `s0`; the box bounds stay.
fn undo_burn(g: &Graph, s: &mut State, v: usize, undo: Vec<(usize, u32)>, Ghost(s0): Ghost<SearchView>)
    requires
        g.wf(),
        state_inv(g.adj@, s0),
        can_burn(g.adj@, s0, v as int),
        s0.order.len() < g.n,
        same_search(old(s).view(), after_burn(g.adj@, s0, v as int)),
        forall|i: int| 0 <= i < undo.len() ==> (#[trigger] undo@[i]).0 < g.n && undo@[i].1 == s0.w2[undo@[i].0 as int],
        forall|k: int| 0 <= k < g.n ==> after_burn(g.adj@, s0, v as int).w2[k] == s0.w2[k] || exists|i: int|
            0 <= i < undo.len() && (#[trigger] undo@[i]).0 == k,
    ensures
        same_search(final(s).view(), s0),
        final(s).view().bottom == old(s).view().bottom,
        final(s).view().top == old(s).view().top,
        old(s).view() == after_burn(g.adj@, s0, v as int) ==> final(s).view().bottom == s0.bottom.update(
            v as int,
            s0.w2[v as int],
        ) && final(s).view().top == s0.top.update(v as int, (s0.wcnt[v as int] - 1) as u32),
{
    let ghost a = g.adj@;
    let ghost t = after_burn(a, s0, v as int);
    let ghost sb = s.bottom@;
    let ghost st = s.top@;
    let n = g.n;
    proof {
        lemma_after_inv(a, s0, v as int);
    }
    let m0 = g.nbr[v] & !s.burnt;
    let mut m = m0;
    proof {
        assert forall|k: int| #[trigger] has_bit(m0, k) <==> (0 <= k < n && a[v as int]@[k] > 0 && !has_bit(t.burnt, k)) by {
            lemma_bit_and_not(g.nbr@[v as int], s.burnt, k);
        }
    }
    while m != 0
        invariant
            n == g.n,
            g.wf(),
            a == g.adj@,
            v < n,
            s.burnt == t.burnt,
            s.order@ == t.order,
            s.w2@ == t.w2,
            s.bottom@ == sb,
            s.top@ == st,
            s.wcnt@.len() == n,
            s0.wcnt.len() == n,
            forall|k: int| #[trigger] has_bit(m0, k) <==> (0 <= k < n && a[v as int]@[k] > 0 && !has_bit(t.burnt, k)),
            forall|k: int| #[trigger] has_bit(m, k) ==> has_bit(m0, k),
            forall|w: int|
                0 <= w < a.len() && !has_bit(t.burnt, w) && a[v as int]@[w] > 0 ==> s0.wcnt[w] + a[v as int]@[w]
                    <= u32::MAX,
            forall|k: int| 0 <= k < n ==> #[trigger] s.wcnt@[k] == (if has_bit(m, k) {
                (s0.wcnt[k] + a[v as int]@[k]) as u32
            } else {
                s0.wcnt[k]
            }),
        decreases m,
    {
        proof {
            lemma_pop_lowest(m);
        }
        let w = m.trailing_zeros() as usize;
        let ghost mold = m;
        m = m & (m - 1);
        proof {
            assert(has_bit(m0, w as int));
        }
        s.wcnt.set(w, s.wcnt[w] - g.adj[v][w]);
        proof {
            assert forall|k: int| 0 <= k < n implies #[trigger] s.wcnt@[k] == (if has_bit(m, k) {
                (s0.wcnt[k] + a[v as int]@[k]) as u32
            } else {
                s0.wcnt[k]
            }) by {
                if k != w {
                    assert(has_bit(m, k) == has_bit(mold, k));
                }
            }
        }
    }
    proof {
        assert forall|k: int| 0 <= k < n implies #[trigger] s.wcnt@[k] == s0.wcnt[k] by {
            lemma_bit_zero(k);
        }
        assert(s.wcnt@ =~= s0.wcnt);
    }
    s.order.pop();
    let ghost bt = s.burnt;
    s.burnt = s.burnt & !(1u64 << v as u64);
    proof {
        assert(s.order@ =~= s0.order);
        assert forall|k: int| 0 <= k < 64 implies has_bit(s.burnt, k) == has_bit(s0.burnt, k) by {
            crate::bits::lemma_bit_and_not(bt, 1u64 << v as u64, k);
            lemma_bit_or_single(0u64, v as u64, k);
            lemma_bit_zero(k);
            assert((0u64 | (1u64 << v as u64)) == (1u64 << v as u64)) by (bit_vector);
            lemma_bit_or_single(s0.burnt, v as u64, k);
        }
        crate::bits::lemma_bits_ext(s.burnt, s0.burnt);
    }
    for i in 0..undo.len()
        invariant
            n == g.n,
            s.burnt == s0.burnt,
            s.order@ == s0.order,
            s.wcnt@ == s0.wcnt,
            s.bottom@ == sb,
            s.top@ == st,
            s.w2@.len() == n,
            s0.w2.len() == n,
            forall|j: int| 0 <= j < undo.len() ==> (#[trigger] undo@[j]).0 < n && undo@[j].1 == s0.w2[undo@[j].0 as int],
            forall|k: int| 0 <= k < n ==> s.w2@[k] == s0.w2[k] || exists|j: int|
                i <= j < undo.len() && (#[trigger] undo@[j]).0 == k,
    {
        let (u, old_w2) = undo[i];
        s.w2.set(u, old_w2);
        proof {
            assert forall|k: int| 0 <= k < n implies s.w2@[k] == s0.w2[k] || exists|j: int|
                i + 1 <= j < undo.len() && (#[trigger] undo@[j]).0 == k by {
                if k != u && s.w2@[k] != s0.w2[k] {
                    let j = choose|j: int| i <= j < undo.len() && (#[trigger] undo@[j]).0 == k;
                    assert(j != i);
                }
            }
        }
    }
    proof {
        assert(s.w2@ =~= s0.w2);
        assert forall|k: int| #[trigger] has_bit(s.burnt, k) implies s.bottom@[k] == s0.bottom[k] && s.top@[k] == s0.top[k] by {
            lemma_bit_or_single(s0.burnt, v as u64, k);
            assert(has_bit(t.burnt, k));
            assert(k != v);
        }
    }
}

/// A vertex with no unburnt neighbors can never raise its wcnt again; if its
/// watermark already equals wcnt it can never be burned, so the branch is dead.
fn dead_end(g: &Graph, s: &State) -> (r: bool)
    requires
        g.wf(),
        state_inv(g.adj@, s.view()),
    ensures
        r == is_dead_end(g.adj@, s.view()),
{
    let ghost a = g.adj@;
    let n = g.n;
    let mask = crate::graph::vertex_mask(g.n);
    let m0 = !s.burnt & mask;
    let mut m = m0;
    proof {
        assert forall|k: int| #[trigger] has_bit(m0, k) <==> (0 <= k < n && !has_bit(s.burnt, k)) by {
            crate::bits::lemma_bit_and(!s.burnt, mask, k);
            if 0 <= k < 64 {
                let j = k as u64;
                let b = s.burnt;
                assert((((!b) >> j) & 1u64 == 1u64) <==> !((b >> j) & 1u64 == 1u64)) by (bit_vector)
                    requires j < 64;
            }
        }
    }
    while m != 0
        invariant
            n == g.n,
            g.wf(),
            a == g.adj@,
            state_inv(g.adj@, s.view()),
            forall|k: int| #[trigger] has_bit(m0, k) <==> (0 <= k < n && !has_bit(s.burnt, k)),
            forall|k: int| #[trigger] has_bit(m, k) ==> has_bit(m0, k),
            forall|u: int|
                #[trigger] has_bit(m0, u) && !has_bit(m, u) ==> !(s.wcnt@[u] <= s.w2@[u] && forall|w: int|
                    0 <= w < a.len() && a[u]@[w] > 0 ==> has_bit(s.burnt, w)),
        decreases m,
    {
        proof {
            lemma_pop_lowest(m);
        }
        let u = m.trailing_zeros() as usize;
        let ghost mold = m;
        m = m & (m - 1);
        let rest = g.nbr[u] & !s.burnt;
        proof {
            assert(has_bit(m0, u as int));
            assert forall|k: int| #[trigger] has_bit(rest, k) <==> (0 <= k < n && a[u as int]@[k] > 0 && !has_bit(s.burnt, k)) by {
                lemma_bit_and_not(g.nbr@[u as int], s.burnt, k);
            }
            if rest != 0 {
                if forall|w: int| 0 <= w < a.len() && a[u as int]@[w] > 0 ==> has_bit(s.burnt, w) {
                    assert forall|k: int| 0 <= k < 64 implies has_bit(rest, k) == has_bit(0u64, k) by {
                        lemma_bit_zero(k);
                    }
                    crate::bits::lemma_bits_ext(rest, 0u64);
                }
            } else {
                assert forall|w: int| 0 <= w < a.len() && a[u as int]@[w] > 0 implies has_bit(s.burnt, w) by {
                    lemma_bit_zero(w);
                }
            }
        }
        if s.wcnt[u] <= s.w2[u] && rest == 0 {
            return true;
        }
        proof {
            assert forall|x: int| #[trigger] has_bit(m0, x) && !has_bit(m, x) implies !(s.wcnt@[x] <= s.w2@[x] && forall|w: int|
                    0 <= w < a.len() && a[x]@[w] > 0 ==> has_bit(s.burnt, w)) by {
                if x != u {
                    assert(!has_bit(mold, x));
                }
            }
        }
    }
    proof {
        if is_dead_end(a, s.view()) {
            let u = choose|u: int|
                0 <= u < a.len() && !#[trigger] has_bit(s.burnt, u) && s.wcnt@[u] <= s.w2@[u] && forall|w: int|
                    0 <= w < a.len() && a[u]@[w] > 0 ==> has_bit(s.burnt, w);
            assert(has_bit(m0, u));
            lemma_bit_zero(u);
        }
    }
    false
}

/// Receives the leaves of the search, one box at a time.
pub trait LeafSink {
    /// The leaves taken so far, in order.
    spec fn taken(&self) -> Seq<LeafView>;

    /// The sink can take the leaves `ls`, in this order, after those it has.
    spec fn can_take(&self, ls: Seq<LeafView>) -> bool;

    /// A parameter of the sink that taking leaves does not change.
    spec fn shape(&self) -> int;

    /// What a sink can take, it can take in part.
    proof fn lemma_can_take_prefix(&self, ls: Seq<LeafView>, k: int)
        requires
            self.can_take(ls),
            0 <= k <= ls.len(),
        ensures
            self.can_take(ls.take(k)),
    ;

    /// Takes one leaf.
    fn take_leaf(&mut self, b: Boxes)
        requires
            old(self).can_take(seq![b.leaf_view()]),
        ensures
            final(self).taken() == old(self).taken().push(b.leaf_view()),
            final(self).shape() == old(self).shape(),
            forall|ls: Seq<LeafView>|
                old(self).can_take(seq![b.leaf_view()] + ls) ==> #[trigger] final(self).can_take(ls),
    ;
}

proof fn lemma_children_step(a: Seq<Vec<u32>>, s: SearchView, v: int)
    requires
        1 <= v < a.len(),
        s.order.len() < a.len(),
    ensures
        children(a, s, v) == (if can_burn(a, s, v) && !is_dead_end(a, after_burn(a, s, v)) {
            leaves(a, after_burn(a, s, v))
        } else {
            Seq::<LeafView>::empty()
        }) + children(a, s, v + 1),
{
    if !(can_burn(a, s, v) && !is_dead_end(a, after_burn(a, s, v))) {
        assert(Seq::<LeafView>::empty() + children(a, s, v + 1) =~= children(a, s, v + 1));
    }
}

/// Depth-first search from `s`, handing every leaf below it to the sink in
/// search order; `s` is put back as it was (up to the box bounds of
/// unburnt vertices, which no leaf below it reads).
pub fn dfs<S: LeafSink>(g: &Graph, s: &mut State, sink: &mut S)
    requires
        g.wf(),
        state_inv(g.adj@, old(s).view()),
        old(sink).can_take(leaves(g.adj@, old(s).view())),
    ensures
        same_search(final(s).view(), old(s).view()),
        final(sink).taken() == old(sink).taken() + leaves(g.adj@, old(s).view()),
        final(sink).shape() == old(sink).shape(),
        forall|ls: Seq<LeafView>|
            old(sink).can_take(leaves(g.adj@, old(s).view()) + ls) ==> #[trigger] final(sink).can_take(ls),
    decreases g.n - old(s).view().order.len(),
{
    let ghost a = g.adj@;
    let ghost s0 = s.view();
    if s.depth() == g.n {
        proof {
            assert(leaves(a, s0) == seq![(s0.order, s0.bottom, s0.top)]);
        }
        sink.take_leaf(Boxes { order: s.order.as_slice(), bottom: s.bottom.as_slice(), top: s.top.as_slice() });
        proof {
            assert(sink.taken() =~= old(sink).taken() + leaves(a, s0));
        }
        return;
    }
    let ghost t0 = sink.taken();
    let ghost sink0 = *sink;
    let ghost all = children(a, s0, 1);
    let ghost mut done: Seq<LeafView> = Seq::empty();
    proof {
        assert(leaves(a, s0) == all);
        assert(done + all =~= all);
    }
    for v in 1..g.n
        invariant
            g.wf(),
            a == g.adj@,
            state_inv(a, s0),
            s0 == old(s).view(),
            s0.order.len() < g.n,
            same_search(s.view(), s0),
            all == children(a, s0, 1),
            all == leaves(a, s0),
            sink.taken() == t0 + done,
            t0 == sink0.taken(),
            sink.shape() == sink0.shape(),
            done + children(a, s0, v as int) == all,
            forall|ls: Seq<LeafView>| #[trigger] sink0.can_take(all + ls) ==> sink.can_take(children(a, s0, v as int) + ls),
            sink0.can_take(all),
    {
        let ghost sv = s.view();
        let ghost sk = sink.taken();
        proof {
            lemma_children_step(a, s0, v as int);
            lemma_inv_same(a, sv, s0);
            lemma_low_bit(s.burnt, v as u64);
            assert(sink.can_take(children(a, s0, v as int))) by {
                assert(children(a, s0, v as int) + Seq::<LeafView>::empty() =~= children(a, s0, v as int));
                assert(all + Seq::<LeafView>::empty() =~= all);
                assert(sink0.can_take(all + Seq::<LeafView>::empty()));
                assert(sink.can_take(children(a, s0, v as int) + Seq::<LeafView>::empty()));
            }
        }
        if (s.burnt >> v as u64) & 1u64 == 0 && s.wcnt[v] > s.w2[v] {
            let undo = apply_burn(g, s, v);
            let ghost s1 = s.view();
            proof {
                lemma_after_inv(a, sv, v as int);
                lemma_after_inv(a, s0, v as int);
                let t1 = after_burn(a, s0, v as int);
                assert(s1.wcnt =~= t1.wcnt);
                assert(s1.w2 =~= t1.w2);
                assert(same_search(s1, t1)) by {
                    assert forall|k: int| #[trigger] has_bit(s1.burnt, k) implies s1.bottom[k] == t1.bottom[k]
                        && s1.top[k] == t1.top[k] by {
                        lemma_bit_or_single(s0.burnt, v as u64, k);
                    }
                }
                lemma_leaves_same(a, s1, t1);
                assert(is_dead_end(a, s1) == is_dead_end(a, t1));
            }
            if !dead_end(g, s) {
                proof {
                    let br = leaves(a, s1);
                    let rest = children(a, s0, v + 1);
                    sink.lemma_can_take_prefix(br + rest, br.len() as int);
                    assert((br + rest).take(br.len() as int) =~= br);
                    assert(s.view().order.len() == s0.order.len() + 1);
                }
                dfs(g, s, sink);
                proof {
                    let br = leaves(a, s1);
                    let rest = children(a, s0, v + 1);
                    assert forall|ls: Seq<LeafView>| #[trigger] sink0.can_take(all + ls) implies sink.can_take(
                        rest + ls,
                    ) by {
                        assert(br + rest + ls =~= br + (rest + ls));
                    }
                    done = done + br;
                    assert(done + rest =~= all);
                    assert(sink.taken() =~= t0 + done);
                }
            }
            undo_burn(g, s, v, undo, Ghost(sv));
            proof {
                assert(same_search(s.view(), s0)) by {
                    assert forall|k: int| #[trigger] has_bit(s.view().burnt, k) implies s.view().bottom[k] == s0.bottom[k]
                        && s.view().top[k] == s0.top[k] by {}
                }
                if is_dead_end(a, s1) {
                    assert(Seq::<LeafView>::empty() + children(a, s0, v + 1) =~= children(a, s0, v + 1));
                    assert(children(a, s0, v as int) == children(a, s0, v + 1));
                    assert forall|ls: Seq<LeafView>| #[trigger] sink0.can_take(all + ls) implies sink.can_take(
                        children(a, s0, v + 1) + ls,
                    ) by {
                        assert(sink.can_take(children(a, s0, v as int) + ls));
                    }
                    assert(done + children(a, s0, v + 1) == all);
                }
            }
        } else {
            proof {
                assert(!can_burn(a, s0, v as int));
                assert(Seq::<LeafView>::empty() + children(a, s0, v + 1) =~= children(a, s0, v + 1));
                assert(children(a, s0, v as int) == children(a, s0, v + 1));
                assert forall|ls: Seq<LeafView>| #[trigger] sink0.can_take(all + ls) implies sink.can_take(
                    children(a, s0, v + 1) + ls,
                ) by {
                    assert(sink.can_take(children(a, s0, v as int) + ls));
                }
            }
        }
    }
    proof {
        assert(children(a, s0, g.n as int) == Seq::<LeafView>::empty());
        assert(done =~= all);
        assert forall|ls: Seq<LeafView>| #[trigger] sink0.can_take(all + ls) implies sink.can_take(ls) by {
            assert(sink.can_take(children(a, s0, g.n as int) + ls));
            assert(Seq::<LeafView>::empty() + ls =~= ls);
        }
    }
}

/// Runs the whole search, handing every leaf to the sink, in increasing
/// lexicographic order of burn orders (`lemma_leaves_in_lex_order`).
pub fn enumerate<S: LeafSink>(g: &Graph, sink: &mut S)
    requires
        g.wf(),
        degrees_fit(g.adj@),
        old(sink).can_take(all_leaves(g.adj@)),
    ensures
        final(sink).taken() == old(sink).taken() + all_leaves(g.adj@),
        final(sink).shape() == old(sink).shape(),
        forall|ls: Seq<LeafView>| old(sink).can_take(all_leaves(g.adj@) + ls) ==> #[trigger] final(sink).can_take(ls),
{
    let mut s = State::root(g);
    dfs(g, &mut s, sink);
}


// ---------------------------------------------------------------------------
// Counting the parking functions in the boxes.
// ---------------------------------------------------------------------------

/// Number of points of the box `bottom[v] <= x[v] <= top[v]`, `1 <= v < k`.
pub open spec fn box_volume(bottom: Seq<u32>, top: Seq<u32>, k: int) -> int
    decreases k,
{
    if k <= 1 {
        1
    } else {
        box_volume(bottom, top, k - 1) * (top[k - 1] - bottom[k - 1] + 1)
    }
}

/// Number of points of the box over the vertices `1..k` with coordinate
/// sum `e`: a point over `1..k-1` of sum `d` extended by a coordinate
/// `e - d` in `[bottom[k-1], top[k-1]]`, for each `d` from 0 to `e`.
pub open spec fn box_count(bottom: Seq<u32>, top: Seq<u32>, k: int, e: int) -> int
    decreases k, 1int, 0int,
{
    if k <= 1 {
        if e == 0 {
            1
        } else {
            0
        }
    } else {
        partial_count(bottom, top, k, e, e + 1)
    }
}

/// The part of `box_count(k, e)` whose first coordinates sum to less than `m`.
pub open spec fn partial_count(bottom: Seq<u32>, top: Seq<u32>, k: int, e: int, m: int) -> int
    decreases k, 0int, m,
{
    if m <= 0 || k <= 1 {
        0
    } else {
        partial_count(bottom, top, k, e, m - 1) + (if bottom[k - 1] <= e - (m - 1) <= top[k - 1] {
            box_count(bottom, top, k - 1, m - 1)
        } else {
            0
        })
    }
}

/// The summand of `box_count(k, e)` at partial sum `d`.
pub open spec fn count_term(bottom: Seq<u32>, top: Seq<u32>, k: int, e: int, d: int) -> int {
    if bottom[k - 1] <= e - d <= top[k - 1] {
        box_count(bottom, top, k - 1, d)
    } else {
        0
    }
}

pub proof fn lemma_partial_count(bottom: Seq<u32>, top: Seq<u32>, k: int, e: int, m: int)
    requires
        k > 1,
    ensures
        partial_count(bottom, top, k, e, m) == sum(m, |d: int| count_term(bottom, top, k, e, d)),
    decreases m,
{
    if m > 0 {
        lemma_partial_count(bottom, top, k, e, m - 1);
    }
}

/// Sum of `top[v]` over `1 <= v < k`.
pub open spec fn top_degree(top: Seq<u32>, k: int) -> int
    decreases k,
{
    if k <= 1 {
        0
    } else {
        top_degree(top, k - 1) + top[k - 1]
    }
}

/// Total volume of a list of leaves.
pub open spec fn volume_sum(ls: Seq<LeafView>) -> int
    decreases ls.len(),
{
    if ls.len() == 0 {
        0
    } else {
        volume_sum(ls.drop_last()) + box_volume(ls.last().1, ls.last().2, ls.last().0.len() as int)
    }
}

/// Number of parking functions of degree `e` in a list of boxes.
pub open spec fn degree_sum(ls: Seq<LeafView>, e: int) -> int
    decreases ls.len(),
{
    if ls.len() == 0 {
        0
    } else {
        degree_sum(ls.drop_last(), e) + box_count(ls.last().1, ls.last().2, ls.last().0.len() as int, e)
    }
}

/// A leaf box over `n` vertices with nonempty intervals whose top has
/// degree below `glen`.
pub open spec fn leaf_shape(l: LeafView, glen: int) -> bool {
    let n = l.0.len() as int;
    &&& n >= 1
    &&& l.1.len() >= n && l.2.len() >= n
    &&& forall|v: int| 1 <= v < n ==> #[trigger] l.1[v] <= l.2[v]
    &&& top_degree(l.2, n) < glen
}

proof fn lemma_box_volume_pos(bottom: Seq<u32>, top: Seq<u32>, k: int)
    requires
        forall|v: int| 1 <= v < k ==> #[trigger] bottom[v] <= top[v],
    ensures
        box_volume(bottom, top, k) >= 1,
    decreases k,
{
    if k > 1 {
        lemma_box_volume_pos(bottom, top, k - 1);
        let p = box_volume(bottom, top, k - 1);
        let w = top[k - 1] - bottom[k - 1] + 1;
        assert(p * w >= 1) by (nonlinear_arith) requires p >= 1, w >= 1;
    }
}

/// Indicators of an interval of length `q - p + 1` sum to at most that.
proof fn lemma_interval_count(m: int, p: int, q: int)
    requires
        p <= q + 1,
    ensures
        sum(m, |d: int| if p <= d <= q { 1int } else { 0int }) <= q - p + 1,
        sum(m, |d: int| if p <= d <= q { 1int } else { 0int }) >= 0,
    decreases m,
{
    if m > 0 {
        lemma_interval_count(m - 1, p, q);
        if m - 1 > q {
        } else if m - 1 >= p {
            lemma_interval_count_le(m - 1, p, q);
        }
    }
}

proof fn lemma_interval_count_le(m: int, p: int, q: int)
    requires
        p <= m <= q + 1,
    ensures
        sum(m, |d: int| if p <= d <= q { 1int } else { 0int }) <= m - p,
    decreases m - p,
{
    if m > p {
        lemma_interval_count_le(m - 1, p, q);
    } else {
        let f = |d: int| if p <= d <= q { 1int } else { 0int };
        assert forall|d: int| 0 <= d < m implies #[trigger] f(d) == 0 by {}
        lemma_sum_ext(m, f, |d: int| 0int);
        crate::sums::lemma_sum_zero(m);
    }
}

/// Each degree count is nonnegative and at most the volume.
proof fn lemma_box_count_bound(bottom: Seq<u32>, top: Seq<u32>, k: int, e: int)
    requires
        forall|v: int| 1 <= v < k ==> #[trigger] bottom[v] <= top[v],
    ensures
        0 <= box_count(bottom, top, k, e) <= box_volume(bottom, top, k),
    decreases k,
{
    if k > 1 {
        let lo = bottom[k - 1] as int;
        let hi = top[k - 1] as int;
        let vol = box_volume(bottom, top, k - 1);
        let f = |d: int| if lo <= e - d <= hi { box_count(bottom, top, k - 1, d) } else { 0 };
        let g = |d: int| if e - hi <= d <= e - lo { vol } else { 0int };
        let h = |d: int| if e - hi <= d <= e - lo { 1int } else { 0int };
        assert forall|d: int| 0 <= d < e + 1 implies 0 <= #[trigger] f(d) <= g(d) by {
            lemma_box_count_bound(bottom, top, k - 1, d);
        }
        lemma_sum_nonneg(e + 1, f);
        crate::sums::lemma_sum_mono(e + 1, f, g);
        lemma_sum_scale(e + 1, h, vol);
        assert forall|d: int| 0 <= d < e + 1 implies #[trigger] g(d) == h(d) * vol by {
            assert(1 * vol == vol && 0 * vol == 0) by (nonlinear_arith);
        }
        lemma_sum_ext(e + 1, g, |d: int| h(d) * vol);
        lemma_interval_count(e + 1, e - hi, e - lo);
        lemma_box_volume_pos(bottom, top, k - 1);
        let c = sum(e + 1, h);
        assert(c * vol <= (hi - lo + 1) * vol) by (nonlinear_arith) requires c <= hi - lo + 1, vol >= 1;
        assert(vol * (hi - lo + 1) == (hi - lo + 1) * vol) by (nonlinear_arith);
        let f0 = |d: int| count_term(bottom, top, k, e, d);
        lemma_partial_count(bottom, top, k, e, e + 1);
        assert(box_count(bottom, top, k, e) == sum(e + 1, f0));
        lemma_sum_ext(e + 1, f0, f);
        assert(sum(e + 1, g) == c * vol);
        assert(box_volume(bottom, top, k) == vol * (hi - lo + 1));
    }
}

proof fn lemma_sum_scale(k: int, f: spec_fn(int) -> int, c: int)
    ensures
        sum(k, |i: int| f(i) * c) == sum(k, f) * c,
    decreases k,
{
    if k > 0 {
        lemma_sum_scale(k - 1, f, c);
        assert((sum(k - 1, f) + f(k - 1)) * c == sum(k - 1, f) * c + f(k - 1) * c) by (nonlinear_arith);
    }
}


/// The cyclomatic number |E| - |V| + 1 of a multiplicity matrix.
pub open spec fn cyclomatic(a: Seq<Vec<u32>>) -> int {
    crate::graph::total_degree(a) / 2 - a.len() + 1
}

/// Every leaf below `s` is a box over all vertices, with nonempty
/// intervals, whose top has total degree |E| - |V| + 1.
pub open spec fn leaf_ok(a: Seq<Vec<u32>>, l: LeafView) -> bool {
    &&& l.0.len() == a.len()
    &&& l.1.len() == a.len() && l.2.len() == a.len()
    &&& leaf_shape(l, cyclomatic(a) + 1)
    &&& top_degree(l.2, a.len() as int) == cyclomatic(a)
    &&& leaf_records(a, l)
}

/// The burn order of a leaf holds every vertex once, starting at the root,
/// and its box bounds are the weights recorded along the order.
pub open spec fn leaf_records(a: Seq<Vec<u32>>, l: LeafView) -> bool {
    let n = a.len() as int;
    let order = l.0;
    &&& 1 <= n
    &&& order.len() == n
    &&& order[0] == 0
    &&& order.no_duplicates()
    &&& forall|i: int| 0 <= i < n ==> #[trigger] order[i] < n
    &&& forall|x: int| 0 <= x < n ==> order.contains(#[trigger] (x as u32))
    &&& forall|i: int|
        1 <= i < n ==> l.2[#[trigger] order[i] as int] + 1 == weight_into(a, prefix_set(order, i), order[i] as int)
    &&& forall|i: int, k: int|
        #![trigger order[i], order[k]]
        1 <= k < i < n && order[k] > order[i] ==> l.1[order[i] as int] >= weight_into(
            a,
            prefix_set(order, k),
            order[i] as int,
        )
}

proof fn lemma_top_degree_sum(top: Seq<u32>, k: int)
    requires
        k >= 1,
    ensures
        sum(k, |u: int| if u != 0 { top[u] + 1 } else { 0int }) == top_degree(top, k) + k - 1,
    decreases k,
{
    let f = |u: int| if u != 0 { top[u] + 1 } else { 0int };
    if k > 1 {
        lemma_top_degree_sum(top, k - 1);
        assert(sum(k, f) == sum(k - 1, f) + f(k - 1));
    } else {
        assert(sum(0, f) == 0);
        assert(sum(1, f) == sum(0, f) + f(0));
    }
}

pub proof fn lemma_leaf_ok(a: Seq<Vec<u32>>, s: SearchView)
    requires
        state_inv(a, s),
        s.order.len() >= a.len(),
    ensures
        leaf_ok(a, (s.order, s.bottom, s.top)),
{
    let n = a.len() as int;
    lemma_all_burnt(a, s);
    let f = |u: int| if u != 0 && has_bit(s.burnt, u) { s.top[u] + 1 } else { 0int };
    let g = |u: int| if u != 0 { s.top[u] + 1 } else { 0int };
    assert forall|u: int| 0 <= u < n implies #[trigger] f(u) == g(u) by {}
    lemma_sum_ext(n, f, g);
    lemma_top_degree_sum(s.top, n);
    let iw = |v: int| if mask_set(s.burnt).contains(v) { weight_into(a, mask_set(s.burnt), v) } else { 0int };
    let dg = |v: int| degree(a, v);
    assert forall|v: int| 0 <= v < n implies #[trigger] iw(v) == dg(v) by {
        let r1 = |w: int| if mask_set(s.burnt).contains(w) { a[v]@[w] as int } else { 0int };
        let r2 = |w: int| a[v]@[w] as int;
        assert forall|w: int| 0 <= w < n implies #[trigger] r1(w) == r2(w) by {}
        lemma_sum_ext(n, r1, r2);
    }
    lemma_sum_ext(n, iw, dg);
    let t = top_degree(s.top, n);
    let total = crate::graph::total_degree(a);
    assert(inner_weight(a, mask_set(s.burnt)) == total);
    assert(2 * (t + n - 1) == total);
    assert(total / 2 == t + n - 1);
    assert forall|v: int| 1 <= v < n implies #[trigger] s.bottom[v] <= s.top[v] by {
        assert(has_bit(s.burnt, v));
    }
    assert forall|x: int| 0 <= x < n implies s.order.contains(#[trigger] (x as u32)) by {
        assert(has_bit(s.burnt, x));
    }
}

pub proof fn lemma_leaves_ok(a: Seq<Vec<u32>>, s: SearchView)
    requires
        state_inv(a, s),
    ensures
        forall|i: int| 0 <= i < leaves(a, s).len() ==> leaf_ok(a, #[trigger] leaves(a, s)[i]),
    decreases a.len() - s.order.len(), a.len() + 1,
{
    if s.order.len() >= a.len() {
        lemma_leaf_ok(a, s);
        assert(leaves(a, s)[0] == (s.order, s.bottom, s.top));
        assert(leaves(a, s).len() == 1);
    } else {
        lemma_children_ok(a, s, 1);
        assert(leaves(a, s) == children(a, s, 1));
    }
}

pub proof fn lemma_children_ok(a: Seq<Vec<u32>>, s: SearchView, v: int)
    requires
        state_inv(a, s),
    ensures
        forall|i: int| 0 <= i < children(a, s, v).len() ==> leaf_ok(a, #[trigger] children(a, s, v)[i]),
    decreases a.len() - s.order.len(), a.len() - v,
{
    if v >= a.len() || s.order.len() >= a.len() || v < 1 {
    } else {
        lemma_children_ok(a, s, v + 1);
        let rest = children(a, s, v + 1);
        if can_burn(a, s, v) && !is_dead_end(a, after_burn(a, s, v)) {
            let s2 = after_burn(a, s, v);
            lemma_after_inv(a, s, v);
            lemma_leaves_ok(a, s2);
            let br = leaves(a, s2);
            assert forall|i: int| 0 <= i < children(a, s, v).len() implies leaf_ok(a, #[trigger] children(a, s, v)[i]) by {
                if i < br.len() {
                    assert(children(a, s, v)[i] == br[i]);
                } else {
                    assert(children(a, s, v)[i] == rest[i - br.len()]);
                }
            }
        }
    }
}


proof fn lemma_volume_sum_add(x: Seq<LeafView>, y: Seq<LeafView>)
    ensures
        volume_sum(x + y) == volume_sum(x) + volume_sum(y),
        forall|e: int| #[trigger] degree_sum(x + y, e) == degree_sum(x, e) + degree_sum(y, e),
    decreases y.len(),
{
    if y.len() == 0 {
        assert(x + y =~= x);
    } else {
        lemma_volume_sum_add(x, y.drop_last());
        assert((x + y).drop_last() =~= x + y.drop_last());
        assert((x + y).last() == y.last());
        assert forall|e: int| #[trigger] degree_sum(x + y, e) == degree_sum(x, e) + degree_sum(y, e) by {
            assert(degree_sum(x + y.drop_last(), e) == degree_sum(x, e) + degree_sum(y.drop_last(), e));
        }
    }
}

proof fn lemma_volume_sum_bounds(x: Seq<LeafView>, glen: int)
    requires
        forall|i: int| 0 <= i < x.len() ==> leaf_shape(#[trigger] x[i], glen),
    ensures
        volume_sum(x) >= x.len(),
        forall|e: int| 0 <= #[trigger] degree_sum(x, e) <= volume_sum(x),
    decreases x.len(),
{
    if x.len() > 0 {
        lemma_volume_sum_bounds(x.drop_last(), glen);
        let l = x.last();
        assert(leaf_shape(x[x.len() - 1], glen));
        assert forall|v: int| 1 <= v < l.0.len() implies #[trigger] l.1[v] <= l.2[v] by {}
        lemma_box_volume_pos(l.1, l.2, l.0.len() as int);
        assert forall|e: int| 0 <= #[trigger] degree_sum(x, e) <= volume_sum(x) by {
            lemma_box_count_bound(l.1, l.2, l.0.len() as int, e);
            assert(0 <= degree_sum(x.drop_last(), e) <= volume_sum(x.drop_last()));
        }
    }
}

proof fn lemma_box_volume_mono(bottom: Seq<u32>, top: Seq<u32>, j: int, k: int)
    requires
        1 <= j <= k,
        forall|v: int| 1 <= v < k ==> #[trigger] bottom[v] <= top[v],
    ensures
        box_volume(bottom, top, j) <= box_volume(bottom, top, k),
    decreases k - j,
{
    if j < k {
        lemma_box_volume_mono(bottom, top, j, k - 1);
        lemma_box_volume_pos(bottom, top, k - 1);
        let p = box_volume(bottom, top, k - 1);
        let w = top[k - 1] - bottom[k - 1] + 1;
        assert(p <= p * w) by (nonlinear_arith) requires p >= 1, w >= 1;
    }
}

proof fn lemma_top_degree_mono(top: Seq<u32>, j: int, k: int)
    requires
        1 <= j <= k,
    ensures
        top_degree(top, j) <= top_degree(top, k),
        forall|v: int| j <= v < k ==> #[trigger] top[v] <= top_degree(top, k) - top_degree(top, j),
    decreases k - j,
{
    if j < k {
        lemma_top_degree_mono(top, j, k - 1);
    }
}

/// `box_count(k, e)` vanishes outside `0..=top_degree(k)`.
proof fn lemma_box_count_zero(bottom: Seq<u32>, top: Seq<u32>, k: int, e: int)
    requires
        e < 0 || e > top_degree(top, k),
    ensures
        box_count(bottom, top, k, e) == 0,
    decreases k,
{
    if k > 1 {
        lemma_partial_count(bottom, top, k, e, e + 1);
        let f = |d: int| count_term(bottom, top, k, e, d);
        assert forall|d: int| 0 <= d < e + 1 implies #[trigger] f(d) == 0 by {
            if bottom[k - 1] <= e - d <= top[k - 1] {
                lemma_box_count_zero(bottom, top, k - 1, d);
            }
        }
        lemma_sum_ext(e + 1, f, |d: int| 0int);
        crate::sums::lemma_sum_zero(e + 1);
    }
}

/// Extending a sum by zero terms does not change it.
proof fn lemma_sum_zero_tail(j: int, k: int, f: spec_fn(int) -> int)
    requires
        0 <= j <= k,
        forall|i: int| j <= i < k ==> #[trigger] f(i) == 0,
    ensures
        sum(j, f) == sum(k, f),
    decreases k - j,
{
    if j < k {
        lemma_sum_zero_tail(j, k - 1, f);
    }
}

/// Aggregates computed in one pass over all leaves.
pub struct Agg {
    /// number of leaves = number of maximal parking functions = T_G(1,0)
    pub leaves: u64,
    /// sum of box volumes = number of parking functions = spanning trees
    pub trees: u128,
    /// parking functions counted by total degree 0..=g; reversing gives the
    /// coefficients of T_G(1,y) (Merino's theorem)
    pub by_degree: Vec<u128>,
    scratch: Vec<u128>,
    seen: Ghost<Seq<LeafView>>,
}

impl Agg {
    /// The counts are those of the leaves taken so far.
    pub closed spec fn wf(&self) -> bool {
        let glen = self.by_degree.len() as int;
        &&& glen >= 1
        &&& self.scratch.len() == glen
        &&& self.leaves == self.seen@.len()
        &&& self.trees == volume_sum(self.seen@)
        &&& forall|e: int| 0 <= e < glen ==> #[trigger] self.by_degree@[e] == degree_sum(self.seen@, e)
        &&& forall|i: int| 0 <= i < self.seen@.len() ==> leaf_shape(#[trigger] self.seen@[i], glen)
    }

    pub closed spec fn seen_leaves(&self) -> Seq<LeafView> {
        self.seen@
    }

    /// The counted leaves.
    pub closed spec fn leaf_count(&self) -> int {
        self.leaves as int
    }

    /// The summed box volumes.
    pub closed spec fn tree_count(&self) -> int {
        self.trees as int
    }

    /// The degree histogram.
    pub closed spec fn histogram(&self) -> Seq<u128> {
        self.by_degree@
    }

    /// Empty aggregate for degrees `0..=genus`.
    pub fn new(genus: usize) -> (r: Agg)
        requires
            genus < usize::MAX,
        ensures
            r.wf(),
            r.seen_leaves() == Seq::<LeafView>::empty(),
            r.histogram().len() == genus + 1,
    {
        let mut by_degree: Vec<u128> = Vec::new();
        let mut scratch: Vec<u128> = Vec::new();
        for _i in 0..genus + 1
            invariant
                by_degree.len() == _i,
                scratch.len() == _i,
                forall|e: int| 0 <= e < _i ==> #[trigger] by_degree@[e] == 0,
        {
            by_degree.push(0);
            scratch.push(0);
        }
        Agg { leaves: 0, trees: 0, by_degree, scratch, seen: Ghost(Seq::empty()) }
    }

    /// Counts one leaf: its volume, and its points by degree via the
    /// product over v of (y^bottom + .. + y^top).
    fn add_leaf(&mut self, n: usize, b: &Boxes)
        requires
            old(self).wf(),
            n == b.order@.len(),
            leaf_shape(b.leaf_view(), old(self).by_degree.len() as int),
            volume_sum(old(self).seen@.push(b.leaf_view())) <= u128::MAX,
            old(self).seen@.len() + 1 <= u64::MAX,
        ensures
            final(self).wf(),
            final(self).seen@ == old(self).seen@.push(b.leaf_view()),
            final(self).by_degree.len() == old(self).by_degree.len(),
    {
        let ghost l = b.leaf_view();
        let ghost bot = b.bottom@;
        let ghost tp = b.top@;
        let ghost glen = self.by_degree.len() as int;
        proof {
            lemma_volume_sum_bounds(self.seen@, glen);
            assert(volume_sum(self.seen@.push(l)) == volume_sum(self.seen@) + box_volume(bot, tp, n as int)) by {
                assert(self.seen@.push(l).drop_last() =~= self.seen@);
            }
            assert forall|v: int| 1 <= v < n implies #[trigger] bot[v] <= tp[v] by {}
            lemma_box_volume_pos(bot, tp, n as int);
        }
        self.leaves = self.leaves + 1;
        let mut vol: u128 = 1;
        for v in 1..n
            invariant
                n == b.order@.len(),
                leaf_shape(l, glen),
                l == b.leaf_view(),
                bot == b.bottom@,
                tp == b.top@,
                vol == box_volume(bot, tp, v as int),
                box_volume(bot, tp, n as int) <= u128::MAX,
        {
            proof {
                lemma_box_volume_mono(bot, tp, v + 1, n as int);
                assert(bot[v as int] <= tp[v as int]);
            }
            vol = vol * ((b.top[v] - b.bottom[v]) as u128 + 1);
        }
        self.trees = self.trees + vol;
        let glen_u = self.by_degree.len();
        let ghost bd0 = self.by_degree@;
        let ghost sn0 = self.seen@;
        let ghost lv0 = self.leaves;
        let ghost tr0 = self.trees;
        let mut poly: Vec<u128> = Vec::new();
        for _i in 0..glen_u
            invariant
                self.by_degree@ == bd0,
                self.seen@ == sn0,
                self.leaves == lv0,
                self.trees == tr0,
                poly.len() == _i,
                forall|e: int| 0 <= e < _i ==> #[trigger] poly@[e] == 0,
        {
            poly.push(0);
        }
        poly.set(0, 1);
        proof {
            assert forall|e: int| 0 <= e < glen implies #[trigger] poly@[e] == box_count(bot, tp, 1, e) by {}
        }
        let mut deg: usize = 0;
        proof {
            assert forall|v2: int| 1 <= v2 < n implies #[trigger] bot[v2] <= tp[v2] by {}
        }
        for v in 1..n
            invariant
                self.by_degree@ == bd0,
                self.seen@ == sn0,
                self.leaves == lv0,
                self.trees == tr0,
                forall|v2: int| 1 <= v2 < n ==> #[trigger] bot[v2] <= tp[v2],
                n == b.order@.len(),
                leaf_shape(l, glen),
                l == b.leaf_view(),
                bot == b.bottom@,
                tp == b.top@,
                glen == glen_u,
                glen >= 1,
                poly.len() == glen,
                self.scratch.len() == glen,
                deg == top_degree(tp, v as int),
                vol == box_volume(bot, tp, n as int),
                vol <= u128::MAX,
                forall|e: int| 0 <= e < glen ==> #[trigger] poly@[e] == box_count(bot, tp, v as int, e),
        {
            let lo = b.bottom[v] as usize;
            let hi = b.top[v] as usize;
            proof {
                lemma_top_degree_mono(tp, v + 1, n as int);
                lemma_box_volume_mono(bot, tp, v + 1, n as int);
                assert(deg + hi < glen);
            }
            for e in 0..glen_u
                invariant
                    self.by_degree@ == bd0,
                    self.seen@ == sn0,
                    self.leaves == lv0,
                    self.trees == tr0,
                    self.scratch.len() == glen,
                    glen == glen_u,
                    forall|x: int| 0 <= x < e ==> #[trigger] self.scratch@[x] == 0,
            {
                self.scratch.set(e, 0);
            }
            let ghost k = v as int + 1;
            for d in 0..deg + 1
                invariant
                    self.by_degree@ == bd0,
                    self.seen@ == sn0,
                    self.leaves == lv0,
                    self.trees == tr0,
                    n == b.order@.len(),
                    1 <= v < n,
                    k == v + 1,
                    forall|v2: int| 1 <= v2 < n ==> #[trigger] bot[v2] <= tp[v2],
                    bot == b.bottom@,
                    tp == b.top@,
                    lo == bot[v as int],
                    hi == tp[v as int],
                    lo <= hi,
                    glen == glen_u,
                    poly.len() == glen,
                    self.scratch.len() == glen,
                    deg == top_degree(tp, v as int),
                    deg + hi < glen,
                    box_volume(bot, tp, k) <= vol,
                    vol <= u128::MAX,
                    forall|e: int| 0 <= e < glen ==> #[trigger] poly@[e] == box_count(bot, tp, v as int, e),
                    forall|e: int| 0 <= e < glen ==> #[trigger] self.scratch@[e] == sum(d as int, |x: int| count_term(bot, tp, k, e, x)),
            {
                if poly[d] != 0 {
                    for j in lo..hi + 1
                        invariant
                            self.by_degree@ == bd0,
                            self.seen@ == sn0,
                            self.leaves == lv0,
                            self.trees == tr0,
                            1 <= v < n,
                            k == v + 1,
                            bot == b.bottom@,
                            tp == b.top@,
                            lo == bot[v as int],
                            hi == tp[v as int],
                            d <= deg,
                            forall|v2: int| 1 <= v2 < n ==> #[trigger] bot[v2] <= tp[v2],
                            glen == glen_u,
                            poly.len() == glen,
                            self.scratch.len() == glen,
                            deg + hi < glen,
                            box_volume(bot, tp, k) <= vol,
                            vol <= u128::MAX,
                            forall|e: int| 0 <= e < glen ==> #[trigger] poly@[e] == box_count(bot, tp, v as int, e),
                            forall|e: int| 0 <= e < glen ==> #[trigger] self.scratch@[e] == sum(d as int, |x: int| count_term(bot, tp, k, e, x))
                                + (if lo <= e - d < j { count_term(bot, tp, k, e, d as int) } else { 0 }),
                    {
                        let e = d + j;
                        proof {
                            let f = |x: int| count_term(bot, tp, k, e as int, x);
                            assert(f(d as int) == poly@[d as int]);
                            assert forall|v2: int| 1 <= v2 < k implies #[trigger] bot[v2] <= tp[v2] by {}
                            assert forall|x: int| 0 <= x < e + 1 implies #[trigger] f(x) >= 0 by {
                                if bot[k - 1] <= e - x <= tp[k - 1] {
                                    lemma_box_count_bound(bot, tp, k - 1, x);
                                }
                            }
                            crate::sums::lemma_sum_prefix_le(d + 1, e + 1, f);
                            lemma_partial_count(bot, tp, k, e as int, e + 1);
                            lemma_box_count_bound(bot, tp, k, e as int);
                        }
                        self.scratch.set(e, self.scratch[e] + poly[d]);
                        proof {
                            assert forall|x: int| 0 <= x < glen implies #[trigger] self.scratch@[x] == sum(d as int, |y: int| count_term(bot, tp, k, x, y))
                                + (if lo <= x - d < j + 1 { count_term(bot, tp, k, x, d as int) } else { 0 }) by {}
                        }
                    }
                } else {
                    proof {
                        assert forall|e: int| 0 <= e < glen implies (if lo <= e - d <= hi { count_term(bot, tp, k, e, d as int) } else { 0 }) == 0 by {}
                    }
                }
                proof {
                    assert forall|e: int| 0 <= e < glen implies #[trigger] self.scratch@[e] == sum(d + 1, |x: int| count_term(bot, tp, k, e, x)) by {
                        let f = |x: int| count_term(bot, tp, k, e, x);
                        assert(sum(d + 1, f) == sum(d as int, f) + f(d as int));
                    }
                }
            }
            proof {
                assert forall|e: int| 0 <= e < glen implies #[trigger] self.scratch@[e] == box_count(bot, tp, k, e) by {
                    let f = |x: int| count_term(bot, tp, k, e, x);
                    lemma_partial_count(bot, tp, k, e, e + 1);
                    assert forall|x: int| deg + 1 <= x < glen implies #[trigger] f(x) == 0 by {
                        lemma_box_count_zero(bot, tp, v as int, x);
                    }
                    assert forall|x: int| e + 1 <= x < glen implies #[trigger] f(x) == 0 by {}
                    lemma_sum_zero_tail(deg + 1, glen, f);
                    lemma_sum_zero_tail(e + 1, glen, f);
                }
            }
            deg = deg + hi;
            proof {
                assert(deg == top_degree(tp, k));
            }
            std::mem::swap(&mut poly, &mut self.scratch);
        }
        proof {
            assert forall|e: int| 0 <= e < glen implies degree_sum(self.seen@.push(l), e) == degree_sum(self.seen@, e)
                + box_count(bot, tp, n as int, e) by {
                assert(self.seen@.push(l).drop_last() =~= self.seen@);
            }
            assert forall|i: int| 0 <= i < self.seen@.push(l).len() implies leaf_shape(#[trigger] self.seen@.push(l)[i], glen) by {
                if i < self.seen@.len() {
                    assert(self.seen@.push(l)[i] == self.seen@[i]);
                }
            }
            lemma_volume_sum_bounds(self.seen@.push(l), glen);
        }
        let ghost sn = self.seen@;
        for e in 0..glen_u
            invariant
                glen == glen_u,
                sn == self.seen@,
                self.leaves == lv0,
                self.trees == tr0,
                self.scratch.len() == glen,
                lv0 == sn0.len() + 1,
                tr0 == volume_sum(sn0.push(l)),
                forall|i: int| 0 <= i < sn0.push(l).len() ==> leaf_shape(#[trigger] sn0.push(l)[i], glen),
                poly.len() == glen,
                self.by_degree.len() == glen,
                forall|x: int| 0 <= x < glen ==> #[trigger] poly@[x] == box_count(bot, tp, n as int, x),
                forall|x: int| 0 <= x < e ==> #[trigger] self.by_degree@[x] == degree_sum(self.seen@.push(l), x),
                forall|x: int| e <= x < glen ==> #[trigger] self.by_degree@[x] == degree_sum(self.seen@, x),
                forall|x: int| 0 <= x < glen ==> #[trigger] degree_sum(self.seen@.push(l), x) == degree_sum(self.seen@, x)
                    + box_count(bot, tp, n as int, x),
                forall|x: int| 0 <= #[trigger] degree_sum(self.seen@.push(l), x) <= volume_sum(self.seen@.push(l)),
                volume_sum(self.seen@.push(l)) <= u128::MAX,
        {
            proof {
                assert(degree_sum(self.seen@.push(l), e as int) == degree_sum(self.seen@, e as int)
                    + box_count(bot, tp, n as int, e as int));
                assert(0 <= degree_sum(self.seen@.push(l), e as int) <= volume_sum(self.seen@.push(l)));
            }
            self.by_degree.set(e, self.by_degree[e] + poly[e]);
        }
        proof {
            self.seen = Ghost(self.seen@.push(l));
        }
    }
}


proof fn lemma_volume_sum_take(ls: Seq<LeafView>, k: int, glen: int)
    requires
        0 <= k <= ls.len(),
        forall|i: int| 0 <= i < ls.len() ==> leaf_shape(#[trigger] ls[i], glen),
    ensures
        volume_sum(ls.take(k)) <= volume_sum(ls),
{
    assert(ls =~= ls.take(k) + ls.skip(k));
    lemma_volume_sum_add(ls.take(k), ls.skip(k));
    assert forall|i: int| 0 <= i < ls.skip(k).len() implies leaf_shape(#[trigger] ls.skip(k)[i], glen) by {
        assert(ls.skip(k)[i] == ls[i + k]);
    }
    lemma_volume_sum_bounds(ls.skip(k), glen);
}

impl LeafSink for Agg {
    closed spec fn taken(&self) -> Seq<LeafView> {
        self.seen@
    }

    closed spec fn shape(&self) -> int {
        self.by_degree.len() as int
    }

    closed spec fn can_take(&self, ls: Seq<LeafView>) -> bool {
        &&& self.wf()
        &&& forall|i: int| 0 <= i < ls.len() ==> leaf_shape(#[trigger] ls[i], self.by_degree.len() as int)
        &&& volume_sum(self.seen@ + ls) <= u128::MAX
        &&& self.seen@.len() + ls.len() <= u64::MAX
    }

    proof fn lemma_can_take_prefix(&self, ls: Seq<LeafView>, k: int) {
        let glen = self.by_degree.len() as int;
        let t = self.seen@;
        assert forall|i: int| 0 <= i < (t + ls).len() implies leaf_shape(#[trigger] (t + ls)[i], glen) by {
            if i < t.len() {
                assert((t + ls)[i] == t[i]);
            } else {
                assert((t + ls)[i] == ls[i - t.len()]);
            }
        }
        lemma_volume_sum_take(t + ls, t.len() + k, glen);
        assert((t + ls).take(t.len() + k) =~= t + ls.take(k));
    }

    fn take_leaf(&mut self, b: Boxes) {
        proof {
            let l = b.leaf_view();
            assert(seq![l][0] == l);
            assert(self.seen@ + seq![l] =~= self.seen@.push(l));
        }
        self.add_leaf(b.order.len(), &b);
        proof {
            let l = b.leaf_view();
            assert forall|ls: Seq<LeafView>| old(self).can_take(seq![l] + ls) implies #[trigger] self.can_take(ls) by {
                assert(old(self).seen@ + (seq![l] + ls) =~= self.seen@ + ls);
                assert forall|i: int| 0 <= i < ls.len() implies leaf_shape(#[trigger] ls[i], self.by_degree.len() as int) by {
                    assert((seq![l] + ls)[i + 1] == ls[i]);
                }
            }
        }
    }
}

/// A box over `n >= 1` vertices whose intervals are nonempty.
pub open spec fn leaf_nonempty(l: LeafView) -> bool {
    &&& l.0.len() >= 1
    &&& l.1.len() >= l.0.len() && l.2.len() >= l.0.len()
    &&& forall|v: int| 1 <= v < l.0.len() ==> #[trigger] l.1[v] <= l.2[v]
}

/// The leaf count and the summed box volumes, with a flag for a count or
/// sum that left its integer type.
pub struct Tally {
    pub leaves: u64,
    pub trees: u128,
    pub over: bool,
    seen: Ghost<Seq<LeafView>>,
}

impl Tally {
    /// The counts are those of the leaves taken so far, unless one left its
    /// type.
    pub closed spec fn wf(&self) -> bool {
        &&& forall|i: int| 0 <= i < self.seen@.len() ==> leaf_nonempty(#[trigger] self.seen@[i])
        &&& !self.over ==> self.leaves == self.seen@.len() && self.trees == volume_sum(self.seen@)
        &&& self.over ==> volume_sum(self.seen@) > u128::MAX || self.seen@.len() > u64::MAX
    }
}

proof fn lemma_volume_sum_push(ls: Seq<LeafView>, l: LeafView)
    requires
        leaf_nonempty(l),
    ensures
        volume_sum(ls.push(l)) == volume_sum(ls) + box_volume(l.1, l.2, l.0.len() as int),
        box_volume(l.1, l.2, l.0.len() as int) >= 1,
{
    assert(ls.push(l).drop_last() =~= ls);
    lemma_box_volume_pos(l.1, l.2, l.0.len() as int);
}

impl LeafSink for Tally {
    closed spec fn taken(&self) -> Seq<LeafView> {
        self.seen@
    }

    closed spec fn shape(&self) -> int {
        0
    }

    closed spec fn can_take(&self, ls: Seq<LeafView>) -> bool {
        &&& self.wf()
        &&& forall|i: int| 0 <= i < ls.len() ==> leaf_nonempty(#[trigger] ls[i])
    }

    proof fn lemma_can_take_prefix(&self, ls: Seq<LeafView>, k: int) {
        assert forall|i: int| 0 <= i < ls.take(k).len() implies leaf_nonempty(#[trigger] ls.take(k)[i]) by {
            assert(ls.take(k)[i] == ls[i]);
        }
    }

    fn take_leaf(&mut self, b: Boxes) {
        let ghost l = b.leaf_view();
        let ghost bot = b.bottom@;
        let ghost tp = b.top@;
        let n = b.order.len();
        proof {
            assert(seq![l][0] == l);
            assert(leaf_nonempty(l));
            lemma_volume_sum_push(self.seen@, l);
        }
        if !self.over {
            let mut vol: Option<u128> = Some(1);
            for v in 1..n
                invariant
                    n == b.order@.len(),
                    l == b.leaf_view(),
                    bot == b.bottom@,
                    tp == b.top@,
                    leaf_nonempty(l),
                    match vol {
                        Some(x) => x == box_volume(bot, tp, v as int),
                        None => box_volume(bot, tp, v as int) > u128::MAX,
                    },
            {
                proof {
                    assert(bot[v as int] <= tp[v as int]);
                    lemma_box_volume_mono(bot, tp, v as int, v + 1);
                }
                vol = match vol {
                    Some(x) => x.checked_mul((b.top[v] - b.bottom[v]) as u128 + 1),
                    None => None,
                };
            }
            proof {
                if vol is None {
                    lemma_box_volume_mono(bot, tp, n as int, n as int);
                }
            }
            match vol {
                Some(x) => match self.trees.checked_add(x) {
                    Some(t) => {
                        if self.leaves < u64::MAX {
                            self.leaves = self.leaves + 1;
                            self.trees = t;
                        } else {
                            self.over = true;
                        }
                    },
                    None => {
                        self.over = true;
                    },
                },
                None => {
                    self.over = true;
                },
            }
        }
        proof {
            self.seen@ = self.seen@.push(l);
        }
        proof {
            assert forall|i: int| 0 <= i < self.seen@.len() implies leaf_nonempty(#[trigger] self.seen@[i]) by {
                if i < old(self).seen@.len() {
                    assert(self.seen@[i] == old(self).seen@[i]);
                }
            }
            assert forall|ls: Seq<LeafView>| old(self).can_take(seq![l] + ls) implies #[trigger] self.can_take(ls) by {
                assert forall|i: int| 0 <= i < ls.len() implies leaf_nonempty(#[trigger] ls[i]) by {
                    assert((seq![l] + ls)[i + 1] == ls[i]);
                }
            }
        }
    }
}

/// The counts of `aggregate` where they fit their types (the leaf count in
/// `u64`, the summed box volumes in `u128`); `None` where they do not.
pub fn aggregate_checked(g: &Graph) -> (r: Option<Agg>)
    requires
        g.wf(),
        degrees_fit(g.adj@),
        cyclomatic(g.adj@) < usize::MAX,
    ensures
        r is Some <==> volume_sum(all_leaves(g.adj@)) <= u128::MAX && all_leaves(g.adj@).len() <= u64::MAX,
        r matches Some(agg) ==> {
            &&& agg.leaf_count() == all_leaves(g.adj@).len()
            &&& agg.tree_count() == volume_sum(all_leaves(g.adj@))
            &&& agg.histogram().len() == cyclomatic(g.adj@) + 1
            &&& forall|e: int|
                0 <= e <= cyclomatic(g.adj@) ==> #[trigger] agg.histogram()[e] == degree_sum(all_leaves(g.adj@), e)
        },
{
    let mut t = Tally { leaves: 0, trees: 0, over: false, seen: Ghost(Seq::empty()) };
    proof {
        let a = g.adj@;
        lemma_root_inv(a);
        lemma_leaves_ok(a, root_view(a));
        assert forall|i: int| 0 <= i < all_leaves(a).len() implies leaf_nonempty(#[trigger] all_leaves(a)[i]) by {
            assert(leaf_ok(a, all_leaves(a)[i]));
        }
        assert(t.can_take(all_leaves(a)));
    }
    let ghost t0 = t;
    enumerate(g, &mut t);
    proof {
        assert(Seq::<LeafView>::empty() + all_leaves(g.adj@) =~= all_leaves(g.adj@));
        assert(all_leaves(g.adj@) + Seq::<LeafView>::empty() =~= all_leaves(g.adj@));
        assert(t0.can_take(all_leaves(g.adj@) + Seq::<LeafView>::empty()));
        assert(t.can_take(Seq::<LeafView>::empty()));
    }
    if t.over {
        None
    } else {
        Some(aggregate(g))
    }
}

impl Agg {
    /// Sums two aggregates over the same degree range.
    pub fn merge(self, other: Agg) -> (r: Agg)
        requires
            self.wf(),
            other.wf(),
            self.histogram().len() == other.histogram().len(),
            volume_sum(self.seen_leaves() + other.seen_leaves()) <= u128::MAX,
            self.seen_leaves().len() + other.seen_leaves().len() <= u64::MAX,
        ensures
            r.wf(),
            r.seen_leaves() == self.seen_leaves() + other.seen_leaves(),
            r.histogram().len() == self.histogram().len(),
    {
        let mut out = self;
        let ghost x = out.seen@;
        let ghost y = other.seen@;
        let ghost glen = out.by_degree.len() as int;
        proof {
            lemma_volume_sum_add(x, y);
            assert forall|i: int| 0 <= i < (x + y).len() implies leaf_shape(#[trigger] (x + y)[i], glen) by {
                if i < x.len() {
                    assert((x + y)[i] == x[i]);
                } else {
                    assert((x + y)[i] == y[i - x.len()]);
                }
            }
            lemma_volume_sum_bounds(x + y, glen);
        }
        out.leaves = out.leaves + other.leaves;
        out.trees = out.trees + other.trees;
        let ghost bd0 = out.by_degree@;
        let ghost lv = out.leaves;
        let ghost tr = out.trees;
        let glen_u = out.by_degree.len();
        for e in 0..glen_u
            invariant
                glen == glen_u,
                out.leaves == lv,
                out.trees == tr,
                out.scratch.len() == glen,
                lv == (x + y).len(),
                tr == volume_sum(x + y),
                forall|i: int| 0 <= i < (x + y).len() ==> leaf_shape(#[trigger] (x + y)[i], glen),
                out.by_degree.len() == glen,
                other.by_degree.len() == glen,
                out.seen@ == x,
                other.seen@ == y,
                other.wf(),
                forall|d: int| 0 <= d < glen ==> #[trigger] bd0[d] == degree_sum(x, d),
                forall|d: int| 0 <= d < e ==> #[trigger] out.by_degree@[d] == degree_sum(x + y, d),
                forall|d: int| e <= d < glen ==> #[trigger] out.by_degree@[d] == bd0[d],
                forall|d: int| 0 <= #[trigger] degree_sum(x + y, d) <= volume_sum(x + y),
                forall|d: int| #[trigger] degree_sum(x + y, d) == degree_sum(x, d) + degree_sum(y, d),
                volume_sum(x + y) <= u128::MAX,
        {
            proof {
                assert(degree_sum(x + y, e as int) == degree_sum(x, e as int) + degree_sum(y, e as int));
                assert(0 <= degree_sum(x + y, e as int) <= volume_sum(x + y));
            }
            out.by_degree.set(e, out.by_degree[e] + other.by_degree[e]);
        }
        out.seen = Ghost(x + y);
        out
    }
}

// ---------------------------------------------------------------------------
// Splitting the search at a depth.
// ---------------------------------------------------------------------------

/// The search states at depth `depth` below `s` (or leaves reached
/// earlier), in search order.
pub open spec fn front(a: Seq<Vec<u32>>, s: SearchView, depth: int) -> Seq<SearchView>
    decreases a.len() - s.order.len(), a.len() + 1,
{
    if s.order.len() >= depth || s.order.len() >= a.len() {
        seq![s]
    } else {
        front_children(a, s, depth, 1)
    }
}

pub open spec fn front_children(a: Seq<Vec<u32>>, s: SearchView, depth: int, v: int) -> Seq<SearchView>
    decreases a.len() - s.order.len(), a.len() - v,
{
    if v >= a.len() || s.order.len() >= a.len() || v < 1 {
        seq![]
    } else {
        let rest = front_children(a, s, depth, v + 1);
        if can_burn(a, s, v) && !is_dead_end(a, after_burn(a, s, v)) {
            front(a, after_burn(a, s, v), depth) + rest
        } else {
            rest
        }
    }
}

/// The leaves below each state of a list, one list after the other.
pub open spec fn leaves_below(a: Seq<Vec<u32>>, ss: Seq<SearchView>) -> Seq<LeafView>
    decreases ss.len(),
{
    if ss.len() == 0 {
        seq![]
    } else {
        leaves_below(a, ss.drop_last()) + leaves(a, ss.last())
    }
}

proof fn lemma_leaves_below_add(a: Seq<Vec<u32>>, x: Seq<SearchView>, y: Seq<SearchView>)
    ensures
        leaves_below(a, x + y) == leaves_below(a, x) + leaves_below(a, y),
    decreases y.len(),
{
    if y.len() == 0 {
        assert(x + y =~= x);
        assert(leaves_below(a, x) + Seq::<LeafView>::empty() =~= leaves_below(a, x));
    } else {
        lemma_leaves_below_add(a, x, y.drop_last());
        assert((x + y).drop_last() =~= x + y.drop_last());
        assert((x + y).last() == y.last());
        assert(leaves_below(a, x) + leaves_below(a, y.drop_last()) + leaves(a, y.last()) =~= leaves_below(a, x)
            + (leaves_below(a, y.drop_last()) + leaves(a, y.last())));
    }
}

/// Splitting the search at any depth neither loses nor repeats a leaf:
/// the leaves below the states at that depth, in order, are the leaves
/// below `s`.
pub proof fn lemma_front_leaves(a: Seq<Vec<u32>>, s: SearchView, depth: int)
    ensures
        leaves_below(a, front(a, s, depth)) == leaves(a, s),
        forall|i: int| 0 <= i < front(a, s, depth).len() ==> state_inv(a, s) ==> state_inv(a, #[trigger] front(a, s, depth)[i]),
    decreases a.len() - s.order.len(), a.len() + 1,
{
    if s.order.len() >= depth || s.order.len() >= a.len() {
        assert(seq![s].drop_last() =~= Seq::<SearchView>::empty());
        assert(seq![s].last() == s);
        assert(leaves_below(a, Seq::<SearchView>::empty()) == Seq::<LeafView>::empty());
        assert(Seq::<LeafView>::empty() + leaves(a, s) =~= leaves(a, s));
        assert(front(a, s, depth) == seq![s]);
    } else {
        lemma_front_children_leaves(a, s, depth, 1);
        assert(front(a, s, depth) == front_children(a, s, depth, 1));
        assert(leaves(a, s) == children(a, s, 1));
    }
}

pub proof fn lemma_front_children_leaves(a: Seq<Vec<u32>>, s: SearchView, depth: int, v: int)
    ensures
        leaves_below(a, front_children(a, s, depth, v)) == children(a, s, v),
        forall|i: int| 0 <= i < front_children(a, s, depth, v).len() ==> state_inv(a, s) ==> state_inv(
            a,
            #[trigger] front_children(a, s, depth, v)[i],
        ),
    decreases a.len() - s.order.len(), a.len() - v,
{
    if v >= a.len() || s.order.len() >= a.len() || v < 1 {
    } else {
        lemma_front_children_leaves(a, s, depth, v + 1);
        let rest = front_children(a, s, depth, v + 1);
        if can_burn(a, s, v) && !is_dead_end(a, after_burn(a, s, v)) {
            let s2 = after_burn(a, s, v);
            lemma_front_leaves(a, s2, depth);
            lemma_leaves_below_add(a, front(a, s2, depth), rest);
            let fr = front(a, s2, depth);
            assert forall|i: int| 0 <= i < front_children(a, s, depth, v).len() implies state_inv(a, s) ==> state_inv(
                a,
                #[trigger] front_children(a, s, depth, v)[i],
            ) by {
                if state_inv(a, s) {
                    lemma_after_inv(a, s, v);
                    if i < fr.len() {
                        assert(front_children(a, s, depth, v)[i] == fr[i]);
                    } else {
                        assert(front_children(a, s, depth, v)[i] == rest[i - fr.len()]);
                    }
                }
            }
        }
    }
}


/// Each state of `xs` agrees with the one of `ys` at the same place.
pub open spec fn states_match(xs: Seq<State>, ys: Seq<SearchView>) -> bool {
    &&& xs.len() == ys.len()
    &&& forall|i: int| 0 <= i < xs.len() ==> same_search(#[trigger] xs[i].view(), ys[i])
}

pub proof fn lemma_same_search_trans(x: SearchView, y: SearchView, z: SearchView)
    requires
        same_search(x, y),
        same_search(y, z),
    ensures
        same_search(x, z),
{
}

/// The split of the search does not depend on the box bounds of unburnt
/// vertices either.
pub proof fn lemma_front_same(a: Seq<Vec<u32>>, s: SearchView, t: SearchView, depth: int)
    requires
        state_inv(a, s),
        same_search(s, t),
    ensures
        front(a, s, depth).len() == front(a, t, depth).len(),
        forall|i: int| 0 <= i < front(a, s, depth).len() ==> same_search(#[trigger] front(a, s, depth)[i], front(a, t, depth)[i]),
    decreases a.len() - s.order.len(), a.len() + 1,
{
    if s.order.len() >= depth || s.order.len() >= a.len() {
    } else {
        lemma_front_children_same(a, s, t, depth, 1);
    }
}

pub proof fn lemma_front_children_same(a: Seq<Vec<u32>>, s: SearchView, t: SearchView, depth: int, v: int)
    requires
        state_inv(a, s),
        same_search(s, t),
    ensures
        front_children(a, s, depth, v).len() == front_children(a, t, depth, v).len(),
        forall|i: int| 0 <= i < front_children(a, s, depth, v).len() ==> same_search(
            #[trigger] front_children(a, s, depth, v)[i],
            front_children(a, t, depth, v)[i],
        ),
    decreases a.len() - s.order.len(), a.len() - v,
{
    if v >= a.len() || s.order.len() >= a.len() || v < 1 {
    } else {
        lemma_front_children_same(a, s, t, depth, v + 1);
        if can_burn(a, s, v) {
            let s2 = after_burn(a, s, v);
            let t2 = after_burn(a, t, v);
            lemma_after_inv(a, s, v);
            assert(s2.wcnt =~= t2.wcnt);
            assert(s2.w2 =~= t2.w2);
            assert(same_search(s2, t2)) by {
                assert forall|k: int| #[trigger] has_bit(s2.burnt, k) implies s2.bottom[k] == t2.bottom[k]
                    && s2.top[k] == t2.top[k] by {
                    lemma_bit_or_single(s.burnt, v as u64, k);
                }
            }
            assert(is_dead_end(a, s2) == is_dead_end(a, t2));
            lemma_front_same(a, s2, t2, depth);
            let fs = front(a, s2, depth);
            let ft = front(a, t2, depth);
            let rs = front_children(a, s, depth, v + 1);
            let rt = front_children(a, t, depth, v + 1);
            if !is_dead_end(a, s2) {
                assert forall|i: int| 0 <= i < front_children(a, s, depth, v).len() implies same_search(
                    #[trigger] front_children(a, s, depth, v)[i],
                    front_children(a, t, depth, v)[i],
                ) by {
                    if i < fs.len() {
                        assert(front_children(a, s, depth, v)[i] == fs[i]);
                        assert(front_children(a, t, depth, v)[i] == ft[i]);
                    } else {
                        assert(front_children(a, s, depth, v)[i] == rs[i - fs.len()]);
                        assert(front_children(a, t, depth, v)[i] == rt[i - fs.len()]);
                    }
                }
            }
        }
    }
}

impl State {
    /// A copy of the state.
    fn duplicate(&self) -> (r: State)
        ensures
            r.view() == self.view(),
    {
        State {
            burnt: self.burnt,
            order: crate::vecs::copy_u32s(self.order.as_slice()),
            wcnt: crate::vecs::copy_u32s(self.wcnt.as_slice()),
            w2: crate::vecs::copy_u32s(self.w2.as_slice()),
            bottom: crate::vecs::copy_u32s(self.bottom.as_slice()),
            top: crate::vecs::copy_u32s(self.top.as_slice()),
        }
    }
}

proof fn lemma_front_step(a: Seq<Vec<u32>>, s: SearchView, depth: int, v: int)
    requires
        1 <= v < a.len(),
        s.order.len() < a.len(),
    ensures
        front_children(a, s, depth, v) == (if can_burn(a, s, v) && !is_dead_end(a, after_burn(a, s, v)) {
            front(a, after_burn(a, s, v), depth)
        } else {
            Seq::<SearchView>::empty()
        }) + front_children(a, s, depth, v + 1),
{
    if !(can_burn(a, s, v) && !is_dead_end(a, after_burn(a, s, v))) {
        assert(Seq::<SearchView>::empty() + front_children(a, s, depth, v + 1) =~= front_children(a, s, depth, v + 1));
    }
}

/// Collects the search states at the given depth below `s` (or leaves
/// reached earlier), in search order.
fn collect(g: &Graph, s: &mut State, depth: usize, out: &mut Vec<State>)
    requires
        g.wf(),
        state_inv(g.adj@, old(s).view()),
    ensures
        same_search(final(s).view(), old(s).view()),
        final(out)@.len() == old(out)@.len() + front(g.adj@, old(s).view(), depth as int).len(),
        forall|i: int| 0 <= i < old(out)@.len() ==> #[trigger] final(out)@[i] == old(out)@[i],
        states_match(final(out)@.skip(old(out)@.len() as int), front(g.adj@, old(s).view(), depth as int)),
    decreases g.n - old(s).view().order.len(),
{
    let ghost a = g.adj@;
    let ghost s0 = s.view();
    let ghost o0 = out@;
    if s.depth() >= depth || s.depth() == g.n {
        out.push(s.duplicate());
        proof {
            assert(front(a, s0, depth as int) == seq![s0]);
            assert(out@.skip(o0.len() as int) =~= seq![out@[o0.len() as int]]);
        }
        return;
    }
    let ghost all = front_children(a, s0, depth as int, 1);
    let ghost mut done: Seq<SearchView> = Seq::empty();
    proof {
        assert(front(a, s0, depth as int) == all);
        assert(done + all =~= all);
        assert(out@.skip(o0.len() as int) =~= Seq::<State>::empty());
    }
    for v in 1..g.n
        invariant
            g.wf(),
            a == g.adj@,
            state_inv(a, s0),
            s0 == old(s).view(),
            o0 == old(out)@,
            s0.order.len() < g.n,
            same_search(s.view(), s0),
            all == front_children(a, s0, depth as int, 1),
            done + front_children(a, s0, depth as int, v as int) == all,
            out@.len() == o0.len() + done.len(),
            forall|i: int| 0 <= i < o0.len() ==> #[trigger] out@[i] == o0[i],
            states_match(out@.skip(o0.len() as int), done),
    {
        let ghost sv = s.view();
        let ghost ov = out@;
        proof {
            lemma_front_step(a, s0, depth as int, v as int);
            lemma_inv_same(a, sv, s0);
            lemma_low_bit(s.burnt, v as u64);
        }
        if (s.burnt >> v as u64) & 1u64 == 0 && s.wcnt[v] > s.w2[v] {
            let undo = apply_burn(g, s, v);
            let ghost s1 = s.view();
            let ghost t1 = after_burn(a, s0, v as int);
            proof {
                lemma_after_inv(a, sv, v as int);
                lemma_after_inv(a, s0, v as int);
                assert(s1.wcnt =~= t1.wcnt);
                assert(s1.w2 =~= t1.w2);
                assert(same_search(s1, t1)) by {
                    assert forall|k: int| #[trigger] has_bit(s1.burnt, k) implies s1.bottom[k] == t1.bottom[k]
                        && s1.top[k] == t1.top[k] by {
                        lemma_bit_or_single(s0.burnt, v as u64, k);
                    }
                }
                assert(is_dead_end(a, s1) == is_dead_end(a, t1));
            }
            if !dead_end(g, s) {
                proof {
                    assert(s.view().order.len() == s0.order.len() + 1);
                }
                collect(g, s, depth, out);
                proof {
                    let fr = front(a, t1, depth as int);
                    lemma_front_same(a, s1, t1, depth as int);
                    let pushed = out@.skip(ov.len() as int);
                    assert forall|i: int| 0 <= i < fr.len() implies same_search(#[trigger] pushed[i].view(), fr[i]) by {
                        lemma_same_search_trans(pushed[i].view(), front(a, s1, depth as int)[i], fr[i]);
                    }
                    let newd = done + fr;
                    assert forall|i: int| 0 <= i < newd.len() implies same_search(
                        #[trigger] out@.skip(o0.len() as int)[i].view(),
                        newd[i],
                    ) by {
                        if i < done.len() {
                            assert(out@.skip(o0.len() as int)[i] == ov.skip(o0.len() as int)[i]);
                        } else {
                            assert(out@.skip(o0.len() as int)[i] == pushed[i - done.len()]);
                        }
                    }
                    done = newd;
                    assert(done + front_children(a, s0, depth as int, v + 1) =~= all);
                }
            }
            undo_burn(g, s, v, undo, Ghost(sv));
            proof {
                if is_dead_end(a, s1) {
                    assert(Seq::<SearchView>::empty() + front_children(a, s0, depth as int, v + 1) =~= front_children(a, s0, depth as int, v + 1));
                }
            }
        } else {
            proof {
                assert(!can_burn(a, s0, v as int));
                assert(Seq::<SearchView>::empty() + front_children(a, s0, depth as int, v + 1) =~= front_children(a, s0, depth as int, v + 1));
            }
        }
    }
    proof {
        assert(front_children(a, s0, depth as int, g.n as int) == Seq::<SearchView>::empty());
        assert(done =~= all);
    }
}

/// Collect search states at the given depth (or leaves reached earlier), for
/// separate processing of the subtrees.
pub fn frontier(g: &Graph, depth: usize) -> (out: Vec<State>)
    requires
        g.wf(),
        degrees_fit(g.adj@),
    ensures
        states_match(out@, front(g.adj@, root_view(g.adj@), depth as int)),
{
    let mut out: Vec<State> = Vec::new();
    let mut s = State::root(g);
    collect(g, &mut s, depth, &mut out);
    proof {
        assert(out@.skip(0) =~= out@);
    }
    out
}


/// The search states as mathematical values.
pub open spec fn state_views(xs: Seq<State>) -> Seq<SearchView> {
    xs.map_values(|st: State| st.view())
}

proof fn lemma_leaves_below_same(a: Seq<Vec<u32>>, xs: Seq<State>, fr: Seq<SearchView>)
    requires
        states_match(xs, fr),
        forall|j: int| 0 <= j < fr.len() ==> state_inv(a, #[trigger] fr[j]),
    ensures
        leaves_below(a, state_views(xs)) == leaves_below(a, fr),
    decreases xs.len(),
{
    if xs.len() > 0 {
        let k = xs.len() - 1;
        lemma_leaves_below_same(a, xs.drop_last(), fr.drop_last());
        assert(state_views(xs).drop_last() =~= state_views(xs.drop_last()));
        assert(state_views(xs).last() == xs[k].view());
        lemma_inv_same(a, xs[k].view(), fr[k]);
        lemma_leaves_same(a, xs[k].view(), fr[k]);
    }
}

/// Aggregates the leaves below one state.
fn subtree_agg(g: &Graph, st: &State, genus: usize) -> (part: Agg)
    requires
        g.wf(),
        degrees_fit(g.adj@),
        genus == cyclomatic(g.adj@),
        genus < usize::MAX,
        state_inv(g.adj@, st.view()),
        volume_sum(leaves(g.adj@, st.view())) <= u128::MAX,
        leaves(g.adj@, st.view()).len() <= u64::MAX,
    ensures
        part.wf(),
        part.seen_leaves() == leaves(g.adj@, st.view()),
        part.histogram().len() == genus + 1,
{
    let ghost a = g.adj@;
    let mut s2 = st.duplicate();
    let mut part = Agg::new(genus);
    let ghost lv = leaves(a, st.view());
    proof {
        lemma_leaves_ok(a, st.view());
        assert forall|j: int| 0 <= j < lv.len() implies leaf_shape(#[trigger] lv[j], genus + 1) by {
            assert(leaf_ok(a, lv[j]));
        }
        assert(Seq::<LeafView>::empty() + lv =~= lv);
        assert(part.can_take(lv));
    }
    let ghost part0 = part;
    dfs(g, &mut s2, &mut part);
    proof {
        assert(part.seen_leaves() =~= lv);
        assert(lv + Seq::<LeafView>::empty() =~= lv);
        assert(part0.can_take(lv + Seq::<LeafView>::empty()));
        assert(part.can_take(Seq::<LeafView>::empty()));
    }
    part
}

/// The leaves below the given states, aggregated in parallel by rayon:
/// `par_iter` over the states, each mapped to its `subtree_agg`, then
/// `reduce` with `Agg::new` as identity and `Agg::merge` as the operation.
/// Claimed: the counts of the result are those of all leaves below all the
/// states. Merging adds counts, so this holds for whatever grouping and
/// order of the parts rayon uses; which order the parts were merged in
/// (the order of the leaves the result has seen) is left unsaid.
#[verifier::external_body]
fn par_subtree_aggs(g: &Graph, states: &Vec<State>, genus: usize) -> (agg: Agg)
    requires
        g.wf(),
        degrees_fit(g.adj@),
        genus == cyclomatic(g.adj@),
        genus < usize::MAX,
        forall|j: int| 0 <= j < states@.len() ==> state_inv(g.adj@, #[trigger] states@[j].view()),
        volume_sum(leaves_below(g.adj@, state_views(states@))) <= u128::MAX,
        leaves_below(g.adj@, state_views(states@)).len() <= u64::MAX,
    ensures
        agg.wf(),
        agg.histogram().len() == genus + 1,
        agg.leaf_count() == leaves_below(g.adj@, state_views(states@)).len(),
        agg.tree_count() == volume_sum(leaves_below(g.adj@, state_views(states@))),
        forall|e: int|
            0 <= e <= genus ==> #[trigger] agg.histogram()[e] == degree_sum(leaves_below(g.adj@, state_views(states@)), e),
{
    states.par_iter().map(|st| subtree_agg(g, st, genus)).reduce(|| Agg::new(genus), Agg::merge)
}

/// One-pass computation of (leaf count, tree count, degree histogram): the
/// search is split at a depth where it has at least 512 states (or at the
/// leaves), each subtree is aggregated on its own, and the parts are summed.
pub fn aggregate(g: &Graph) -> (agg: Agg)
    requires
        g.wf(),
        degrees_fit(g.adj@),
        cyclomatic(g.adj@) < usize::MAX,
        volume_sum(all_leaves(g.adj@)) <= u128::MAX,
        all_leaves(g.adj@).len() <= u64::MAX,
    ensures
        agg.leaf_count() == all_leaves(g.adj@).len(),
        agg.tree_count() == volume_sum(all_leaves(g.adj@)),
        agg.histogram().len() == cyclomatic(g.adj@) + 1,
        forall|e: int| 0 <= e <= cyclomatic(g.adj@) ==> #[trigger] agg.histogram()[e] == degree_sum(all_leaves(g.adj@), e),
{
    let ghost a = g.adj@;
    let ghost root = root_view(a);
    let genus = g.genus() as usize;
    let ghost glen = genus + 1;
    let mut depth: usize = 2;
    let mut states = frontier(g, depth);
    while states.len() < 512 && depth < g.n
        invariant
            g.wf(),
            degrees_fit(g.adj@),
            a == g.adj@,
            root == root_view(a),
            states_match(states@, front(a, root, depth as int)),
            depth <= g.n,
        decreases g.n - depth,
    {
        depth = depth + 1;
        states = frontier(g, depth);
    }
    let ghost fr = front(a, root, depth as int);
    let ghost all = all_leaves(a);
    proof {
        lemma_root_inv(a);
        lemma_front_leaves(a, root, depth as int);
        lemma_leaves_ok(a, root);
        assert(leaves_below(a, fr) == all);
        assert forall|i: int| 0 <= i < all.len() implies leaf_shape(#[trigger] all[i], glen) by {
            assert(leaf_ok(a, all[i]));
        }
        lemma_volume_sum_bounds(all, glen);
    }
    proof {
        lemma_leaves_below_same(a, states@, fr);
        assert forall|j: int| 0 <= j < states@.len() implies state_inv(a, #[trigger] states@[j].view()) by {
            lemma_inv_same(a, states@[j].view(), fr[j]);
        }
    }
    let agg = par_subtree_aggs(g, &states, genus);
    agg
}


// ---------------------------------------------------------------------------
// The boxes partition the parking functions.
// ---------------------------------------------------------------------------

/// `f` (indexed by vertex, root entry ignored) lies in the box of `l`.
pub open spec fn in_leaf_box(l: LeafView, f: Seq<u32>) -> bool {
    forall|v: int| 1 <= v < l.0.len() ==> l.1[v] <= #[trigger] f[v] <= l.2[v]
}

/// `u` can be burnt after the first `k` vertices of `order`.
pub open spec fn burnable_after(a: Seq<Vec<u32>>, f: Seq<u32>, order: Seq<u32>, k: int, u: int) -> bool {
    (f[u] as int) < weight_into(a, prefix_set(order, k), u)
}

/// `order` is the lex-minimal burn order of `f`: it burns every vertex once
/// from the root, and at each step the smallest burnable vertex.
pub open spec fn is_greedy_order(a: Seq<Vec<u32>>, f: Seq<u32>, order: Seq<u32>) -> bool {
    let n = a.len() as int;
    &&& 1 <= n
    &&& order.len() == n
    &&& order[0] == 0
    &&& order.no_duplicates()
    &&& forall|i: int| 0 <= i < n ==> #[trigger] order[i] < n
    &&& forall|k: int| 1 <= k < n ==> burnable_after(a, f, order, k, #[trigger] order[k] as int)
    &&& forall|k: int, u: int|
        #![trigger order[k], prefix_set(order, k).contains(u)]
        1 <= k < n && 1 <= u < order[k] && !prefix_set(order, k).contains(u) ==> !burnable_after(a, f, order, k, u)
}

/// The position of `x` in a burn order holding it.
pub open spec fn position(order: Seq<u32>, x: int) -> int {
    choose|j: int| 0 <= j < order.len() && order[j] as int == x
}

proof fn lemma_position(order: Seq<u32>, x: int)
    requires
        order.contains(x as u32),
        0 <= x <= u32::MAX,
        order.no_duplicates(),
    ensures
        0 <= position(order, x) < order.len(),
        order[position(order, x)] as int == x,
        forall|j: int| 0 <= j < order.len() && order[j] as int == x ==> j == position(order, x),
{
    let j = choose|j: int| 0 <= j < order.len() && order[j] == x as u32;
    assert(order[j] as int == x);
}

/// A vertex of `s` at the earliest position of the order.
proof fn lemma_earliest(order: Seq<u32>, s: Set<int>, v: int, n: int) -> (u: int)
    requires
        s.contains(v),
        order.no_duplicates(),
        n <= u32::MAX,
        forall|x: int| #[trigger] s.contains(x) ==> 0 <= x < n && order.contains(x as u32),
    ensures
        s.contains(u),
        forall|x: int| #[trigger] s.contains(x) ==> position(order, u) <= position(order, x),
    decreases position(order, v),
{
    lemma_position(order, v);
    if exists|x: int| #[trigger] s.contains(x) && position(order, x) < position(order, v) {
        let x = choose|x: int| #[trigger] s.contains(x) && position(order, x) < position(order, v);
        lemma_position(order, x);
        lemma_earliest(order, s, x, n)
    } else {
        v
    }
}

/// Every point of every box is a parking function.
pub proof fn lemma_box_points_are_parking(a: Seq<Vec<u32>>, l: LeafView, f: Seq<u32>)
    requires
        valid_matrix(a),
        leaf_ok(a, l),
        f.len() >= a.len(),
        in_leaf_box(l, f),
    ensures
        crate::dhar::is_parking_function(a, f),
{
    let n = a.len() as int;
    let order = l.0;
    assert forall|s: Set<int>|
        #[trigger] crate::dhar::is_nonroot_set(n, s) && s != Set::<int>::empty() implies exists|v: int|
            #[trigger] s.contains(v) && (f[v] as int) < crate::dhar::weight_outside(a, s, v) by {
        let v0 = s.choose();
        if !s.contains(v0) {
            assert(s =~= Set::<int>::empty());
        }
        assert forall|x: int| #[trigger] s.contains(x) implies 0 <= x < n && order.contains(x as u32) by {}
        let v = lemma_earliest(order, s, v0, n);
        lemma_position(order, v);
        let p = position(order, v);
        assert(p != 0);
        let pre = prefix_set(order, p);
        let g1 = |w: int| if pre.contains(w) { a[v]@[w] as int } else { 0int };
        let g2 = |w: int| if s.contains(w) { 0int } else { a[v]@[w] as int };
        assert forall|w: int| 0 <= w < n implies #[trigger] g1(w) <= g2(w) by {
            if pre.contains(w) && s.contains(w) {
                let j = choose|j: int| 0 <= j < p && #[trigger] order[j] as int == w;
                lemma_position(order, w);
                assert(position(order, v) <= position(order, w));
            }
        }
        crate::sums::lemma_sum_mono(n, g1, g2);
        assert(l.2[order[p] as int] + 1 == weight_into(a, prefix_set(order, p), order[p] as int));
        assert(f[v] <= l.2[v]);
    }
}

/// Every point of a box has the leaf's order as its lex-minimal burn order.
pub proof fn lemma_box_order_is_greedy(a: Seq<Vec<u32>>, l: LeafView, f: Seq<u32>)
    requires
        leaf_ok(a, l),
        f.len() >= a.len(),
        in_leaf_box(l, f),
    ensures
        is_greedy_order(a, f, l.0),
{
    let n = a.len() as int;
    let order = l.0;
    assert forall|k: int| 1 <= k < n implies burnable_after(a, f, order, k, #[trigger] order[k] as int) by {
        assert(f[order[k] as int] <= l.2[order[k] as int]);
    }
    assert forall|k: int, u: int|
        #![trigger order[k], prefix_set(order, k).contains(u)]
        1 <= k < n && 1 <= u < order[k] && !prefix_set(order, k).contains(u) implies !burnable_after(a, f, order, k, u) by {
        assert(order.contains(u as u32));
        lemma_position(order, u);
        let i = position(order, u);
        if i < k {
            assert(prefix_set(order, k).contains(u));
        }
        assert(i != k);
        assert(order[k] > order[i]);
        assert(l.1[order[i] as int] >= weight_into(a, prefix_set(order, k), order[i] as int));
        assert(l.1[u] <= f[u]);
    }
}

/// A parking function has at most one lex-minimal burn order.
pub proof fn lemma_greedy_unique(a: Seq<Vec<u32>>, f: Seq<u32>, x: Seq<u32>, y: Seq<u32>)
    requires
        is_greedy_order(a, f, x),
        is_greedy_order(a, f, y),
    ensures
        x == y,
{
    let n = a.len() as int;
    lemma_greedy_unique_prefix(a, f, x, y, n);
    assert(x =~= y);
}

proof fn lemma_greedy_unique_prefix(a: Seq<Vec<u32>>, f: Seq<u32>, x: Seq<u32>, y: Seq<u32>, k: int)
    requires
        is_greedy_order(a, f, x),
        is_greedy_order(a, f, y),
        1 <= k <= a.len(),
    ensures
        forall|j: int| 0 <= j < k ==> #[trigger] x[j] == y[j],
    decreases k,
{
    if k > 1 {
        lemma_greedy_unique_prefix(a, f, x, y, k - 1);
        let m = k - 1;
        assert(prefix_set(x, m) =~= prefix_set(y, m)) by {
            assert forall|z: int| prefix_set(x, m).contains(z) <==> prefix_set(y, m).contains(z) by {
                if prefix_set(x, m).contains(z) {
                    let j = choose|j: int| 0 <= j < m && #[trigger] x[j] as int == z;
                    assert(y[j] as int == z);
                }
                if prefix_set(y, m).contains(z) {
                    let j = choose|j: int| 0 <= j < m && #[trigger] y[j] as int == z;
                    assert(x[j] as int == z);
                }
            }
        }
        assert(burnable_after(a, f, x, m, x[m] as int));
        assert(burnable_after(a, f, y, m, y[m] as int));
        if x[m] < y[m] {
            let u = x[m] as int;
            assert(u != 0) by {
                assert(x[0] == 0);
            }
            assert(!prefix_set(x, m).contains(u)) by {
                if prefix_set(x, m).contains(u) {
                    let j = choose|j: int| 0 <= j < m && #[trigger] x[j] as int == u;
                }
            }
            assert(!burnable_after(a, f, y, m, u));
        } else if y[m] < x[m] {
            let u = y[m] as int;
            assert(u != 0) by {
                assert(y[0] == 0);
            }
            assert(!prefix_set(y, m).contains(u)) by {
                if prefix_set(y, m).contains(u) {
                    let j = choose|j: int| 0 <= j < m && #[trigger] y[j] as int == u;
                }
            }
            assert(!burnable_after(a, f, x, m, u));
        }
    }
}


/// `o` begins with `p`.
pub open spec fn extends(o: Seq<u32>, p: Seq<u32>) -> bool {
    o.len() >= p.len() && forall|j: int| 0 <= j < p.len() ==> #[trigger] o[j] == p[j]
}

/// No two leaves share a burn order.
pub open spec fn distinct_orders(ls: Seq<LeafView>) -> bool {
    forall|i: int, k: int| 0 <= i < k < ls.len() ==> (#[trigger] ls[i]).0 != (#[trigger] ls[k]).0
}

/// `x` precedes `y` lexicographically: at the first position where they
/// differ, `x` is smaller.
pub open spec fn lex_lt(x: Seq<u32>, y: Seq<u32>) -> bool {
    exists|m: int|
        0 <= m < x.len() && m < y.len() && #[trigger] x[m] < #[trigger] y[m] && forall|j: int| 0 <= j < m ==> x[j] == y[j]
}

/// The burn orders of the leaves increase lexicographically.
pub open spec fn lex_sorted(ls: Seq<LeafView>) -> bool {
    forall|i: int, k: int| 0 <= i < k < ls.len() ==> lex_lt((#[trigger] ls[i]).0, (#[trigger] ls[k]).0)
}

/// The search reaches its leaves in increasing lexicographic order of their
/// burn orders, each order once.
pub proof fn lemma_leaves_in_lex_order(a: Seq<Vec<u32>>)
    requires
        valid_matrix(a),
        degrees_fit(a),
    ensures
        lex_sorted(all_leaves(a)),
        distinct_orders(all_leaves(a)),
{
    lemma_root_inv(a);
    lemma_leaves_distinct(a, root_view(a));
}

proof fn lemma_leaves_distinct(a: Seq<Vec<u32>>, s: SearchView)
    requires
        state_inv(a, s),
    ensures
        forall|i: int| 0 <= i < leaves(a, s).len() ==> extends((#[trigger] leaves(a, s)[i]).0, s.order),
        distinct_orders(leaves(a, s)),
        lex_sorted(leaves(a, s)),
    decreases a.len() - s.order.len(), a.len() + 1,
{
    if s.order.len() >= a.len() {
        assert(leaves(a, s).len() == 1);
        assert(leaves(a, s)[0] == (s.order, s.bottom, s.top));
    } else {
        lemma_children_distinct(a, s, 1);
    }
}

proof fn lemma_children_distinct(a: Seq<Vec<u32>>, s: SearchView, v: int)
    requires
        state_inv(a, s),
        s.order.len() < a.len(),
    ensures
        forall|i: int|
            0 <= i < children(a, s, v).len() ==> extends((#[trigger] children(a, s, v)[i]).0, s.order)
                && children(a, s, v)[i].0.len() > s.order.len() && children(a, s, v)[i].0[s.order.len() as int] >= v,
        distinct_orders(children(a, s, v)),
        lex_sorted(children(a, s, v)),
    decreases a.len() - s.order.len(), a.len() - v,
{
    if v >= a.len() || v < 1 {
    } else {
        lemma_children_distinct(a, s, v + 1);
        let rest = children(a, s, v + 1);
        if can_burn(a, s, v) && !is_dead_end(a, after_burn(a, s, v)) {
            let s2 = after_burn(a, s, v);
            lemma_after_inv(a, s, v);
            lemma_leaves_distinct(a, s2);
            let br = leaves(a, s2);
            let c = children(a, s, v);
            assert(c == br + rest);
            let m = s.order.len() as int;
            assert(s2.order[m] == v as u32);
            assert forall|i: int| 0 <= i < c.len() implies extends((#[trigger] c[i]).0, s.order) && c[i].0.len() > m
                && c[i].0[m] >= v by {
                if i < br.len() {
                    assert(c[i] == br[i]);
                    assert(extends(br[i].0, s2.order));
                    assert forall|j: int| 0 <= j < m implies #[trigger] c[i].0[j] == s.order[j] by {
                        assert(s2.order[j] == s.order[j]);
                    }
                } else {
                    assert(c[i] == rest[i - br.len()]);
                }
            }
            assert forall|i: int, k: int| 0 <= i < k < c.len() implies (#[trigger] c[i]).0 != (#[trigger] c[k]).0 by {
                if k < br.len() {
                    assert(c[i] == br[i]);
                    assert(c[k] == br[k]);
                } else if i >= br.len() {
                    assert(c[i] == rest[i - br.len()]);
                    assert(c[k] == rest[k - br.len()]);
                } else {
                    assert(c[i] == br[i]);
                    assert(c[k] == rest[k - br.len()]);
                    assert(extends(br[i].0, s2.order));
                    assert(c[i].0[m] == v as u32);
                    assert(c[k].0[m] >= v + 1);
                }
            }
            assert forall|i: int, k: int| 0 <= i < k < c.len() implies lex_lt((#[trigger] c[i]).0, (#[trigger] c[k]).0) by {
                if k < br.len() {
                    assert(c[i] == br[i]);
                    assert(c[k] == br[k]);
                } else if i >= br.len() {
                    assert(c[i] == rest[i - br.len()]);
                    assert(c[k] == rest[k - br.len()]);
                } else {
                    assert(c[i] == br[i]);
                    assert(c[k] == rest[k - br.len()]);
                    assert(extends(br[i].0, s2.order));
                    assert(c[i].0[m] == v as u32);
                    assert(c[k].0[m] >= v + 1);
                    assert forall|j: int| 0 <= j < m implies c[i].0[j] == c[k].0[j] by {
                        assert(s2.order[j] == s.order[j]);
                        assert(extends(c[k].0, s.order));
                    }
                }
            }
        }
    }
}

/// Two different leaves of the search have disjoint boxes: no function lies
/// in both.
pub proof fn lemma_boxes_disjoint(a: Seq<Vec<u32>>, i: int, k: int, f: Seq<u32>)
    requires
        valid_matrix(a),
        degrees_fit(a),
        0 <= i < all_leaves(a).len(),
        0 <= k < all_leaves(a).len(),
        i != k,
        f.len() >= a.len(),
    ensures
        !(in_leaf_box(all_leaves(a)[i], f) && in_leaf_box(all_leaves(a)[k], f)),
{
    let ls = all_leaves(a);
    lemma_root_inv(a);
    lemma_leaves_distinct(a, root_view(a));
    lemma_leaves_ok(a, root_view(a));
    if in_leaf_box(ls[i], f) && in_leaf_box(ls[k], f) {
        lemma_box_order_is_greedy(a, ls[i], f);
        lemma_box_order_is_greedy(a, ls[k], f);
        lemma_greedy_unique(a, f, ls[i].0, ls[k].0);
        if i < k {
            assert(ls[i].0 != ls[k].0);
        } else {
            assert(ls[k].0 != ls[i].0);
        }
    }
}

/// `f` is consistent with every choice made on the way down to `s`: it lies
/// in the recorded interval of each burnt vertex and at or above the
/// watermark of each unburnt one.
pub open spec fn compatible(a: Seq<Vec<u32>>, f: Seq<u32>, s: SearchView) -> bool {
    &&& forall|u: int| 1 <= u < a.len() && #[trigger] has_bit(s.burnt, u) ==> s.bottom[u] <= f[u] <= s.top[u]
    &&& forall|u: int| 1 <= u < a.len() && !#[trigger] has_bit(s.burnt, u) ==> s.w2[u] <= f[u]
}

/// The unburnt non-root vertices of `s`.
pub open spec fn unburnt_set(a: Seq<Vec<u32>>, s: SearchView) -> Set<int> {
    Set::new(|x: int| 1 <= x < a.len() && !has_bit(s.burnt, x))
}

/// `u` may be burnt next under `f`.
pub open spec fn burnable_now(a: Seq<Vec<u32>>, f: Seq<u32>, s: SearchView, u: int) -> bool {
    1 <= u < a.len() && !has_bit(s.burnt, u) && f[u] < s.wcnt[u]
}

proof fn lemma_unburnt_weight(a: Seq<Vec<u32>>, s: SearchView, u: int)
    requires
        state_inv(a, s),
        0 <= u < a.len(),
        !has_bit(s.burnt, u),
    ensures
        crate::dhar::weight_outside(a, unburnt_set(a, s), u) == s.wcnt[u],
{
    let n = a.len() as int;
    let us = unburnt_set(a, s);
    let f1 = |w: int| if us.contains(w) { 0int } else { a[u]@[w] as int };
    let f2 = |w: int| if mask_set(s.burnt).contains(w) { a[u]@[w] as int } else { 0int };
    assert(has_bit(s.burnt, 0)) by {
        assert(s.order[0] == 0u32);
        assert(s.order.contains(0u32));
    }
    assert forall|w: int| 0 <= w < n implies #[trigger] f1(w) == f2(w) by {}
    lemma_sum_ext(n, f1, f2);
}

/// The smallest vertex burnable under `f`, below a given one.
proof fn lemma_smallest_burnable(a: Seq<Vec<u32>>, f: Seq<u32>, s: SearchView, v: int) -> (u: int)
    requires
        burnable_now(a, f, s, v),
    ensures
        burnable_now(a, f, s, u),
        u <= v,
        forall|x: int| 1 <= x < u && !has_bit(s.burnt, x) ==> f[x] >= #[trigger] s.wcnt[x],
    decreases v,
{
    if exists|x: int| 1 <= x < v && burnable_now(a, f, s, x) {
        let x = choose|x: int| 1 <= x < v && burnable_now(a, f, s, x);
        lemma_smallest_burnable(a, f, s, x)
    } else {
        assert forall|x: int| 1 <= x < v && !has_bit(s.burnt, x) implies f[x] >= #[trigger] s.wcnt[x] by {
            assert(!burnable_now(a, f, s, x));
        }
        v
    }
}

/// From a compatible inner state, the search takes the branch of the
/// smallest vertex burnable under `f`, and that branch is compatible too.
proof fn lemma_compatible_step(a: Seq<Vec<u32>>, f: Seq<u32>, s: SearchView) -> (v: int)
    requires
        state_inv(a, s),
        compatible(a, f, s),
        crate::dhar::is_parking_function(a, f),
        f.len() >= a.len(),
        s.order.len() < a.len(),
    ensures
        can_burn(a, s, v),
        !is_dead_end(a, after_burn(a, s, v)),
        compatible(a, f, after_burn(a, s, v)),
{
    let n = a.len() as int;
    let us = unburnt_set(a, s);
    assert(has_bit(s.burnt, 0)) by {
        assert(s.order[0] == 0u32);
        assert(s.order.contains(0u32));
    }
    assert(us != Set::<int>::empty()) by {
        let ind = |k: int| if has_bit(s.burnt, k) { 0int } else { 1int };
        crate::sums::lemma_sum_zero_iff(n, ind);
        let x = choose|x: int| 0 <= x < n && #[trigger] ind(x) != 0;
        assert(us.contains(x));
    }
    assert(crate::dhar::is_nonroot_set(n, us));
    let v0 = choose|v: int| #[trigger] us.contains(v) && (f[v] as int) < crate::dhar::weight_outside(a, us, v);
    lemma_unburnt_weight(a, s, v0);
    let v = lemma_smallest_burnable(a, f, s, v0);
    let s2 = after_burn(a, s, v);
    lemma_after_inv(a, s, v);
    let b2 = s2.burnt;
    assert forall|k: int| #[trigger] has_bit(b2, k) <==> (has_bit(s.burnt, k) || k == v) by {
        lemma_bit_or_single(s.burnt, v as u64, k);
    }
    assert forall|u: int| 1 <= u < n && #[trigger] has_bit(b2, u) implies s2.bottom[u] <= f[u] <= s2.top[u] by {
        if u != v {
            assert(has_bit(s.burnt, u));
        }
    }
    assert forall|u: int| 1 <= u < n && !#[trigger] has_bit(b2, u) implies s2.w2[u] <= f[u] by {
        assert(!has_bit(s.burnt, u));
    }
    if is_dead_end(a, s2) {
        let u = choose|u: int|
            0 <= u < n && !#[trigger] has_bit(s2.burnt, u) && s2.wcnt[u] <= s2.w2[u] && forall|w: int|
                0 <= w < n && a[u]@[w] > 0 ==> has_bit(s2.burnt, w);
        let one = Set::<int>::empty().insert(u);
        assert(one.contains(u));
        assert(crate::dhar::is_nonroot_set(n, one));
        let x = choose|x: int| #[trigger] one.contains(x) && (f[x] as int) < crate::dhar::weight_outside(a, one, x);
        assert(x == u);
        let g1 = |w: int| if one.contains(w) { 0int } else { a[u]@[w] as int };
        let g2 = |w: int| if mask_set(b2).contains(w) { a[u]@[w] as int } else { 0int };
        assert forall|w: int| 0 <= w < n implies #[trigger] g1(w) == g2(w) by {
            if w == u {
                assert(a[u]@[u] == 0);
            }
        }
        lemma_sum_ext(n, g1, g2);
        assert(s2.wcnt[u] == weight_into(a, mask_set(b2), u));
    }
    v
}

proof fn lemma_children_hold(a: Seq<Vec<u32>>, s: SearchView, w: int, v: int, j: int)
    requires
        1 <= w <= v,
        s.order.len() < a.len(),
        can_burn(a, s, v),
        !is_dead_end(a, after_burn(a, s, v)),
        0 <= j < leaves(a, after_burn(a, s, v)).len(),
    ensures
        exists|i: int| 0 <= i < children(a, s, w).len() && #[trigger] children(a, s, w)[i] == leaves(a, after_burn(a, s, v))[j],
    decreases v - w,
{
    let l = leaves(a, after_burn(a, s, v))[j];
    if w == v {
        assert(children(a, s, w)[j] == l);
    } else {
        lemma_children_hold(a, s, w + 1, v, j);
        let i = choose|i: int| 0 <= i < children(a, s, w + 1).len() && #[trigger] children(a, s, w + 1)[i] == l;
        let rest = children(a, s, w + 1);
        if can_burn(a, s, w) && !is_dead_end(a, after_burn(a, s, w)) {
            let br = leaves(a, after_burn(a, s, w));
            assert(children(a, s, w)[br.len() + i] == l);
        } else {
            assert(children(a, s, w)[i] == l);
        }
    }
}

proof fn lemma_compatible_leaf(a: Seq<Vec<u32>>, f: Seq<u32>, s: SearchView)
    requires
        state_inv(a, s),
        compatible(a, f, s),
        crate::dhar::is_parking_function(a, f),
        f.len() >= a.len(),
    ensures
        exists|i: int| 0 <= i < leaves(a, s).len() && in_leaf_box(#[trigger] leaves(a, s)[i], f),
    decreases a.len() - s.order.len(),
{
    if s.order.len() >= a.len() {
        lemma_all_burnt(a, s);
        assert(leaves(a, s)[0] == (s.order, s.bottom, s.top));
        assert forall|v: int| 1 <= v < s.order.len() implies s.bottom[v] <= #[trigger] f[v] <= s.top[v] by {
            assert(has_bit(s.burnt, v));
        }
        assert(in_leaf_box(leaves(a, s)[0], f));
    } else {
        let v = lemma_compatible_step(a, f, s);
        let s2 = after_burn(a, s, v);
        lemma_after_inv(a, s, v);
        lemma_compatible_leaf(a, f, s2);
        let j = choose|j: int| 0 <= j < leaves(a, s2).len() && in_leaf_box(#[trigger] leaves(a, s2)[j], f);
        lemma_children_hold(a, s, 1, v, j);
        let i = choose|i: int| 0 <= i < children(a, s, 1).len() && #[trigger] children(a, s, 1)[i] == leaves(a, s2)[j];
        assert(leaves(a, s)[i] == leaves(a, s2)[j]);
    }
}

/// Every parking function lies in the box of some leaf of the search.
pub proof fn lemma_boxes_cover(a: Seq<Vec<u32>>, f: Seq<u32>)
    requires
        valid_matrix(a),
        degrees_fit(a),
        f.len() >= a.len(),
        crate::dhar::is_parking_function(a, f),
    ensures
        exists|i: int| 0 <= i < all_leaves(a).len() && in_leaf_box(#[trigger] all_leaves(a)[i], f),
{
    let s = root_view(a);
    lemma_root_inv(a);
    assert forall|u: int| 1 <= u < a.len() && #[trigger] has_bit(s.burnt, u) implies s.bottom[u] <= f[u] <= s.top[u] by {
        assert(s.order.contains(u as u32));
        assert(s.order[0] == 0u32);
    }
    lemma_compatible_leaf(a, f, s);
    let i = choose|i: int| 0 <= i < leaves(a, s).len() && in_leaf_box(#[trigger] leaves(a, s)[i], f);
    assert(in_leaf_box(all_leaves(a)[i], f));
}

// ---------------------------------------------------------------------------
// Box tops are the maximal parking functions.
// ---------------------------------------------------------------------------

/// `g` is at least `f` on every non-root vertex.
pub open spec fn dominates_on(a: Seq<Vec<u32>>, f: Seq<u32>, g: Seq<u32>) -> bool {
    forall|v: int| 1 <= v < a.len() ==> f[v] <= #[trigger] g[v]
}

/// `f` and `g` agree on every non-root vertex.
pub open spec fn same_on(a: Seq<Vec<u32>>, f: Seq<u32>, g: Seq<u32>) -> bool {
    forall|v: int| 1 <= v < a.len() ==> f[v] == #[trigger] g[v]
}

/// A parking function that no other parking function dominates.
pub open spec fn is_maximal_parking(a: Seq<Vec<u32>>, f: Seq<u32>) -> bool {
    &&& crate::dhar::is_parking_function(a, f)
    &&& forall|g: Seq<u32>|
        g.len() >= a.len() && #[trigger] crate::dhar::is_parking_function(a, g) && dominates_on(a, f, g) ==> same_on(a, f, g)
}

proof fn lemma_top_degree_le(x: Seq<u32>, y: Seq<u32>, k: int)
    requires
        forall|v: int| 1 <= v < k ==> x[v] <= #[trigger] y[v],
    ensures
        top_degree(x, k) <= top_degree(y, k),
        top_degree(x, k) == top_degree(y, k) ==> forall|v: int| 1 <= v < k ==> x[v] == #[trigger] y[v],
    decreases k,
{
    if k > 1 {
        lemma_top_degree_le(x, y, k - 1);
    }
}

/// Every parking function has degree at most |E| - |V| + 1.
pub proof fn lemma_parking_degree_bound(a: Seq<Vec<u32>>, f: Seq<u32>)
    requires
        valid_matrix(a),
        degrees_fit(a),
        f.len() >= a.len(),
        crate::dhar::is_parking_function(a, f),
    ensures
        top_degree(f, a.len() as int) <= cyclomatic(a),
{
    lemma_boxes_cover(a, f);
    let ls = all_leaves(a);
    let i = choose|i: int| 0 <= i < ls.len() && in_leaf_box(#[trigger] ls[i], f);
    lemma_root_inv(a);
    lemma_leaves_ok(a, root_view(a));
    assert(leaf_ok(a, ls[i]));
    lemma_top_degree_le(f, ls[i].2, a.len() as int);
}

/// The top of every box is a maximal parking function.
pub proof fn lemma_top_is_maximal(a: Seq<Vec<u32>>, i: int)
    requires
        valid_matrix(a),
        degrees_fit(a),
        0 <= i < all_leaves(a).len(),
    ensures
        is_maximal_parking(a, all_leaves(a)[i].2),
{
    let l = all_leaves(a)[i];
    let n = a.len() as int;
    lemma_root_inv(a);
    lemma_leaves_ok(a, root_view(a));
    assert(leaf_ok(a, l));
    lemma_box_points_are_parking(a, l, l.2);
    assert forall|g: Seq<u32>|
        g.len() >= a.len() && #[trigger] crate::dhar::is_parking_function(a, g) && dominates_on(a, l.2, g) implies same_on(
        a,
        l.2,
        g,
    ) by {
        lemma_parking_degree_bound(a, g);
        lemma_top_degree_le(l.2, g, n);
    }
}

/// Every maximal parking function is the top of some box.
pub proof fn lemma_maximal_is_top(a: Seq<Vec<u32>>, f: Seq<u32>)
    requires
        valid_matrix(a),
        degrees_fit(a),
        f.len() >= a.len(),
        is_maximal_parking(a, f),
    ensures
        exists|i: int| 0 <= i < all_leaves(a).len() && same_on(a, (#[trigger] all_leaves(a)[i]).2, f),
{
    lemma_boxes_cover(a, f);
    let ls = all_leaves(a);
    let i = choose|i: int| 0 <= i < ls.len() && in_leaf_box(#[trigger] ls[i], f);
    lemma_root_inv(a);
    lemma_leaves_ok(a, root_view(a));
    let l = ls[i];
    assert(leaf_ok(a, l));
    lemma_box_points_are_parking(a, l, l.2);
    assert(dominates_on(a, f, l.2));
    assert(same_on(a, f, l.2));
    assert(same_on(a, l.2, f));
}

/// Different boxes have different tops.
pub proof fn lemma_tops_distinct(a: Seq<Vec<u32>>, i: int, k: int)
    requires
        valid_matrix(a),
        degrees_fit(a),
        0 <= i < all_leaves(a).len(),
        0 <= k < all_leaves(a).len(),
        i != k,
    ensures
        !same_on(a, all_leaves(a)[i].2, all_leaves(a)[k].2),
{
    let ls = all_leaves(a);
    lemma_root_inv(a);
    lemma_leaves_ok(a, root_view(a));
    assert(leaf_ok(a, ls[i]));
    assert(leaf_ok(a, ls[k]));
    if same_on(a, ls[i].2, ls[k].2) {
        assert(in_leaf_box(ls[i], ls[k].2));
        assert(in_leaf_box(ls[k], ls[k].2));
        lemma_boxes_disjoint(a, i, k, ls[k].2);
    }
}

// ---------------------------------------------------------------------------
// Collecting the boxes.
// ---------------------------------------------------------------------------

/// A leaf of the search, owned: burn order, bottom and top of its box
/// (indexed by vertex; the root entries are 0).
pub struct LeafBox {
    pub order: Vec<u32>,
    pub bottom: Vec<u32>,
    pub top: Vec<u32>,
}

impl LeafBox {
    pub open spec fn leaf_view(&self) -> LeafView {
        (self.order@, self.bottom@, self.top@)
    }
}

/// The views of a list of boxes.
pub open spec fn box_views(bs: Seq<LeafBox>) -> Seq<LeafView> {
    bs.map_values(|b: LeafBox| b.leaf_view())
}

/// A sink that keeps every leaf it is handed.
pub struct BoxList {
    pub boxes: Vec<LeafBox>,
}

impl LeafSink for BoxList {
    closed spec fn taken(&self) -> Seq<LeafView> {
        box_views(self.boxes@)
    }

    closed spec fn can_take(&self, ls: Seq<LeafView>) -> bool {
        true
    }

    closed spec fn shape(&self) -> int {
        0
    }

    proof fn lemma_can_take_prefix(&self, ls: Seq<LeafView>, k: int) {
    }

    fn take_leaf(&mut self, b: Boxes) {
        let lb = LeafBox {
            order: crate::vecs::copy_u32s(b.order),
            bottom: crate::vecs::copy_u32s(b.bottom),
            top: crate::vecs::copy_u32s(b.top),
        };
        let ghost bs0 = self.boxes@;
        self.boxes.push(lb);
        proof {
            assert(box_views(self.boxes@) =~= box_views(bs0).push(b.leaf_view()));
        }
    }
}

/// Every leaf of the search, in search order.
pub fn collect_boxes(g: &Graph) -> (boxes: Vec<LeafBox>)
    requires
        g.wf(),
        degrees_fit(g.adj@),
    ensures
        box_views(boxes@) == all_leaves(g.adj@),
        lex_sorted(box_views(boxes@)),
{
    let mut sink = BoxList { boxes: Vec::new() };
    proof {
        assert(box_views(sink.boxes@) =~= Seq::<LeafView>::empty());
    }
    enumerate(g, &mut sink);
    proof {
        assert(Seq::<LeafView>::empty() + all_leaves(g.adj@) =~= all_leaves(g.adj@));
        lemma_leaves_in_lex_order(g.adj@);
    }
    sink.boxes
}

/// `x` (on the non-root vertices) lies in the box of some leaf.
pub open spec fn in_some_box(a: Seq<Vec<u32>>, x: Seq<u32>) -> bool {
    exists|i: int| 0 <= i < all_leaves(a).len() && in_leaf_box(#[trigger] all_leaves(a)[i], seq![0u32] + x)
}

/// The point of the box of `l` with offsets `p` from its bottom, on the
/// non-root vertices.
pub open spec fn shifted(l: LeafView, p: Seq<u32>) -> Seq<u32> {
    Seq::new(p.len(), |i: int| (l.1[i + 1] + p[i]) as u32)
}

/// The offsets `p` below the interval lengths `lim` of `l` give a point of
/// its box.
proof fn lemma_shifted_in_box(l: LeafView, lim: Seq<u32>, p: Seq<u32>)
    requires
        l.0.len() == lim.len() + 1,
        l.1.len() >= l.0.len() && l.2.len() >= l.0.len(),
        forall|v: int| 1 <= v < l.0.len() ==> #[trigger] l.1[v] <= l.2[v],
        forall|i: int| 0 <= i < lim.len() ==> #[trigger] lim[i] == l.2[i + 1] - l.1[i + 1] + 1,
        crate::dhar::in_box(p, crate::analyze::lims(lim)),
    ensures
        in_leaf_box(l, seq![0u32] + shifted(l, p)),
        forall|j: int| 0 <= j < p.len() ==> #[trigger] shifted(l, p)[j] == l.1[j + 1] + p[j],
{
    let y = seq![0u32] + shifted(l, p);
    assert forall|j: int| 0 <= j < p.len() implies #[trigger] shifted(l, p)[j] == l.1[j + 1] + p[j] by {
        assert(crate::analyze::lims(lim)[j] == lim[j] as int);
        assert(p[j] < lim[j]);
        assert(l.1[j + 1] <= l.2[j + 1]);
    }
    assert forall|v: int| 1 <= v < l.0.len() implies l.1[v] <= #[trigger] y[v] <= l.2[v] by {
        assert(y[v] == shifted(l, p)[v - 1]);
        assert(crate::analyze::lims(lim)[v - 1] == lim[v - 1] as int);
        assert(p[v - 1] < lim[v - 1]);
    }
}

/// Different offsets give different points of a box.
proof fn lemma_shifted_injective(l: LeafView, lim: Seq<u32>, p1: Seq<u32>, p2: Seq<u32>)
    requires
        l.0.len() == lim.len() + 1,
        l.1.len() >= l.0.len() && l.2.len() >= l.0.len(),
        forall|v: int| 1 <= v < l.0.len() ==> #[trigger] l.1[v] <= l.2[v],
        forall|i: int| 0 <= i < lim.len() ==> #[trigger] lim[i] == l.2[i + 1] - l.1[i + 1] + 1,
        crate::dhar::in_box(p1, crate::analyze::lims(lim)),
        crate::dhar::in_box(p2, crate::analyze::lims(lim)),
        p1 != p2,
    ensures
        shifted(l, p1) != shifted(l, p2),
{
    lemma_shifted_in_box(l, lim, p1);
    lemma_shifted_in_box(l, lim, p2);
    if shifted(l, p1) == shifted(l, p2) {
        assert forall|j: int| 0 <= j < p1.len() implies p1[j] == p2[j] by {
            assert(shifted(l, p1)[j] == shifted(l, p2)[j]);
        }
        assert(p1 =~= p2);
    }
}

/// Every point of every box, box by box, and the box tops, both on the
/// non-root vertices.
#[verifier::rlimit(40)]
pub fn expand_boxes(g: &Graph) -> (r: (Vec<Vec<u32>>, Vec<Vec<u32>>))
    requires
        g.wf(),
        degrees_fit(g.adj@),
    ensures
        r.1@.len() == all_leaves(g.adj@).len(),
        forall|i: int| 0 <= i < r.1@.len() ==> (#[trigger] r.1@[i])@ == all_leaves(g.adj@)[i].2.skip(1),
        forall|k: int| 0 <= k < r.0@.len() ==> (#[trigger] r.0@[k])@.len() == g.n - 1 && in_some_box(g.adj@, r.0@[k]@),
        forall|i: int, x: Seq<u32>|
            0 <= i < all_leaves(g.adj@).len() && x.len() == g.n - 1 && #[trigger] in_leaf_box(all_leaves(g.adj@)[i], seq![0u32] + x)
                ==> exists|k: int| 0 <= k < r.0@.len() && #[trigger] r.0@[k]@ == x,
        forall|k1: int, k2: int| 0 <= k1 < k2 < r.0@.len() ==> #[trigger] r.0@[k1]@ != #[trigger] r.0@[k2]@,
        forall|x: Seq<u32>|
            #[trigger] crate::dhar::is_parking_vector(g.adj@, x) <==> exists|k: int| 0 <= k < r.0@.len() && r.0@[k]@ == x,
{
    let ghost a = g.adj@;
    let n = g.n;
    let boxes = collect_boxes(g);
    let ghost ls = all_leaves(a);
    proof {
        lemma_root_inv(a);
        lemma_leaves_ok(a, root_view(a));
    }
    let mut all: Vec<Vec<u32>> = Vec::new();
    let ghost mut owner: Seq<int> = Seq::empty();
    let mut tops: Vec<Vec<u32>> = Vec::new();
    for bi in 0..boxes.len()
        invariant
            n == g.n,
            a == g.adj@,
            g.wf(),
            degrees_fit(a),
            ls == all_leaves(a),
            box_views(boxes@) == ls,
            forall|i: int| 0 <= i < ls.len() ==> leaf_ok(a, #[trigger] ls[i]),
            tops@.len() == bi,
            forall|i: int| 0 <= i < bi ==> (#[trigger] tops@[i])@ == ls[i].2.skip(1),
            forall|k: int|
                0 <= k < all@.len() ==> (#[trigger] all@[k])@.len() == n - 1 && exists|i: int|
                    0 <= i < ls.len() && in_leaf_box(ls[i], seq![0u32] + all@[k]@),
            owner.len() == all@.len(),
            forall|k: int| 0 <= k < all@.len() ==> 0 <= #[trigger] owner[k] < bi && in_leaf_box(ls[owner[k]], seq![0u32] + all@[k]@),
            forall|i: int, x: Seq<u32>|
                0 <= i < bi && x.len() == n - 1 && #[trigger] in_leaf_box(ls[i], seq![0u32] + x) ==> exists|k: int|
                    0 <= k < all@.len() && #[trigger] all@[k]@ == x,
            forall|k1: int, k2: int| 0 <= k1 < k2 < all@.len() ==> #[trigger] all@[k1]@ != #[trigger] all@[k2]@,
    {
        let b = &boxes[bi];
        let ghost l = ls[bi as int];
        proof {
            assert(box_views(boxes@)[bi as int] == b.leaf_view());
            assert(l == b.leaf_view());
            assert(leaf_ok(a, l));
        }
        let mut top: Vec<u32> = Vec::new();
        let mut lim: Vec<u32> = Vec::new();
        for v in 1..n
            invariant
                n == g.n,
                g.wf(),
                degrees_fit(a),
                a == g.adj@,
                l == b.leaf_view(),
                leaf_ok(a, l),
                top@.len() == v - 1,
                lim@.len() == v - 1,
                forall|i: int| 0 <= i < top@.len() ==> #[trigger] top@[i] == l.2[i + 1],
                forall|i: int| 0 <= i < lim@.len() ==> #[trigger] lim@[i] == l.2[i + 1] - l.1[i + 1] + 1,
        {
            proof {
                assert(l.0.contains(v as u32));
                let j = choose|j: int| 0 <= j < l.0.len() && l.0[j] == v as u32;
                assert(j != 0);
                assert(l.2[l.0[j] as int] + 1 == weight_into(a, prefix_set(l.0, j), l.0[j] as int));
                lemma_weight_fits(a, prefix_set(l.0, j), v as int);
                assert(l.1[v as int] <= l.2[v as int]);
            }
            top.push(b.top[v]);
            lim.push(b.top[v] - b.bottom[v] + 1);
        }
        proof {
            assert(top@ =~= l.2.skip(1));
        }
        tops.push(top);
        let pts = crate::analyze::box_points(&lim);
        let ghost all0 = all@;
        for k in 0..pts.len()
            invariant
                n == g.n,
                n == a.len(),
                l == b.leaf_view(),
                leaf_ok(a, l),
                lim@.len() == n - 1,
                forall|i: int| 0 <= i < lim@.len() ==> #[trigger] lim@[i] == l.2[i + 1] - l.1[i + 1] + 1,
                forall|q: int| 0 <= q < pts@.len() ==> #[trigger] crate::dhar::in_box(pts@[q]@, crate::analyze::lims(lim@)),
                all@.len() == all0.len() + k,
                forall|q: int| 0 <= q < all0.len() ==> #[trigger] all@[q] == all0[q],
                forall|q: int| 0 <= q < k ==> (#[trigger] all@[all0.len() + q])@ == shifted(l, pts@[q]@),
                valid_matrix(a),
                degrees_fit(a),
                ls == all_leaves(a),
                bi < ls.len(),
                l == ls[bi as int],
                owner.len() == all@.len(),
                forall|q: int| 0 <= q < all0.len() ==> 0 <= #[trigger] owner[q] < bi && in_leaf_box(ls[owner[q]], seq![0u32] + all@[q]@),
                forall|q: int| all0.len() <= q < all@.len() ==> #[trigger] owner[q] == bi && in_leaf_box(l, seq![0u32] + all@[q]@),
                forall|i: int, j: int| 0 <= i < j < pts@.len() ==> crate::dhar::colex_lt(#[trigger] pts@[i]@, #[trigger] pts@[j]@),
                forall|k1: int, k2: int| 0 <= k1 < k2 < all@.len() ==> #[trigger] all@[k1]@ != #[trigger] all@[k2]@,
        {
            let p = &pts[k];
            let mut x: Vec<u32> = Vec::new();
            proof {
                assert(crate::dhar::in_box(p@, crate::analyze::lims(lim@)));
                assert(crate::analyze::lims(lim@).len() == lim@.len());
            }
            for i in 0..n - 1
                invariant
                    n == g.n,
                    n == a.len(),
                    l == b.leaf_view(),
                    leaf_ok(a, l),
                    p@.len() == n - 1,
                    lim@.len() == n - 1,
                    forall|i: int| 0 <= i < lim@.len() ==> #[trigger] lim@[i] == l.2[i + 1] - l.1[i + 1] + 1,
                    crate::dhar::in_box(p@, crate::analyze::lims(lim@)),
                    x@.len() == i,
                    forall|j: int| 0 <= j < i ==> #[trigger] x@[j] == (l.1[j + 1] + p@[j]) as u32,
            {
                proof {
                    assert(crate::analyze::lims(lim@)[i as int] == lim@[i as int] as int);
                    assert(p@[i as int] < lim@[i as int]);
                    assert(l.1[i + 1] <= l.2[i + 1]);
                }
                x.push(b.bottom[i + 1] + p[i]);
            }
            proof {
                assert(x@ =~= shifted(l, p@));
            }
            let ghost allb = all@;
            all.push(x);
            proof {
                owner = owner.push(bi as int);
                let kn = allb.len() as int;
                lemma_shifted_in_box(l, lim@, p@);
                assert forall|k1: int, k2: int| 0 <= k1 < k2 < all@.len() implies #[trigger] all@[k1]@ != #[trigger] all@[k2]@ by {
                    if k2 == kn {
                        assert(all@[k2]@ == shifted(l, p@));
                        if k1 < all0.len() {
                            assert(all@[k1] == allb[k1]);
                            if all@[k1]@ == all@[k2]@ {
                                lemma_boxes_disjoint(a, owner[k1], bi as int, seq![0u32] + all@[k2]@);
                            }
                        } else {
                            let q1 = k1 - all0.len();
                            assert(all@[all0.len() + q1]@ == shifted(l, pts@[q1]@));
                            assert(crate::dhar::colex_lt(pts@[q1]@, pts@[k as int]@));
                            assert(pts@[q1]@ != pts@[k as int]@);
                            lemma_shifted_injective(l, lim@, pts@[q1]@, pts@[k as int]@);
                        }
                    } else {
                        assert(all@[k1] == allb[k1]);
                        assert(all@[k2] == allb[k2]);
                    }
                }
            }
        }
        proof {
            assert forall|k: int|
                0 <= k < all@.len() implies (#[trigger] all@[k])@.len() == n - 1 && exists|i: int|
                    0 <= i < ls.len() && in_leaf_box(ls[i], seq![0u32] + all@[k]@) by {
                if k >= all0.len() {
                    let q = k - all0.len();
                    let pq = pts@[q]@;
                    assert(crate::dhar::in_box(pq, crate::analyze::lims(lim@)));
                    let y = seq![0u32] + all@[k]@;
                    assert(all@[all0.len() + q]@ == shifted(l, pq));
                    assert(all@[k]@ == shifted(l, pq));
                    assert forall|v: int| 1 <= v < l.0.len() implies l.1[v] <= #[trigger] y[v] <= l.2[v] by {
                        assert(y[v] == all@[k]@[v - 1]);
                        assert(crate::analyze::lims(lim@)[v - 1] == lim@[v - 1] as int);
                    }
                    assert(in_leaf_box(ls[bi as int], y));
                } else {
                    assert(all@[k] == all0[k]);
                }
            }
            assert forall|i: int, x: Seq<u32>|
                0 <= i < bi + 1 && x.len() == n - 1 && #[trigger] in_leaf_box(ls[i], seq![0u32] + x) implies exists|k: int|
                    0 <= k < all@.len() && #[trigger] all@[k]@ == x by {
                if i < bi {
                    let k = choose|k: int| 0 <= k < all0.len() && #[trigger] all0[k]@ == x;
                    assert(all@[k] == all0[k]);
                } else {
                    let y = seq![0u32] + x;
                    let pq = Seq::new(x.len(), |j: int| (x[j] - l.1[j + 1]) as u32);
                    assert(crate::dhar::in_box(pq, crate::analyze::lims(lim@))) by {
                        assert forall|j: int| 0 <= j < pq.len() implies #[trigger] pq[j] < crate::analyze::lims(lim@)[j] by {
                            assert(y[j + 1] == x[j]);
                            assert(l.1[j + 1] <= y[j + 1] <= l.2[j + 1]);
                            assert(crate::analyze::lims(lim@)[j] == lim@[j] as int);
                        }
                    }
                    let q = choose|q: int| 0 <= q < pts@.len() && #[trigger] pts@[q]@ == pq;
                    assert(shifted(l, pq) =~= x) by {
                        assert forall|j: int| 0 <= j < x.len() implies shifted(l, pq)[j] == x[j] by {
                            assert(y[j + 1] == x[j]);
                            assert(l.1[j + 1] <= y[j + 1]);
                        }
                    }
                    assert(all@[all0.len() + q]@ == x);
                }
            }
        }
    }
    let ghost allv = all@;
    proof {
        assert(ls.len() == boxes@.len());
    }
    let r = (all, tops);
    proof {
        assert forall|k: int| 0 <= k < r.0@.len() implies (#[trigger] r.0@[k])@.len() == n - 1 && in_some_box(g.adj@, r.0@[k]@) by {
            assert(r.0@[k] == allv[k]);
            let i = choose|i: int| 0 <= i < ls.len() && in_leaf_box(ls[i], seq![0u32] + allv[k]@);
            assert(in_leaf_box(all_leaves(g.adj@)[i], seq![0u32] + r.0@[k]@));
        }
        assert forall|i: int, x: Seq<u32>|
            0 <= i < all_leaves(g.adj@).len() && x.len() == n - 1 && #[trigger] in_leaf_box(all_leaves(g.adj@)[i], seq![0u32] + x) implies exists|k: int|
                0 <= k < r.0@.len() && #[trigger] r.0@[k]@ == x by {
            assert(i < boxes@.len());
            assert(in_leaf_box(ls[i], seq![0u32] + x));
            let k = choose|k: int| 0 <= k < allv.len() && #[trigger] allv[k]@ == x;
            assert(r.0@[k] == allv[k]);
        }
        lemma_leaves_ok(a, root_view(a));
        assert forall|x: Seq<u32>|
            #[trigger] crate::dhar::is_parking_vector(g.adj@, x) <==> exists|k: int| 0 <= k < r.0@.len() && r.0@[k]@ == x by {
            let y = seq![0u32] + x;
            if crate::dhar::is_parking_vector(a, x) {
                lemma_boxes_cover(a, y);
                let i = choose|i: int| 0 <= i < all_leaves(a).len() && in_leaf_box(#[trigger] all_leaves(a)[i], y);
                let k = choose|k: int| 0 <= k < r.0@.len() && #[trigger] r.0@[k]@ == x;
            }
            if exists|k: int| 0 <= k < r.0@.len() && r.0@[k]@ == x {
                let k = choose|k: int| 0 <= k < r.0@.len() && r.0@[k]@ == x;
                assert(in_some_box(a, r.0@[k]@));
                let i = choose|i: int| 0 <= i < all_leaves(a).len() && in_leaf_box(#[trigger] all_leaves(a)[i], seq![0u32] + r.0@[k]@);
                assert(leaf_ok(a, all_leaves(a)[i]));
                lemma_box_points_are_parking(a, all_leaves(a)[i], y);
            }
        }
    }
    r
}

// ---------------------------------------------------------------------------
// The identity burn order.
// ---------------------------------------------------------------------------

/// Every non-root vertex has a neighbor with a smaller index (as in a
/// hypercube).
pub open spec fn has_smaller_neighbors(a: Seq<Vec<u32>>) -> bool {
    forall|v: int| 1 <= v < a.len() ==> #[trigger] has_smaller_neighbor(a, v)
}

/// `v` has a neighbor with a smaller index.
pub open spec fn has_smaller_neighbor(a: Seq<Vec<u32>>, v: int) -> bool {
    exists|w: int| 0 <= w < v && #[trigger] a[v]@[w] > 0
}

/// The search state after burning `1, 2, .., k` in this order.
pub open spec fn id_state(a: Seq<Vec<u32>>, k: nat) -> SearchView
    decreases k,
{
    if k == 0 {
        root_view(a)
    } else {
        after_burn(a, id_state(a, (k - 1) as nat), k as int)
    }
}

/// The vertices `0..k` as a set.
pub open spec fn below_set(k: int) -> Set<int> {
    Set::new(|w: int| 0 <= w < k)
}

proof fn lemma_id_state(a: Seq<Vec<u32>>, k: nat)
    requires
        valid_matrix(a),
        degrees_fit(a),
        has_smaller_neighbors(a),
        k < a.len(),
    ensures
        state_inv(a, id_state(a, k)),
        id_state(a, k).order == Seq::new((k + 1) as nat, |i: int| i as u32),
        forall|x: int| #[trigger] has_bit(id_state(a, k).burnt, x) <==> 0 <= x <= k,
        forall|u: int| 0 <= u < a.len() ==> #[trigger] id_state(a, k).w2[u] == 0,
        forall|v: int| 1 <= v <= k ==> #[trigger] id_state(a, k).bottom[v] == 0,
        k + 1 < a.len() ==> can_burn(a, id_state(a, k), k + 1 as int),
        k + 1 < a.len() ==> !is_dead_end(a, after_burn(a, id_state(a, k), k + 1 as int)),
    decreases k,
{
    let n = a.len() as int;
    let s = id_state(a, k);
    if k == 0 {
        lemma_root_inv(a);
        assert(s.order =~= Seq::new(1, |i: int| i as u32));
        assert forall|x: int| #[trigger] has_bit(s.burnt, x) <==> 0 <= x <= k by {
            if has_bit(s.burnt, x) {
                assert(s.order.contains(x as u32));
            }
            if x == 0 {
                assert(s.order[0] == 0u32);
                assert(s.order.contains(0u32));
            }
        }
    } else {
        let p = id_state(a, (k - 1) as nat);
        lemma_id_state(a, (k - 1) as nat);
        lemma_after_inv(a, p, k as int);
        assert(s.order =~= Seq::new((k + 1) as nat, |i: int| i as u32));
        assert forall|x: int| #[trigger] has_bit(s.burnt, x) <==> 0 <= x <= k by {
            lemma_bit_or_single(p.burnt, k as u64, x);
        }
        assert forall|u: int| 0 <= u < n implies #[trigger] s.w2[u] == 0 by {
            if 1 <= u < k {
                assert(has_bit(p.burnt, u));
            }
        }
        assert forall|v: int| 1 <= v <= k implies #[trigger] s.bottom[v] == 0 by {
            if v < k {
                assert(s.bottom[v] == p.bottom[v]);
            }
        }
    }
    if k + 1 < n {
        let v = (k + 1) as int;
        // v has a burnt neighbor, so its weight from the burnt set is positive
        assert(has_smaller_neighbor(a, v));
        let w = choose|w: int| 0 <= w < v && #[trigger] a[v]@[w] > 0;
        assert(!has_bit(s.burnt, v));
        assert(s.wcnt[v] == weight_into(a, mask_set(s.burnt), v));
        let f = |x: int| if mask_set(s.burnt).contains(x) { a[v]@[x] as int } else { 0int };
        assert forall|x: int| 0 <= x < n implies #[trigger] f(x) >= 0 by {}
        crate::sums::lemma_sum_ge_term(n, f, w);
        assert(has_bit(s.burnt, w));
        assert(f(w) == a[v]@[w]);
        assert(can_burn(a, s, v));
        let s2 = after_burn(a, s, v);
        lemma_after_inv(a, s, v);
        if is_dead_end(a, s2) {
            let u = choose|u: int|
                0 <= u < n && !#[trigger] has_bit(s2.burnt, u) && s2.wcnt[u] <= s2.w2[u] && forall|w: int|
                    0 <= w < n && a[u]@[w] > 0 ==> has_bit(s2.burnt, w);
            assert forall|x: int| #[trigger] has_bit(s2.burnt, x) <==> 0 <= x <= v by {
                lemma_bit_or_single(s.burnt, v as u64, x);
            }
            assert(s2.w2[u] == 0) by {
                assert(s.w2[u] == 0);
            }
            let g1 = |x: int| if mask_set(s2.burnt).contains(x) { a[u]@[x] as int } else { 0int };
            let g2 = |x: int| a[u]@[x] as int;
            assert forall|x: int| 0 <= x < n implies #[trigger] g1(x) == g2(x) by {}
            crate::sums::lemma_sum_ext(n, g1, g2);
            crate::dhar::lemma_degree_pos(a, u);
            assert(s2.wcnt[u] == weight_into(a, mask_set(s2.burnt), u));
        }
    }
}

proof fn lemma_id_leaf(a: Seq<Vec<u32>>, k: nat)
    requires
        valid_matrix(a),
        degrees_fit(a),
        has_smaller_neighbors(a),
        k < a.len(),
    ensures
        exists|i: int|
            0 <= i < leaves(a, id_state(a, k)).len() && #[trigger] leaves(a, id_state(a, k))[i] == leaves(
                a,
                id_state(a, (a.len() - 1) as nat),
            )[0],
    decreases a.len() - k,
{
    let n = a.len() as int;
    lemma_id_state(a, k);
    if k + 1 >= n {
        assert(k == n - 1);
        let s = id_state(a, k);
        assert(s.order.len() == n);
        assert(leaves(a, s) == seq![(s.order, s.bottom, s.top)]);
        assert(leaves(a, s).len() == 1);
        assert(leaves(a, s)[0] == leaves(a, id_state(a, (a.len() - 1) as nat))[0]);
    } else {
        lemma_id_leaf(a, (k + 1) as nat);
        lemma_id_state(a, (k + 1) as nat);
        let s = id_state(a, k);
        let v = (k + 1) as int;
        let j = choose|j: int|
            0 <= j < leaves(a, id_state(a, (k + 1) as nat)).len() && #[trigger] leaves(a, id_state(a, (k + 1) as nat))[j]
                == leaves(a, id_state(a, (n - 1) as nat))[0];
        assert(id_state(a, (k + 1) as nat) == after_burn(a, s, v));
        lemma_children_hold(a, s, 1, v, j);
        let i = choose|i: int| 0 <= i < children(a, s, 1).len() && #[trigger] children(a, s, 1)[i] == leaves(a, after_burn(a, s, v))[j];
        assert(s.order.len() == k + 1);
        assert(leaves(a, s) == children(a, s, 1));
        assert(leaves(a, s)[i] == leaves(a, id_state(a, (n - 1) as nat))[0]);
    }
}

/// Where every non-root vertex has a smaller neighbor (as in a hypercube),
/// the identity burn order is a leaf of the search, and its box is
/// `0 <= f(v) <= wgt(v) - 1`, `wgt(v)` the weight from `v` to the smaller
/// vertices: the canonical box of Benson–Chakrabarty–Tetali.
pub proof fn lemma_identity_box(a: Seq<Vec<u32>>)
    requires
        valid_matrix(a),
        degrees_fit(a),
        has_smaller_neighbors(a),
    ensures
        exists|i: int|
            0 <= i < all_leaves(a).len() && {
                let l = #[trigger] all_leaves(a)[i];
                &&& l.0 == Seq::new(a.len(), |v: int| v as u32)
                &&& forall|v: int| 1 <= v < a.len() ==> l.1[v] == 0
                &&& forall|v: int| 1 <= v < a.len() ==> l.2[v] + 1 == weight_into(a, below_set(v), v)
            },
{
    let n = a.len() as int;
    let last = id_state(a, (n - 1) as nat);
    lemma_id_leaf(a, 0);
    lemma_id_state(a, (n - 1) as nat);
    let i = choose|i: int| 0 <= i < leaves(a, id_state(a, 0)).len() && #[trigger] leaves(a, id_state(a, 0))[i] == leaves(a, last)[0];
    assert(id_state(a, 0) == root_view(a));
    let l = all_leaves(a)[i];
    assert(leaves(a, last)[0] == (last.order, last.bottom, last.top));
    assert(l == (last.order, last.bottom, last.top));
    assert(l.0 =~= Seq::new(a.len(), |v: int| v as u32));
    assert forall|v: int| 1 <= v < n implies l.2[v] + 1 == weight_into(a, below_set(v), v) by {
        assert(last.order[v] == v as u32);
        assert(last.top[last.order[v] as int] + 1 == weight_into(a, prefix_set(last.order, v), last.order[v] as int));
        assert(prefix_set(last.order, v) =~= below_set(v)) by {
            assert forall|x: int| #[trigger] prefix_set(last.order, v).contains(x) <==> below_set(v).contains(x) by {
                if below_set(v).contains(x) {
                    assert(last.order[x] as int == x);
                }
            }
        }
    }
}

} // verus!
