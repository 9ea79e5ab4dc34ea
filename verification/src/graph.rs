//! Connected multigraphs on at most 64 vertices, rooted at vertex 0.
use vstd::prelude::*;

verus! {

use crate::bits::{
    has_bit, lemma_bit_and_not, lemma_bit_or_single, lemma_bit_zero, lemma_bits_ext,
    lemma_pop_lowest,
};
use crate::sums::{
    lemma_sum_add, lemma_sum_ext, lemma_sum_ge_term, lemma_sum_le_bound, lemma_sum_mono,
    lemma_sum_nonneg, lemma_sum_point, lemma_sum_prefix_le, sum,
};
use vstd::std_specs::bits::u64_trailing_zeros;
use vstd::set_lib::{lemma_int_range, set_int_range};

/// Connected multigraph on at most 64 vertices. Vertex 0 is always the root q
/// of the parking-function definition.
#[derive(Clone)]
pub struct Graph {
    pub n: usize,
    /// symmetric multiplicity matrix, zero diagonal
    pub adj: Vec<Vec<u32>>,
    /// neighbor bitmasks (multiplicity ignored)
    pub nbr: Vec<u64>,
}

/// Why a multiplicity matrix was refused.
#[derive(Clone, Copy, Debug, PartialEq, Eq)]
pub enum GraphError {
    /// fewer than two vertices
    TooFewVertices,
    /// more than 64 vertices (bitmask representation)
    TooManyVertices,
    /// row `row` has `len` entries where `n` were expected
    RowLength { row: usize, len: usize, n: usize },
    /// nonzero diagonal entry at `vertex`
    NonzeroDiagonal { vertex: usize },
    /// entry (row, col) differs from entry (col, row)
    NotSymmetric { row: usize, col: usize },
    /// some vertex cannot be reached from the root
    Disconnected,
}

// ---------------------------------------------------------------------------
// The mathematical model of a multiplicity matrix.
// ---------------------------------------------------------------------------

/// Every row has as many entries as there are rows.
pub open spec fn is_square(a: Seq<Vec<u32>>) -> bool {
    forall|i: int| 0 <= i < a.len() ==> #[trigger] a[i]@.len() == a.len()
}

pub open spec fn zero_diagonal(a: Seq<Vec<u32>>) -> bool {
    forall|i: int| 0 <= i < a.len() ==> #[trigger] a[i]@[i] == 0
}

pub open spec fn is_symmetric(a: Seq<Vec<u32>>) -> bool {
    forall|i: int, j: int| 0 <= i < a.len() && 0 <= j < a.len() ==> #[trigger] a[i]@[j] == a[j]@[i]
}

/// No edge leaves the vertex set `s`.
pub open spec fn is_closed(a: Seq<Vec<u32>>, s: Set<int>) -> bool {
    forall|v: int, w: int|
        #![trigger s.contains(v), a[v]@[w]]
        s.contains(v) && 0 <= w < a.len() && a[v]@[w] > 0 ==> s.contains(w)
}

/// Every vertex set that holds the root and that no edge leaves holds every
/// vertex: each vertex can be reached from the root.
pub open spec fn is_connected(a: Seq<Vec<u32>>) -> bool {
    forall|s: Set<int>|
        #[trigger] is_closed(a, s) && s.contains(0) ==> forall|v: int|
            0 <= v < a.len() ==> #[trigger] s.contains(v)
}

/// A symmetric, loopless, connected multiplicity matrix on 2..=64 vertices.
pub open spec fn valid_matrix(a: Seq<Vec<u32>>) -> bool {
    &&& 2 <= a.len() <= 64
    &&& is_square(a)
    &&& zero_diagonal(a)
    &&& is_symmetric(a)
    &&& is_connected(a)
}

/// The first `j < k` with `a[i][j] != a[j][i]`.
pub open spec fn first_asymmetry(a: Seq<Vec<u32>>, i: int, k: int) -> Option<int>
    decreases k,
{
    if k <= 0 {
        None
    } else {
        match first_asymmetry(a, i, k - 1) {
            Some(j) => Some(j),
            None => if a[i]@[k - 1] != a[k - 1]@[i] {
                Some(k - 1)
            } else {
                None
            },
        }
    }
}

/// The defect of row `i`, checked in the order length, diagonal, symmetry.
pub open spec fn row_error(a: Seq<Vec<u32>>, i: int) -> Option<GraphError> {
    if a[i]@.len() != a.len() {
        Some(GraphError::RowLength { row: i as usize, len: a[i]@.len() as usize, n: a.len() as usize })
    } else if a[i]@[i] != 0 {
        Some(GraphError::NonzeroDiagonal { vertex: i as usize })
    } else {
        match first_asymmetry(a, i, a.len() as int) {
            Some(j) => Some(GraphError::NotSymmetric { row: i as usize, col: j as usize }),
            None => None,
        }
    }
}

/// The first defect among rows `0..k`.
pub open spec fn rows_error(a: Seq<Vec<u32>>, k: int) -> Option<GraphError>
    decreases k,
{
    if k <= 0 {
        None
    } else {
        match rows_error(a, k - 1) {
            Some(e) => Some(e),
            None => row_error(a, k - 1),
        }
    }
}

/// The error that a matrix is refused with, if any.
pub open spec fn matrix_error(a: Seq<Vec<u32>>) -> Option<GraphError> {
    if a.len() < 2 {
        Some(GraphError::TooFewVertices)
    } else if a.len() > 64 {
        Some(GraphError::TooManyVertices)
    } else {
        match rows_error(a, a.len() as int) {
            Some(e) => Some(e),
            None => if is_connected(a) {
                None
            } else {
                Some(GraphError::Disconnected)
            },
        }
    }
}

/// The row scan only reads entries that exist: while rows `0..i` passed and
/// row `i` has the right length and a zero diagonal, every row `j` read
/// while checking symmetry of row `i` has an entry `i`.
pub open spec fn scan_in_bounds(a: Seq<Vec<u32>>) -> bool {
    2 <= a.len() <= 64 ==> forall|i: int, j: int|
        0 <= i < a.len() && 0 <= j < a.len() && #[trigger] rows_error(a, i) is None
            && a[i]@.len() == a.len() && a[i]@[i] == 0 && #[trigger] first_asymmetry(a, i, j)
            is None ==> i < a[j]@.len()
}

/// Weighted degree of `v`: the sum of its row.
pub open spec fn degree(a: Seq<Vec<u32>>, v: int) -> int {
    sum(a.len() as int, |w: int| a[v]@[w] as int)
}

/// Sum of all weighted degrees (twice the number of edges).
pub open spec fn total_degree(a: Seq<Vec<u32>>) -> int {
    sum(a.len() as int, |v: int| degree(a, v))
}

/// Every weighted degree fits in a `u32`.
pub open spec fn degrees_fit(a: Seq<Vec<u32>>) -> bool {
    forall|v: int| 0 <= v < a.len() ==> #[trigger] degree(a, v) <= u32::MAX
}

impl Graph {
    /// The matrix is valid, `n` is its size and `nbr` holds its support.
    pub open spec fn wf(&self) -> bool {
        &&& self.n == self.adj.len()
        &&& valid_matrix(self.adj@)
        &&& self.nbr.len() == self.n
        &&& forall|i: int, k: int|
            0 <= i < self.n ==> (#[trigger] has_bit(self.nbr@[i], k) <==> (0 <= k < self.n
                && self.adj@[i]@[k] > 0))
    }

    /// Multiplicity of the edge `{i, j}`.
    pub open spec fn weight(&self, i: int, j: int) -> int {
        self.adj@[i]@[j] as int
    }
}

/// The mask holding exactly the vertices `0..n`.
pub fn vertex_mask(n: usize) -> (m: u64)
    requires
        n <= 64,
    ensures
        forall|i: int| #[trigger] has_bit(m, i) <==> 0 <= i < n,
{
    if n == 64 {
        proof {
            assert forall|i: int| #[trigger] has_bit(!0u64, i) <==> 0 <= i < n by {
                if 0 <= i < 64 {
                    let k = i as u64;
                    assert((!0u64 >> k) & 1u64 == 1u64) by (bit_vector) requires k < 64;
                }
            }
        }
        !0
    } else {
        let k = n as u64;
        assert(1u64 << k >= 1) by (bit_vector) requires k < 64;
        let m = (1u64 << k) - 1;
        proof {
            assert forall|i: int| #[trigger] has_bit(m, i) <==> 0 <= i < n by {
                if 0 <= i < 64 {
                    let j = i as u64;
                    assert(((((1u64 << k) - 1) as u64 >> j) & 1u64 == 1u64) <==> j < k) by (bit_vector)
                        requires k < 64, j < 64;
                }
            }
        }
        m
    }
}


/// The vertices marked in `seen`, as a set.
pub open spec fn mask_set(seen: u64) -> Set<int> {
    Set::new(|k: int| has_bit(seen, k))
}

/// Number of vertices among `0..n` that `seen` does not mark.
pub open spec fn unmarked(seen: u64, n: int) -> int {
    sum(n, |k: int| if has_bit(seen, k) { 0int } else { 1int })
}

pub proof fn lemma_unmarked_insert(seen: u64, w: u64, n: int)
    requires
        w < n <= 64,
        !has_bit(seen, w as int),
    ensures
        unmarked(seen | (1u64 << w), n) + 1 == unmarked(seen, n),
{
    let f = |k: int| if has_bit(seen, k) { 0int } else { 1int };
    let g = |k: int| if has_bit(seen | (1u64 << w), k) { 0int } else { 1int };
    let h = |k: int| if k == w { 1int } else { 0int };
    assert forall|k: int| 0 <= k < n implies #[trigger] f(k) == g(k) + h(k) by {
        lemma_bit_or_single(seen, w, k);
    }
    lemma_sum_ext(n, f, |k: int| g(k) + h(k));
    lemma_sum_add(n, g, h);
    lemma_sum_point(n, h, w as int);
}

pub proof fn lemma_unmarked_mono(seen: u64, more: u64, n: int)
    requires
        forall|k: int| has_bit(seen, k) ==> #[trigger] has_bit(more, k),
    ensures
        unmarked(more, n) <= unmarked(seen, n),
{
    let f = |k: int| if has_bit(seen, k) { 0int } else { 1int };
    let g = |k: int| if has_bit(more, k) { 0int } else { 1int };
    assert forall|k: int| 0 <= k < n implies #[trigger] g(k) <= f(k) by {}
    lemma_sum_mono(n, g, f);
}

impl Graph {
    /// Depth-first search from the root over the neighbor masks.
    fn connected(&self) -> (r: bool)
        requires
            self.n == self.adj.len(),
            1 <= self.n <= 64,
            is_square(self.adj@),
            self.nbr.len() == self.n,
            forall|i: int, k: int|
                0 <= i < self.n ==> (#[trigger] has_bit(self.nbr@[i], k) <==> (0 <= k < self.n
                    && self.adj@[i]@[k] > 0)),
        ensures
            r == is_connected(self.adj@),
    {
        let n = self.n;
        let ghost a = self.adj@;
        let mut seen: u64 = 1;
        let mut stack: Vec<usize> = Vec::new();
        stack.push(0);
        proof {
            assert(stack@[0] == 0usize);
            assert forall|k: int| #[trigger] has_bit(1u64, k) <==> k == 0 by {
                if 0 <= k < 64 {
                    let j = k as u64;
                    assert(((1u64 >> j) & 1u64 == 1u64) <==> j == 0) by (bit_vector);
                }
            }
        }
        while stack.len() > 0
            invariant
                n == self.n,
                a == self.adj@,
                self.n == self.adj.len(),
                1 <= self.n <= 64,
                is_square(self.adj@),
                self.nbr.len() == self.n,
                forall|i: int, k: int|
                    0 <= i < self.n ==> (#[trigger] has_bit(self.nbr@[i], k) <==> (0 <= k < self.n
                        && self.adj@[i]@[k] > 0)),
                has_bit(seen, 0),
                forall|k: int| #[trigger] has_bit(seen, k) ==> 0 <= k < n,
                forall|i: int| 0 <= i < stack.len() ==> #[trigger] has_bit(seen, stack@[i] as int),
                stack@.no_duplicates(),
                forall|v: int, w: int|
                    #![trigger has_bit(seen, v), a[v]@[w]]
                    has_bit(seen, v) && !stack@.contains(v as usize) && 0 <= w < n && a[v]@[w] > 0
                        ==> has_bit(seen, w),
                forall|s: Set<int>|
                    #[trigger] is_closed(a, s) && s.contains(0) ==> forall|k: int|
                        #[trigger] has_bit(seen, k) ==> s.contains(k),
            decreases unmarked(seen, n as int), stack.len(),
        {
            let ghost seen0 = seen;
            let ghost len0 = stack.len();
            let ghost st0 = stack@;
            let v = stack.pop().unwrap();
            assert(has_bit(seen, v as int)) by {
                assert(v == st0[len0 - 1]);
            }
            assert(!stack@.contains(v)) by {
                if stack@.contains(v) {
                    let i = choose|i: int| 0 <= i < stack.len() && stack@[i] == v;
                    assert(st0[i] == st0[len0 - 1]);
                }
            }
            let ghost popped = stack@;
            assert forall|u: usize| #[trigger] st0.contains(u) && u != v implies stack@.contains(u) by {
                let i = choose|i: int| 0 <= i < st0.len() && st0[i] == u;
                assert(i != len0 - 1);
                assert(stack@[i] == st0[i]);
            }
            let mut m = self.nbr[v] & !seen;
            proof {
                assert forall|k: int| #[trigger] has_bit(m, k) <==> (has_bit(self.nbr@[v as int], k)
                    && !has_bit(seen, k)) by {
                    lemma_bit_and_not(self.nbr@[v as int], seen, k);
                }
            }
            let ghost mut pushed = false;
            while m != 0
                invariant
                    n == self.n,
                    a == self.adj@,
                    self.n == self.adj.len(),
                    1 <= self.n <= 64,
                    is_square(self.adj@),
                    self.nbr.len() == self.n,
                    forall|i: int, k: int|
                        0 <= i < self.n ==> (#[trigger] has_bit(self.nbr@[i], k) <==> (0 <= k
                            < self.n && self.adj@[i]@[k] > 0)),
                    v < n,
                    has_bit(seen, v as int),
                    has_bit(seen, 0),
                    !stack@.contains(v),
                    forall|k: int| #[trigger] has_bit(seen, k) ==> 0 <= k < n,
                    forall|k: int| #[trigger] has_bit(seen0, k) ==> has_bit(seen, k),
                    forall|i: int|
                        0 <= i < stack.len() ==> #[trigger] has_bit(seen, stack@[i] as int),
                    stack@.no_duplicates(),
                    forall|k: int| #[trigger]
                        has_bit(m, k) <==> (has_bit(self.nbr@[v as int], k) && !has_bit(seen, k)),
                    forall|u: int, w: int|
                        #![trigger has_bit(seen, u), a[u]@[w]]
                        has_bit(seen, u) && !stack@.contains(u as usize) && u != v && 0 <= w < n
                            && a[u]@[w] > 0 ==> has_bit(seen, w),
                    forall|s: Set<int>|
                        #[trigger] is_closed(a, s) && s.contains(0) ==> forall|k: int|
                            #[trigger] has_bit(seen, k) ==> s.contains(k),
                    pushed ==> unmarked(seen, n as int) < unmarked(seen0, n as int),
                    !pushed ==> seen == seen0 && stack@ == popped,
                    stack.len() + 1 == len0 || pushed,
                    popped.len() + 1 == len0,
                decreases m,
            {
                proof {
                    lemma_pop_lowest(m);
                }
                let t = m.trailing_zeros();
                let w = t as usize;
                let ghost mold = m;
                let ghost sold = seen;
                m = m & (m - 1);
                seen = seen | (1u64 << t as u64);
                proof {
                    assert(has_bit(mold, w as int));
                    assert(!has_bit(sold, w as int));
                    assert forall|k: int| #[trigger] has_bit(seen, k) <==> (has_bit(sold, k) || k
                        == w) by {
                        lemma_bit_or_single(sold, t as u64, k);
                    }
                    assert(w < n);
                    lemma_unmarked_insert(sold, t as u64, n as int);
                    lemma_unmarked_mono(seen0, sold, n as int);
                    assert forall|s: Set<int>|
                        #[trigger] is_closed(a, s) && s.contains(0) implies forall|k: int|
                            #[trigger] has_bit(seen, k) ==> s.contains(k) by {
                        assert(has_bit(sold, v as int));
                        assert(s.contains(v as int));
                        assert(a[v as int]@[w as int] > 0);
                    }
                }
                let ghost stk = stack@;
                stack.push(w);
                proof {
                    pushed = true;
                    assert forall|i: int| 0 <= i < stack.len() implies #[trigger] has_bit(
                        seen,
                        stack@[i] as int,
                    ) by {
                        if i < stack.len() - 1 {
                            assert(has_bit(sold, stack@[i] as int));
                        }
                    }
                    assert(!stk.contains(w)) by {
                        if stk.contains(w) {
                            let i = choose|i: int| 0 <= i < stk.len() && stk[i] == w;
                            assert(has_bit(sold, stk[i] as int));
                        }
                    }
                    assert(stack@ == stk.push(w));
                    assert forall|u: usize| #[trigger] stk.contains(u) implies stack@.contains(u) by {
                        let i = choose|i: int| 0 <= i < stk.len() && stk[i] == u;
                        assert(stack@[i] == stk[i]);
                    }
                    assert(stack@[stack.len() - 1] == w);
                    assert forall|u: int, x: int|
                        #![trigger has_bit(seen, u), a[u]@[x]]
                        has_bit(seen, u) && !stack@.contains(u as usize) && u != v && 0 <= x < n
                            && a[u]@[x] > 0 implies has_bit(seen, x) by {
                        assert(u != w);
                        assert(has_bit(sold, u));
                        assert(!stk.contains(u as usize));
                        assert(has_bit(sold, x));
                    }
                }
            }
            proof {
                lemma_sum_nonneg(n as int, |k: int| if has_bit(seen, k) { 0int } else { 1int });
                assert forall|u: int, w: int|
                    #![trigger has_bit(seen, u), a[u]@[w]]
                    has_bit(seen, u) && !stack@.contains(u as usize) && 0 <= w < n && a[u]@[w] > 0
                        implies has_bit(seen, w) by {
                    if u == v {
                        assert(has_bit(self.nbr@[v as int], w));
                        assert(!has_bit(m, w)) by { lemma_bit_zero(w); }
                    }
                }
            }
        }
        let full = vertex_mask(n);
        let r = seen == full;
        proof {
            let s0 = mask_set(seen);
            assert(is_closed(a, s0)) by {
                assert forall|v: int, w: int|
                    #![trigger s0.contains(v), a[v]@[w]]
                    s0.contains(v) && 0 <= w < a.len() && a[v]@[w] > 0 implies s0.contains(w) by {
                    assert(has_bit(seen, v));
                    assert(!stack@.contains(v as usize));
                }
            }
            if r {
                assert forall|s: Set<int>| #[trigger] is_closed(a, s) && s.contains(0) implies forall|
                    v: int,
                | 0 <= v < a.len() ==> #[trigger] s.contains(v) by {
                    assert forall|v: int| 0 <= v < a.len() implies #[trigger] s.contains(v) by {
                        assert(has_bit(full, v));
                    }
                }
            } else {
                if is_connected(a) {
                    assert(s0.contains(0));
                    assert forall|k: int| 0 <= k < 64 implies has_bit(seen, k) == has_bit(full, k) by {
                        if k < n {
                            assert(s0.contains(k));
                        }
                    }
                    lemma_bits_ext(seen, full);
                }
            }
        }
        r
    }
}


proof fn lemma_first_asymmetry(a: Seq<Vec<u32>>, i: int, k: int)
    ensures
        first_asymmetry(a, i, k) is None <==> forall|j: int| 0 <= j < k ==> #[trigger] a[i]@[j] == a[j]@[i],
        first_asymmetry(a, i, k) matches Some(j) ==> 0 <= j < k && a[i]@[j] != a[j]@[i],
    decreases k,
{
    if k > 0 {
        lemma_first_asymmetry(a, i, k - 1);
    }
}

proof fn lemma_rows_error(a: Seq<Vec<u32>>, k: int)
    ensures
        rows_error(a, k) is None <==> forall|r: int| 0 <= r < k ==> #[trigger] row_error(a, r) is None,
    decreases k,
{
    if k > 0 {
        lemma_rows_error(a, k - 1);
    }
}

proof fn lemma_first_asymmetry_stable(a: Seq<Vec<u32>>, i: int, k: int, k2: int)
    requires
        k <= k2,
        first_asymmetry(a, i, k) is Some,
    ensures
        first_asymmetry(a, i, k2) == first_asymmetry(a, i, k),
    decreases k2 - k,
{
    if k < k2 {
        lemma_first_asymmetry_stable(a, i, k, k2 - 1);
    }
}

proof fn lemma_rows_error_stable(a: Seq<Vec<u32>>, k: int, k2: int)
    requires
        k <= k2,
        rows_error(a, k) is Some,
    ensures
        rows_error(a, k2) == rows_error(a, k),
    decreases k2 - k,
{
    if k < k2 {
        lemma_rows_error_stable(a, k, k2 - 1);
    }
}

/// A matrix is refused exactly when it is not a valid multiplicity matrix.
pub proof fn lemma_matrix_error_iff_invalid(a: Seq<Vec<u32>>)
    ensures
        matrix_error(a) is None <==> valid_matrix(a),
{
    if 2 <= a.len() <= 64 {
        let n = a.len() as int;
        lemma_rows_error(a, n);
        if rows_error(a, n) is None {
            assert forall|i: int| 0 <= i < n implies #[trigger] a[i]@.len() == n by {
                assert(row_error(a, i) is None);
            }
            assert forall|i: int| 0 <= i < n implies #[trigger] a[i]@[i] == 0 by {
                assert(row_error(a, i) is None);
            }
            assert forall|i: int, j: int| 0 <= i < n && 0 <= j < n implies #[trigger] a[i]@[j]
                == a[j]@[i] by {
                assert(row_error(a, i) is None);
                lemma_first_asymmetry(a, i, n);
            }
            assert(is_square(a));
            assert(zero_diagonal(a));
            assert(is_symmetric(a));
        } else {
            let r = choose|r: int| 0 <= r < n && !(#[trigger] row_error(a, r) is None);
            lemma_first_asymmetry(a, r, n);
            if a[r]@.len() != n {
                assert(!is_square(a));
            } else if a[r]@[r] != 0 {
                assert(!zero_diagonal(a));
            } else {
                let j = first_asymmetry(a, r, n)->0;
                assert(a[r]@[j] != a[j]@[r]);
                assert(!is_symmetric(a));
            }
        }
    }
}

impl Graph {
    /// Validates a multiplicity matrix and builds the graph with its
    /// neighbor masks; the matrix is kept as given.
    pub fn from_matrix(adj: Vec<Vec<u32>>) -> (r: Result<Graph, GraphError>)
        requires
            scan_in_bounds(adj@),
        ensures
            match r {
                Ok(g) => matrix_error(adj@) is None && g.wf() && g.adj == adj,
                Err(e) => matrix_error(adj@) == Some(e),
            },
            matrix_error(adj@) is None <==> valid_matrix(adj@),
    {
        proof {
            lemma_matrix_error_iff_invalid(adj@);
        }
        let n = adj.len();
        if n < 2 {
            return Err(GraphError::TooFewVertices);
        }
        if n > 64 {
            return Err(GraphError::TooManyVertices);
        }
        for i in 0..n
            invariant
                n == adj.len(),
                2 <= n <= 64,
                scan_in_bounds(adj@),
                rows_error(adj@, i as int) is None,
        {
            if adj[i].len() != n {
                proof {
                    lemma_rows_error_stable(adj@, i + 1, n as int);
                }
                return Err(GraphError::RowLength { row: i, len: adj[i].len(), n });
            }
            if adj[i][i] != 0 {
                proof {
                    lemma_rows_error_stable(adj@, i + 1, n as int);
                }
                return Err(GraphError::NonzeroDiagonal { vertex: i });
            }
            for j in 0..n
                invariant
                    n == adj.len(),
                    2 <= n <= 64,
                    i < n,
                    scan_in_bounds(adj@),
                    rows_error(adj@, i as int) is None,
                    adj@[i as int]@.len() == n,
                    adj@[i as int]@[i as int] == 0,
                    first_asymmetry(adj@, i as int, j as int) is None,
            {
                assert(i < adj@[j as int]@.len());
                if adj[i][j] != adj[j][i] {
                    proof {
                        lemma_first_asymmetry_stable(adj@, i as int, j + 1, n as int);
                        lemma_rows_error_stable(adj@, i + 1, n as int);
                    }
                    return Err(GraphError::NotSymmetric { row: i, col: j });
                }
            }
        }
        proof {
            lemma_rows_error(adj@, n as int);
            assert forall|i: int| 0 <= i < n implies #[trigger] adj@[i]@.len() == n by {
                assert(row_error(adj@, i) is None);
            }
        }
        let mut nbr: Vec<u64> = Vec::new();
        for i in 0..n
            invariant
                n == adj.len(),
                2 <= n <= 64,
                is_square(adj@),
                nbr.len() == i,
                forall|r: int, k: int|
                    0 <= r < i ==> (#[trigger] has_bit(nbr@[r], k) <==> (0 <= k < n && adj@[r]@[k]
                        > 0)),
        {
            let mut m: u64 = 0;
            proof {
                assert forall|k: int| !#[trigger] has_bit(m, k) by {
                    lemma_bit_zero(k);
                }
            }
            for j in 0..n
                invariant
                    n == adj.len(),
                    2 <= n <= 64,
                    i < n,
                    is_square(adj@),
                    forall|k: int| #[trigger] has_bit(m, k) <==> (0 <= k < j && adj@[i as int]@[k] > 0),
            {
                if adj[i][j] > 0 {
                    let ghost m0 = m;
                    m = m | (1u64 << j as u64);
                    proof {
                        assert forall|k: int| #[trigger] has_bit(m, k) <==> (0 <= k < j + 1
                            && adj@[i as int]@[k] > 0) by {
                            lemma_bit_or_single(m0, j as u64, k);
                        }
                    }
                }
            }
            let ghost nb0 = nbr@;
            nbr.push(m);
            proof {
                assert forall|r: int, k: int| 0 <= r < i + 1 implies (#[trigger] has_bit(nbr@[r], k)
                    <==> (0 <= k < n && adj@[r]@[k] > 0)) by {
                    if r < i {
                        assert(nbr@[r] == nb0[r]);
                    }
                }
            }
        }
        let g = Graph { n, adj, nbr };
        if !g.connected() {
            return Err(GraphError::Disconnected);
        }
        Ok(g)
    }

    /// Weighted degree of `v`: the sum of its row.
    pub fn weighted_degree(&self, v: usize) -> (d: u32)
        requires
            v < self.adj.len(),
            degree(self.adj@, v as int) <= u32::MAX,
            self.adj@[v as int]@.len() == self.adj.len(),
        ensures
            d == degree(self.adj@, v as int),
    {
        let row = &self.adj[v];
        let ghost f = |w: int| self.adj@[v as int]@[w] as int;
        let mut s: u32 = 0;
        for j in 0..row.len()
            invariant
                row == &self.adj@[v as int],
                row@.len() == self.adj.len(),
                f == (|w: int| self.adj@[v as int]@[w] as int),
                degree(self.adj@, v as int) <= u32::MAX,
                s == sum(j as int, f),
        {
            proof {
                assert forall|i: int| 0 <= i < row.len() implies #[trigger] f(i) >= 0 by {}
                lemma_sum_prefix_le(j + 1, row.len() as int, f);
            }
            s = s + row[j];
        }
        s
    }

    /// Number of edges counted with multiplicity: half the degree sum.
    pub fn weighted_edges(&self) -> (e: u64)
        requires
            self.wf(),
            degrees_fit(self.adj@),
        ensures
            e == total_degree(self.adj@) / 2,
    {
        let ghost f = |v: int| degree(self.adj@, v);
        let mut s: u64 = 0;
        for v in 0..self.n
            invariant
                self.wf(),
                degrees_fit(self.adj@),
                f == (|v: int| degree(self.adj@, v)),
                s == sum(v as int, f),
                s <= v * 0xffff_ffffu64,
        {
            let d = self.weighted_degree(v);
            proof {
                assert(v * 0xffff_ffffu64 + d <= (v + 1) * 0xffff_ffffu64) by (nonlinear_arith)
                    requires d <= 0xffff_ffffu64;
                assert((v + 1) * 0xffff_ffffu64 <= 64 * 0xffff_ffffu64) by (nonlinear_arith)
                    requires v < 64;
            }
            s = s + d as u64;
        }
        s / 2
    }
}


// ---------------------------------------------------------------------------
// A connected graph has at least n - 1 edges.
// ---------------------------------------------------------------------------

/// Weight from `v` into the vertex set `s`.
pub open spec fn weight_into(a: Seq<Vec<u32>>, s: Set<int>, v: int) -> int {
    sum(a.len() as int, |w: int| if s.contains(w) { a[v]@[w] as int } else { 0int })
}

/// Twice the edge weight inside the vertex set `s`.
pub open spec fn inner_weight(a: Seq<Vec<u32>>, s: Set<int>) -> int {
    sum(a.len() as int, |v: int| if s.contains(v) { weight_into(a, s, v) } else { 0int })
}

pub proof fn lemma_weight_into_nonneg(a: Seq<Vec<u32>>, s: Set<int>, v: int)
    ensures
        weight_into(a, s, v) >= 0,
{
    let f = |w: int| if s.contains(w) { a[v]@[w] as int } else { 0int };
    assert forall|w: int| 0 <= w < a.len() implies #[trigger] f(w) >= 0 by {}
    lemma_sum_nonneg(a.len() as int, f);
}

pub proof fn lemma_weight_into_insert(a: Seq<Vec<u32>>, s: Set<int>, x: int, v: int)
    requires
        0 <= x < a.len(),
        !s.contains(x),
    ensures
        weight_into(a, s.insert(x), v) == weight_into(a, s, v) + a[v]@[x],
{
    let n = a.len() as int;
    let f = |w: int| if s.contains(w) { a[v]@[w] as int } else { 0int };
    let g = |w: int| if s.insert(x).contains(w) { a[v]@[w] as int } else { 0int };
    let h = |w: int| if w == x { a[v]@[w] as int } else { 0int };
    assert forall|w: int| 0 <= w < n implies #[trigger] g(w) == f(w) + h(w) by {}
    lemma_sum_ext(n, g, |w: int| f(w) + h(w));
    lemma_sum_add(n, f, h);
    lemma_sum_point(n, h, x);
}

pub proof fn lemma_inner_weight_insert(a: Seq<Vec<u32>>, s: Set<int>, x: int)
    requires
        0 <= x < a.len(),
        !s.contains(x),
        is_square(a),
        zero_diagonal(a),
        is_symmetric(a),
    ensures
        inner_weight(a, s.insert(x)) == inner_weight(a, s) + 2 * weight_into(a, s, x),
{
    let n = a.len() as int;
    let s2 = s.insert(x);
    let f2 = |v: int| if s2.contains(v) { weight_into(a, s2, v) } else { 0int };
    let g1 = |v: int| if s.contains(v) { weight_into(a, s, v) } else { 0int };
    let g2 = |v: int| if s.contains(v) { a[v]@[x] as int } else { 0int };
    let g3 = |v: int| if v == x { weight_into(a, s, x) } else { 0int };
    let g12 = |v: int| g1(v) + g2(v);
    assert forall|v: int| 0 <= v < n implies #[trigger] f2(v) == g12(v) + g3(v) by {
        lemma_weight_into_insert(a, s, x, v);
    }
    lemma_sum_ext(n, f2, |v: int| g12(v) + g3(v));
    lemma_sum_add(n, g12, g3);
    lemma_sum_add(n, g1, g2);
    lemma_sum_point(n, g3, x);
    let gx = |w: int| if s.contains(w) { a[x]@[w] as int } else { 0int };
    assert forall|v: int| 0 <= v < n implies #[trigger] g2(v) == gx(v) by {}
    lemma_sum_ext(n, g2, gx);
}

/// More vertices give at least as much weight.
pub proof fn lemma_weight_into_mono(a: Seq<Vec<u32>>, p: Set<int>, q: Set<int>, v: int)
    requires
        forall|x: int| 0 <= x < a.len() && #[trigger] p.contains(x) ==> q.contains(x),
    ensures
        weight_into(a, p, v) <= weight_into(a, q, v),
{
    let f = |w: int| if p.contains(w) { a[v]@[w] as int } else { 0int };
    let g = |w: int| if q.contains(w) { a[v]@[w] as int } else { 0int };
    assert forall|w: int| 0 <= w < a.len() implies #[trigger] f(w) <= g(w) by {}
    lemma_sum_mono(a.len() as int, f, g);
}

/// The weight into the whole vertex set is the degree.
pub proof fn lemma_full_weight(a: Seq<Vec<u32>>, v: int)
    ensures
        weight_into(a, Set::new(|x: int| 0 <= x < a.len()), v) == degree(a, v),
{
    let s = Set::new(|x: int| 0 <= x < a.len());
    let f = |w: int| if s.contains(w) { a[v]@[w] as int } else { 0int };
    let g = |w: int| a[v]@[w] as int;
    assert forall|w: int| 0 <= w < a.len() implies #[trigger] f(w) == g(w) by {}
    lemma_sum_ext(a.len() as int, f, g);
}

/// For every size `k` up to `n` there is a vertex set of that size holding
/// the root whose inner weight is at least `2 (k - 1)`.
proof fn lemma_grow(a: Seq<Vec<u32>>, k: int) -> (s: Set<int>)
    requires
        valid_matrix(a),
        1 <= k <= a.len(),
    ensures
        s.finite(),
        s.len() == k,
        s.subset_of(set_int_range(0, a.len() as int)),
        s.contains(0),
        inner_weight(a, s) >= 2 * (k - 1),
    decreases k,
{
    let n = a.len() as int;
    if k == 1 {
        let s = Set::<int>::empty().insert(0);
        let f = |v: int| if s.contains(v) { weight_into(a, s, v) } else { 0int };
        assert forall|v: int| 0 <= v < n implies #[trigger] f(v) >= 0 by {
            lemma_weight_into_nonneg(a, s, v);
        }
        lemma_sum_nonneg(n, f);
        s
    } else {
        let s = lemma_grow(a, k - 1);
        lemma_int_range(0, n);
        if set_int_range(0, n).subset_of(s) {
            vstd::set_lib::lemma_len_subset(set_int_range(0, n), s);
        }
        let y = choose|y: int| set_int_range(0, n).contains(y) && !s.contains(y);
        assert(!is_closed(a, s)) by {
            if is_closed(a, s) {
                assert(s.contains(y));
            }
        }
        let (v, w) = choose|v: int, w: int|
            s.contains(v) && 0 <= w < a.len() && a[v]@[w] > 0 && !s.contains(w);
        let s2 = s.insert(w);
        lemma_inner_weight_insert(a, s, w);
        let f = |u: int| if s.contains(u) { a[w]@[u] as int } else { 0int };
        assert forall|u: int| 0 <= u < n implies #[trigger] f(u) >= 0 by {}
        assert(s.subset_of(set_int_range(0, n)));
        assert(0 <= v < n);
        lemma_sum_ge_term(n, f, v);
        assert(a[w]@[v] == a[v]@[w]);
        s2
    }
}

/// A connected graph has at least `n - 1` edges: its degree sum is at least
/// `2 (n - 1)`.
pub proof fn lemma_connected_degree_sum(a: Seq<Vec<u32>>)
    requires
        valid_matrix(a),
    ensures
        total_degree(a) >= 2 * (a.len() - 1),
{
    let n = a.len() as int;
    let s = lemma_grow(a, n);
    let f = |v: int| if s.contains(v) { weight_into(a, s, v) } else { 0int };
    let g = |v: int| degree(a, v);
    assert forall|v: int| 0 <= v < n implies #[trigger] f(v) <= g(v) by {
        lemma_weight_into_nonneg(a, s, v);
        let r1 = |w: int| if s.contains(w) { a[v]@[w] as int } else { 0int };
        let r2 = |w: int| a[v]@[w] as int;
        assert forall|w: int| 0 <= w < n implies #[trigger] r1(w) <= r2(w) by {}
        lemma_sum_mono(n, r1, r2);
    }
    lemma_sum_mono(n, f, g);
}

impl Graph {
    /// Cyclomatic number g = |E| - |V| + 1. Every maximal parking function has
    /// total degree g (BCT Prop 2.3 + Cor 3.2).
    pub fn genus(&self) -> (g: u64)
        requires
            self.wf(),
            degrees_fit(self.adj@),
        ensures
            g == total_degree(self.adj@) / 2 - self.n + 1,
    {
        proof {
            lemma_connected_degree_sum(self.adj@);
            lemma_sum_le_bound(self.n as int, |v: int| degree(self.adj@, v), u32::MAX as int);
            assert(self.n * (u32::MAX as int) <= 64 * (u32::MAX as int)) by (nonlinear_arith)
                requires self.n <= 64;
        }
        let e = self.weighted_edges();
        assert(e >= self.n - 1);
        e + 1 - self.n as u64
    }
}


// ---------------------------------------------------------------------------
// Hypercubes.
// ---------------------------------------------------------------------------

/// `v` with coordinate `c` flipped.
pub open spec fn flip(v: int, c: int) -> int {
    ((v as u64) ^ (1u64 << (c as u64))) as int
}

/// `w` differs from `v` in exactly one of the coordinates `0..b`.
pub open spec fn cube_adjacent(b: int, v: int, w: int) -> bool {
    exists|c: int| 0 <= c < b && w == #[trigger] flip(v, c)
}

/// The adjacency matrix of the hypercube of dimension `dim`.
pub open spec fn is_cube_matrix(a: Seq<Vec<u32>>, dim: int) -> bool {
    forall|v: int, w: int|
        0 <= v < a.len() && 0 <= w < a.len() ==> #[trigger] a[v]@[w] == (if cube_adjacent(dim, v, w) {
            1u32
        } else {
            0u32
        })
}

proof fn lemma_cube_flip(v: u64, c: u64, dim: u64)
    requires
        v < (1u64 << dim),
        c < dim,
        dim <= 6,
    ensures
        (v ^ (1u64 << c)) < (1u64 << dim),
        (v ^ (1u64 << c)) ^ (1u64 << c) == v,
        (v ^ (1u64 << c)) != v,
{
    assert((v ^ (1u64 << c)) < (1u64 << dim)) by (bit_vector)
        requires v < (1u64 << dim), c < dim, dim <= 6;
    assert((v ^ (1u64 << c)) ^ (1u64 << c) == v) by (bit_vector);
    assert((v ^ (1u64 << c)) != v) by (bit_vector) requires c < 64;
}

/// Every vertex of the hypercube is reached from the root by flipping bits.
proof fn lemma_cube_reach(a: Seq<Vec<u32>>, dim: int, s: Set<int>, v: int)
    requires
        1 <= dim <= 6,
        a.len() == (1u64 << (dim as u64)),
        is_cube_matrix(a, dim),
        is_closed(a, s),
        s.contains(0),
        0 <= v < a.len(),
    ensures
        s.contains(v),
    decreases v,
{
    if v > 0 {
        let x = v as u64;
        let d = dim as u64;
        lemma_pop_lowest(x);
        let t = u64_trailing_zeros(x) as u64;
        assert((x >> t) & 1u64 == 1u64);
        assert(t < d && (x ^ (1u64 << t)) < x) by (bit_vector)
            requires (x >> t) & 1u64 == 1u64, x < (1u64 << d), t < 64, d <= 6;
        let w = x ^ (1u64 << t);
        lemma_cube_flip(x, t, d);
        lemma_cube_reach(a, dim, s, w as int);
        assert(cube_adjacent(dim, w as int, v)) by {
            assert(v == flip(w as int, t as int));
        }
        assert(a[w as int]@[v] == 1u32);
    }
}

impl Graph {
    /// Hypercube Q_dim: vertices are bitstrings, edges join Hamming-distance-1
    /// pairs. Root 0 is the all-zeros vertex.
    pub fn hypercube(dim: u32) -> (g: Graph)
        requires
            1 <= dim <= 6,
        ensures
            g.wf(),
            g.n == (1u64 << (dim as u64)),
            is_cube_matrix(g.adj@, dim as int),
            degrees_fit(g.adj@),
    {
        let d = dim as u64;
        let n = (1u64 << d) as usize;
        assert((1u64 << d) <= 64 && (1u64 << d) >= 2) by (bit_vector) requires 1 <= d <= 6;
        let mut adj: Vec<Vec<u32>> = Vec::new();
        for v in 0..n
            invariant
                n == (1u64 << d),
                n <= 64,
                d == dim,
                1 <= dim <= 6,
                adj.len() == v,
                forall|r: int| 0 <= r < v ==> #[trigger] adj@[r]@.len() == n,
                forall|r: int, x: int|
                    0 <= r < v && 0 <= x < n ==> #[trigger] adj@[r]@[x] == (if cube_adjacent(
                        dim as int,
                        r,
                        x,
                    ) {
                        1u32
                    } else {
                        0u32
                    }),
        {
            let mut row: Vec<u32> = Vec::new();
            for _x in 0..n
                invariant
                    row.len() == _x,
                    forall|x: int| 0 <= x < row.len() ==> #[trigger] row@[x] == 0u32,
            {
                row.push(0);
            }
            for b in 0..dim
                invariant
                    n == (1u64 << d),
                    d == dim,
                    1 <= dim <= 6,
                    v < n,
                    row.len() == n,
                    forall|x: int|
                        0 <= x < n ==> #[trigger] row@[x] == (if cube_adjacent(b as int, v as int, x) {
                            1u32
                        } else {
                            0u32
                        }),
            {
                proof {
                    lemma_cube_flip(v as u64, b as u64, d);
                }
                let w = ((v as u64) ^ (1u64 << b as u64)) as usize;
                let ghost row0 = row@;
                row.set(w, 1);
                proof {
                    assert forall|x: int| 0 <= x < n implies #[trigger] row@[x] == (if cube_adjacent(
                        b + 1,
                        v as int,
                        x,
                    ) {
                        1u32
                    } else {
                        0u32
                    }) by {
                        if x == w as int {
                            assert(cube_adjacent(b + 1, v as int, x)) by {
                                assert(x == flip(v as int, b as int));
                            }
                        } else {
                            assert(row@[x] == row0[x]);
                            if cube_adjacent(b + 1, v as int, x) {
                                let c = choose|c: int|
                                    0 <= c < b + 1 && x == flip(v as int, c);
                                assert(c != b);
                                assert(cube_adjacent(b as int, v as int, x));
                            }
                            if cube_adjacent(b as int, v as int, x) {
                                let c = choose|c: int|
                                    0 <= c < b && x == flip(v as int, c);
                                assert(cube_adjacent(b + 1, v as int, x));
                            }
                        }
                    }
                }
            }
            let ghost adj0 = adj@;
            adj.push(row);
            proof {
                assert forall|r: int, x: int|
                    0 <= r < v + 1 && 0 <= x < n implies #[trigger] adj@[r]@[x] == (if cube_adjacent(
                        dim as int,
                        r,
                        x,
                    ) {
                        1u32
                    } else {
                        0u32
                    }) by {
                    if r < v {
                        assert(adj@[r] == adj0[r]);
                    }
                }
                assert forall|r: int| 0 <= r < v + 1 implies #[trigger] adj@[r]@.len() == n by {
                    if r < v {
                        assert(adj@[r] == adj0[r]);
                    }
                }
            }
        }
        proof {
            let a = adj@;
            assert(is_cube_matrix(a, dim as int));
            assert forall|i: int| 0 <= i < a.len() implies #[trigger] a[i]@[i] == 0 by {
                if cube_adjacent(dim as int, i, i) {
                    let c = choose|c: int|
                        0 <= c < dim && i == flip(i, c);
                    lemma_cube_flip(i as u64, c as u64, d);
                }
            }
            assert forall|i: int, j: int| 0 <= i < a.len() && 0 <= j < a.len() implies #[trigger] a[i]@[j]
                == a[j]@[i] by {
                if cube_adjacent(dim as int, i, j) {
                    let c = choose|c: int|
                        0 <= c < dim && j == flip(i, c);
                    lemma_cube_flip(i as u64, c as u64, d);
                    assert(j as u64 == (i as u64) ^ (1u64 << (c as u64)));
                    assert(i == flip(j, c));
                    assert(cube_adjacent(dim as int, j, i));
                }
                if cube_adjacent(dim as int, j, i) {
                    let c = choose|c: int|
                        0 <= c < dim && i == flip(j, c);
                    lemma_cube_flip(j as u64, c as u64, d);
                    assert(i as u64 == (j as u64) ^ (1u64 << (c as u64)));
                    assert(j == flip(i, c));
                    assert(cube_adjacent(dim as int, i, j));
                }
            }
            assert forall|s: Set<int>| #[trigger] is_closed(a, s) && s.contains(0) implies forall|v: int|
                0 <= v < a.len() ==> #[trigger] s.contains(v) by {
                assert forall|v: int| 0 <= v < a.len() implies #[trigger] s.contains(v) by {
                    lemma_cube_reach(a, dim as int, s, v);
                }
            }
            assert(is_square(a));
            assert(zero_diagonal(a));
            assert(is_symmetric(a));
            assert(is_connected(a));
            assert(valid_matrix(a));
            lemma_matrix_error_iff_invalid(a);
            assert forall|v: int| 0 <= v < a.len() implies #[trigger] degree(a, v) <= u32::MAX by {
                let f = |w: int| a[v]@[w] as int;
                assert forall|w: int| 0 <= w < a.len() implies #[trigger] f(w) <= 1 by {}
                lemma_sum_le_bound(a.len() as int, f, 1);
            }
        }
        let r = Graph::from_matrix(adj);
        proof {
            if r is Err {
                assert(matrix_error(adj@) == Some(r->Err_0));
            }
        }
        r.unwrap()
    }
}

} // verus!
