//! A small seeded linear congruential generator for reproducible test graphs,
//! and the random multigraphs drawn from it.
use vstd::prelude::*;

verus! {

use crate::graph::{valid_matrix, Graph};

/// The state step: `x * 6364136223846793005 + 1442695040888963407` modulo
/// `2^64`.
pub open spec fn lcg_step(x: u64) -> u64 {
    x.wrapping_mul(6364136223846793005).wrapping_add(1442695040888963407)
}

/// Linear congruential generator with 64 bits of state.
pub struct Lcg(pub u64);

impl Lcg {
    /// Advances the state and returns its high bits reduced modulo `m`.
    pub fn next(&mut self, m: u32) -> (r: u32)
        requires
            m > 0,
        ensures
            final(self).0 == lcg_step(old(self).0),
            r == (lcg_step(old(self).0) >> 33u64) % (m as u64),
    {
        self.0 = self.0.wrapping_mul(6364136223846793005).wrapping_add(1442695040888963407);
        ((self.0 >> 33) % m as u64) as u32
    }
}

/// The multiplicity drawn from state `x`, and the state after: one draw
/// modulo 3 and, where it is 0, a second draw modulo 4, else modulo 2.
pub open spec fn draw_mult(x: u64) -> (u32, u64) {
    let x1 = lcg_step(x);
    let x2 = lcg_step(x1);
    if (x1 >> 33u64) % 3 == 0 {
        (((x2 >> 33u64) % 4) as u32, x2)
    } else {
        (((x2 >> 33u64) % 2) as u32, x2)
    }
}

/// The rows of a matrix.
pub open spec fn rows_of(a: Seq<Vec<u32>>) -> Seq<Seq<u32>> {
    Seq::new(a.len(), |i: int| a[i]@)
}

/// The `n` by `n` zero matrix.
pub open spec fn zero_rows(n: int) -> Seq<Seq<u32>> {
    Seq::new(n as nat, |i: int| Seq::new(n as nat, |j: int| 0u32))
}

/// Entries `(i, j)` and `(j, i)` set to `v`.
pub open spec fn set_pair(a: Seq<Seq<u32>>, i: int, j: int, v: u32) -> Seq<Seq<u32>> {
    let b = a.update(i, a[i].update(j, v));
    b.update(j, b[j].update(i, v))
}

/// The entries above the diagonal drawn in row-major order from `(i, j)`
/// on, each mirrored below it; gives the matrix and the state after.
pub open spec fn fill_from(x: u64, a: Seq<Seq<u32>>, n: int, i: int, j: int) -> (Seq<Seq<u32>>, u64)
    decreases n - i, n - j,
{
    if i >= n {
        (a, x)
    } else if j >= n {
        fill_from(x, a, n, i + 1, i + 2)
    } else {
        let d = draw_mult(x);
        fill_from(d.1, set_pair(a, i, j, d.0), n, i, j + 1)
    }
}

/// The random `n`-vertex multiplicity matrix drawn from state `x`.
#[verifier::opaque]
pub open spec fn random_rows(x: u64, n: int) -> (Seq<Seq<u32>>, u64) {
    fill_from(x, zero_rows(n), n, 0, 1)
}

/// The generator state after `k` drawn matrices.
pub open spec fn attempt_state(x: u64, n: int, k: nat) -> u64
    decreases k,
{
    if k == 0 {
        x
    } else {
        random_rows(attempt_state(x, n, (k - 1) as nat), n).1
    }
}

/// The matrix of attempt `k`.
pub open spec fn attempt_rows(x: u64, n: int, k: nat) -> Seq<Seq<u32>> {
    random_rows(attempt_state(x, n, k), n).0
}

/// No multiplicity matrix with these rows is a valid graph.
#[verifier::opaque]
pub open spec fn rows_rejected(m: Seq<Seq<u32>>) -> bool {
    forall|v: Seq<Vec<u32>>| #[trigger] rows_of(v) == m ==> !valid_matrix(v)
}

/// Draws a random symmetric loopless multiplicity matrix on `n` vertices:
/// each entry above the diagonal is 0..=3 with one chance in three, else
/// 0..=1, drawn in row-major order.
pub fn random_matrix(rng: &mut Lcg, n: usize) -> (adj: Vec<Vec<u32>>)
    ensures
        adj@.len() == n,
        forall|r: int| 0 <= r < n ==> (#[trigger] adj@[r])@.len() == n,
        rows_of(adj@) == random_rows(old(rng).0, n as int).0,
        final(rng).0 == random_rows(old(rng).0, n as int).1,
{
    let mut adj: Vec<Vec<u32>> = Vec::new();
    for i in 0..n
        invariant
            adj@.len() == i,
            forall|r: int| 0 <= r < i ==> (#[trigger] adj@[r])@ == Seq::new(n as nat, |j: int| 0u32),
    {
        let mut row: Vec<u32> = Vec::new();
        for j in 0..n
            invariant
                row@.len() == j,
                forall|c: int| 0 <= c < j ==> #[trigger] row@[c] == 0u32,
        {
            row.push(0);
        }
        proof {
            assert(row@ =~= Seq::new(n as nat, |j: int| 0u32));
        }
        adj.push(row);
    }
    let ghost x0 = rng.0;
    proof {
        assert(rows_of(adj@) =~= zero_rows(n as int));
        reveal(random_rows);
    }
    for i in 0..n
        invariant
            adj@.len() == n,
            forall|r: int| 0 <= r < n ==> (#[trigger] adj@[r])@.len() == n,
            fill_from(rng.0, rows_of(adj@), n as int, i as int, i + 1) == random_rows(x0, n as int),
    {
        for j in i + 1..n
            invariant
                i < n,
                adj@.len() == n,
                forall|r: int| 0 <= r < n ==> (#[trigger] adj@[r])@.len() == n,
                fill_from(rng.0, rows_of(adj@), n as int, i as int, j as int) == random_rows(x0, n as int),
        {
            let ghost x_b = rng.0;
            let ghost a_b = rows_of(adj@);
            let m = if rng.next(3) == 0 {
                rng.next(4)
            } else {
                rng.next(2)
            };
            adj[i][j] = m;
            adj[j][i] = m;
            proof {
                assert(draw_mult(x_b) == (m, rng.0));
                let e = set_pair(a_b, i as int, j as int, m);
                assert forall|r: int| 0 <= r < n implies #[trigger] rows_of(adj@)[r] =~= e[r] by {}
                assert(rows_of(adj@) =~= e);
                assert(fill_from(x_b, a_b, n as int, i as int, j as int) == fill_from(rng.0, e, n as int, i as int, j + 1));
            }
        }
        proof {
            assert(fill_from(rng.0, rows_of(adj@), n as int, i as int, n as int) == fill_from(
                rng.0,
                rows_of(adj@),
                n as int,
                i + 1,
                i + 2,
            ));
        }
    }
    proof {
        assert(fill_from(rng.0, rows_of(adj@), n as int, n as int, n + 1) == (rows_of(adj@), rng.0));
        reveal(random_rows);
    }
    adj
}

/// Draws random matrices until one is a valid (connected) multigraph, at
/// most `tries` of them: the graph of the first valid draw, or `None` if
/// none of the `tries` draws is valid.
pub fn random_connected(rng: &mut Lcg, n: usize, tries: u32) -> (r: Option<Graph>)
    ensures
        match r {
            Some(g) => {
                &&& g.wf()
                &&& g.n == n
                &&& exists|k: nat|
                    #![trigger attempt_rows(old(rng).0, n as int, k)]
                    k < tries && attempt_rows(old(rng).0, n as int, k) == rows_of(g.adj@) && final(rng).0 == attempt_state(
                        old(rng).0,
                        n as int,
                        k + 1,
                    ) && forall|k2: nat| k2 < k ==> rows_rejected(#[trigger] attempt_rows(old(rng).0, n as int, k2))
            },
            None => {
                &&& final(rng).0 == attempt_state(old(rng).0, n as int, tries as nat)
                &&& forall|k: nat| k < tries ==> rows_rejected(#[trigger] attempt_rows(old(rng).0, n as int, k))
            },
        },
{
    let ghost x0 = rng.0;
    for t in 0..tries
        invariant
            x0 == old(rng).0,
            rng.0 == attempt_state(x0, n as int, t as nat),
            forall|k: nat| k < t ==> rows_rejected(#[trigger] attempt_rows(x0, n as int, k)),
    {
        let adj = random_matrix(rng, n);
        let ghost rows = rows_of(adj@);
        proof {
            assert(rows == attempt_rows(x0, n as int, t as nat));
            assert(rng.0 == attempt_state(x0, n as int, (t + 1) as nat));
        }
        match Graph::from_matrix(adj) {
            Ok(g) => {
                proof {
                    assert(attempt_rows(x0, n as int, t as nat) == rows_of(g.adj@));
                }
                return Some(g);
            },
            Err(_) => {
                proof {
                    lemma_rejected(adj@);
                }
            },
        }
    }
    None
}

/// The rows of an invalid matrix are rejected.
proof fn lemma_rejected(a: Seq<Vec<u32>>)
    requires
        !valid_matrix(a),
    ensures
        rows_rejected(rows_of(a)),
{
    reveal(rows_rejected);
    assert forall|v: Seq<Vec<u32>>| #[trigger] rows_of(v) == rows_of(a) implies !valid_matrix(v) by {
        lemma_valid_same_rows(v, a);
    }
}

/// Validity depends on the rows alone.
proof fn lemma_valid_same_rows(a: Seq<Vec<u32>>, b: Seq<Vec<u32>>)
    requires
        rows_of(a) == rows_of(b),
    ensures
        valid_matrix(a) == valid_matrix(b),
{
    assert(rows_of(a).len() == a.len() && rows_of(b).len() == b.len());
    assert forall|i: int| 0 <= i < a.len() implies #[trigger] a[i]@ == b[i]@ by {
        assert(rows_of(a)[i] == rows_of(b)[i]);
    }
    if valid_matrix(a) {
        lemma_connected_same_rows(a, b);
        assert forall|i: int| 0 <= i < b.len() implies #[trigger] b[i]@.len() == b.len() by {
            assert(a[i]@ == b[i]@);
        }
        assert forall|i: int| 0 <= i < b.len() implies #[trigger] b[i]@[i] == 0 by {
            assert(a[i]@ == b[i]@);
        }
        assert forall|i: int, j: int| 0 <= i < b.len() && 0 <= j < b.len() implies #[trigger] b[i]@[j] == b[j]@[i] by {
            assert(a[i]@ == b[i]@);
            assert(a[j]@ == b[j]@);
        }
    }
    if valid_matrix(b) {
        lemma_connected_same_rows(b, a);
        assert forall|i: int| 0 <= i < a.len() implies #[trigger] a[i]@.len() == a.len() by {
            assert(a[i]@ == b[i]@);
        }
        assert forall|i: int| 0 <= i < a.len() implies #[trigger] a[i]@[i] == 0 by {
            assert(a[i]@ == b[i]@);
        }
        assert forall|i: int, j: int| 0 <= i < a.len() && 0 <= j < a.len() implies #[trigger] a[i]@[j] == a[j]@[i] by {
            assert(a[i]@ == b[i]@);
            assert(a[j]@ == b[j]@);
        }
    }
}

proof fn lemma_connected_same_rows(a: Seq<Vec<u32>>, b: Seq<Vec<u32>>)
    requires
        a.len() == b.len(),
        forall|i: int| 0 <= i < a.len() ==> #[trigger] a[i]@ == b[i]@,
        crate::graph::is_connected(a),
    ensures
        crate::graph::is_connected(b),
{
    assert forall|s: Set<int>| #[trigger] crate::graph::is_closed(b, s) && s.contains(0) implies forall|v: int|
        0 <= v < b.len() ==> #[trigger] s.contains(v) by {
        let s2 = Set::new(|v: int| s.contains(v) && 0 <= v < a.len());
        assert forall|v: int, w: int|
            #![trigger s2.contains(v), a[v]@[w]]
            s2.contains(v) && 0 <= w < a.len() && a[v]@[w] > 0 implies s2.contains(w) by {
            assert(a[v]@ == b[v]@);
            assert(b[v]@[w] > 0);
            assert(s.contains(v));
        }
        assert(crate::graph::is_closed(a, s2));
        if a.len() > 0 {
            assert(s2.contains(0));
            assert forall|v: int| 0 <= v < b.len() implies #[trigger] s.contains(v) by {
                assert(s2.contains(v));
            }
        }
    }
}

} // verus!
