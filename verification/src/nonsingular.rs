//! The reduced Laplacian of a connected multigraph has no nonzero kernel
//! vector, so a diagonal form `U L V` with invertible `U` and `V` has no
//! zero on its diagonal.
use vstd::prelude::*;

verus! {

use crate::analyze::{is_diag_of, is_left_inverse, is_left_inverse_v, snf_witness, ul, ulv, wu, yv};
use crate::exact::laplacian_model;
use crate::graph::{degree, is_closed, valid_matrix};
use crate::sums::{
    lemma_sum_assoc, lemma_sum_ext, lemma_sum_first, lemma_sum_lin, lemma_sum_point, lemma_sum_scale_left,
    lemma_sum_zero, lemma_sum_zero_iff, sum,
};

/// Entry `t` of `L` times column `k` of `V`.
pub open spec fn l_col(l: Seq<Seq<int>>, v: Seq<Seq<int>>, m: int, t: int, k: int) -> int {
    sum(m, |s: int| l[t][s] * v[s][k])
}

/// A zero on the diagonal of `U L V` with `W U = I` and `Y V = I` gives a
/// nonzero column of `V` that `L` maps to zero.
pub proof fn lemma_zero_factor_kernel(
    u: Seq<Vec<i128>>,
    l: Seq<Seq<int>>,
    v: Seq<Seq<int>>,
    w: Seq<Seq<int>>,
    y: Seq<Seq<int>>,
    f: Seq<i128>,
    m: int,
    k: int,
)
    requires
        snf_witness(u, l, v, w, y, f, m),
        0 <= k < m,
        f[k] == 0,
    ensures
        forall|t: int| 0 <= t < m ==> #[trigger] l_col(l, v, m, t, k) == 0,
        exists|s: int| 0 <= s < m && v[s][k] != 0,
{
    let g = |t: int| l_col(l, v, m, t, k);
    // U (L z) = 0
    assert forall|i: int| #![trigger u[i]] 0 <= i < m implies sum(m, |t: int| u[i]@[t] * g(t)) == 0 by {
        let a = |t: int| u[i]@[t] as int;
        let b = |t: int, s: int| l[t][s];
        let c = |s: int| v[s][k];
        lemma_sum_assoc(m, a, b, c);
        assert forall|t: int| 0 <= t < m implies sum(m, |s: int| b(t, s) * c(s)) == #[trigger] g(t) by {
            lemma_sum_ext(m, |s: int| b(t, s) * c(s), |s: int| l[t][s] * v[s][k]);
        }
        lemma_sum_ext(m, |t: int| a(t) * sum(m, |s: int| b(t, s) * c(s)), |t: int| u[i]@[t] * g(t));
        assert forall|s: int| 0 <= s < m implies sum(m, |t: int| a(t) * b(t, s)) == #[trigger] ul(u, l, m, i, s) by {
            lemma_sum_ext(m, |t: int| a(t) * b(t, s), |t: int| u[i]@[t] * l[t][s]);
        }
        lemma_sum_ext(m, |s: int| sum(m, |t: int| a(t) * b(t, s)) * c(s), |s: int| ul(u, l, m, i, s) * v[s][k]);
        assert(ulv(u, l, v, m, i, k) == 0);
    }
    // L z = W U (L z) = 0
    assert forall|r: int| 0 <= r < m implies #[trigger] g(r) == 0 by {
        let a = |i: int| w[r][i];
        let b = |i: int, t: int| u[i]@[t] as int;
        lemma_sum_assoc(m, a, b, g);
        assert forall|i: int| #![trigger u[i]] 0 <= i < m implies sum(m, |t: int| b(i, t) * g(t)) == 0 by {
            lemma_sum_ext(m, |t: int| b(i, t) * g(t), |t: int| u[i]@[t] * g(t));
        }
        lemma_sum_ext(m, |i: int| a(i) * sum(m, |t: int| b(i, t) * g(t)), |i: int| 0int);
        lemma_sum_zero(m);
        assert forall|t: int| 0 <= t < m implies sum(m, |i: int| a(i) * b(i, t)) == #[trigger] wu(w, u, m, r, t) by {
            lemma_sum_ext(m, |i: int| a(i) * b(i, t), |i: int| w[r][i] * u[i]@[t]);
        }
        let h = |t: int| sum(m, |i: int| a(i) * b(i, t)) * g(t);
        assert forall|t: int| 0 <= t < m && t != r implies #[trigger] h(t) == 0 by {
            assert(wu(w, u, m, r, t) == 0);
        }
        lemma_sum_point(m, h, r);
        assert(wu(w, u, m, r, r) == 1);
    }
    assert forall|t: int| 0 <= t < m implies #[trigger] l_col(l, v, m, t, k) == 0 by {
        assert(g(t) == 0);
    }
    // the column is not zero: (Y V)[k][k] = 1
    if forall|s: int| 0 <= s < m ==> v[s][k] == 0 {
        lemma_sum_ext(m, |s: int| y[k][s] * v[s][k], |s: int| 0int);
        lemma_sum_zero(m);
        assert(yv(y, v, m, k, k) == 1);
    }
}

/// `z` extended by 0 at the root.
pub open spec fn with_root(z: spec_fn(int) -> int) -> spec_fn(int) -> int {
    |x: int| if x == 0 { 0 } else { z(x - 1) }
}

/// Row `t` of `L z` as a sum over the edges at vertex `t + 1`.
proof fn lemma_lap_row(a: Seq<Vec<u32>>, z: spec_fn(int) -> int, t: int)
    requires
        valid_matrix(a),
        0 <= t < a.len() - 1,
    ensures
        sum(a.len() - 1, |s: int| laplacian_model(a)[t][s] * z(s)) == sum(
            a.len() as int,
            |x: int| a[t + 1]@[x] * (with_root(z)(t + 1) - with_root(z)(x)),
        ),
{
    let n = a.len() as int;
    let m = n - 1;
    let l = laplacian_model(a);
    let zz = with_root(z);
    let vt = t + 1;
    let d = degree(a, vt);
    // left side
    let p = |s: int| if s == t { d * z(t) } else { 0 };
    let q = |s: int| a[vt]@[s + 1] * z(s);
    assert forall|s: int| 0 <= s < m implies #[trigger] (l[t][s] * z(s)) == p(s) - 1 * q(s) by {
        assert(l[t] == Seq::new(m as nat, |j: int| if t == j { degree(a, t + 1) } else { -(a[t + 1]@[j + 1] as int) }));
        if s == t {
            assert(a[vt]@[vt] == 0);
            assert(l[t][s] == d);
            assert(q(s) == 0) by (nonlinear_arith)
                requires
                    q(s) == a[vt]@[s + 1] * z(s),
                    a[vt]@[s + 1] == 0,
            ;
        } else {
            let e = a[vt]@[s + 1] as int;
            assert(l[t][s] == -e);
            assert((-e) * z(s) == 0 - 1 * (e * z(s))) by (nonlinear_arith);
        }
    }
    lemma_sum_lin(m, p, q, 1);
    lemma_sum_ext(m, |s: int| l[t][s] * z(s), |s: int| p(s) - 1 * q(s));
    lemma_sum_point(m, p, t);
    // right side
    let r1 = |x: int| zz(vt) * (a[vt]@[x] as int);
    let r2 = |x: int| a[vt]@[x] * zz(x);
    assert forall|x: int| 0 <= x < n implies #[trigger] (a[vt]@[x] * (zz(vt) - zz(x))) == r1(x) - 1 * r2(x) by {
        assert(a[vt]@[x] * (zz(vt) - zz(x)) == zz(vt) * a[vt]@[x] - a[vt]@[x] * zz(x)) by (nonlinear_arith);
    }
    lemma_sum_lin(n, r1, r2, 1);
    lemma_sum_ext(n, |x: int| a[vt]@[x] * (zz(vt) - zz(x)), |x: int| r1(x) - 1 * r2(x));
    let fa = |x: int| a[vt]@[x] as int;
    lemma_sum_scale_left(n, zz(vt), fa);
    lemma_sum_ext(n, |i: int| zz(vt) * fa(i), r1);
    lemma_sum_ext(n, fa, |w: int| a[vt]@[w] as int);
    assert(sum(n, fa) == d);
    lemma_sum_first(n, r2);
    lemma_sum_ext(m, |i: int| r2(i + 1), q);
    assert(zz(vt) == z(t));
    assert(zz(0) == 0);
    assert(r2(0) == 0) by (nonlinear_arith)
        requires
            r2(0) == a[vt]@[0] * zz(0),
            zz(0) == 0,
    ;
    assert(d * z(t) == z(t) * d) by (nonlinear_arith);
    assert(sum(m, |s: int| l[t][s] * z(s)) == d * z(t) - sum(m, q));
    assert(sum(n, r2) == sum(m, q));
    assert(sum(n, r1) == z(t) * d);
    assert(sum(n, |x: int| a[vt]@[x] * (zz(vt) - zz(x))) == z(t) * d - sum(m, q));
}

/// The index of a largest value among `f(0)`, .., `f(n - 1)`.
pub open spec fn max_index(f: spec_fn(int) -> int, n: int) -> int
    decreases n,
{
    if n <= 1 {
        0
    } else {
        let j = max_index(f, n - 1);
        if f(n - 1) > f(j) {
            n - 1
        } else {
            j
        }
    }
}

proof fn lemma_max_index(f: spec_fn(int) -> int, n: int)
    requires
        n >= 1,
    ensures
        0 <= max_index(f, n) < n,
        forall|x: int| 0 <= x < n ==> #[trigger] f(x) <= f(max_index(f, n)),
    decreases n,
{
    if n > 1 {
        lemma_max_index(f, n - 1);
    }
}

/// A kernel vector of the reduced Laplacian of a connected multigraph has
/// no positive entry.
proof fn lemma_kernel_nonpos(a: Seq<Vec<u32>>, z: spec_fn(int) -> int)
    requires
        valid_matrix(a),
        forall|t: int| #![trigger laplacian_model(a)[t]] 0 <= t < a.len() - 1 ==> sum(a.len() - 1, |s: int| laplacian_model(a)[t][s] * z(s)) == 0,
    ensures
        forall|s: int| 0 <= s < a.len() - 1 ==> #[trigger] z(s) <= 0,
{
    let n = a.len() as int;
    let zz = with_root(z);
    lemma_max_index(zz, n);
    let p = max_index(zz, n);
    let mx = zz(p);
    if mx > 0 {
        let tset = Set::new(|x: int| 0 <= x < n && zz(x) < mx);
        assert(tset.contains(0));
        assert forall|x: int, y: int|
            #![trigger tset.contains(x), a[x]@[y]]
            tset.contains(x) && 0 <= y < a.len() && a[x]@[y] > 0 implies tset.contains(y) by {
            assert(zz(y) <= mx);
            if zz(y) == mx {
                assert(y != 0);
                let t = y - 1;
                lemma_lap_row(a, z, t);
                let e = |x2: int| a[y]@[x2] * (zz(y) - zz(x2));
                assert forall|x2: int| 0 <= x2 < n implies #[trigger] e(x2) >= 0 by {
                    assert(zz(x2) <= mx);
                    assert(a[y]@[x2] * (zz(y) - zz(x2)) >= 0) by (nonlinear_arith)
                        requires
                            zz(y) - zz(x2) >= 0,
                            a[y]@[x2] >= 0,
                    ;
                }
                lemma_sum_ext(n, |x2: int| a[y]@[x2] * (with_root(z)(y) - with_root(z)(x2)), e);
                lemma_sum_zero_iff(n, e);
                assert(e(x) == 0);
                assert(a[y]@[x] == a[x]@[y]);
                assert(a[y]@[x] * (zz(y) - zz(x)) > 0) by (nonlinear_arith)
                    requires
                        zz(y) - zz(x) > 0,
                        a[y]@[x] > 0,
                ;
            }
        }
        assert(is_closed(a, tset));
        assert(tset.contains(p));
    }
    assert forall|s: int| 0 <= s < a.len() - 1 implies #[trigger] z(s) <= 0 by {
        assert(zz(s + 1) == z(s));
        assert(zz(s + 1) <= mx);
    }
}

/// The reduced Laplacian of a connected multigraph maps only the zero
/// vector to zero.
pub proof fn lemma_laplacian_kernel(a: Seq<Vec<u32>>, z: spec_fn(int) -> int)
    requires
        valid_matrix(a),
        forall|t: int| #![trigger laplacian_model(a)[t]] 0 <= t < a.len() - 1 ==> sum(a.len() - 1, |s: int| laplacian_model(a)[t][s] * z(s)) == 0,
    ensures
        forall|s: int| 0 <= s < a.len() - 1 ==> #[trigger] z(s) == 0,
{
    let m = a.len() - 1;
    let l = laplacian_model(a);
    let nz = |s: int| -z(s);
    assert forall|t: int| #![trigger l[t]] 0 <= t < m implies sum(m, |s: int| l[t][s] * nz(s)) == 0 by {
        let f = |s: int| l[t][s] * z(s);
        lemma_sum_scale_left(m, -1, f);
        assert forall|s: int| 0 <= s < m implies -1 * #[trigger] f(s) == l[t][s] * nz(s) by {
            assert(-1 * (l[t][s] * z(s)) == l[t][s] * (-z(s))) by (nonlinear_arith);
        }
        lemma_sum_ext(m, |s: int| -1 * f(s), |s: int| l[t][s] * nz(s));
        assert(sum(m, |s: int| l[t][s] * z(s)) == 0);
    }
    lemma_kernel_nonpos(a, z);
    lemma_kernel_nonpos(a, nz);
    assert forall|s: int| 0 <= s < m implies #[trigger] z(s) == 0 by {
        assert(nz(s) <= 0);
    }
}

/// Every diagonal entry of a diagonal form `U L V` of the reduced Laplacian
/// of a connected multigraph, with `U` and `V` invertible, is nonzero.
pub proof fn lemma_no_zero_factor(
    adj: Seq<Vec<u32>>,
    u: Seq<Vec<i128>>,
    v: Seq<Seq<int>>,
    w: Seq<Seq<int>>,
    y: Seq<Seq<int>>,
    f: Seq<i128>,
)
    requires
        valid_matrix(adj),
        snf_witness(u, laplacian_model(adj), v, w, y, f, adj.len() - 1),
    ensures
        forall|k: int| 0 <= k < adj.len() - 1 ==> #[trigger] f[k] != 0,
{
    let m = adj.len() - 1;
    let l = laplacian_model(adj);
    assert forall|k: int| 0 <= k < m implies #[trigger] f[k] != 0 by {
        if f[k] == 0 {
            lemma_zero_factor_kernel(u, l, v, w, y, f, m, k);
            let z = |s: int| v[s][k];
            assert forall|t: int| #![trigger l[t]] 0 <= t < m implies sum(m, |s: int| l[t][s] * z(s)) == 0 by {
                assert(l_col(l, v, m, t, k) == 0);
                lemma_sum_ext(m, |s: int| l[t][s] * z(s), |s: int| l[t][s] * v[s][k]);
            }
            lemma_laplacian_kernel(adj, z);
            let s0 = choose|s: int| 0 <= s < m && v[s][k] != 0;
            assert(z(s0) == 0);
        }
    }
}

} // verus!
