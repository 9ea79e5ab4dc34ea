use qpark::analyze::{boxmap_experiment, mobius_experiment, orbit_census, pack, reduced_laplacian, sandpile_group};
use qpark::burn::collect_boxes;
use qpark::dhar;
use qpark::graph::Graph;
use std::collections::HashSet;

#[test]
fn snf_q3_group() {
    let g = Graph::hypercube(3);
    let sp = sandpile_group(&g).unwrap();
    assert_eq!(sp.order(), 384);
    // Bai Thm 1.1: K(Q_n) has exactly 2^(n-1) - 1 nontrivial invariant factors
    assert_eq!(sp.invariants().len(), 3);
    // parking functions are coset representatives: classes all distinct
    let all = dhar::brute_all(&g);
    let mut keys: Vec<u128> = all.iter().map(|f| sp.class_key(f)).collect();
    keys.sort_unstable();
    keys.dedup();
    assert_eq!(keys.len(), 384);
}

#[test]
fn mobius_q2_q3() {
    for d in 2..=3 {
        let g = Graph::hypercube(d);
        let r = mobius_experiment(&g).unwrap();
        assert_eq!(r.identity_lhs, r.total as i128, "crosscut identity q{d}");
        assert!(r.lemma_412_holds, "Lemma 4.12 q{d}");
    }
}

fn packed_tops(g: &Graph) -> Vec<u64> {
    collect_boxes(g).iter().map(|b| pack(&b.top[1..])).collect()
}

#[test]
fn orbits_q3() {
    let g = Graph::hypercube(3);
    let packed = packed_tops(&g);
    let r = orbit_census(3, &packed);
    assert_eq!(r.items, 133);
    let total: usize = r.size_histogram.iter().map(|(s, c)| s * c).sum();
    assert_eq!(total, 133);
}

/// Orbit count computed directly: the set of least images under all
/// coordinate permutations of Q3.
fn direct_orbit_count(keys: &[u64]) -> usize {
    let perms: [[usize; 3]; 6] = [[0, 1, 2], [0, 2, 1], [1, 0, 2], [1, 2, 0], [2, 0, 1], [2, 1, 0]];
    let mut canon = HashSet::new();
    for &k in keys {
        let mut best = u64::MAX;
        for p in &perms {
            let mut img = 0u64;
            for v in 1..8usize {
                let mut w = 0usize;
                for b in 0..3 {
                    if v >> b & 1 == 1 {
                        w |= 1 << p[b];
                    }
                }
                let x = (k >> (2 * (v - 1))) & 3;
                img |= x << (2 * (w - 1));
            }
            best = best.min(img);
        }
        canon.insert(best);
    }
    canon.len()
}

#[test]
fn orbits_q3_match_direct_count() {
    let packed = packed_tops(&Graph::hypercube(3));
    let r = orbit_census(3, &packed);
    assert_eq!(r.orbits, direct_orbit_count(&packed));
    let runs: usize = r.size_histogram.iter().map(|(_, c)| c).sum();
    assert_eq!(runs, r.orbits);
    assert!(r.size_histogram.windows(2).all(|w| w[0].0 < w[1].0));
    // the orbit of the identity-order top has every size dividing 3! = 6
    assert!(r.size_histogram.iter().all(|(s, _)| 6 % s == 0));
}

#[test]
fn orbits_of_repeated_keys() {
    // two copies of one key and one other key of Q2: Q2 has two coordinate
    // permutations, swapping vertices 1 and 2
    let a = pack(&[1, 0, 0]);
    let b = pack(&[0, 1, 0]);
    let c = pack(&[0, 0, 1]);
    let r = orbit_census(2, &[a, b, c, a]);
    assert_eq!(r.items, 4);
    assert_eq!(r.orbits, 2);
    assert_eq!(r.size_histogram, vec![(1, 1), (3, 1)]);
}

#[test]
fn pack_fields() {
    let k = pack(&[3, 0, 2, 1]);
    assert_eq!(k, 3 | (2 << 4) | (1 << 6));
    assert_eq!(pack(&[]), 0);
}

#[test]
fn reduced_laplacian_of_q2() {
    let l = reduced_laplacian(&Graph::hypercube(2));
    assert_eq!(l, vec![vec![2, 0, -1], vec![0, 2, -1], vec![-1, -1, 2]]);
}

#[test]
fn sandpile_of_small_graphs() {
    // a cycle of length 4 has cyclic sandpile group Z_4
    let c4 = Graph::hypercube(2);
    let sp = sandpile_group(&c4).unwrap();
    assert_eq!(sp.invariants(), vec![4]);
    assert_eq!(sp.order(), 4);
    assert!(sp.factors.iter().all(|&d| d >= 0));
    // K4: Z_4 x Z_4
    let k4 = Graph::from_matrix(vec![
        vec![0, 1, 1, 1],
        vec![1, 0, 1, 1],
        vec![1, 1, 0, 1],
        vec![1, 1, 1, 0],
    ])
    .unwrap();
    let sp = sandpile_group(&k4).unwrap();
    assert_eq!(sp.invariants(), vec![4, 4]);
    assert_eq!(sp.order(), 16);
}

#[test]
fn q4_sandpile_order() {
    let g = Graph::hypercube(4);
    let sp = sandpile_group(&g).unwrap();
    assert_eq!(sp.order(), 42_467_328);
    // 2^(4-1) - 1 nontrivial invariant factors
    assert_eq!(sp.invariants().len(), 7);
}

#[test]
fn key_add_is_group_addition() {
    let g = Graph::hypercube(3);
    let sp = sandpile_group(&g).unwrap();
    let all = dhar::brute_all(&g);
    let zero = sp.class_key(&[0; 7]);
    for f in all.iter().take(40) {
        for h in all.iter().skip(100).take(10) {
            let sum: Vec<u32> = f.iter().zip(h).map(|(x, y)| x + y).collect();
            assert_eq!(sp.key_add(sp.class_key(f), sp.class_key(h)), sp.class_key(&sum));
        }
        assert_eq!(sp.key_add(sp.class_key(f), zero), sp.class_key(f));
    }
}

#[test]
fn boxmap_q2_q3() {
    for d in 2..=3u32 {
        let g = Graph::hypercube(d);
        let sp = sandpile_group(&g).unwrap();
        let r = boxmap_experiment(&g, d, &sp).unwrap();
        let vol: u128 = (1..g.n).map(|v| (v as u32).count_ones() as u128).product();
        assert_eq!(r.box_volume, vol);
        assert_eq!(r.distinct_classes as u128, r.box_volume);
        assert!(r.contains_zero);
        assert_eq!(r.group_order, sp.order());
        let even = sp.invariants().iter().filter(|&&x| x % 2 == 0).count();
        assert_eq!(r.two_rank, even);
        assert!(r.is_subgroup.is_some());
    }
}

#[test]
fn snf_factors_form_a_chain() {
    for g in [Graph::hypercube(3), Graph::hypercube(4)] {
        let sp = sandpile_group(&g).unwrap();
        let f = &sp.factors;
        for i in 0..f.len() {
            for j in i + 1..f.len() {
                if f[i] == 0 {
                    assert_eq!(f[j], 0);
                } else {
                    assert_eq!(f[j] % f[i], 0);
                }
            }
        }
    }
}

#[test]
fn order_is_the_product_of_the_invariants() {
    for g in [Graph::hypercube(2), Graph::hypercube(3), Graph::hypercube(4)] {
        let sp = sandpile_group(&g).unwrap();
        assert!(sp.factors.iter().all(|&d| d >= 1));
        let prod: u128 = sp.invariants().iter().map(|&d| d as u128).product();
        assert_eq!(prod, sp.order());
    }
    // diag(2, 3) reduces to the cyclic group of order 6
    let g = Graph::from_matrix(vec![vec![0, 2, 3], vec![2, 0, 0], vec![3, 0, 0]]).unwrap();
    let sp = sandpile_group(&g).unwrap();
    assert_eq!(sp.invariants(), vec![6]);
    assert_eq!(sp.order(), 6);
}

#[test]
fn hypercube_sandpile_invariants() {
    assert_eq!(sandpile_group(&Graph::hypercube(3)).unwrap().invariants(), vec![2, 8, 24]);
    assert_eq!(sandpile_group(&Graph::hypercube(4)).unwrap().invariants(), vec![2, 2, 8, 24, 24, 24, 96]);
}

#[test]
fn key_add_commutes() {
    let g = Graph::hypercube(3);
    let sp = sandpile_group(&g).unwrap();
    let all = dhar::brute_all(&g);
    for f in all.iter().take(30) {
        for h in all.iter().skip(200).take(5) {
            let (a, b) = (sp.class_key(f), sp.class_key(h));
            assert_eq!(sp.key_add(a, b), sp.key_add(b, a));
        }
    }
}

#[test]
fn key_group_laws_on_q3() {
    let g = Graph::hypercube(3);
    let sp = sandpile_group(&g).unwrap();
    let order = sp.order();
    assert_eq!(sp.class_key(&[0; 7]), 0);
    let all = dhar::brute_all(&g);
    let keys: Vec<u128> = all.iter().take(25).map(|f| sp.class_key(f)).collect();
    for &a in &keys {
        assert!(a < order);
        assert_eq!(sp.key_add(a, 0), a);
        for &b in keys.iter().take(6) {
            let s = sp.key_add(a, b);
            assert!(s < order);
            for &c in keys.iter().skip(10).take(4) {
                assert_eq!(sp.key_add(s, c), sp.key_add(a, sp.key_add(b, c)));
            }
        }
    }
}

#[test]
fn maximal_pf_classes_are_distinct() {
    for d in 2..=3 {
        let g = Graph::hypercube(d);
        let sp = sandpile_group(&g).unwrap();
        let keys = qpark::analyze::top_class_keys(&g, &sp).unwrap();
        assert_eq!(keys.len(), collect_boxes(&g).len());
        assert_eq!(qpark::analyze::distinct_sorted(&keys).len(), keys.len());
    }
}

#[test]
fn distinct_sorted_values() {
    assert_eq!(qpark::analyze::distinct_sorted(&vec![5, 1, 5, 3, 1, 9, 0]), vec![0, 1, 3, 5, 9]);
    assert_eq!(qpark::analyze::distinct_sorted(&vec![]), Vec::<u128>::new());
    assert_eq!(qpark::analyze::distinct_sorted(&vec![7, 7, 7]), vec![7]);
}

#[test]
fn orbit_histogram_lists_only_sizes_that_occur() {
    let r = orbit_census(3, &[]);
    assert_eq!(r.items, 0);
    assert_eq!(r.orbits, 0);
    assert!(r.size_histogram.is_empty());
    let g = Graph::hypercube(3);
    let packed = packed_tops(&g);
    let r = orbit_census(3, &packed);
    assert_eq!(r.orbits, 27);
    assert_eq!(r.size_histogram, vec![(1, 1), (3, 8), (6, 18)]);
    assert!(r.size_histogram.iter().all(|&(_, c)| c >= 1));
}

#[test]
fn mobius_histogram_counts_are_positive() {
    let r = mobius_experiment(&Graph::hypercube(3)).unwrap();
    assert!(!r.by_degree.is_empty());
    assert!(r.by_degree.iter().all(|&(_, _, c)| c >= 1));
    let total: usize = r.by_degree.iter().map(|&(_, _, c)| c).sum();
    assert_eq!(total, r.total);
}
