use qpark::bij::{edge_ids, mu, out_edge_spins, pi, wilson};
use qpark::dhar;
use qpark::exact;
use qpark::graph::Graph;

fn roundtrip_all(g: &Graph, label: &str) {
    let eids = edge_ids(g);
    let all = dhar::brute_all(g);
    let mut trees: Vec<Vec<i32>> = Vec::new();
    for fv in &all {
        let mut f = vec![0u32; g.n];
        f[1..].copy_from_slice(fv);
        let t = pi(g, &eids, &f);
        // valid arborescence rooted at 0
        for v in 1..g.n {
            assert!(t[v] >= 0 && g.adj[v][t[v] as usize] > 0, "{label}: bad parent");
        }
        let back = mu(g, &eids, &t);
        assert_eq!(back[1..].to_vec(), *fv, "{label}: mu(pi(f)) != f");
        trees.push(t);
    }
    trees.sort();
    trees.dedup();
    assert_eq!(trees.len() as u128, exact::kirchhoff(g), "{label}: pi not onto trees");
}

#[test]
fn bct_bijection_small() {
    roundtrip_all(&Graph::hypercube(2), "q2");
    roundtrip_all(&Graph::hypercube(3), "q3");
}

#[test]
fn bct_bijection_random_simple() {
    // seeded random simple connected graphs
    let mut seed = 424242u64;
    let mut next = || {
        seed = seed.wrapping_mul(6364136223846793005).wrapping_add(1442695040888963407);
        (seed >> 33) as u32
    };
    let mut done = 0;
    while done < 12 {
        let n = 4 + (next() % 3) as usize;
        let mut adj = vec![vec![0u32; n]; n];
        for i in 0..n {
            for j in i + 1..n {
                if next() % 3 > 0 {
                    adj[i][j] = 1;
                    adj[j][i] = 1;
                }
            }
        }
        if let Ok(g) = Graph::from_matrix(adj) {
            roundtrip_all(&g, &format!("rand{done}"));
            done += 1;
        }
    }
}

#[test]
fn wilson_produces_trees() {
    let g = Graph::hypercube(3);
    let eids = edge_ids(&g);
    let mut rng = 7u64;
    for _ in 0..200 {
        let t = wilson(&g, &mut rng);
        for v in 1..g.n {
            assert!(t[v] >= 0 && g.adj[v][t[v] as usize] > 0);
        }
        // tree -> PF -> tree roundtrip
        let f = mu(&g, &eids, &t);
        let t2 = pi(&g, &eids, &f);
        let f2 = mu(&g, &eids, &t2);
        assert_eq!(f, f2);
    }
}

/// Follows parents from every vertex and checks that the root is reached.
fn reaches_root(t: &[i32]) -> bool {
    (0..t.len()).all(|v| {
        let mut x = v;
        for _ in 0..t.len() {
            if x == 0 {
                return true;
            }
            x = t[x] as usize;
        }
        x == 0
    })
}

#[test]
fn wilson_trees_reach_the_root_and_advance_the_generator() {
    let g = Graph::from_matrix(vec![
        vec![0, 2, 0, 1, 0],
        vec![2, 0, 1, 0, 0],
        vec![0, 1, 0, 1, 1],
        vec![1, 0, 1, 0, 0],
        vec![0, 0, 1, 0, 0],
    ])
    .unwrap();
    let mut rng = 12345u64;
    for _ in 0..50 {
        let before = rng;
        let t = wilson(&g, &mut rng);
        assert_eq!(t[0], -1);
        assert!(reaches_root(&t));
        assert_ne!(rng, before);
    }
}

#[test]
fn edge_ids_of_q2() {
    // Q2: edges {0,1}, {0,2}, {1,3}, {2,3} in lexicographic order
    let ids = edge_ids(&Graph::hypercube(2));
    assert_eq!(ids[0], vec![-1, 0, 1, -1]);
    assert_eq!(ids[1], vec![0, -1, -1, 2]);
    assert_eq!(ids[2], vec![1, -1, -1, 3]);
    assert_eq!(ids[3], vec![-1, 2, 3, -1]);
}

#[test]
fn pi_of_zero_function_on_q2() {
    let g = Graph::hypercube(2);
    let eids = edge_ids(&g);
    let t = pi(&g, &eids, &[0, 0, 0, 0]);
    assert_eq!(t[0], -1);
    assert!(reaches_root(&t));
    assert_eq!(mu(&g, &eids, &t), vec![0, 0, 0, 0]);
}

#[test]
fn spins_of_a_star_tree() {
    // every vertex of Q2 hangs off a neighbor: 1 -> 0, 2 -> 0, 3 -> 1
    let spins = out_edge_spins(2, &[-1, 0, 0, 1]);
    assert_eq!(spins, vec![(0, 0), (1, 0), (1, 0)]);
    let spins = out_edge_spins(2, &[-1, 3, 3, 1]);
    assert_eq!(spins, vec![(1, 1), (0, 1), (1, 0)]);
}

#[test]
fn wilson_is_determined_by_graph_and_seed() {
    let g = Graph::hypercube(3);
    for seed in [0u64, 1, 99, u64::MAX] {
        let mut r1 = seed;
        let mut r2 = seed;
        let t1 = wilson(&g, &mut r1);
        let t2 = wilson(&g, &mut r2);
        assert_eq!(t1, t2);
        assert_eq!(r1, r2);
    }
}

#[test]
fn wilson_reaches_every_tree_of_the_triangle() {
    // the three spanning trees of K3 rooted at 0, as parent arrays
    let g = Graph::from_matrix(vec![vec![0, 1, 1], vec![1, 0, 1], vec![1, 1, 0]]).unwrap();
    let mut seen: Vec<Vec<i32>> = Vec::new();
    for seed in 0u64..60 {
        let mut rng = seed;
        let t = wilson(&g, &mut rng);
        assert!(reaches_root(&t));
        if !seen.contains(&t) {
            seen.push(t);
        }
    }
    seen.sort();
    assert_eq!(seen, vec![vec![-1, 0, 0], vec![-1, 0, 1], vec![-1, 2, 0]]);
}
