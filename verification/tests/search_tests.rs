use qpark::burn::{aggregate, collect_boxes, expand_boxes, frontier};
use qpark::dhar::{brute_all, is_parking, maximal_of};
use qpark::exact;
use qpark::graph::Graph;
use qpark::sample::Lcg;

fn check_graph(g: &Graph, label: &str) {
    let (mut all, mut tops) = expand_boxes(g);
    let dup = all.len();
    all.sort();
    all.dedup();
    assert_eq!(all.len(), dup, "{label}: boxes overlap");

    let mut brute = brute_all(g);
    brute.sort();
    assert_eq!(all, brute, "{label}: box union != parking function set");

    let mut brute_max = maximal_of(&brute);
    brute_max.sort();
    tops.sort();
    assert_eq!(tops, brute_max, "{label}: box tops != maximal parking functions");

    let genus = g.genus() as u32;
    assert!(
        tops.iter().all(|t| t.iter().sum::<u32>() == genus),
        "{label}: a maximal PF does not have degree g"
    );

    let agg = aggregate(g);
    assert_eq!(agg.leaves as usize, tops.len(), "{label}: leaf count");
    assert_eq!(agg.trees, brute.len() as u128, "{label}: tree count vs brute PF count");
    assert_eq!(agg.trees, exact::kirchhoff(g), "{label}: tree count vs Matrix-Tree");
    let total: u128 = agg.by_degree.iter().sum();
    assert_eq!(total, agg.trees, "{label}: degree histogram total");
    assert_eq!(*agg.by_degree.last().unwrap(), agg.leaves as u128, "{label}: top degree count");
}

fn random_connected(rng: &mut Lcg, n: usize) -> Graph {
    qpark::sample::random_connected(rng, n, u32::MAX).unwrap()
}

fn sample() -> Graph {
    Graph::from_matrix(vec![
        vec![0, 1, 0, 2],
        vec![1, 0, 1, 1],
        vec![0, 1, 0, 3],
        vec![2, 1, 3, 0],
    ])
    .unwrap()
}

#[test]
fn q2_q3_against_brute_force() {
    for d in 1..=3 {
        check_graph(&Graph::hypercube(d), &format!("q{d}"));
    }
}

#[test]
fn q3_known_counts() {
    let agg = aggregate(&Graph::hypercube(3));
    assert_eq!(agg.leaves, 133);
    assert_eq!(agg.trees, 384);
}

#[test]
fn draft_sample_multigraph() {
    let g = sample();
    check_graph(&g, "sampleMatrix");
    let (_, mut tops) = expand_boxes(&g);
    tops.sort();
    let mut expected = vec![vec![0, 0, 5], vec![0, 3, 2], vec![1, 3, 1], vec![2, 2, 1]];
    expected.sort();
    assert_eq!(tops, expected);
}

#[test]
fn random_multigraphs() {
    let mut rng = Lcg(987654321);
    for i in 0..25 {
        let n = 3 + (i % 4) as usize;
        let g = random_connected(&mut rng, n);
        check_graph(&g, &format!("random#{i}"));
    }
}

#[test]
fn exotic_q3_maximal_function() {
    let (_, q3tops) = expand_boxes(&Graph::hypercube(3));
    assert!(q3tops.contains(&vec![1, 0, 0, 2, 0, 0, 2]));
    assert_eq!(q3tops.len(), 133);
}

#[test]
fn boxes_are_disjoint_and_tops_distinct() {
    let g = sample();
    let boxes = collect_boxes(&g);
    for (i, a) in boxes.iter().enumerate() {
        for b in &boxes[i + 1..] {
            assert_ne!(a.top, b.top);
            assert_ne!(a.order, b.order);
            let overlap = (1..g.n).all(|v| a.bottom[v].max(b.bottom[v]) <= a.top[v].min(b.top[v]));
            assert!(!overlap);
        }
        assert_eq!(a.order[0], 0);
        let mut f = a.top.clone();
        f[0] = 0;
        assert!(is_parking(&g, &f));
    }
}

#[test]
fn identity_order_box_is_the_bct_box() {
    // the box whose burn order is 0, 1, 2, 3 has top deg(v) - 1 on Q2
    let boxes = collect_boxes(&Graph::hypercube(2));
    let b = boxes.iter().find(|b| b.order == vec![0, 1, 2, 3]).unwrap();
    assert_eq!(b.bottom[1..].to_vec(), vec![0, 0, 0]);
    assert_eq!(b.top[1..].to_vec(), vec![0, 0, 1]);
}

#[test]
fn frontier_splits_the_search() {
    let g = Graph::hypercube(3);
    for depth in 1..=8 {
        let states = frontier(&g, depth);
        assert!(!states.is_empty());
    }
}

#[test]
fn parking_checks() {
    let g = Graph::hypercube(2);
    assert!(is_parking(&g, &[0, 0, 0, 0]));
    assert!(is_parking(&g, &[0, 0, 0, 1]));
    assert!(!is_parking(&g, &[0, 1, 1, 0]));
    assert!(!is_parking(&g, &[0, 0, 0, 2]));
    assert_eq!(brute_all(&g).len(), 4);
}

#[test]
fn maximal_of_example() {
    let set = vec![vec![0, 0], vec![1, 0], vec![0, 1], vec![1, 0]];
    assert_eq!(maximal_of(&set), vec![vec![1, 0], vec![0, 1], vec![1, 0]]);
}

#[test]
fn lcg_steps() {
    let mut r = Lcg(1);
    let x = r.next(1000);
    let s = 1u64.wrapping_mul(6364136223846793005).wrapping_add(1442695040888963407);
    assert_eq!(r.0, s);
    assert_eq!(x as u64, (s >> 33) % 1000);
    assert!(r.next(3) < 3);
}

#[test]
fn identity_order_box_on_q3() {
    // on a hypercube every vertex has a smaller neighbor; the identity
    // order's box is 0 <= f(v) <= popcount(v) - 1
    let boxes = collect_boxes(&Graph::hypercube(3));
    let id: Vec<u32> = (0..8).collect();
    let b = boxes.iter().find(|b| b.order == id).unwrap();
    for v in 1..8usize {
        assert_eq!(b.bottom[v], 0);
        assert_eq!(b.top[v], (v as u32).count_ones() - 1);
    }
}

#[test]
fn identity_order_needs_smaller_neighbors() {
    // vertex 1 is joined only to vertex 2, so it cannot burn first
    let g = Graph::from_matrix(vec![vec![0, 0, 1], vec![0, 0, 1], vec![1, 1, 0]]).unwrap();
    let boxes = collect_boxes(&g);
    assert!(boxes.iter().all(|b| b.order != vec![0, 1, 2]));
    assert!(boxes.iter().any(|b| b.order == vec![0, 2, 1]));
}

#[test]
fn random_connected_is_bounded_and_reproducible() {
    let mut rng = Lcg(5);
    assert!(qpark::sample::random_connected(&mut rng, 4, 0).is_none());
    assert_eq!(rng.0, 5);
    // a single vertex is never a valid multigraph: every draw is refused
    assert!(qpark::sample::random_connected(&mut rng, 1, 3).is_none());
    let mut r1 = Lcg(42);
    let mut r2 = Lcg(42);
    let g1 = qpark::sample::random_connected(&mut r1, 5, 1000).unwrap();
    let g2 = qpark::sample::random_connected(&mut r2, 5, 1000).unwrap();
    assert_eq!(g1.adj, g2.adj);
    assert_eq!(r1.0, r2.0);
    assert_eq!(g1.n, 5);
    for i in 0..5 {
        assert_eq!(g1.adj[i][i], 0);
        for j in 0..5 {
            assert_eq!(g1.adj[i][j], g1.adj[j][i]);
            assert!(g1.adj[i][j] <= 3);
        }
    }
}

#[test]
fn random_matrix_draws_in_row_major_order() {
    // replay the generator by hand for the three entries of a 3 x 3 matrix
    let mut rng = Lcg(9);
    let adj = qpark::sample::random_matrix(&mut rng, 3);
    let mut replay = Lcg(9);
    let mut expect = vec![vec![0u32; 3]; 3];
    for i in 0..3 {
        for j in i + 1..3 {
            let m = if replay.next(3) == 0 { replay.next(4) } else { replay.next(2) };
            expect[i][j] = m;
            expect[j][i] = m;
        }
    }
    assert_eq!(adj, expect);
    assert_eq!(rng.0, replay.0);
}

#[test]
fn boxes_come_in_lexicographic_order_of_burn_orders() {
    for g in [Graph::hypercube(2), Graph::hypercube(3), sample()] {
        let boxes = collect_boxes(&g);
        for w in boxes.windows(2) {
            assert!(w[0].order < w[1].order);
        }
    }
    // Q2: the first box burns 1 first, the last one burns 2 first
    let boxes = collect_boxes(&Graph::hypercube(2));
    assert_eq!(boxes.first().unwrap().order[1], 1);
    assert_eq!(boxes.last().unwrap().order[1], 2);
}

#[test]
fn checked_aggregate_matches_aggregate() {
    for g in [Graph::hypercube(2), Graph::hypercube(3), sample()] {
        let a = aggregate(&g);
        let c = qpark::burn::aggregate_checked(&g).unwrap();
        assert_eq!(a.leaves, c.leaves);
        assert_eq!(a.trees, c.trees);
        assert_eq!(a.by_degree, c.by_degree);
    }
    // Q3: 133 maximal parking functions, 384 spanning trees
    let c = qpark::burn::aggregate_checked(&Graph::hypercube(3)).unwrap();
    assert_eq!(c.leaves, 133);
    assert_eq!(c.trees, 384);
}
