use qpark::exact::{kirchhoff, kirchhoff_checked, stanley_qn_trees};
use qpark::graph::Graph;

#[test]
fn stanley_values() {
    assert_eq!(stanley_qn_trees(1), 1);
    assert_eq!(stanley_qn_trees(2), 4);
    assert_eq!(stanley_qn_trees(3), 384);
    assert_eq!(stanley_qn_trees(4), 42_467_328);
    assert_eq!(stanley_qn_trees(5), 20_776_019_874_734_407_680);
}

#[test]
fn kirchhoff_matches_stanley() {
    for n in 2..=4 {
        assert_eq!(kirchhoff(&Graph::hypercube(n)), stanley_qn_trees(n));
    }
}

#[test]
fn kirchhoff_small_graphs() {
    // a triangle has 3 spanning trees; a doubled edge has 2
    let tri = Graph::from_matrix(vec![vec![0, 1, 1], vec![1, 0, 1], vec![1, 1, 0]]).unwrap();
    assert_eq!(kirchhoff(&tri), 3);
    let dbl = Graph::from_matrix(vec![vec![0, 2], vec![2, 0]]).unwrap();
    assert_eq!(kirchhoff(&dbl), 2);
    // K4 has 16 spanning trees (Cayley)
    let k4 = Graph::from_matrix(vec![
        vec![0, 1, 1, 1],
        vec![1, 0, 1, 1],
        vec![1, 1, 0, 1],
        vec![1, 1, 1, 0],
    ])
    .unwrap();
    assert_eq!(kirchhoff_checked(&k4), Some(16));
    assert_eq!(kirchhoff_checked(&Graph::hypercube(5)), Some(stanley_qn_trees(5)));
}

#[test]
fn kirchhoff_four_cycle() {
    let g = Graph::from_matrix(vec![
        vec![0, 1, 0, 1],
        vec![1, 0, 1, 0],
        vec![0, 1, 0, 1],
        vec![1, 0, 1, 0],
    ])
    .unwrap();
    assert_eq!(kirchhoff(&g), 4);
}
