use qpark::graph::{vertex_mask, Graph, GraphError};

#[test]
fn hypercube_basics() {
    let q3 = Graph::hypercube(3);
    assert_eq!(q3.n, 8);
    assert!((0..8).all(|v| q3.weighted_degree(v) == 3));
    assert_eq!(q3.weighted_edges(), 12);
    assert_eq!(q3.genus(), 5);
}

#[test]
fn rejects_disconnected() {
    let m = vec![vec![0, 1, 0, 0], vec![1, 0, 0, 0], vec![0, 0, 0, 1], vec![0, 0, 1, 0]];
    assert!(Graph::from_matrix(m).is_err());
}

#[test]
fn from_matrix_errors() {
    assert_eq!(Graph::from_matrix(vec![vec![0]]).err(), Some(GraphError::TooFewVertices));
    assert_eq!(Graph::from_matrix(vec![vec![0u32; 65]; 65]).err(), Some(GraphError::TooManyVertices));
    assert_eq!(
        Graph::from_matrix(vec![vec![0, 1], vec![1]]).err(),
        Some(GraphError::RowLength { row: 1, len: 1, n: 2 })
    );
    assert_eq!(
        Graph::from_matrix(vec![vec![0, 1], vec![1, 2]]).err(),
        Some(GraphError::NonzeroDiagonal { vertex: 1 })
    );
    assert_eq!(
        Graph::from_matrix(vec![vec![0, 1, 1], vec![2, 0, 1], vec![1, 1, 0]]).err(),
        Some(GraphError::NotSymmetric { row: 0, col: 1 })
    );
    let m = vec![vec![0, 1, 0, 0], vec![1, 0, 0, 0], vec![0, 0, 0, 1], vec![0, 0, 1, 0]];
    assert_eq!(Graph::from_matrix(m).err(), Some(GraphError::Disconnected));
}

#[test]
fn from_matrix_accepts_multigraph() {
    let g = Graph::from_matrix(vec![vec![0, 2, 1], vec![2, 0, 0], vec![1, 0, 0]]).unwrap();
    assert_eq!(g.n, 3);
    assert_eq!(g.weighted_degree(0), 3);
    assert_eq!(g.weighted_edges(), 3);
    assert_eq!(g.genus(), 1);
    assert_eq!(g.nbr, vec![0b110, 0b001, 0b001]);
}

#[test]
fn genus_of_tree_is_zero() {
    let g = Graph::from_matrix(vec![vec![0, 1, 1], vec![1, 0, 0], vec![1, 0, 0]]).unwrap();
    assert_eq!(g.genus(), 0);
}

#[test]
fn hypercube_edges_and_genus() {
    for d in 1..=6u32 {
        let q = Graph::hypercube(d);
        let n = 1u64 << d;
        assert_eq!(q.n as u64, n);
        assert_eq!(q.weighted_edges(), d as u64 * n / 2);
        assert_eq!(q.genus(), d as u64 * n / 2 - n + 1);
        assert_eq!(q.adj[0][1], 1);
        if d >= 2 {
            assert_eq!(q.adj[0][3], 0);
        }
    }
}

#[test]
fn vertex_masks() {
    assert_eq!(vertex_mask(0), 0);
    assert_eq!(vertex_mask(3), 0b111);
    assert_eq!(vertex_mask(64), u64::MAX);
}
