use qpark::input::{hypercube_dim, matrix_from_numbers, InputError};

#[test]
fn hypercube_names() {
    assert_eq!(hypercube_dim(b"q3"), Some(Ok(3)));
    assert_eq!(hypercube_dim(b"Q6"), Some(Ok(6)));
    assert_eq!(hypercube_dim(b"q0"), Some(Err(InputError::HypercubeDimension)));
    assert_eq!(hypercube_dim(b"q7"), Some(Err(InputError::HypercubeDimension)));
    assert_eq!(hypercube_dim(b"q"), None);
    assert_eq!(hypercube_dim(b"qx"), None);
    assert_eq!(hypercube_dim(b"q12"), None);
    assert_eq!(hypercube_dim(b"graph.txt"), None);
}

#[test]
fn matrix_files() {
    assert_eq!(matrix_from_numbers(&[]), Err(InputError::EmptyFile));
    assert_eq!(
        matrix_from_numbers(&[2, 0, 1, 1]),
        Err(InputError::WrongCount { expected: 4, n: 2, got: 3 })
    );
    assert_eq!(matrix_from_numbers(&[2, 0, 1, 1, 0]), Ok(vec![vec![0, 1], vec![1, 0]]));
    assert_eq!(matrix_from_numbers(&[0]), Ok(vec![]));
    assert_eq!(
        matrix_from_numbers(&[3, 0, 1, 2, 1, 0, 3, 2, 3, 0]),
        Ok(vec![vec![0, 1, 2], vec![1, 0, 3], vec![2, 3, 0]])
    );
}

#[test]
fn graph_file_numbers() {
    assert_eq!(qpark::input::parse_numbers(b"2\n0 1\n1 0\n"), Ok(vec![2, 0, 1, 1, 0]));
    assert_eq!(qpark::input::parse_numbers(b"  +7\t\r\n 08 4294967295 "), Ok(vec![7, 8, 4294967295]));
    assert_eq!(qpark::input::parse_numbers(b""), Ok(vec![]));
    assert_eq!(qpark::input::parse_numbers(b"3 1x 2"), Err(b"1x".to_vec()));
    assert_eq!(qpark::input::parse_numbers(b"1 4294967296"), Err(b"4294967296".to_vec()));
    assert_eq!(qpark::input::parse_numbers(b"1 + 2"), Err(b"+".to_vec()));
    assert_eq!(qpark::input::parse_numbers(b"-1"), Err(b"-1".to_vec()));
}
