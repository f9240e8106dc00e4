use dtw_rs::{compute_path, optimize_matrix, DynamicTimeWarping, Element, Matrix, Restriction};

fn abs_diff_grid(a: &[i64], b: &[i64]) -> Matrix<u64> {
    let mut data: Vec<u64> = Vec::new();
    for &x in a {
        for &y in b {
            data.push(x.abs_diff(y));
        }
    }
    Matrix::from(data, a.len(), b.len())
}

#[test]
fn dynamic_programming_compute_matrix_with_example() {
    let a = [1, 3, 9, 2, 1];
    let b = [2, 0, 0, 8, 7, 2];
    let expected_values: Vec<u128> = vec![
        1, 2, 3, 10, 16, 17, 2, 4, 5, 8, 12, 13, 9, 11, 13, 6, 8, 15, 9, 11, 13, 12, 11, 8, 10,
        10, 11, 18, 17, 9,
    ];
    let expected_matrix = Matrix::from(
        expected_values.into_iter().map(Element::Value).collect(),
        5,
        6,
    );

    let local = abs_diff_grid(&a, &b);
    let matrix = optimize_matrix(&local, Restriction::Unrestricted);
    assert!(matrix == expected_matrix);
}

#[test]
fn compute_matrix_restricted_band_with_example() {
    let a = [0i64; 5];
    let b = [0i64; 5];
    let expected_matrix = Matrix::from(
        vec![
            Element::Value(0u128),
            Element::Value(0),
            Element::Inf,
            Element::Inf,
            Element::Inf,
            Element::Value(0),
            Element::Value(0),
            Element::Value(0),
            Element::Inf,
            Element::Inf,
            Element::Inf,
            Element::Value(0),
            Element::Value(0),
            Element::Value(0),
            Element::Inf,
            Element::Inf,
            Element::Inf,
            Element::Value(0),
            Element::Value(0),
            Element::Value(0),
            Element::Inf,
            Element::Inf,
            Element::Inf,
            Element::Value(0),
            Element::Value(0),
        ],
        5,
        5,
    );

    let local = abs_diff_grid(&a, &b);
    let mat = optimize_matrix(&local, Restriction::Band(1));
    for i in 0..5 {
        for j in 0..5 {
            assert_eq!(mat.get(i, j), expected_matrix.get(i, j));
        }
    }
}

#[test]
fn dynamic_programming_compute_path_with_example() {
    let values: Vec<u128> = vec![
        1, 2, 3, 10, 16, 17, 2, 4, 5, 8, 12, 13, 9, 11, 13, 6, 8, 15, 9, 11, 13, 12, 11, 8, 10,
        10, 11, 18, 17, 9,
    ];
    let matrix = Matrix::from(values.into_iter().map(Element::Value).collect(), 5, 6);
    let expected_path = [(0, 0), (0, 1), (1, 2), (2, 3), (2, 4), (3, 5), (4, 5)];
    let founded_path = compute_path(&matrix, 4, 5);
    assert!(expected_path == *founded_path);
}

#[test]
fn partial_ord_element() {
    assert!(Element::Value(-1) < Element::Value(0));
    assert!(Element::Value(0) < Element::Value(1));
    assert!(Element::Value(1) < Element::Inf);
}

#[test]
fn iter_contain_restriction() {
    let shape = (5_usize, 6_usize);
    let no_rest = Restriction::Unrestricted;
    let restriction = Restriction::Band(1);
    let all_indices = no_rest.iter(shape);
    let band_indices = restriction.iter(shape);
    for idx in all_indices.into_iter() {
        assert_eq!(band_indices.contains(&idx), restriction.contains(idx, shape));
    }
}

fn sized_send_sync_unpin_check<T: Sized + Send + Sync + Unpin>() {}

#[test]
fn dynamic_programming_check_auto_traits() {
    sized_send_sync_unpin_check::<DynamicTimeWarping>()
}
