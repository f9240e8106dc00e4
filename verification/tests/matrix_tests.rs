use dtw_rs::Matrix;

#[test]
fn utils_matrix_new() {
    let dtw = Matrix::<f64>::fill(0_f64, 3, 5);
    assert!(dtw.shape() == (3, 5));
    for i in 0..3 {
        for j in 0..5 {
            assert!(*dtw.get(i, j) == 0_f64);
        }
    }
    let dtw = Matrix::<f64>::fill(f64::MAX, 3, 5);
    assert!(dtw.shape() == (3, 5));
    for i in 0..3 {
        for j in 0..5 {
            assert!(*dtw.get(i, j) == f64::MAX);
        }
    }
}

#[test]
fn utils_matrix_from() {
    let matrix = Matrix::from(vec![1_f64, 2_f64, 3_f64, 4_f64, 5_f64, 6_f64], 2, 3);
    assert!(*matrix.get(0, 0) == 1_f64);
    assert!(*matrix.get(0, 1) == 2_f64);
    assert!(*matrix.get(0, 2) == 3_f64);
    assert!(*matrix.get(1, 0) == 4_f64);
    assert!(*matrix.get(1, 1) == 5_f64);
    assert!(*matrix.get(1, 2) == 6_f64);
}

#[test]
fn utils_matrix_access_index() {
    let data: Vec<f64> = (1..26).map(|i| i as f64).collect();
    let dtw = Matrix::from(data, 5, 5);
    let (rows, cols) = dtw.shape();
    for i in 0..rows {
        for j in 0..cols {
            assert!(*dtw.get(i, j) == (rows * i + j + 1) as f64);
        }
    }
}

#[test]
fn utils_matrix_assign_index() {
    const MATRIX_SIZE: usize = 5;
    for i in 0..MATRIX_SIZE {
        for j in 0..MATRIX_SIZE {
            let mut dtw = Matrix::fill(f64::MAX, MATRIX_SIZE, MATRIX_SIZE);
            dtw.set(i, j, 1.0);
            for k in 0..MATRIX_SIZE {
                for l in 0..MATRIX_SIZE {
                    if i == k && l == j {
                        assert!(*dtw.get(k, l) == 1.0);
                    } else {
                        assert!(*dtw.get(k, l) == f64::MAX);
                    }
                }
            }
        }
    }
}

fn sized_send_sync_unpin_check<T: Sized + Send + Sync + Unpin>() {}

#[test]
fn utils_check_auto_traits() {
    sized_send_sync_unpin_check::<Matrix<f64>>()
}
