use dtw_rs::{DynamicTimeWarping, Restriction};

#[test]
fn dynamic_time_warping_with_distance_closure() {
    let a = vec![1.0, 3.0, 9.0, 2.0, 1.0];
    let b = vec![2.0, 0.0, 0.0, 8.0, 7.0, 2.0];
    let expected_path = [(0, 0), (0, 1), (1, 2), (2, 3), (2, 4), (3, 5), (4, 5)];
    let expected_distance = 9u128;

    let dtw =
        DynamicTimeWarping::with_closure(&a, &b, |x: f64, y: f64| f64::abs(x - y) as u64).unwrap();

    assert_eq!(dtw.distance().unwrap(), expected_distance);
    assert_eq!(*dtw.path().unwrap(), expected_path);
}

#[test]
fn dynamic_time_warping_with_band_restriction() {
    let a = vec![1i64, 3, 9, 2, 1];
    let b = vec![2i64, 0, 0, 8, 7, 2];
    let expected_path = [(0, 0), (0, 1), (1, 2), (2, 3), (3, 4), (4, 5)];
    let expected_distance = 12u128;

    let dtw = DynamicTimeWarping::with_param(&a, &b, Restriction::Band(1)).unwrap();

    assert_eq!(dtw.distance().unwrap(), expected_distance);
    assert_eq!(*dtw.path().unwrap(), expected_path);
}

#[test]
fn dynamic_time_warping_with_corner_out_of_band() {
    let a = vec![1i64, 3, 9, 2];
    let b = vec![2i64, 0];
    let expected_path = [(0, 0), (1, 0), (2, 0), (3, 1)];
    let expected_distance = 11u128;

    let dtw = DynamicTimeWarping::with_param(&a, &b, Restriction::Band(1)).unwrap();

    assert_eq!(dtw.distance().unwrap(), expected_distance);
    assert_eq!(*dtw.path().unwrap(), expected_path);
}

#[test]
fn dynamic_time_warping_with_band_restricted_and_distance_closure() {
    let a = vec![1.0, 3.0, 9.0, 2.0, 1.0];
    let b = vec![2.0, 0.0, 0.0, 8.0, 7.0, 2.0];
    let expected_path = [(0, 0), (0, 1), (1, 2), (2, 3), (3, 4), (4, 5)];
    let expected_distance = 12u128;

    let dtw = DynamicTimeWarping::with_closure_and_param(
        &a,
        &b,
        |x: f64, y: f64| f64::abs(x - y) as u64,
        Restriction::Band(1),
    )
    .unwrap();

    assert_eq!(dtw.distance().unwrap(), expected_distance);
    assert_eq!(*dtw.path().unwrap(), expected_path);
}
