use dtw_rs::{Distance, DynamicTimeWarping, Element, Error, Restriction};
use std::cmp::Ordering;

#[test]
fn unrestricted_example_with_default_metric() {
    let a = vec![1i64, 3, 9, 2, 1];
    let b = vec![2i64, 0, 0, 8, 7, 2];

    let dtw = DynamicTimeWarping::between(&a, &b).unwrap();

    assert_eq!(dtw.distance().unwrap(), 9u128);
    assert_eq!(
        dtw.path().unwrap(),
        vec![(0, 0), (0, 1), (1, 2), (2, 3), (2, 4), (3, 5), (4, 5)]
    );
}

#[test]
fn band_distance_non_increasing_in_radius() {
    let a = vec![1i64, 3, 9, 2, 1];
    let b = vec![2i64, 0, 0, 8, 7, 2];
    let unrestricted = DynamicTimeWarping::between(&a, &b)
        .unwrap()
        .distance()
        .unwrap();

    // An infeasible band has no distance; it sits above every finite one.
    let mut previous = u128::MAX;
    for radius in 0..8usize {
        let dtw = DynamicTimeWarping::with_param(&a, &b, Restriction::Band(radius)).unwrap();
        let d = match dtw.distance() {
            Ok(v) => v,
            Err(_) => u128::MAX,
        };
        assert!(d <= previous);
        assert!(d >= unrestricted);
        previous = d;
    }
    // The radius now covers both sequence lengths, so the band no longer
    // restricts anything.
    let wide = DynamicTimeWarping::with_param(&a, &b, Restriction::Band(6)).unwrap();
    assert_eq!(wide.distance().unwrap(), unrestricted);
}

#[test]
fn band_distance_at_least_unrestricted() {
    let a = vec![1i64, 3, 9, 2, 1];
    let b = vec![2i64, 0, 0, 8, 7, 2];
    let banded = DynamicTimeWarping::with_param(&a, &b, Restriction::Band(1)).unwrap();
    let unrestricted = DynamicTimeWarping::between(&a, &b).unwrap();
    assert_eq!(banded.distance().unwrap(), 12);
    assert_eq!(unrestricted.distance().unwrap(), 9);
    assert!(banded.distance().unwrap() >= unrestricted.distance().unwrap());
}

#[test]
fn self_alignment_identity() {
    let a = vec![3i64, 1, 4, 1, 5, 9];

    let dtw = DynamicTimeWarping::between(&a, &a).unwrap();

    assert_eq!(dtw.distance().unwrap(), 0u128);
    assert_eq!(
        dtw.path().unwrap(),
        vec![(0, 0), (1, 1), (2, 2), (3, 3), (4, 4), (5, 5)]
    );
}

#[test]
fn self_alignment_identity_under_band() {
    let a = vec![7i64, -2, 0, 40];

    let dtw = DynamicTimeWarping::with_param(&a, &a, Restriction::Band(0)).unwrap();

    assert_eq!(dtw.distance().unwrap(), 0u128);
    assert_eq!(dtw.path().unwrap(), vec![(0, 0), (1, 1), (2, 2), (3, 3)]);
}

#[test]
fn singleton_boundary() {
    let a = vec![5i64];
    let b = vec![9i64];
    let restrictions = [
        Restriction::Unrestricted,
        Restriction::Band(0),
        Restriction::Band(3),
    ];
    for restriction in restrictions {
        let dtw = DynamicTimeWarping::with_param(&a, &b, restriction).unwrap();
        assert_eq!(dtw.distance().unwrap(), 4u128);
        assert_eq!(dtw.path().unwrap(), vec![(0, 0)]);
    }
}

#[test]
fn bounds_check() {
    let a = vec![1i64, 3, 9, 2, 1];
    let b = vec![2i64, 0, 0, 8, 7, 2];
    let dtw = DynamicTimeWarping::between(&a, &b).unwrap();

    assert_eq!(dtw.path_from(5, 0), Err(Error::IndexOutOfBounds));
    assert_eq!(dtw.path_from(0, 6), Err(Error::IndexOutOfBounds));
    assert!(dtw.path_from(4, 5).is_ok());
}

#[test]
fn empty_inputs_rejected() {
    let empty: Vec<i64> = vec![];
    let b = vec![1i64, 2];
    assert_eq!(
        DynamicTimeWarping::between(&empty, &b),
        Err(Error::InvalidDimensions)
    );
    assert_eq!(
        DynamicTimeWarping::between(&b, &empty),
        Err(Error::InvalidDimensions)
    );
    assert_eq!(
        DynamicTimeWarping::between(&empty, &empty),
        Err(Error::InvalidDimensions)
    );
}

#[test]
fn narrow_band_infeasible_terminal() {
    // With two rows and five columns, a radius of zero admits only the two
    // band centers (0, 0) and (1, 4), so nothing reaches the terminal.
    let a = vec![0i64, 0];
    let b = vec![0i64, 0, 0, 0, 0];
    let dtw = DynamicTimeWarping::with_param(&a, &b, Restriction::Band(0)).unwrap();

    assert_eq!(dtw.distance(), Err(Error::InfeasibleBand));
    assert_eq!(dtw.path(), Err(Error::InfeasibleBand));
    assert_eq!(dtw.path_from(1, 0), Err(Error::InfeasibleBand));
    assert_eq!(dtw.path_from(0, 0).unwrap(), vec![(0, 0)]);
}

#[test]
fn degenerate_single_row_band() {
    let rest = Restriction::Band(1);
    let shape = (1usize, 4usize);
    assert!(rest.contains((0, 0), shape));
    assert!(rest.contains((0, 1), shape));
    assert!(!rest.contains((0, 2), shape));
    assert!(!rest.contains((0, 3), shape));
    assert_eq!(rest.iter(shape), vec![(0, 0), (0, 1)]);
}

#[test]
fn unrestricted_cells_are_row_major() {
    let cells = Restriction::Unrestricted.iter((2, 3));
    assert_eq!(
        cells,
        vec![(0, 0), (0, 1), (0, 2), (1, 0), (1, 1), (1, 2)]
    );
}

#[test]
fn band_cells_on_square_grid() {
    let cells = Restriction::Band(1).iter((5, 5));
    assert_eq!(
        cells,
        vec![
            (0, 0),
            (0, 1),
            (1, 0),
            (1, 1),
            (1, 2),
            (2, 1),
            (2, 2),
            (2, 3),
            (3, 2),
            (3, 3),
            (3, 4),
            (4, 3),
            (4, 4),
        ]
    );
}

#[test]
fn element_order_is_partial() {
    let inf = Element::<i64>::Inf;
    assert_eq!(inf.partial_cmp(&Element::Inf), None);
    assert!(!(Element::<i64>::Inf < Element::Inf));
    assert!(!(Element::<i64>::Inf > Element::Inf));
    assert_eq!(
        Element::Value(3i64).partial_cmp(&Element::Inf),
        Some(Ordering::Less)
    );
    assert_eq!(
        Element::<i64>::Inf.partial_cmp(&Element::Value(3)),
        Some(Ordering::Greater)
    );
    assert_eq!(
        Element::Value(2i64).partial_cmp(&Element::Value(2)),
        Some(Ordering::Equal)
    );
}

#[test]
fn default_metric_is_absolute_difference() {
    assert_eq!(5i64.distance(&-3), 8u64);
    assert_eq!((-3i64).distance(&5), 8u64);
    assert_eq!(0i64.distance(&0), 0u64);
    assert_eq!(i64::MAX.distance(&i64::MIN), u64::MAX);
}

#[test]
fn large_costs_accumulate_without_overflow() {
    let a = vec![0u8, 0];
    let b = vec![0u8, 0];
    let dtw = DynamicTimeWarping::with_closure(&a, &b, |_x: u8, _y: u8| u64::MAX).unwrap();
    // The diagonal path has two cells, each of the largest local cost.
    assert_eq!(dtw.distance().unwrap(), 2 * (u64::MAX as u128));
    assert_eq!(dtw.path().unwrap(), vec![(0, 0), (1, 1)]);
}
