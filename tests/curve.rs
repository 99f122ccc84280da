use fan_curve::curve::{get_target_speed, Curve, CurveError};

#[test]
fn test_get_target_speed() {
    let curve = vec![(20, 20), (50, 50), (75, 75)];
    assert_eq!(get_target_speed(0, &curve), 20);
    assert_eq!(get_target_speed(25, &curve), 50);
    assert_eq!(get_target_speed(50, &curve), 50);
    assert_eq!(get_target_speed(60, &curve), 75);
    assert_eq!(get_target_speed(75, &curve), 75);
}

#[test]
fn three_point_curve_lookups() {
    let curve = Curve::new(vec![(20, 20), (50, 50), (75, 75)]).unwrap();
    assert_eq!(curve.lookup(0), 20);
    assert_eq!(curve.lookup(25), 50);
    assert_eq!(curve.lookup(50), 50);
    assert_eq!(curve.lookup(60), 75);
    assert_eq!(curve.lookup(75), 75);
    assert_eq!(curve.lookup(100), 75);
}

#[test]
fn two_point_curve_lookups() {
    let curve = Curve::new(vec![(30, 10), (60, 40)]).unwrap();
    assert_eq!(curve.lookup(29), 10);
    assert_eq!(curve.lookup(30), 10);
    assert_eq!(curve.lookup(31), 40);
    assert_eq!(curve.lookup(60), 40);
    assert_eq!(curve.lookup(1000), 40);
}

#[test]
fn lookup_extremes_of_reading() {
    let curve = Curve::new(vec![(10, 15), (40, 60), (80, 100)]).unwrap();
    assert_eq!(curve.lookup(u32::MIN), 15);
    assert_eq!(curve.lookup(u32::MAX), 100);
    assert_eq!(curve.lookup(9), 15);
    assert_eq!(curve.lookup(11), 60);
    assert_eq!(curve.lookup(40), 60);
    assert_eq!(curve.lookup(41), 100);
    assert_eq!(curve.lookup(79), 100);
}

#[test]
fn lookup_with_shared_inputs() {
    let curve = Curve::new(vec![(10, 5), (20, 30), (20, 40), (30, 50)]).unwrap();
    assert_eq!(curve.lookup(20), 30);
    assert_eq!(curve.lookup(21), 50);
    let flat = Curve::new(vec![(10, 5), (10, 7)]).unwrap();
    assert_eq!(flat.lookup(10), 5);
    assert_eq!(flat.lookup(11), 7);
}

#[test]
fn construction_rejects_empty() {
    assert_eq!(Curve::new(vec![]).err(), Some(CurveError::TooFewPoints));
}

#[test]
fn construction_rejects_single_point() {
    assert_eq!(Curve::new(vec![(40, 50)]).err(), Some(CurveError::TooFewPoints));
}

#[test]
fn construction_rejects_decreasing_input() {
    assert_eq!(
        Curve::new(vec![(50, 10), (20, 80)]).err(),
        Some(CurveError::DecreasingInput { index: 0 })
    );
    assert_eq!(
        Curve::new(vec![(10, 10), (20, 20), (15, 30)]).err(),
        Some(CurveError::DecreasingInput { index: 1 })
    );
}

#[test]
fn construction_rejects_decreasing_output() {
    assert_eq!(
        Curve::new(vec![(10, 50), (20, 40)]).err(),
        Some(CurveError::DecreasingOutput { index: 0 })
    );
    assert_eq!(
        Curve::new(vec![(10, 10), (20, 90), (30, 80), (25, 95)]).err(),
        Some(CurveError::DecreasingOutput { index: 1 })
    );
}

#[test]
fn construction_accepts_points_below_their_outputs_or_above() {
    let curve = Curve::new(vec![(60, 10), (80, 90)]).unwrap();
    assert_eq!(curve.points(), &[(60, 10), (80, 90)][..]);
    assert_eq!(curve.len(), 2);
}

#[test]
fn construction_keeps_points_in_order() {
    let points = vec![(0, 0), (0, 0), (50, 30), (90, 100)];
    let curve = Curve::new(points.clone()).unwrap();
    assert_eq!(curve.points(), &points[..]);
    assert_eq!(curve.len(), 4);
}

#[test]
fn lookup_on_unchecked_table_takes_first_band() {
    let table = vec![(10, 1), (30, 2), (20, 3), (40, 4)];
    assert_eq!(get_target_speed(25, &table), 2);
    assert_eq!(get_target_speed(35, &table), 4);
    assert_eq!(get_target_speed(10, &table), 1);
    assert_eq!(get_target_speed(40, &table), 4);
}
