use crop_tracking_system::detection::Detection;

#[test]
fn test_bbox_center() {
    let d = Detection { x: 500_000, y: 400_000, width: 200_000, height: 100_000 };
    assert_eq!(d.center(), (500_000, 400_000));
    // Corners are in half-millionths: 0.4, 0.35, 0.6 and 0.45 of the frame.
    assert_eq!(d.bbox().0, 800_000);
    assert_eq!(d.bbox().1, 700_000);
    assert_eq!(d.bbox().2, 1_200_000);
    assert_eq!(d.bbox().3, 900_000);
}

#[test]
fn getters_return_fields() {
    let d = Detection::new(1, -2, 3, 4);
    assert_eq!((d.x(), d.y(), d.width(), d.height()), (1, -2, 3, 4));
}

#[test]
fn negative_width_gives_inverted_corners() {
    let d = Detection::new(500_000, 500_000, -100_000, 100_000);
    let b = d.bbox();
    assert!(b.0 > b.2);
    assert_eq!(b, (1_100_000, 900_000, 900_000, 1_100_000));
}

#[test]
fn extreme_values_have_exact_corners() {
    let d = Detection::new(i32::MAX, i32::MIN, i32::MAX, i32::MAX);
    let b = d.bbox();
    assert_eq!(b.0, 2 * (i32::MAX as i64) - i32::MAX as i64);
    assert_eq!(b.1, 2 * (i32::MIN as i64) - i32::MAX as i64);
    assert_eq!(b.2, 3 * (i32::MAX as i64));
}
