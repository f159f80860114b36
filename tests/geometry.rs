use crop_tracking_system::detection::Detection;
use crop_tracking_system::geometry::{iou, overlap_fraction, ratio_greater};

fn square(x: i32, y: i32, side: i32) -> (i64, i64, i64, i64) {
    Detection::new(x, y, side, side).bbox()
}

#[test]
fn iou_of_box_with_itself_is_nearly_one() {
    let b = square(500_000, 500_000, 100_000);
    // 0.01 / (0.01 + 1e-6), in millionths, rounded up.
    assert_eq!(iou(b, b), 999_901);
    assert!(iou(b, b) >= 999_000);
}

#[test]
fn iou_of_half_shifted_boxes() {
    let a = square(500_000, 500_000, 100_000);
    let b = square(550_000, 500_000, 100_000);
    // 0.005 / (0.015 + 1e-6), in millionths, rounded up.
    assert_eq!(iou(a, b), 333_312);
}

#[test]
fn iou_is_symmetric() {
    let a = square(410_000, 520_000, 130_000);
    let b = Detection::new(470_000, 480_000, 90_000, 170_000).bbox();
    assert_eq!(iou(a, b), iou(b, a));
    assert!(iou(a, b) > 0);
}

#[test]
fn iou_of_disjoint_boxes_is_zero() {
    let a = square(300_000, 300_000, 100_000);
    let b = square(700_000, 700_000, 100_000);
    assert_eq!(iou(a, b), 0);
    // Touching edges do not overlap either.
    let c = square(400_000, 300_000, 100_000);
    assert_eq!(iou(a, c), 0);
}

#[test]
fn iou_of_tiny_box_with_itself_is_below_one() {
    let b = square(500_000, 500_000, 10_000);
    // 0.0001 / (0.0001 + 1e-6): further than a thousandth from one.
    assert_eq!(iou(b, b), 990_100);
}

#[test]
fn iou_of_degenerate_boxes_is_zero() {
    let a = Detection::new(500_000, 500_000, -100_000, 100_000).bbox();
    let b = square(500_000, 500_000, 100_000);
    assert_eq!(iou(a, b), 0);
    assert_eq!(iou(a, a), 0);
    let z = Detection::new(500_000, 500_000, 0, 0).bbox();
    assert_eq!(iou(z, z), 0);
}

#[test]
fn overlap_fraction_of_half_shifted_boxes() {
    let a = square(500_000, 500_000, 100_000);
    let b = square(550_000, 500_000, 100_000);
    assert_eq!(overlap_fraction(a, b), (20_000_000_000, 60_004_000_000));
}

#[test]
fn overlap_fraction_of_box_with_itself() {
    // A box of a thousandth of the frame: strictly within a thousandth of one.
    let b = Detection::new(500_000, 500_000, 40_000, 25_000).bbox();
    let (i, d) = overlap_fraction(b, b);
    assert_eq!((i, d), (4_000_000_000, 4_004_000_000));
    assert!(1000 * i > 999 * d);
    assert_eq!(iou(b, b), 999_001);
    assert!(1_000_000 - iou(b, b) < 1_000);
}

#[test]
fn ratio_comparison_is_exact() {
    assert!(ratio_greater(2, 3, 1, 2));
    assert!(!ratio_greater(1, 2, 2, 4));
    assert!(!ratio_greater(1, 3, 1, 2));
    assert!(ratio_greater(u128::MAX, u128::MAX - 1, u128::MAX - 1, u128::MAX - 2) == false);
    assert!(ratio_greater(u128::MAX - 1, u128::MAX - 2, u128::MAX, u128::MAX - 1));
    assert!(!ratio_greater(0, 5, 0, 7));
    assert!(ratio_greater(1, u128::MAX, 0, 1));
}

#[test]
fn tiny_overlap_has_positive_iou() {
    let a = square(500_000, 500_000, 100_000);
    let b = Detection::new(600_000, 600_000, 100_001, 100_001).bbox();
    assert_eq!(overlap_fraction(a, b).0, 1);
    assert_eq!(iou(a, b), 1);
    assert_eq!(iou(b, a), 1);
    let c = Detection::new(600_001, 600_001, 100_001, 100_001).bbox();
    assert_eq!(iou(a, c), 0);
}
