use crop_tracking_system::detection::Detection;
use crop_tracking_system::track::Track;
use crop_tracking_system::tracker::TrackedObject;

fn sample_detection(x: i32, y: i32) -> Detection {
    Detection::new(x, y, 100_000, 100_000)
}

#[test]
fn test_iou_same_box() {
    let det = sample_detection(500_000, 500_000);
    let track = Track::new(1, &det, 0);
    assert!((track.iou(&det) as i64 - 1_000_000).abs() < 1_000);
}

#[test]
fn test_iou_partial_overlap() {
    let d1 = sample_detection(500_000, 500_000);
    let d2 = sample_detection(550_000, 500_000);
    let track = Track::new(1, &d1, 0);
    let iou = track.iou(&d2);
    assert!(iou > 0 && iou < 1_000_000);
}

#[test]
fn test_missing_logic() {
    let det = sample_detection(500_000, 500_000);
    let mut track = Track::new(1, &det, 0);
    track.mark_missing();
    track.mark_missing();
    assert_eq!(track.is_missing_too_long(1), true);
    assert_eq!(track.is_missing_too_long(2), false);
}

#[test]
fn update_resets_missing_and_moves_box() {
    let mut track = Track::new(7, &sample_detection(200_000, 200_000), 3);
    track.mark_missing();
    assert_eq!(track.missing(), 1);
    track.update(&Detection::new(250_000, 260_000, 80_000, 60_000), 5);
    assert_eq!(track.missing(), 0);
    assert_eq!(track.last_seen_frame(), 5);
    assert_eq!(track.id(), 7);
    assert_eq!(
        track.to_output(),
        TrackedObject { id: 7, x: 250_000, y: 260_000, width: 80_000, height: 60_000 }
    );
}

#[test]
fn to_output_reports_current_box() {
    let track = Track::new(2, &Detection::new(300_000, 700_000, 50_000, 40_000), 0);
    assert_eq!(
        track.to_output(),
        TrackedObject { id: 2, x: 300_000, y: 700_000, width: 50_000, height: 40_000 }
    );
}
