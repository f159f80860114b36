use crop_tracking_system::detection::Detection;
use crop_tracking_system::tracker::{TrackedObject, Tracker};

fn det(x: i32, y: i32) -> Detection {
    Detection::new(x, y, 100_000, 100_000)
}

fn ids(objects: &[TrackedObject]) -> Vec<u32> {
    objects.iter().map(|o| o.id).collect()
}

#[test]
fn test_create_new_track() {
    let mut tracker = Tracker::new(3, 300_000);
    let dets = vec![det(100_000, 100_000)];
    let frame = tracker.update(0, "ts", &dets);
    assert_eq!(frame.tracked_objects.len(), 1);
    assert_eq!(frame.tracked_objects[0].id, 1);
}

#[test]
fn test_track_persistence() {
    let mut tracker = Tracker::new(3, 300_000);
    let dets = vec![det(100_000, 100_000)];
    let f1 = tracker.update(0, "ts", &dets);
    let f2 = tracker.update(1, "ts", &[det(100_000, 100_000)]);
    assert_eq!(f2.tracked_objects[0].id, f1.tracked_objects[0].id);
}

#[test]
fn test_track_disappearance_and_reassignment() {
    let mut tracker = Tracker::new(2, 300_000);
    tracker.update(0, "ts", &[det(100_000, 100_000)]);
    tracker.update(1, "ts", &[]);
    tracker.update(2, "ts", &[]);
    tracker.update(2, "ts", &[]);
    tracker.update(3, "ts", &[det(100_000, 100_000)]);
    let output = tracker.update(4, "ts", &[det(100_000, 100_000)]);
    assert_eq!(output.tracked_objects[0].id, 2);
}

#[test]
fn same_detection_on_two_frames_keeps_identity_one() {
    let mut tracker = Tracker::new(3, 300_000);
    let out0 = tracker.update(0, "a", &[det(100_000, 100_000)]);
    assert_eq!(ids(&out0.tracked_objects), vec![1]);
    let out1 = tracker.update(1, "b", &[det(100_000, 100_000)]);
    assert_eq!(ids(&out1.tracked_objects), vec![1]);
    assert_eq!(out1.frame_id, 1);
    assert_eq!(out1.timestamp, "b");
}

#[test]
fn track_pruned_after_three_misses_and_identity_not_reused() {
    let mut tracker = Tracker::new(2, 300_000);
    let out = tracker.update(0, "t", &[det(100_000, 100_000)]);
    assert_eq!(ids(&out.tracked_objects), vec![1]);
    for f in 1..4 {
        let out = tracker.update(f, "t", &[]);
        assert!(out.tracked_objects.is_empty());
    }
    assert_eq!(tracker.track_count(), 0);
    let out = tracker.update(4, "t", &[det(100_000, 100_000)]);
    assert_eq!(ids(&out.tracked_objects), vec![2]);
}

#[test]
fn track_survives_two_misses_with_allowance_two() {
    let mut tracker = Tracker::new(2, 300_000);
    tracker.update(0, "t", &[det(100_000, 100_000)]);
    tracker.update(1, "t", &[]);
    tracker.update(2, "t", &[]);
    assert_eq!(tracker.track_count(), 1);
    let out = tracker.update(3, "t", &[det(100_000, 100_000)]);
    assert_eq!(ids(&out.tracked_objects), vec![1]);
}

#[test]
fn separated_detections_keep_their_order_and_identities() {
    let mut tracker = Tracker::new(3, 300_000);
    let out0 = tracker.update(0, "t", &[det(300_000, 300_000), det(700_000, 700_000)]);
    assert_eq!(ids(&out0.tracked_objects), vec![1, 2]);
    let out1 = tracker.update(1, "t", &[det(310_000, 310_000), det(710_000, 710_000)]);
    assert_eq!(ids(&out1.tracked_objects), vec![1, 2]);
    // The report holds the matched boxes, not the first ones.
    assert_eq!(
        out1.tracked_objects[1],
        TrackedObject { id: 2, x: 710_000, y: 710_000, width: 100_000, height: 100_000 }
    );
}

#[test]
fn empty_frame_creates_nothing_and_reports_nothing() {
    let mut tracker = Tracker::new(5, 300_000);
    let out = tracker.update(0, "t", &[]);
    assert!(out.tracked_objects.is_empty());
    assert_eq!(tracker.track_count(), 0);
    tracker.update(1, "t", &[det(500_000, 500_000)]);
    let out = tracker.update(2, "t", &[]);
    assert!(out.tracked_objects.is_empty());
    assert_eq!(tracker.track_count(), 1);
    let out = tracker.update(3, "t", &[det(500_000, 500_000)]);
    assert_eq!(
        out.tracked_objects,
        vec![TrackedObject { id: 1, x: 500_000, y: 500_000, width: 100_000, height: 100_000 }]
    );
}

#[test]
fn older_track_claims_contested_detection_first() {
    let mut tracker = Tracker::new(3, 100_000);
    tracker.update(0, "t", &[det(300_000, 500_000), det(400_000, 500_000)]);
    // Overlap with track 1 is about 0.18, with track 2 about 0.54: the older
    // track, with the weaker but qualifying overlap, takes it.
    let out = tracker.update(1, "t", &[det(370_000, 500_000)]);
    assert_eq!(
        out.tracked_objects,
        vec![TrackedObject { id: 1, x: 370_000, y: 500_000, width: 100_000, height: 100_000 }]
    );
}

#[test]
fn overlap_at_threshold_does_not_match() {
    // Overlap of the shifted box is 0.33331111..., just above 333_311 millionths.
    let mut tracker = Tracker::new(3, 333_312);
    tracker.update(0, "t", &[det(500_000, 500_000)]);
    let out = tracker.update(1, "t", &[det(550_000, 500_000)]);
    assert_eq!(ids(&out.tracked_objects), vec![2]);
    let mut tracker = Tracker::new(3, 333_311);
    tracker.update(0, "t", &[det(500_000, 500_000)]);
    let out = tracker.update(1, "t", &[det(550_000, 500_000)]);
    assert_eq!(ids(&out.tracked_objects), vec![1]);
}

#[test]
fn best_overlap_wins_and_ties_go_to_the_earlier_detection() {
    let mut tracker = Tracker::new(3, 100_000);
    tracker.update(0, "t", &[det(500_000, 500_000)]);
    let out = tracker.update(1, "t", &[det(540_000, 500_000), det(510_000, 500_000)]);
    assert_eq!(out.tracked_objects[0].x, 510_000);
    assert_eq!(out.tracked_objects[0].id, 1);
    assert_eq!(ids(&out.tracked_objects), vec![1, 2]);
    let mut tracker = Tracker::new(3, 100_000);
    tracker.update(0, "t", &[det(500_000, 500_000)]);
    let out = tracker.update(1, "t", &[det(520_000, 500_000), det(480_000, 500_000)]);
    assert_eq!(out.tracked_objects[0].x, 520_000);
}

#[test]
fn same_frame_id_twice_runs_two_rounds() {
    let mut tracker = Tracker::new(0, 300_000);
    tracker.update(0, "t", &[det(500_000, 500_000)]);
    let out = tracker.update(0, "t", &[]);
    // The track was missed once, which exceeds an allowance of zero.
    assert!(out.tracked_objects.is_empty());
    assert_eq!(tracker.track_count(), 0);
}

#[test]
fn tiny_positive_overlap_matches_at_threshold_zero() {
    let mut tracker = Tracker::new(3, 0);
    tracker.update(0, "t", &[det(500_000, 500_000)]);
    // Overlaps the track's box by one half-millionth along each axis.
    let out = tracker.update(1, "t", &[Detection::new(600_000, 600_000, 100_001, 100_001)]);
    assert_eq!(ids(&out.tracked_objects), vec![1]);
    // One millionth further off, the boxes no longer overlap.
    let mut tracker = Tracker::new(3, 0);
    tracker.update(0, "t", &[det(500_000, 500_000)]);
    let out = tracker.update(1, "t", &[Detection::new(600_001, 600_001, 100_001, 100_001)]);
    assert_eq!(ids(&out.tracked_objects), vec![2]);
}

#[test]
fn overlaps_within_a_millionth_go_to_the_strictly_greater() {
    let mut tracker = Tracker::new(3, 300_000);
    tracker.update(0, "t", &[det(500_000, 500_000)]);
    // Both overlaps agree to the millionth; the second is greater.
    let out = tracker.update(
        1,
        "t",
        &[Detection::new(500_003, 500_000, 100_000, 100_000), Detection::new(500_003, 500_000, 100_001, 100_000)],
    );
    assert_eq!(out.tracked_objects[0].id, 1);
    assert_eq!(out.tracked_objects[0].width, 100_001);
    assert_eq!(ids(&out.tracked_objects), vec![1, 2]);
}
