use crop_tracking_system::detection::Detection;
use crop_tracking_system::tracker::Tracker;

#[test]
fn test_full_tracker_workflow() {
    let mut tracker = Tracker::new(3, 300_000);
    let dets = vec![
        Detection::new(300_000, 300_000, 100_000, 100_000),
        Detection::new(700_000, 700_000, 100_000, 100_000),
    ];

    let out1 = tracker.update(0, "2025-01-01", &dets);
    assert_eq!(out1.tracked_objects.len(), 2);

    let dets2 = vec![
        Detection::new(300_000, 300_000, 100_000, 100_000),
        Detection::new(710_000, 710_000, 100_000, 100_000),
    ];
    let out2 = tracker.update(1, "2025-01-01", &dets2);
    assert_eq!(out2.tracked_objects[0].id, out1.tracked_objects[0].id);
    assert_eq!(out2.tracked_objects[1].id, out1.tracked_objects[1].id);
}
