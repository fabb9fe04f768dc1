use trace_stats::stack::{StackStats, StackTracker};

#[test]
fn descending_then_ascending_samples() {
    let mut tracker = StackTracker::new();
    for low_mark in [100u32, 80, 95] {
        tracker.observe(7, low_mark);
    }
    assert_eq!(tracker.record(7), Some(StackStats { low_mark_min: 80, low_mark_max: 100 }));
}

#[test]
fn first_sample_sets_both_extremes() {
    let stats = StackStats::new(42);
    assert_eq!(stats, StackStats { low_mark_min: 42, low_mark_max: 42 });
    let mut tracker = StackTracker::new();
    tracker.observe(3, 42);
    assert_eq!(tracker.record(3), Some(stats));
}

#[test]
fn repeated_samples_change_nothing() {
    let mut stats = StackStats::new(50);
    stats.update(50);
    assert_eq!(stats, StackStats::new(50));
    stats.update(20);
    let once = stats;
    stats.update(20);
    assert_eq!(stats, once);
    stats.update(50);
    assert_eq!(stats, once);
}

#[test]
fn update_tightens_only() {
    let mut stats = StackStats::new(10);
    stats.update(12);
    assert_eq!((stats.low_mark_min, stats.low_mark_max), (10, 12));
    stats.update(11);
    assert_eq!((stats.low_mark_min, stats.low_mark_max), (10, 12));
    stats.update(0);
    assert_eq!((stats.low_mark_min, stats.low_mark_max), (0, 12));
    stats.update(u32::MAX);
    assert_eq!((stats.low_mark_min, stats.low_mark_max), (0, u32::MAX));
}

#[test]
fn unobserved_handle_has_no_record() {
    let mut tracker = StackTracker::new();
    assert_eq!(tracker.record(1), None);
    tracker.observe(1, 5);
    assert_eq!(tracker.record(2), None);
}

#[test]
fn handles_are_tracked_apart() {
    let mut tracker = StackTracker::new();
    tracker.observe(1, 5);
    tracker.observe(2, 9);
    tracker.observe(1, 3);
    tracker.observe(2, 11);
    assert_eq!(tracker.record(1), Some(StackStats { low_mark_min: 3, low_mark_max: 5 }));
    assert_eq!(tracker.record(2), Some(StackStats { low_mark_min: 9, low_mark_max: 11 }));
}
