use trace_stats::sequence::SequenceTracker;

#[test]
fn eight_bit_gap_across_a_wraparound() {
    let mut tracker = SequenceTracker::new(8);
    tracker.set_initial_count(254);
    assert_eq!(tracker.update(1), 2);
    assert_eq!(tracker.last, 1);
}

#[test]
fn successor_means_nothing_was_lost() {
    let mut tracker = SequenceTracker::new(8);
    tracker.set_initial_count(254);
    assert_eq!(tracker.update(255), 0);
    assert_eq!(tracker.update(0), 0);
    assert_eq!(tracker.update(1), 0);
}

#[test]
fn sixteen_bit_discontinuities() {
    let mut tracker = SequenceTracker::new(16);
    tracker.set_initial_count(0);
    assert_eq!(tracker.update(10), 9);
    assert_eq!(tracker.update(12), 1);
    assert_eq!(tracker.update(13), 0);
    tracker.set_initial_count(10);
    assert_eq!(tracker.update(9), u64::from(u16::MAX - 1));
    assert_eq!(tracker.update(10), 0);
    assert_eq!(tracker.update(12), 1);
}

#[test]
fn unchanged_value_is_a_full_turn() {
    let mut tracker = SequenceTracker::new(16);
    tracker.set_initial_count(10);
    assert_eq!(tracker.update(10), u64::from(u16::MAX));
    let mut narrow = SequenceTracker::new(8);
    narrow.set_initial_count(0);
    assert_eq!(narrow.update(0), 255);
}

#[test]
fn initial_count_reports_no_loss_and_is_reduced() {
    let mut tracker = SequenceTracker::new(8);
    tracker.set_initial_count(0x1_05);
    assert_eq!(tracker.last, 5);
    assert_eq!(tracker.projected(7), 1);
    assert_eq!(tracker.last, 5);
    assert_eq!(tracker.update(0x2_07), 1);
}

#[test]
fn every_pair_of_eight_bit_values_gives_a_defined_count() {
    for prev in 0u32..256 {
        for cur in 0u32..256 {
            let mut tracker = SequenceTracker::new(8);
            tracker.set_initial_count(prev);
            let skipped = tracker.update(cur);
            assert!(skipped < 256);
            assert_eq!((u64::from(prev) + 1 + skipped) % 256, u64::from(cur));
        }
    }
}
