use trace_recorder_parser::time::{StreamingInstant, Ticks, Timestamp};
use trace_stats::time::TickClock;
use trace_stats::wrap::{counter_modulus, reduce, wrapping_advance, wrapping_distance};

#[test]
fn modulus_is_two_to_the_width() {
    assert_eq!(counter_modulus(1), 2);
    assert_eq!(counter_modulus(8), 256);
    assert_eq!(counter_modulus(16), 65_536);
    assert_eq!(counter_modulus(32), 4_294_967_296);
}

#[test]
fn reduce_truncates_to_the_width() {
    assert_eq!(reduce(0x1_23, 8), 0x23);
    assert_eq!(reduce(65_535, 16), 65_535);
    assert_eq!(reduce(65_536, 16), 0);
    assert_eq!(reduce(u32::MAX, 32), u32::MAX);
}

#[test]
fn distance_is_between_one_and_the_modulus() {
    assert_eq!(wrapping_distance(5, 6, 8), 1);
    assert_eq!(wrapping_distance(254, 1, 8), 3);
    assert_eq!(wrapping_distance(7, 7, 8), 256);
    assert_eq!(wrapping_distance(0, 255, 8), 255);
    assert_eq!(wrapping_distance(255, 0, 8), 1);
    assert_eq!(wrapping_distance(9, 9, 32), 4_294_967_296);
}

#[test]
fn advance_adds_one_turn_on_a_smaller_reading() {
    assert_eq!(wrapping_advance(65_534, 2, 16), Some(65_538));
    assert_eq!(wrapping_advance(65_534, 65_535, 16), Some(65_535));
    assert_eq!(wrapping_advance(65_534, 65_534, 16), Some(65_534));
    assert_eq!(wrapping_advance(3 * 65_536 + 10, 9, 16), Some(4 * 65_536 + 9));
}

#[test]
fn advance_reports_overflow() {
    assert_eq!(wrapping_advance(u64::MAX, 0, 32), None);
    assert_eq!(wrapping_advance(u64::MAX, u32::MAX, 32), Some(u64::MAX));
    assert_eq!(wrapping_advance(u64::MAX - 1, u32::MAX, 32), Some(u64::MAX));
}

#[test]
fn sixteen_bit_ticks_across_a_wraparound() {
    let mut clock = TickClock::new(16);
    clock.initialize(65_530, 0);
    let origin = clock.now();
    assert_eq!(origin, 65_530);
    let mut deltas = Vec::new();
    for raw in [65_530u32, 65_534, 2, 10] {
        deltas.push(clock.elapsed(raw) - origin);
    }
    assert_eq!(deltas, vec![0, 4, 8, 16]);
    assert_eq!(clock.now(), 65_546);
}

#[test]
fn elapsed_never_goes_back() {
    let mut clock = TickClock::new(8);
    clock.initialize(200, 3);
    let mut previous = clock.now();
    for raw in [200u32, 10, 10, 9, 255, 0, 0, 128, 127, 300, 1] {
        let now = clock.elapsed(raw);
        assert!(now >= previous);
        assert_eq!(now % 256, u64::from(raw % 256));
        previous = now;
    }
}

#[test]
fn origin_counts_the_reported_wraparounds() {
    let mut clock = TickClock::new(32);
    clock.initialize(7, 2);
    assert!(clock.started);
    assert_eq!(clock.now(), 2 * 4_294_967_296 + 7);
    assert_eq!(TickClock::origin_ticks(16, 65_537, 3), 3 * 65_536 + 1);
    assert_eq!(TickClock::origin_ticks(32, u32::MAX, u32::MAX), u64::MAX);
}

#[test]
fn thirty_two_bit_rollover() {
    let mut clock = TickClock::new(32);
    clock.initialize(0, 0);
    assert_eq!(clock.elapsed(4_294_967_290), 4_294_967_290);
    assert_eq!(clock.elapsed(10), 4_294_967_290 + 16);
}

#[test]
fn projected_does_not_move_the_clock() {
    let mut clock = TickClock::new(16);
    clock.initialize(100, 0);
    assert_eq!(clock.projected(50), Some(65_536 + 50));
    assert_eq!(clock.now(), 100);
    assert_eq!(clock.elapsed(50), 65_536 + 50);
}

#[test]
fn session_reset_forgets_the_origin() {
    let mut clock = TickClock::new(16);
    clock.initialize(100, 1);
    clock.elapsed(200);
    clock.on_session_reset();
    assert!(!clock.started);
    assert_eq!(clock.now(), 0);
    assert_eq!(clock.bits, 16);
    clock.initialize(0, 0);
    assert_eq!(clock.elapsed(5), 5);
}

#[test]
fn thirty_two_bit_clock_agrees_with_streaming_instant() {
    let mut raw: u32 = 0xFFFF_FF00;
    let mut theirs = StreamingInstant::new(raw, 3);
    let mut ours = TickClock::new(32);
    ours.initialize(raw, 3);
    assert_eq!(ours.now(), theirs.to_timestamp().get_raw());
    for step in 0u32..2_000 {
        raw = raw.wrapping_mul(1_664_525).wrapping_add(1_013_904_223).wrapping_add(step);
        let expected = theirs.elapsed(Timestamp::from(Ticks::new(raw))).get_raw();
        assert_eq!(ours.elapsed(raw), expected);
    }
}
