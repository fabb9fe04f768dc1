use trace_stats::analyzer::{AnalysisError, Analyzer, EventKind, Summary, TraceEvent};
use trace_stats::context::{ContextHandle, SwitchOutcome};
use trace_stats::stack::StackStats;

fn other(event_type: u16, raw_ticks: u32, sequence: u32) -> TraceEvent {
    TraceEvent { event_type, raw_ticks, sequence, kind: EventKind::Other }
}

fn switch(context: ContextHandle, priority: u32, raw_ticks: u32, sequence: u32) -> TraceEvent {
    TraceEvent { event_type: 0x37, raw_ticks, sequence, kind: EventKind::ContextSwitch { context, priority } }
}

#[test]
fn first_event_sets_origin_and_reports_no_loss() {
    let mut engine = Analyzer::new(32, 16);
    let outcome = engine.on_event(other(1, 500, 77), 0).unwrap();
    assert_eq!(outcome.timestamp, 500);
    assert_eq!(outcome.dropped, 0);
    assert!(outcome.switch.is_none());
    assert_eq!(engine.total_events(), 1);
    assert_eq!(engine.dropped_events(), 0);
    assert!(engine.clock().started);
}

#[test]
fn wraparound_count_is_read_for_the_first_event_only() {
    let mut engine = Analyzer::new(32, 16);
    let first = engine.on_event(other(1, 5, 0), 2).unwrap();
    assert_eq!(first.timestamp, 2 * 4_294_967_296 + 5);
    let second = engine.on_event(other(1, 9, 1), 7).unwrap();
    assert_eq!(second.timestamp, 2 * 4_294_967_296 + 9);
}

#[test]
fn dropped_events_add_up() {
    let mut engine = Analyzer::new(32, 16);
    engine.on_event(other(1, 0, 10), 0).unwrap();
    assert_eq!(engine.on_event(other(1, 1, 11), 0).unwrap().dropped, 0);
    assert_eq!(engine.on_event(other(1, 2, 15), 0).unwrap().dropped, 3);
    assert_eq!(engine.on_event(other(1, 3, 65_535), 0).unwrap().dropped, 65_519);
    assert_eq!(engine.on_event(other(1, 4, 1), 0).unwrap().dropped, 1);
    assert_eq!(engine.dropped_events(), 3 + 65_519 + 1);
    assert_eq!(engine.total_events(), 5);
}

#[test]
fn switches_are_timed_with_the_reconstructed_clock() {
    let a = ContextHandle::Task(10);
    let b = ContextHandle::Isr(3);
    let mut engine = Analyzer::new(16, 16);
    engine.on_event(other(1, 65_000, 0), 0).unwrap();
    let s1 = engine.on_event(switch(a, 1, 65_500, 1), 0).unwrap();
    assert_eq!(s1.switch, Some(SwitchOutcome::Switched));
    let s2 = engine.on_event(switch(b, 9, 100, 2), 0).unwrap();
    assert_eq!(s2.timestamp, 65_636);
    let s3 = engine.on_event(switch(b, 9, 200, 3), 0).unwrap();
    assert_eq!(s3.switch, Some(SwitchOutcome::SameContext));
    let summary = engine.finish();
    assert_eq!(engine.contexts().get(a).unwrap().total_runtime(), 136);
    assert_eq!(engine.contexts().get(b).unwrap().total_runtime(), 100);
    assert_eq!(summary.total_ticks, 65_736);
    assert_eq!(summary.total_events, 4);
}

#[test]
fn stack_samples_reach_the_tracker() {
    let mut engine = Analyzer::new(32, 16);
    for (i, low_mark) in [100u32, 80, 95].iter().enumerate() {
        let event = TraceEvent {
            event_type: 0xEA,
            raw_ticks: i as u32,
            sequence: i as u32,
            kind: EventKind::UnusedStack { handle: 7, low_mark: *low_mark },
        };
        engine.on_event(event, 0).unwrap();
    }
    assert_eq!(engine.stacks().record(7), Some(StackStats { low_mark_min: 80, low_mark_max: 100 }));
    assert_eq!(engine.contexts().len(), 0);
}

#[test]
fn restart_sums_the_sessions() {
    let mut engine = Analyzer::new(32, 16);
    engine.on_event(other(1, 0, 0), 0).unwrap();
    engine.on_event(other(1, 700, 1), 0).unwrap();
    assert_eq!(engine.total_ticks(), 700);
    engine.on_restart_detected();
    assert_eq!(engine.restarts(), 1);
    assert_eq!(engine.sessions(), &vec![700]);
    assert_eq!(engine.total_ticks(), 700);
    assert!(!engine.clock().started);
    let first = engine.on_event(other(1, 0, 40), 0).unwrap();
    assert_eq!(first.timestamp, 0);
    assert_eq!(first.dropped, 0);
    engine.on_event(other(1, 250, 41), 0).unwrap();
    let summary = engine.finish();
    assert_eq!(
        summary,
        Summary { total_events: 4, dropped_events: 0, restarts: 1, total_ticks: 950 }
    );
}

#[test]
fn restart_without_events_adds_nothing() {
    let mut engine = Analyzer::new(32, 16);
    engine.on_event(other(1, 10, 0), 0).unwrap();
    engine.on_event(other(1, 60, 1), 0).unwrap();
    engine.on_restart_detected();
    engine.on_restart_detected();
    assert_eq!(engine.sessions(), &vec![60, 0]);
    assert_eq!(engine.finish().total_ticks, 60);
}

#[test]
fn restart_gives_up_the_running_interval_and_keeps_totals() {
    let a = ContextHandle::Task(10);
    let b = ContextHandle::Task(11);
    let mut engine = Analyzer::new(32, 16);
    engine.on_event(switch(a, 1, 100, 0), 0).unwrap();
    engine.on_event(switch(b, 2, 150, 1), 0).unwrap();
    engine.on_event(other(1, 180, 2), 0).unwrap();
    engine.on_restart_detected();
    assert_eq!(engine.contexts().active(), ContextHandle::idle());
    assert!(!engine.contexts().in_flight());
    assert_eq!(engine.contexts().get(a).unwrap().total_runtime(), 50);
    assert_eq!(engine.contexts().get(b).unwrap().total_runtime(), 0);
    assert_eq!(engine.contexts().get(b).unwrap().count(), 1);
    assert_eq!(engine.contexts().get(b).unwrap().last_timestamp(), 0);
    assert!(engine.contexts().get(a).unwrap().running_instances().is_empty());
    engine.on_event(other(1, 0, 0), 0).unwrap();
    let s = engine.on_event(switch(b, 2, 20, 1), 0).unwrap();
    assert_eq!(s.switch, Some(SwitchOutcome::Switched));
    engine.on_event(switch(a, 1, 45, 2), 0).unwrap();
    let summary = engine.finish();
    assert_eq!(engine.contexts().get(b).unwrap().total_runtime(), 25);
    assert_eq!(engine.contexts().get(b).unwrap().count(), 2);
    assert_eq!(engine.contexts().get(a).unwrap().total_runtime(), 50);
    assert_eq!(summary.total_ticks, 180 + 45);
}

#[test]
fn first_switch_after_a_restart_adds_to_no_total() {
    let x = ContextHandle::Task(10);
    let y = ContextHandle::Isr(3);
    let mut engine = Analyzer::new(32, 16);
    engine.on_event(switch(y, 5, 10, 0), 0).unwrap();
    engine.on_event(switch(x, 1, 40, 1), 0).unwrap();
    engine.on_event(switch(y, 5, 70, 2), 0).unwrap();
    engine.on_event(switch(x, 1, 75, 3), 0).unwrap();
    engine.on_event(other(1, 500, 4), 0).unwrap();
    assert_eq!(engine.contexts().active(), x);
    assert_eq!(engine.contexts().get(x).unwrap().total_runtime(), 30);
    assert_eq!(engine.contexts().get(y).unwrap().total_runtime(), 35);
    engine.on_restart_detected();
    let s = engine.on_event(switch(y, 5, 90, 0), 0).unwrap();
    assert_eq!(s.timestamp, 90);
    assert_eq!(s.switch, Some(SwitchOutcome::Switched));
    assert_eq!(engine.contexts().active(), y);
    assert_eq!(engine.contexts().get(x).unwrap().total_runtime(), 30);
    assert_eq!(engine.contexts().get(x).unwrap().count(), 2);
    assert_eq!(engine.contexts().get(y).unwrap().total_runtime(), 35);
    assert_eq!(engine.contexts().get(y).unwrap().count(), 3);
    assert_eq!(engine.contexts().get(y).unwrap().last_timestamp(), 90);
}

#[test]
fn tick_overflow_is_refused_and_leaves_the_engine_as_it_was() {
    let mut engine = Analyzer::new(32, 16);
    engine.on_event(other(1, u32::MAX, 0), u32::MAX).unwrap();
    assert_eq!(engine.total_ticks(), u64::MAX);
    let refused = engine.on_event(other(1, 0, 1), 0);
    assert!(matches!(refused, Err(AnalysisError::TickOverflow)));
    assert_eq!(engine.total_events(), 1);
    assert_eq!(engine.total_ticks(), u64::MAX);
    assert!(engine.on_event(other(1, u32::MAX, 1), 0).is_ok());
    assert_eq!(engine.total_events(), 2);
}

#[test]
fn grand_total_overflow_is_refused_after_a_restart() {
    let mut engine = Analyzer::new(32, 16);
    engine.on_event(other(1, u32::MAX, 0), u32::MAX).unwrap();
    engine.on_restart_detected();
    let refused = engine.on_event(other(1, 1, 0), 0);
    assert!(matches!(refused, Err(AnalysisError::TickOverflow)));
    assert!(!engine.clock().started);
    assert!(engine.on_event(other(1, 0, 0), 0).is_ok());
    assert_eq!(engine.finish().total_ticks, u64::MAX);
}

#[test]
fn events_are_counted_by_type() {
    let mut engine = Analyzer::new(32, 16);
    for (i, event_type) in [5u16, 3, 5, 9, 3, 5].iter().enumerate() {
        engine.on_event(other(*event_type, i as u32, i as u32), 0).unwrap();
    }
    let entries: Vec<(u16, u64)> =
        engine.histogram().entries().iter().map(|e| (e.event_type, e.count)).collect();
    assert_eq!(entries, vec![(3, 2), (5, 3), (9, 1)]);
    assert_eq!(engine.histogram().total_count(), 6);
}

#[test]
fn finish_twice_is_harmless() {
    let a = ContextHandle::Task(10);
    let mut engine = Analyzer::new(32, 16);
    engine.on_event(switch(a, 1, 0, 0), 0).unwrap();
    engine.on_event(other(1, 30, 1), 0).unwrap();
    let first = engine.finish();
    let second = engine.finish();
    assert_eq!(first, second);
    assert_eq!(engine.contexts().get(a).unwrap().total_runtime(), 30);
}

#[test]
fn every_tick_of_a_session_is_running_time_or_idle_time() {
    let contexts = [ContextHandle::Task(1), ContextHandle::Isr(1), ContextHandle::Task(3)];
    let mut engine = Analyzer::new(16, 16);
    let mut raw: u32 = 65_000;
    let origin = engine.on_event(other(1, raw, 0), 0).unwrap().timestamp;
    let mut first_switch = None;
    for step in 1u32..400 {
        raw = (raw + 97 + (step % 5) * 211) % 65_536;
        let event = if step % 3 == 0 {
            other(2, raw, step)
        } else {
            switch(contexts[(step as usize * 7) % 3], step % 4, raw, step)
        };
        let outcome = engine.on_event(event, 0).unwrap();
        if outcome.switch == Some(SwitchOutcome::Switched) && first_switch.is_none() {
            first_switch = Some(outcome.timestamp);
        }
    }
    let summary = engine.finish();
    let running: u64 = (0..engine.contexts().len())
        .map(|i| engine.contexts().stats_at(i).total_runtime())
        .sum();
    let idle = first_switch.unwrap() - origin;
    assert_eq!(running + idle, summary.total_ticks - origin);
}

#[test]
fn engine_hands_the_interval_cap_to_its_records() {
    let a = ContextHandle::Task(10);
    let b = ContextHandle::Task(11);
    let mut engine = Analyzer::with_interval_cap(32, 16, Some(1));
    let mut sequence = 0u32;
    for (context, raw) in [(a, 0u32), (b, 10), (a, 30), (b, 35), (a, 60)] {
        engine.on_event(switch(context, 1, raw, sequence), 0).unwrap();
        sequence += 1;
    }
    engine.finish();
    let stats_a = engine.contexts().get(a).unwrap();
    assert_eq!(stats_a.total_runtime(), 15);
    assert_eq!(stats_a.running_instances(), &vec![10]);
    assert!(stats_a.truncated());
    let stats_b = engine.contexts().get(b).unwrap();
    assert_eq!(stats_b.total_runtime(), 45);
    assert_eq!(stats_b.running_instances(), &vec![20]);
}
