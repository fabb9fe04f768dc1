use std::collections::HashSet;
use trace_stats::context::{ContextAccumulator, ContextHandle, ContextStats, SwitchOutcome, NO_TASK};

fn total_of(acc: &ContextAccumulator, context: ContextHandle) -> u64 {
    acc.get(context).map(|s| s.total_runtime()).unwrap_or(0)
}

#[test]
fn two_tasks_taking_turns() {
    let a = ContextHandle::Task(10);
    let b = ContextHandle::Task(11);
    let mut acc = ContextAccumulator::new();
    assert_eq!(acc.on_switch(a, 0, 1), SwitchOutcome::Switched);
    assert_eq!(acc.on_switch(b, 10, 2), SwitchOutcome::Switched);
    assert_eq!(acc.on_switch(a, 25, 1), SwitchOutcome::Switched);
    assert!(acc.close_active(30));
    let stats_a = acc.get(a).unwrap();
    let stats_b = acc.get(b).unwrap();
    assert_eq!(stats_a.total_runtime(), 15);
    assert_eq!(stats_b.total_runtime(), 15);
    assert_eq!(stats_a.count(), 2);
    assert_eq!(stats_b.count(), 1);
    assert_eq!(stats_a.running_instances(), &vec![10, 5]);
    assert_eq!(stats_b.running_instances(), &vec![15]);
}

#[test]
fn idle_context_is_active_at_first() {
    let acc = ContextAccumulator::new();
    assert_eq!(acc.active(), ContextHandle::Task(NO_TASK));
    assert_eq!(ContextHandle::idle(), ContextHandle::Task(2));
    assert!(!acc.in_flight());
    assert_eq!(acc.len(), 0);
}

#[test]
fn switch_to_the_active_context_changes_nothing() {
    let a = ContextHandle::Isr(4);
    let mut acc = ContextAccumulator::new();
    assert_eq!(acc.on_switch(ContextHandle::idle(), 3, 0), SwitchOutcome::SameContext);
    assert_eq!(acc.len(), 0);
    acc.on_switch(a, 5, 7);
    assert_eq!(acc.on_switch(a, 9, 8), SwitchOutcome::SameContext);
    let stats = acc.get(a).unwrap();
    assert_eq!(stats.count(), 1);
    assert_eq!(stats.last_timestamp(), 5);
    assert_eq!(stats.total_runtime(), 0);
    assert_eq!(stats.priorities(), &HashSet::from([7]));
}

#[test]
fn task_and_isr_with_one_handle_are_two_contexts() {
    let task = ContextHandle::Task(9);
    let isr = ContextHandle::Isr(9);
    assert_ne!(task, isr);
    assert_eq!(task.object_handle(), 9);
    assert_eq!(isr.object_handle(), 9);
    let mut acc = ContextAccumulator::new();
    acc.on_switch(task, 0, 1);
    acc.on_switch(isr, 4, 1);
    acc.on_switch(task, 6, 1);
    assert_eq!(acc.len(), 2);
    assert_eq!(total_of(&acc, task), 4);
    assert_eq!(total_of(&acc, isr), 2);
    assert_eq!(acc.context_at(0), task);
    assert_eq!(acc.context_at(1), isr);
}

#[test]
fn backwards_timestamp_discards_the_interval() {
    let a = ContextHandle::Task(10);
    let b = ContextHandle::Task(11);
    let mut acc = ContextAccumulator::new();
    acc.on_switch(a, 0, 1);
    acc.on_switch(b, 10, 1);
    acc.on_switch(a, 20, 1);
    assert_eq!(acc.on_switch(b, 15, 1), SwitchOutcome::TimestampWentBackwards);
    let stats_a = acc.get(a).unwrap();
    assert_eq!(stats_a.total_runtime(), 10);
    assert_eq!(stats_a.last_timestamp(), 20);
    assert_eq!(stats_a.running_instances(), &vec![10]);
    assert_eq!(acc.active(), b);
    assert_eq!(acc.get(b).unwrap().count(), 2);
    assert_eq!(acc.get(b).unwrap().last_timestamp(), 15);
}

#[test]
fn record_switch_out_guards_against_earlier_timestamps() {
    let mut stats = ContextStats::new(100);
    stats.switch_in(100, 3);
    assert!(!stats.switch_out(99));
    assert_eq!(stats.total_runtime(), 0);
    assert_eq!(stats.last_timestamp(), 100);
    assert!(stats.running_instances().is_empty());
    assert!(stats.switch_out(100));
    assert_eq!(stats.running_instances(), &vec![0]);
    assert!(stats.switch_out(130));
    assert_eq!(stats.total_runtime(), 30);
    assert_eq!(stats.last_timestamp(), 130);
    assert_eq!(stats.running_instances(), &vec![0, 30]);
}

#[test]
fn priorities_are_a_set() {
    let mut stats = ContextStats::new(0);
    for prio in [5u32, 1, 5, 3, 1] {
        stats.switch_in(0, prio);
    }
    assert_eq!(stats.count(), 5);
    assert_eq!(stats.priorities(), &HashSet::from([1, 3, 5]));
    assert_eq!(stats.priorities().len(), 3);
}

#[test]
fn running_time_and_idle_time_add_up_to_the_session() {
    let contexts = [ContextHandle::Task(1), ContextHandle::Isr(1), ContextHandle::Task(3)];
    let start = 1_000u64;
    let end = 2_000u64;
    let mut acc = ContextAccumulator::new();
    let mut now = start + 37;
    let first_switch = now;
    let mut turn = 0usize;
    while now < end - 50 {
        acc.on_switch(contexts[turn % 3], now, 0);
        turn += if turn % 4 == 0 { 2 } else { 1 };
        now += 11 + (turn as u64 % 7) * 13;
    }
    assert!(acc.close_active(end));
    let running: u64 = (0..acc.len()).map(|i| acc.stats_at(i).total_runtime()).sum();
    let idle = first_switch - start;
    assert_eq!(running + idle, end - start);
}

#[test]
fn session_reset_keeps_what_is_cumulative() {
    let a = ContextHandle::Task(10);
    let b = ContextHandle::Task(11);
    let mut acc = ContextAccumulator::new();
    acc.on_switch(a, 0, 1);
    acc.on_switch(b, 10, 2);
    acc.close_active(40);
    acc.reset_session();
    assert_eq!(acc.active(), ContextHandle::idle());
    assert!(!acc.in_flight());
    let stats_b = acc.get(b).unwrap();
    assert_eq!(stats_b.total_runtime(), 30);
    assert_eq!(stats_b.count(), 1);
    assert_eq!(stats_b.priorities(), &HashSet::from([2]));
    assert_eq!(stats_b.last_timestamp(), 0);
    assert!(stats_b.running_instances().is_empty());
    acc.on_switch(b, 5, 2);
    acc.on_switch(a, 9, 1);
    assert_eq!(acc.get(b).unwrap().total_runtime(), 34);
    assert_eq!(acc.get(b).unwrap().running_instances(), &vec![4]);
    assert_eq!(acc.get(a).unwrap().total_runtime(), 10);
}

#[test]
fn closing_without_an_interval_in_flight_changes_nothing() {
    let mut acc = ContextAccumulator::new();
    assert!(acc.close_active(99));
    assert_eq!(acc.len(), 0);
    let a = ContextHandle::Task(10);
    acc.on_switch(a, 100, 1);
    acc.close_active(110);
    assert!(acc.close_active(500));
    assert_eq!(acc.get(a).unwrap().total_runtime(), 10);
}

#[test]
fn shortest_and_longest_run() {
    let mut stats = ContextStats::new(0);
    assert_eq!(stats.shortest_run(), None);
    assert_eq!(stats.longest_run(), None);
    let mut now = 0u64;
    for run in [7u64, 3, 12, 3, 9] {
        stats.switch_in(now, 0);
        now += run;
        stats.switch_out(now);
    }
    assert_eq!(stats.shortest_run(), Some(3));
    assert_eq!(stats.longest_run(), Some(12));
    assert_eq!(stats.total_runtime(), 34);
}

#[test]
fn interval_cap_keeps_the_first_samples_of_a_session() {
    let mut stats = ContextStats::with_interval_cap(0, Some(2));
    assert_eq!(stats.interval_cap(), Some(2));
    let mut now = 0u64;
    for run in [7u64, 3, 12, 1] {
        stats.switch_in(now, 0);
        now += run;
        assert!(stats.switch_out(now));
    }
    assert_eq!(stats.running_instances(), &vec![7, 3]);
    assert!(stats.truncated());
    assert_eq!(stats.total_runtime(), 23);
    assert_eq!(stats.shortest_run(), Some(3));
    assert_eq!(stats.longest_run(), Some(7));
    stats.reset_session();
    assert!(!stats.truncated());
    assert_eq!(stats.interval_cap(), Some(2));
    stats.switch_in(0, 0);
    stats.switch_out(5);
    assert_eq!(stats.running_instances(), &vec![5]);
    assert!(!stats.truncated());
    assert_eq!(stats.total_runtime(), 28);
}

#[test]
fn without_a_cap_every_interval_is_a_sample() {
    let mut stats = ContextStats::new(0);
    assert_eq!(stats.interval_cap(), None);
    for end in 1u64..=50 {
        stats.switch_out(end);
    }
    assert_eq!(stats.running_instances().len(), 50);
    assert!(!stats.truncated());
}

#[test]
fn a_cap_of_zero_keeps_totals_only() {
    let a = ContextHandle::Task(10);
    let b = ContextHandle::Task(11);
    let mut acc = ContextAccumulator::with_interval_cap(Some(0));
    assert_eq!(acc.interval_cap(), Some(0));
    acc.on_switch(a, 0, 1);
    acc.on_switch(b, 10, 1);
    acc.on_switch(a, 25, 1);
    acc.close_active(30);
    let stats_a = acc.get(a).unwrap();
    assert_eq!(stats_a.total_runtime(), 15);
    assert!(stats_a.running_instances().is_empty());
    assert!(stats_a.truncated());
    assert_eq!(acc.get(b).unwrap().total_runtime(), 15);
}

#[test]
fn contexts_are_ordered_by_kind_then_handle() {
    assert!(ContextHandle::Task(1) < ContextHandle::Task(2));
    assert!(ContextHandle::Task(9) < ContextHandle::Isr(1));
    assert!(ContextHandle::Isr(1) < ContextHandle::Isr(2));
    assert_eq!(ContextHandle::Isr(3), ContextHandle::Isr(3));
}

#[test]
fn discarded_switch_out_needs_no_headroom() {
    let mut stats = ContextStats::new(10);
    stats.switch_in(10, 0);
    assert!(stats.switch_out(u64::MAX));
    assert_eq!(stats.total_runtime(), u64::MAX - 10);
    stats.switch_in(u64::MAX, 0);
    assert!(!stats.switch_out(5));
    assert_eq!(stats.total_runtime(), u64::MAX - 10);
    assert_eq!(stats.last_timestamp(), u64::MAX);
}
