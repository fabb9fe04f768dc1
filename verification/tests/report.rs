use trace_stats::context::{ContextAccumulator, ContextHandle};
use trace_stats::histogram::EventHistogram;
use std::collections::HashSet;
use trace_stats::order::{ascending_order, sorted_distinct, sorted_members};
use trace_stats::report::{
    convert_timestamp, duration_table, histogram_table, report_order, runtime_table, ONE_SECOND,
};
use trace_stats::stack::{StackStats, StackTracker};

#[test]
fn ticks_to_nanoseconds() {
    assert_eq!(ONE_SECOND, 1_000_000_000);
    assert_eq!(convert_timestamp(480_000, 48_000_000), Some(10_000_000));
    assert_eq!(convert_timestamp(1, 3), Some(333_333_333));
    assert_eq!(convert_timestamp(0, 1), Some(0));
    assert_eq!(convert_timestamp(7, 1_000_000_000), Some(7));
}

#[test]
fn unitless_ticks_have_no_physical_time() {
    assert_eq!(convert_timestamp(480_000, 0), None);
    assert_eq!(convert_timestamp(0, 0), None);
}

#[test]
fn nanoseconds_keep_their_low_64_bits() {
    let exact = u128::from(u64::MAX) * 1_000_000_000u128;
    assert_eq!(convert_timestamp(u64::MAX, 1), Some(exact as u64));
    assert_eq!(convert_timestamp(u64::MAX, 1_000_000_000), Some(u64::MAX));
}

#[test]
fn stable_order_by_key() {
    assert_eq!(ascending_order(&vec![3, 1, 2, 1]), vec![1, 3, 2, 0]);
    assert_eq!(ascending_order(&vec![5, 5, 5]), vec![0, 1, 2]);
    assert_eq!(ascending_order(&vec![9, 8, 7]), vec![2, 1, 0]);
    assert_eq!(ascending_order(&vec![]), Vec::<usize>::new());
}

#[test]
fn distinct_values_sorted() {
    assert_eq!(sorted_distinct(&vec![5, 1, 3]), vec![1, 3, 5]);
    assert_eq!(sorted_distinct(&vec![u32::MAX, 0]), vec![0, u32::MAX]);
    assert_eq!(sorted_distinct(&vec![]), Vec::<u32>::new());
}

#[test]
fn members_of_a_set_sorted() {
    assert_eq!(sorted_members(&HashSet::from([9, 2, 7, 4, 0])), vec![0, 2, 4, 7, 9]);
    assert_eq!(sorted_members(&HashSet::new()), Vec::<u32>::new());
}

#[test]
fn histogram_rows_rarest_first() {
    let mut histogram = EventHistogram::new();
    for event_type in [7u16, 2, 7, 9, 2, 7, 4] {
        histogram.record(event_type);
    }
    let rows: Vec<(u16, u64)> =
        histogram_table(&histogram).iter().map(|r| (r.event_type, r.count)).collect();
    assert_eq!(rows, vec![(4, 1), (9, 1), (2, 2), (7, 3)]);
    assert_eq!(histogram.total_count(), 7);
}

fn sample() -> (ContextAccumulator, StackTracker) {
    let a = ContextHandle::Task(10);
    let b = ContextHandle::Task(11);
    let c = ContextHandle::Isr(4);
    let mut contexts = ContextAccumulator::new();
    contexts.on_switch(a, 0, 3);
    contexts.on_switch(b, 40, 1);
    contexts.on_switch(c, 50, 9);
    contexts.on_switch(a, 60, 2);
    contexts.on_switch(b, 100, 1);
    contexts.close_active(110);
    let mut stacks = StackTracker::new();
    stacks.observe(10, 300);
    stacks.observe(10, 280);
    (contexts, stacks)
}

#[test]
fn runtime_rows_ascend_by_total() {
    let (contexts, stacks) = sample();
    assert_eq!(report_order(&contexts), vec![2, 1, 0]);
    let rows = runtime_table(&contexts, &stacks, 1_000_000);
    assert_eq!(rows.len(), 3);
    assert_eq!(rows[0].context, ContextHandle::Isr(4));
    assert_eq!(rows[0].total_ticks, 10);
    assert_eq!(rows[0].count, 1);
    assert_eq!(rows[0].stack, None);
    assert_eq!(rows[1].context, ContextHandle::Task(11));
    assert_eq!(rows[1].total_ticks, 20);
    assert_eq!(rows[1].count, 2);
    assert_eq!(rows[1].priorities, vec![1]);
    assert_eq!(rows[2].context, ContextHandle::Task(10));
    assert_eq!(rows[2].position, 0);
    assert_eq!(rows[2].total_ticks, 80);
    assert_eq!(rows[2].total_nanos, Some(80_000));
    assert_eq!(rows[2].priorities, vec![2, 3]);
    assert_eq!(rows[2].stack, Some(StackStats { low_mark_min: 280, low_mark_max: 300 }));
}

#[test]
fn equal_totals_keep_the_order_of_first_sight() {
    let mut contexts = ContextAccumulator::new();
    contexts.on_switch(ContextHandle::Task(5), 0, 0);
    contexts.on_switch(ContextHandle::Task(6), 10, 0);
    contexts.on_switch(ContextHandle::Task(7), 20, 0);
    contexts.close_active(25);
    let rows = runtime_table(&contexts, &StackTracker::new(), 0);
    let shown: Vec<(u32, u64)> = rows.iter().map(|r| (r.context.object_handle(), r.total_ticks)).collect();
    assert_eq!(shown, vec![(7, 5), (5, 10), (6, 10)]);
    assert!(rows.iter().all(|r| r.total_nanos.is_none()));
}

#[test]
fn duration_rows_show_the_extremes() {
    let (contexts, _) = sample();
    let rows = duration_table(&contexts, 1_000_000_000);
    assert_eq!(rows.len(), 3);
    assert_eq!(rows[2].context, ContextHandle::Task(10));
    assert_eq!(rows[2].samples, 2);
    assert_eq!(rows[2].min_ticks, Some(40));
    assert_eq!(rows[2].max_ticks, Some(40));
    assert_eq!(rows[1].min_ticks, Some(10));
    assert_eq!(rows[1].max_ticks, Some(10));
    assert_eq!(rows[1].min_nanos, Some(10));
    assert_eq!(rows[0].samples, 1);
}

#[test]
fn duration_row_of_a_context_without_runs() {
    let mut contexts = ContextAccumulator::new();
    contexts.on_switch(ContextHandle::Task(5), 0, 0);
    let rows = duration_table(&contexts, 1_000);
    assert_eq!(rows.len(), 1);
    assert_eq!(rows[0].samples, 0);
    assert!(!rows[0].truncated);
    assert_eq!(rows[0].min_ticks, None);
    assert_eq!(rows[0].max_nanos, None);
}
