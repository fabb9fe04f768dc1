//! Shaping the final state into the rows of the report tables. Rendering is
//! left to the caller.

use crate::context::{is_longest, is_shortest, ContextAccumulator, ContextHandle, Slot};
use crate::histogram::{has_type, lemma_count_at, EventHistogram, TypeCount};
use crate::order::{ascending_order, is_stable_order, names, sorted_members, strictly_ascending};
use crate::stack::{StackStats, StackTracker};
use vstd::prelude::*;

verus! {

/// Nanoseconds per second.
pub const ONE_SECOND: u64 = 1_000_000_000;

/// The physical time of `ticks` at a tick rate of `frequency` per second, in
/// nanoseconds, rounded down and kept to its low 64 bits. A frequency of
/// zero means that ticks have no unit: there is no physical time.
pub open spec fn nanos_of(ticks: u64, frequency: u32) -> Option<u64> {
    if frequency == 0 {
        None
    } else {
        Some((((ticks as nat * ONE_SECOND as nat) / frequency as nat) % 0x1_0000_0000_0000_0000) as u64)
    }
}

/// Converts ticks to nanoseconds.
pub fn convert_timestamp(ticks: u64, frequency: u32) -> (nanos: Option<u64>)
    ensures
        nanos == nanos_of(ticks, frequency),
{
    if frequency == 0 {
        None
    } else {
        assert(ticks as u128 * ONE_SECOND as u128 <= 0xFFFF_FFFF_FFFF_FFFF * 1_000_000_000) by (nonlinear_arith)
            requires
                ticks <= 0xFFFF_FFFF_FFFF_FFFF,
                ONE_SECOND == 1_000_000_000,
        ;
        let ticks_ns: u128 = (ticks as u128) * (ONE_SECOND as u128);
        let whole: u128 = ticks_ns / (frequency as u128);
        let low: u128 = whole % 0x1_0000_0000_0000_0000u128;
        Some(low as u64)
    }
}

/// Physical time for an optional tick count.
pub open spec fn nanos_of_opt(ticks: Option<u64>, frequency: u32) -> Option<u64> {
    match ticks {
        Some(t) => nanos_of(t, frequency),
        None => None,
    }
}

/// `a` stands before `b` in the histogram table: it counts fewer events, or
/// as many and has the smaller type.
pub open spec fn rarer(a: TypeCount, b: TypeCount) -> bool {
    a.count < b.count || (a.count == b.count && a.event_type < b.event_type)
}

/// The rows of the event-type histogram: every type that was seen, once, with
/// its count, rarest first; types seen equally often stand in ascending order
/// of the types. The relative frequency of a row is its count over the
/// histogram's total.
pub fn histogram_table(histogram: &EventHistogram) -> (rows: Vec<TypeCount>)
    requires
        histogram.wf(),
    ensures
        rows@.len() == histogram.rows().len(),
        forall|k: int|
            0 <= k < rows@.len() ==> histogram@.contains_key((#[trigger] rows@[k]).event_type)
                && histogram@[rows@[k].event_type] == rows@[k].count,
        forall|t: u16| histogram@.contains_key(t) ==> has_type(rows@, t),
        forall|i: int, j: int| 0 <= i < j < rows@.len() ==> rarer(#[trigger] rows@[i], #[trigger] rows@[j]),
{
    let entries = histogram.entries();
    let mut keys: Vec<u64> = Vec::new();
    let mut i: usize = 0;
    while i < entries.len()
        invariant
            i <= entries@.len(),
            keys@.len() == i,
            forall|k: int| 0 <= k < i ==> keys@[k] == entries@[k].count,
        decreases entries@.len() - i,
    {
        keys.push(entries[i].count);
        i += 1;
    }
    let order = ascending_order(&keys);
    let mut rows: Vec<TypeCount> = Vec::new();
    let mut k: usize = 0;
    while k < order.len()
        invariant
            k <= order@.len(),
            order@.len() == entries@.len(),
            forall|n: int| 0 <= n < order@.len() ==> (#[trigger] order@[n]) < entries@.len(),
            rows@.len() == k,
            forall|n: int| 0 <= n < k ==> rows@[n] == entries@[order@[n] as int],
        decreases order@.len() - k,
    {
        rows.push(entries[order[k]]);
        k += 1;
    }
    proof {
        assert forall|n: int| 0 <= n < rows@.len() implies histogram@.contains_key(
            (#[trigger] rows@[n]).event_type,
        ) && histogram@[rows@[n].event_type] == rows@[n].count by {
            lemma_count_at(entries@, order@[n] as int);
        }
        assert forall|t: u16| histogram@.contains_key(t) implies has_type(rows@, t) by {
            let p = choose|p: int| 0 <= p < entries@.len() && #[trigger] entries@[p].event_type == t;
            assert(names(order@, p));
            let n = choose|n: int| 0 <= n < order@.len() && #[trigger] order@[n] == p;
            assert(rows@[n].event_type == t);
        }
        assert forall|a: int, b: int| 0 <= a < b < rows@.len() implies rarer(
            #[trigger] rows@[a],
            #[trigger] rows@[b],
        ) by {
            let pa = order@[a];
            let pb = order@[b];
            assert(keys@[pa as int] < keys@[pb as int] || (keys@[pa as int] == keys@[pb as int] && pa < pb));
        }
    }
    rows
}

/// One row of the runtime table.
pub struct RuntimeRow {
    /// The context's position in the order of first sight.
    pub position: usize,
    /// The context.
    pub context: ContextHandle,
    /// The priorities it was seen at, in ascending order.
    pub priorities: Vec<u32>,
    /// The extremes of its stack's low-water mark, if it was sampled.
    pub stack: Option<StackStats>,
    /// How often it was switched in.
    pub count: u64,
    /// Its cumulative running ticks.
    pub total_ticks: u64,
    /// The same in nanoseconds, where ticks have a unit.
    pub total_nanos: Option<u64>,
}

impl RuntimeRow {
    /// The row shows what `slot` and the stack records hold.
    pub open spec fn shows(&self, slot: Slot, stacks: Map<u32, StackStats>, frequency: u32) -> bool {
        &&& self.context == slot.context
        &&& strictly_ascending(self.priorities@)
        &&& self.priorities@.to_set() == slot.record.priorities
        &&& self.stack == (if stacks.contains_key(slot.context.handle_spec()) {
            Some(stacks[slot.context.handle_spec()])
        } else {
            None
        })
        &&& self.count == slot.record.count
        &&& self.total_ticks == slot.record.total_runtime
        &&& self.total_nanos == nanos_of(self.total_ticks, frequency)
    }
}

/// One row of the duration table: the distribution of a context's sampled
/// running intervals as far as integers give it. Mean and deviation are left to the
/// caller, who has the intervals from the context's statistics.
#[derive(Clone, Copy, Debug)]
pub struct DurationRow {
    /// The context's position in the order of first sight.
    pub position: usize,
    /// The context.
    pub context: ContextHandle,
    /// The number of running intervals that were kept as samples.
    pub samples: usize,
    /// Whether intervals were left out of the samples because the cap was
    /// reached.
    pub truncated: bool,
    /// The shortest interval in ticks.
    pub min_ticks: Option<u64>,
    /// The longest interval in ticks.
    pub max_ticks: Option<u64>,
    /// The shortest interval in nanoseconds, where ticks have a unit.
    pub min_nanos: Option<u64>,
    /// The longest interval in nanoseconds, where ticks have a unit.
    pub max_nanos: Option<u64>,
}

impl DurationRow {
    /// The row shows what `slot` holds.
    pub open spec fn shows(&self, slot: Slot, frequency: u32) -> bool {
        &&& self.context == slot.context
        &&& self.samples == slot.record.running_instances.len()
        &&& self.truncated == slot.record.truncated
        &&& is_shortest(slot.record.running_instances, self.min_ticks)
        &&& is_longest(slot.record.running_instances, self.max_ticks)
        &&& self.min_nanos == nanos_of_opt(self.min_ticks, frequency)
        &&& self.max_nanos == nanos_of_opt(self.max_ticks, frequency)
    }
}

/// The cumulative running ticks of the records, in the order of first sight.
pub open spec fn runtimes(slots: Seq<Slot>) -> Seq<u64> {
    Seq::new(slots.len(), |i: int| slots[i].record.total_runtime as u64)
}

/// The positions of the contexts in the order of the report tables:
/// ascending by cumulative running ticks, contexts with equal totals in the
/// order of first sight. Every context occurs exactly once.
pub fn report_order(contexts: &ContextAccumulator) -> (order: Vec<usize>)
    requires
        contexts.wf(),
    ensures
        is_stable_order(runtimes(contexts@.slots), order@),
        forall|i: int, j: int| 0 <= i < j < order@.len() ==> order@[i] != order@[j],
        forall|p: int| 0 <= p < contexts@.slots.len() ==> #[trigger] names(order@, p),
{
    let mut keys: Vec<u64> = Vec::new();
    let mut i: usize = 0;
    while i < contexts.len()
        invariant
            contexts.wf(),
            i <= contexts@.slots.len(),
            keys@.len() == i,
            forall|k: int| 0 <= k < i ==> keys@[k] == contexts@.slots[k].record.total_runtime,
        decreases contexts@.slots.len() - i,
    {
        keys.push(contexts.stats_at(i).total_runtime());
        i += 1;
    }
    assert(keys@ =~= runtimes(contexts@.slots));
    ascending_order(&keys)
}

/// The row of the runtime table for the context at `position`.
pub fn runtime_row(contexts: &ContextAccumulator, stacks: &StackTracker, frequency: u32, position: usize) -> (row:
    RuntimeRow)
    requires
        contexts.wf(),
        stacks.wf(),
        position < contexts@.slots.len(),
    ensures
        row.position == position,
        row.shows(contexts@.slots[position as int], stacks@, frequency),
{
    let context = contexts.context_at(position);
    let stats = contexts.stats_at(position);
    let total_ticks = stats.total_runtime();
    RuntimeRow {
        position,
        context,
        priorities: sorted_members(stats.priorities()),
        stack: stacks.record(context.object_handle()),
        count: stats.count(),
        total_ticks,
        total_nanos: convert_timestamp(total_ticks, frequency),
    }
}

/// The row of the duration table for the context at `position`.
pub fn duration_row(contexts: &ContextAccumulator, frequency: u32, position: usize) -> (row: DurationRow)
    requires
        contexts.wf(),
        position < contexts@.slots.len(),
    ensures
        row.position == position,
        row.shows(contexts@.slots[position as int], frequency),
{
    let stats = contexts.stats_at(position);
    let min_ticks = stats.shortest_run();
    let max_ticks = stats.longest_run();
    DurationRow {
        position,
        context: contexts.context_at(position),
        samples: stats.running_instances().len(),
        truncated: stats.truncated(),
        min_ticks,
        max_ticks,
        min_nanos: match min_ticks {
            Some(t) => convert_timestamp(t, frequency),
            None => None,
        },
        max_nanos: match max_ticks {
            Some(t) => convert_timestamp(t, frequency),
            None => None,
        },
    }
}

/// The positions that the rows show, in the rows' order.
pub open spec fn runtime_positions(rows: Seq<RuntimeRow>) -> Seq<usize> {
    Seq::new(rows.len(), |i: int| rows[i].position)
}

/// The positions that the rows show, in the rows' order.
pub open spec fn duration_positions(rows: Seq<DurationRow>) -> Seq<usize> {
    Seq::new(rows.len(), |i: int| rows[i].position)
}

/// The per-context runtime table: one row for every context, ascending by
/// cumulative running ticks, contexts with equal totals in the order of
/// first sight.
pub fn runtime_table(contexts: &ContextAccumulator, stacks: &StackTracker, frequency: u32) -> (rows: Vec<
    RuntimeRow,
>)
    requires
        contexts.wf(),
        stacks.wf(),
    ensures
        rows@.len() == contexts@.slots.len(),
        is_stable_order(runtimes(contexts@.slots), runtime_positions(rows@)),
        forall|p: int| 0 <= p < contexts@.slots.len() ==> #[trigger] names(runtime_positions(rows@), p),
        forall|k: int|
            0 <= k < rows@.len() ==> (#[trigger] rows@[k]).shows(
                contexts@.slots[rows@[k].position as int],
                stacks@,
                frequency,
            ),
        forall|i: int, j: int|
            0 <= i < j < rows@.len() ==> (#[trigger] rows@[i]).total_ticks <= (#[trigger] rows@[j]).total_ticks,
{
    let order = report_order(contexts);
    let mut rows: Vec<RuntimeRow> = Vec::new();
    let mut k: usize = 0;
    while k < order.len()
        invariant
            contexts.wf(),
            stacks.wf(),
            k <= order@.len(),
            is_stable_order(runtimes(contexts@.slots), order@),
            rows@.len() == k,
            forall|n: int| 0 <= n < k ==> (#[trigger] rows@[n]).position == order@[n],
            forall|n: int|
                0 <= n < k ==> (#[trigger] rows@[n]).shows(
                    contexts@.slots[order@[n] as int],
                    stacks@,
                    frequency,
                ),
        decreases order@.len() - k,
    {
        let p = order[k];
        assert(order@[k as int] < runtimes(contexts@.slots).len());
        let row = runtime_row(contexts, stacks, frequency, p);
        rows.push(row);
        k += 1;
    }
    proof {
        assert(runtime_positions(rows@) =~= order@);
        assert forall|a: int, b: int| 0 <= a < b < rows@.len() implies (#[trigger] rows@[a]).total_ticks <= (
        #[trigger] rows@[b]).total_ticks by {
            let pa = order@[a];
            let pb = order@[b];
            let keys = runtimes(contexts@.slots);
            assert(keys[pa as int] < keys[pb as int] || (keys[pa as int] == keys[pb as int] && pa < pb));
        }
    }
    rows
}

/// The per-context duration table: one row for every context, in the order of
/// the runtime table.
pub fn duration_table(contexts: &ContextAccumulator, frequency: u32) -> (rows: Vec<DurationRow>)
    requires
        contexts.wf(),
    ensures
        rows@.len() == contexts@.slots.len(),
        is_stable_order(runtimes(contexts@.slots), duration_positions(rows@)),
        forall|p: int| 0 <= p < contexts@.slots.len() ==> #[trigger] names(duration_positions(rows@), p),
        forall|k: int|
            0 <= k < rows@.len() ==> (#[trigger] rows@[k]).shows(
                contexts@.slots[rows@[k].position as int],
                frequency,
            ),
{
    let order = report_order(contexts);
    let mut rows: Vec<DurationRow> = Vec::new();
    let mut k: usize = 0;
    while k < order.len()
        invariant
            contexts.wf(),
            k <= order@.len(),
            is_stable_order(runtimes(contexts@.slots), order@),
            rows@.len() == k,
            forall|n: int| 0 <= n < k ==> (#[trigger] rows@[n]).position == order@[n],
            forall|n: int| 0 <= n < k ==> (#[trigger] rows@[n]).shows(contexts@.slots[order@[n] as int], frequency),
        decreases order@.len() - k,
    {
        let p = order[k];
        assert(order@[k as int] < runtimes(contexts@.slots).len());
        let row = duration_row(contexts, frequency, p);
        rows.push(row);
        k += 1;
    }
    proof {
        assert(duration_positions(rows@) =~= order@);
    }
    rows
}

} // verus!
