//! Conservation of time in the context accumulator: within a session every
//! tick is attributed either to the context that was running or to idle time.

use crate::context::{
    distinct_contexts, has_context, lemma_slot_of, slot_of, total_runtime, AccumulatorView,
    ContextHandle, ContextRecord, Slot,
};
use vstd::prelude::*;

verus! {

/// One context switch event, as the accumulator receives it.
pub struct SwitchEvent {
    pub target: ContextHandle,
    pub timestamp: u64,
    pub priority: u32,
}

/// The state after the switch events `events`, applied in order.
pub open spec fn after_switches(v: AccumulatorView, events: Seq<SwitchEvent>) -> AccumulatorView
    decreases events.len(),
{
    if events.len() == 0 {
        v
    } else {
        after_switches(
            v.on_switch(events[0].target, events[0].timestamp, events[0].priority),
            events.drop_first(),
        )
    }
}

/// The timestamps of `events` never go back and lie between `start` and
/// `end`.
pub open spec fn in_order(start: u64, events: Seq<SwitchEvent>, end: u64) -> bool {
    &&& start <= end
    &&& forall|i: int| 0 <= i < events.len() ==> start <= (#[trigger] events[i]).timestamp <= end
    &&& forall|i: int, j: int|
        0 <= i < j < events.len() ==> (#[trigger] events[i]).timestamp <= (#[trigger] events[j]).timestamp
}

/// The idle time of a session from `start` to `end` that begins with
/// `resting` active and nothing in flight: the time before the first switch
/// to another context, or the whole session if there is none.
pub open spec fn idle_ticks(resting: ContextHandle, events: Seq<SwitchEvent>, start: u64, end: u64) -> nat
    decreases events.len(),
{
    if events.len() == 0 {
        (end - start) as nat
    } else if events[0].target != resting {
        (events[0].timestamp - start) as nat
    } else {
        idle_ticks(resting, events.drop_first(), start, end)
    }
}

/// Replacing one record changes the sum by the difference of the two totals.
pub proof fn lemma_total_update(slots: Seq<Slot>, i: int, slot: Slot)
    requires
        0 <= i < slots.len(),
    ensures
        total_runtime(slots.update(i, slot)) + slots[i].record.total_runtime == total_runtime(slots)
            + slot.record.total_runtime,
    decreases slots.len(),
{
    let updated = slots.update(i, slot);
    if i == slots.len() - 1 {
        assert(updated.drop_last() =~= slots.drop_last());
    } else {
        assert(updated.drop_last() =~= slots.drop_last().update(i, slot));
        lemma_total_update(slots.drop_last(), i, slot);
    }
}

/// A new record adds its total to the sum.
pub proof fn lemma_total_push(slots: Seq<Slot>, slot: Slot)
    ensures
        total_runtime(slots.push(slot)) == total_runtime(slots) + slot.record.total_runtime,
{
    assert(slots.push(slot).drop_last() =~= slots);
}

/// Closing the interval in flight at a consistent timestamp adds exactly the
/// ticks since the last switch-in to the sum, and keeps the contexts.
pub proof fn lemma_closed_out(v: AccumulatorView, timestamp: u64)
    requires
        v.wf(),
        !v.goes_backwards(timestamp),
    ensures
        distinct_contexts(v.closed_out(timestamp)),
        v.closed_out(timestamp).len() == v.slots.len(),
        forall|k: int| 0 <= k < v.slots.len() ==> (#[trigger] v.closed_out(timestamp)[k]).context == v.slots[k].context,
        v.in_flight ==> total_runtime(v.closed_out(timestamp)) == total_runtime(v.slots) + (timestamp
            - v.active_record().last_timestamp),
        !v.in_flight ==> v.closed_out(timestamp) == v.slots,
{
    if v.in_flight {
        let i = slot_of(v.slots, v.active);
        lemma_total_update(
            v.slots,
            i,
            Slot { context: v.active, record: v.slots[i].record.switched_out(timestamp) },
        );
    }
}

/// A switch to another context at a consistent timestamp leaves a well
/// formed state in which the target is in flight since `timestamp`, and adds
/// to the sum exactly what closing the outgoing interval adds.
pub proof fn lemma_switch(v: AccumulatorView, target: ContextHandle, timestamp: u64, priority: u32)
    requires
        v.wf(),
        target != v.active,
        !v.goes_backwards(timestamp),
    ensures
        ({
            let w = v.on_switch(target, timestamp, priority);
            &&& w.wf()
            &&& w.in_flight
            &&& w.active == target
            &&& w.active_record().last_timestamp == timestamp
            &&& total_runtime(w.slots) == total_runtime(v.closed_out(timestamp))
        }),
{
    let closed = v.closed_out(timestamp);
    lemma_closed_out(v, timestamp);
    let w = v.on_switch(target, timestamp, priority);
    if has_context(closed, target) {
        let i = slot_of(closed, target);
        let slot = Slot { context: target, record: closed[i].record.switched_in(timestamp, priority) };
        lemma_total_update(closed, i, slot);
        assert forall|k: int, l: int| 0 <= k < l < w.slots.len() implies w.slots[k].context != w.slots[l].context by {
            assert(closed[k].context != closed[l].context);
        }
        assert(w.slots[i].context == target);
        lemma_slot_of(w.slots, i);
    } else {
        let slot = Slot {
            context: target,
            record: ContextRecord::fresh(timestamp, v.interval_cap).switched_in(timestamp, priority),
        };
        lemma_total_push(closed, slot);
        let n = closed.len() as int;
        assert forall|k: int, l: int| 0 <= k < l < w.slots.len() implies w.slots[k].context != w.slots[l].context by {
            if l < n {
                assert(closed[k].context != closed[l].context);
            } else {
                assert(closed[k].context != target);
            }
        }
        assert(w.slots[n].context == target);
        lemma_slot_of(w.slots, n);
    }
}

/// What closing the interval in flight does to each record: the active
/// context's record is switched out, every other record stays as it is.
pub proof fn lemma_closed_out_slots(v: AccumulatorView, timestamp: u64)
    requires
        v.wf(),
    ensures
        v.closed_out(timestamp).len() == v.slots.len(),
        forall|k: int|
            0 <= k < v.slots.len() ==> #[trigger] v.closed_out(timestamp)[k] == (Slot {
                context: v.slots[k].context,
                record: if v.in_flight && v.slots[k].context == v.active {
                    v.slots[k].record.switched_out(timestamp)
                } else {
                    v.slots[k].record
                },
            }),
{
    if v.in_flight {
        let i = slot_of(v.slots, v.active);
        assert forall|k: int| 0 <= k < v.slots.len() && v.slots[k].context == v.active implies k == i by {
            lemma_slot_of(v.slots, k);
        }
    }
}

/// What a switch to another context does to each record: the outgoing
/// record is switched out, the target's record is switched in, or created
/// behind all others on first sight, and every other record stays as it is.
pub proof fn lemma_switch_slots(v: AccumulatorView, target: ContextHandle, timestamp: u64, priority: u32)
    requires
        v.wf(),
        target != v.active,
    ensures
        ({
            let w = v.on_switch(target, timestamp, priority);
            &&& w.wf()
            &&& w.active == target
            &&& w.in_flight
            &&& w.slots.len() == v.slots.len() + (if has_context(v.slots, target) {
                0int
            } else {
                1int
            })
            &&& forall|k: int|
                0 <= k < v.slots.len() ==> #[trigger] w.slots[k] == (Slot {
                    context: v.slots[k].context,
                    record: if v.slots[k].context == target {
                        v.slots[k].record.switched_in(timestamp, priority)
                    } else if v.in_flight && v.slots[k].context == v.active {
                        v.slots[k].record.switched_out(timestamp)
                    } else {
                        v.slots[k].record
                    },
                })
            &&& !has_context(v.slots, target) ==> w.slots[v.slots.len() as int] == (Slot {
                context: target,
                record: ContextRecord::fresh(timestamp, v.interval_cap).switched_in(timestamp, priority),
            })
        }),
{
    let closed = v.closed_out(timestamp);
    lemma_closed_out_slots(v, timestamp);
    let w = v.on_switch(target, timestamp, priority);
    assert(distinct_contexts(closed)) by {
        assert forall|k: int, l: int| 0 <= k < l < closed.len() implies closed[k].context != closed[l].context by {
            assert(v.slots[k].context != v.slots[l].context);
        }
    }
    assert(has_context(closed, target) == has_context(v.slots, target)) by {
        if has_context(v.slots, target) {
            let k = slot_of(v.slots, target);
            assert(closed[k].context == target);
        }
        if has_context(closed, target) {
            let k = slot_of(closed, target);
            assert(v.slots[k].context == target);
        }
    }
    if has_context(closed, target) {
        let i = slot_of(closed, target);
        assert forall|k: int| 0 <= k < closed.len() && closed[k].context == target implies k == i by {
            lemma_slot_of(closed, k);
        }
        assert forall|k: int, l: int| 0 <= k < l < w.slots.len() implies w.slots[k].context != w.slots[l].context by {
            assert(closed[k].context != closed[l].context);
        }
        assert(w.slots[i].context == target);
    } else {
        let n = closed.len() as int;
        assert forall|k: int, l: int| 0 <= k < l < w.slots.len() implies w.slots[k].context != w.slots[l].context by {
            if l < n {
                assert(closed[k].context != closed[l].context);
            } else {
                assert(closed[k].context != target);
            }
        }
        assert(w.slots[n].context == target);
    }
}

/// While a context is in flight, every tick up to the end of the session is
/// attributed to some context.
pub proof fn lemma_running_time_is_attributed(v: AccumulatorView, events: Seq<SwitchEvent>, now: u64, end: u64)
    requires
        v.wf(),
        v.in_flight,
        v.active_record().last_timestamp <= now,
        in_order(now, events, end),
    ensures
        total_runtime(after_switches(v, events).close_active(end).slots) == total_runtime(v.slots) + (end
            - v.active_record().last_timestamp),
    decreases events.len(),
{
    if events.len() == 0 {
        lemma_closed_out(v, end);
    } else {
        let e = events[0];
        let rest = events.drop_first();
        assert forall|i: int| 0 <= i < rest.len() implies e.timestamp <= (#[trigger] rest[i]).timestamp <= end by {
            assert(rest[i] == events[i + 1]);
        }
        assert forall|i: int, j: int| 0 <= i < j < rest.len() implies (#[trigger] rest[i]).timestamp <= (
        #[trigger] rest[j]).timestamp by {
            assert(rest[i] == events[i + 1]);
            assert(rest[j] == events[j + 1]);
        }
        if e.target == v.active {
            lemma_running_time_is_attributed(v, rest, e.timestamp, end);
        } else {
            let w = v.on_switch(e.target, e.timestamp, e.priority);
            lemma_switch(v, e.target, e.timestamp, e.priority);
            lemma_closed_out(v, e.timestamp);
            lemma_running_time_is_attributed(w, rest, e.timestamp, end);
        }
    }
}

/// Conservation of time over a session.
///
/// A session starts at `start` with nothing in flight, sees the switch
/// events `events` with timestamps that never go back, and ends at `end`,
/// where the interval in flight is closed. Then the running ticks that the
/// session added to all records, plus the idle time, are exactly the ticks
/// that elapsed.
pub proof fn law_session_time_is_attributed(v: AccumulatorView, events: Seq<SwitchEvent>, start: u64, end: u64)
    requires
        v.wf(),
        !v.in_flight,
        in_order(start, events, end),
    ensures
        total_runtime(after_switches(v, events).close_active(end).slots) + idle_ticks(
            v.active,
            events,
            start,
            end,
        ) == total_runtime(v.slots) + (end - start),
    decreases events.len(),
{
    if events.len() == 0 {
    } else {
        let e = events[0];
        let rest = events.drop_first();
        assert forall|i: int| 0 <= i < rest.len() implies e.timestamp <= (#[trigger] rest[i]).timestamp <= end by {
            assert(rest[i] == events[i + 1]);
        }
        assert forall|i: int, j: int| 0 <= i < j < rest.len() implies (#[trigger] rest[i]).timestamp <= (
        #[trigger] rest[j]).timestamp by {
            assert(rest[i] == events[i + 1]);
            assert(rest[j] == events[j + 1]);
        }
        if e.target == v.active {
            law_session_time_is_attributed(v, rest, start, end);
        } else {
            let w = v.on_switch(e.target, e.timestamp, e.priority);
            lemma_switch(v, e.target, e.timestamp, e.priority);
            lemma_closed_out(v, e.timestamp);
            lemma_running_time_is_attributed(w, rest, e.timestamp, end);
        }
    }
}

} // verus!
