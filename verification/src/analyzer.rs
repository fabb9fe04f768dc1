//! The session coordinator: routes each decoded event through the time
//! reconstructor, the loss tracker, the context accumulator and the stack
//! tracker, and carries the cumulative picture across stream restarts.

use crate::accounting::{
    after_switches, idle_ticks, in_order, law_session_time_is_attributed, lemma_closed_out_slots,
    lemma_switch_slots, SwitchEvent,
};
use crate::context::{
    total_runtime, AccumulatorView, ContextAccumulator, ContextHandle, ContextRecord, SwitchOutcome,
};
use crate::histogram::{counted, EventHistogram};
use crate::sequence::{skipped_between, SequenceTracker};
use crate::stack::{StackStats, StackTracker};
use crate::time::TickClock;
use crate::wrap::{advanced, lemma_advanced_bounds, lemma_modulus_bounds, modulus, valid_width};
use vstd::prelude::*;

verus! {

/// What the engine reads from an event beyond its header fields.
#[derive(Clone, Copy, Debug, PartialEq, Eq, Structural)]
pub enum EventKind {
    /// A task or an interrupt handler begins, resumes or is activated.
    ContextSwitch { context: ContextHandle, priority: u32 },
    /// A sample of an object's unused stack.
    UnusedStack { handle: u32, low_mark: u32 },
    /// Any other event: it is timed and counted, nothing more.
    Other,
}

/// One decoded event, as plain values.
#[derive(Clone, Copy, Debug, PartialEq, Eq, Structural)]
pub struct TraceEvent {
    /// The key of the event's type.
    pub event_type: u16,
    /// The raw reading of the tick counter.
    pub raw_ticks: u32,
    /// The source's sequence counter.
    pub sequence: u32,
    /// The payload the engine acts on.
    pub kind: EventKind,
}

/// Why an event was not taken. The state is then unchanged.
#[derive(Clone, Copy, Debug, PartialEq, Eq, Structural)]
pub enum AnalysisError {
    /// The elapsed ticks of all sessions together would exceed 64 bits.
    TickOverflow,
    /// The count of events or of dropped events would exceed 64 bits.
    CounterOverflow,
}

/// What the engine found out about one event.
#[derive(Clone, Copy, Debug)]
pub struct EventOutcome {
    /// The event's absolute tick count within its session.
    pub timestamp: u64,
    /// The number of events that were lost just before this one.
    pub dropped: u64,
    /// What the event did to the active context, for a context switch.
    pub switch: Option<SwitchOutcome>,
}

/// The totals of a run.
#[derive(Clone, Copy, Debug, PartialEq, Eq, Structural)]
pub struct Summary {
    /// The number of events taken.
    pub total_events: u64,
    /// The number of events that the sequence counter shows as lost.
    pub dropped_events: u64,
    /// The number of stream restarts.
    pub restarts: u64,
    /// The elapsed ticks of all sessions together.
    pub total_ticks: u64,
}

/// The sum of the session boundaries.
pub open spec fn sum_ticks(sessions: Seq<u64>) -> nat
    decreases sessions.len(),
{
    if sessions.len() == 0 {
        0
    } else {
        sum_ticks(sessions.drop_last()) + sessions.last() as nat
    }
}

/// What holds of every record while the engine runs: it was switched in no
/// more often than events were seen, not after the clock's current count,
/// and its cumulative total is covered by the ticks of the closed sessions
/// and of the current one up to its last switch-in.
pub open spec fn record_covered(r: ContextRecord, closed: nat, now: u64, events: nat) -> bool {
    &&& r.count <= events
    &&& r.last_timestamp <= now
    &&& r.total_runtime <= closed + r.last_timestamp
}

/// The state of the engine as mathematical values.
pub struct AnalyzerView {
    pub clock: TickClock,
    pub sequence: SequenceTracker,
    pub contexts: AccumulatorView,
    pub stacks: Map<u32, StackStats>,
    /// How often each event type was seen.
    pub histogram: Map<u16, nat>,
    pub total_events: nat,
    pub dropped_events: nat,
    /// The absolute tick count that each closed session reached.
    pub sessions: Seq<u64>,
}

impl AnalyzerView {
    /// The invariant of the engine.
    pub open spec fn wf(self) -> bool {
        &&& self.clock.wf()
        &&& self.sequence.wf()
        &&& self.contexts.wf()
        &&& self.total_events <= u64::MAX
        &&& self.dropped_events <= u64::MAX
        &&& self.grand_total() <= u64::MAX
        &&& !self.clock.started ==> !self.contexts.in_flight
        &&& forall|k: int|
            0 <= k < self.contexts.slots.len() ==> record_covered(
                (#[trigger] self.contexts.slots[k]).record,
                sum_ticks(self.sessions),
                self.clock.ticks,
                self.total_events,
            )
    }

    /// The elapsed ticks of all sessions: the boundaries of the closed ones
    /// plus the count that the current one has reached.
    pub open spec fn grand_total(self) -> nat {
        sum_ticks(self.sessions) + self.clock.ticks as nat
    }

    /// The number of restarts seen.
    pub open spec fn restarts(self) -> nat {
        self.sessions.len()
    }

    /// The absolute tick count of `event`: the origin if it is the first of
    /// its session, else the clock's count advanced by its reading.
    pub open spec fn timestamp_of(self, event: TraceEvent, wraparounds: u32) -> nat {
        if self.clock.started {
            advanced(self.clock.ticks as nat, event.raw_ticks as nat, modulus(self.clock.bits))
        } else {
            TickClock::origin(self.clock.bits, event.raw_ticks, wraparounds)
        }
    }

    /// The number of events lost just before `event`; none for the first of
    /// a session.
    pub open spec fn dropped_before(self, event: TraceEvent) -> nat {
        if self.clock.started {
            skipped_between(
                self.sequence.last as nat,
                event.sequence as nat % modulus(self.sequence.bits),
                modulus(self.sequence.bits),
            )
        } else {
            0
        }
    }

    /// Why `event` cannot be taken, if it cannot.
    pub open spec fn rejection(self, event: TraceEvent, wraparounds: u32) -> Option<AnalysisError> {
        if sum_ticks(self.sessions) + self.timestamp_of(event, wraparounds) > u64::MAX {
            Some(AnalysisError::TickOverflow)
        } else if self.total_events + 1 > u64::MAX || self.dropped_events + self.dropped_before(event)
            > u64::MAX {
            Some(AnalysisError::CounterOverflow)
        } else {
            None
        }
    }

    /// The state after `event`.
    pub open spec fn on_event(self, event: TraceEvent, wraparounds: u32) -> AnalyzerView {
        let timestamp = self.timestamp_of(event, wraparounds) as u64;
        AnalyzerView {
            clock: TickClock { bits: self.clock.bits, started: true, ticks: timestamp },
            sequence: SequenceTracker {
                bits: self.sequence.bits,
                last: (event.sequence as nat % modulus(self.sequence.bits)) as u32,
            },
            contexts: match event.kind {
                EventKind::ContextSwitch { context, priority } => self.contexts.on_switch(
                    context,
                    timestamp,
                    priority,
                ),
                _ => self.contexts,
            },
            stacks: match event.kind {
                EventKind::UnusedStack { handle, low_mark } => self.stacks.insert(
                    handle,
                    if self.stacks.contains_key(handle) {
                        self.stacks[handle].updated(low_mark)
                    } else {
                        StackStats::first(low_mark)
                    },
                ),
                _ => self.stacks,
            },
            histogram: counted(self.histogram, event.event_type),
            total_events: self.total_events + 1,
            dropped_events: self.dropped_events + self.dropped_before(event),
            sessions: self.sessions,
        }
    }

    /// What the engine reports about `event`.
    pub open spec fn outcome(self, event: TraceEvent, wraparounds: u32) -> EventOutcome {
        let timestamp = self.timestamp_of(event, wraparounds) as u64;
        EventOutcome {
            timestamp,
            dropped: self.dropped_before(event) as u64,
            switch: match event.kind {
                EventKind::ContextSwitch { context, priority } => Some(
                    self.contexts.switch_outcome(context, timestamp),
                ),
                _ => None,
            },
        }
    }

    /// The state after a stream restart: the count reached becomes a session
    /// boundary, every record starts over while keeping what is cumulative,
    /// the idle context is active, and the clock waits for the next event to
    /// establish a new origin. The interval that was in flight is given up:
    /// no switch-out was observed for it, so it adds to no total.
    pub open spec fn restarted(self) -> AnalyzerView {
        AnalyzerView {
            clock: TickClock { bits: self.clock.bits, started: false, ticks: 0 },
            contexts: self.contexts.session_reset(),
            sessions: self.sessions.push(self.clock.ticks),
            ..self
        }
    }

    /// The state at the end of the stream: the interval in flight is closed
    /// at the count reached.
    pub open spec fn finished(self) -> AnalyzerView {
        AnalyzerView { contexts: self.contexts.close_active(self.clock.ticks), ..self }
    }

    /// The totals of the run.
    pub open spec fn summary(self) -> Summary {
        Summary {
            total_events: self.total_events as u64,
            dropped_events: self.dropped_events as u64,
            restarts: self.restarts() as u64,
            total_ticks: self.grand_total() as u64,
        }
    }
}

/// One more boundary adds its ticks to the sum.
pub proof fn lemma_sum_ticks_push(sessions: Seq<u64>, ticks: u64)
    ensures
        sum_ticks(sessions.push(ticks)) == sum_ticks(sessions) + ticks,
{
    assert(sessions.push(ticks).drop_last() =~= sessions);
}

/// Records that are covered stay covered when the clock moves on and more
/// events are seen.
proof fn lemma_covered_later(v: AnalyzerView, later: u64, events: nat)
    requires
        v.wf(),
        v.clock.ticks <= later,
        v.total_events <= events,
    ensures
        forall|k: int|
            0 <= k < v.contexts.slots.len() ==> record_covered(
                (#[trigger] v.contexts.slots[k]).record,
                sum_ticks(v.sessions),
                later,
                events,
            ),
{
    assert forall|k: int| 0 <= k < v.contexts.slots.len() implies record_covered(
        (#[trigger] v.contexts.slots[k]).record,
        sum_ticks(v.sessions),
        later,
        events,
    ) by {
        assert(record_covered(
            v.contexts.slots[k].record,
            sum_ticks(v.sessions),
            v.clock.ticks,
            v.total_events,
        ));
    }
}

/// The streaming statistics engine.
pub struct Analyzer {
    clock: TickClock,
    sequence: SequenceTracker,
    contexts: ContextAccumulator,
    stacks: StackTracker,
    histogram: EventHistogram,
    dropped_events: u64,
    sessions: Vec<u64>,
    closed_ticks: u64,
}

impl View for Analyzer {
    type V = AnalyzerView;

    closed spec fn view(&self) -> AnalyzerView {
        AnalyzerView {
            clock: self.clock,
            sequence: self.sequence,
            contexts: self.contexts@,
            stacks: self.stacks@,
            histogram: self.histogram@,
            total_events: self.histogram.total(),
            dropped_events: self.dropped_events as nat,
            sessions: self.sessions@,
        }
    }
}

impl Analyzer {
    /// The parts are well formed and the engine's invariant holds.
    pub closed spec fn wf(&self) -> bool {
        &&& self@.wf()
        &&& self.contexts.wf()
        &&& self.stacks.wf()
        &&& self.histogram.wf()
        &&& self.closed_ticks == sum_ticks(self.sessions@)
    }

    /// What `wf` promises of the view.
    pub proof fn lemma_wf_view(&self)
        requires
            self.wf(),
        ensures
            self@.wf(),
    {
    }

    /// The state before the first event, for a tick counter of `tick_bits`
    /// bits, a sequence counter of `sequence_bits` bits and records that
    /// keep at most `interval_cap` interval samples.
    pub open spec fn initial(tick_bits: u32, sequence_bits: u32, interval_cap: Option<usize>) -> AnalyzerView {
        AnalyzerView {
            clock: TickClock { bits: tick_bits, started: false, ticks: 0 },
            sequence: SequenceTracker { bits: sequence_bits, last: 0 },
            contexts: AccumulatorView::empty(interval_cap),
            stacks: Map::empty(),
            histogram: Map::empty(),
            total_events: 0,
            dropped_events: 0,
            sessions: Seq::empty(),
        }
    }

    /// An engine that has seen nothing. Every running interval is kept as a
    /// sample.
    pub fn new(tick_bits: u32, sequence_bits: u32) -> (a: Analyzer)
        requires
            valid_width(tick_bits),
            valid_width(sequence_bits),
        ensures
            a.wf(),
            a@ == Analyzer::initial(tick_bits, sequence_bits, None),
    {
        Analyzer::with_interval_cap(tick_bits, sequence_bits, None)
    }

    /// An engine that has seen nothing, whose context records keep at most
    /// `interval_cap` running intervals of a session as samples.
    pub fn with_interval_cap(tick_bits: u32, sequence_bits: u32, interval_cap: Option<usize>) -> (a: Analyzer)
        requires
            valid_width(tick_bits),
            valid_width(sequence_bits),
        ensures
            a.wf(),
            a@ == Analyzer::initial(tick_bits, sequence_bits, interval_cap),
    {
        Analyzer {
            clock: TickClock::new(tick_bits),
            sequence: SequenceTracker::new(sequence_bits),
            contexts: ContextAccumulator::with_interval_cap(interval_cap),
            stacks: StackTracker::new(),
            histogram: EventHistogram::new(),
            dropped_events: 0,
            sessions: Vec::new(),
            closed_ticks: 0,
        }
    }

    /// Takes one decoded event. `wraparounds` is the wraparound count of the
    /// stream's metadata; it is read for the first event of a session only.
    ///
    /// The first event of a session establishes the clock's origin and the
    /// first sequence value. Every later one advances the clock and yields
    /// the number of events lost before it. The event is counted under its
    /// type; a context switch goes to the context accumulator with the
    /// event's absolute tick count, a stack sample to the stack tracker.
    ///
    /// An event that would push a 64-bit total over its limit is refused and
    /// leaves the engine as it was.
    pub fn on_event(&mut self, event: TraceEvent, wraparounds: u32) -> (r: Result<EventOutcome, AnalysisError>)
        requires
            old(self).wf(),
        ensures
            final(self).wf(),
            match r {
                Ok(outcome) => {
                    &&& old(self)@.rejection(event, wraparounds).is_none()
                    &&& final(self)@ == old(self)@.on_event(event, wraparounds)
                    &&& outcome == old(self)@.outcome(event, wraparounds)
                    &&& outcome.switch != Some(SwitchOutcome::TimestampWentBackwards)
                },
                Err(e) => {
                    &&& old(self)@.rejection(event, wraparounds) == Some(e)
                    &&& final(self)@ == old(self)@
                },
            },
    {
        let first = !self.clock.started;
        proof {
            lemma_modulus_bounds(self.clock.bits);
            lemma_advanced_bounds(
                self.clock.ticks as nat,
                event.raw_ticks as nat,
                modulus(self.clock.bits),
            );
        }
        let timestamp: u64 = if first {
            TickClock::origin_ticks(self.clock.bits, event.raw_ticks, wraparounds)
        } else {
            match self.clock.projected(event.raw_ticks) {
                Some(t) => t,
                None => {
                    return Err(AnalysisError::TickOverflow);
                },
            }
        };
        if timestamp > u64::MAX - self.closed_ticks {
            return Err(AnalysisError::TickOverflow);
        }
        if self.histogram.total_count() == u64::MAX {
            return Err(AnalysisError::CounterOverflow);
        }
        let dropped: u64 = if first {
            0
        } else {
            self.sequence.projected(event.sequence)
        };
        let dropped_total: u64 = match self.dropped_events.checked_add(dropped) {
            Some(d) => d,
            None => {
                return Err(AnalysisError::CounterOverflow);
            },
        };
        if first {
            self.sequence.set_initial_count(event.sequence);
            self.clock.initialize(event.raw_ticks, wraparounds);
        } else {
            self.sequence.update(event.sequence);
            self.clock.elapsed(event.raw_ticks);
        }
        self.histogram.record(event.event_type);
        self.dropped_events = dropped_total;
        let mut switch: Option<SwitchOutcome> = None;
        match event.kind {
            EventKind::ContextSwitch { context, priority } => {
                proof {
                    let v = old(self)@.contexts;
                    if context != v.active {
                        if v.in_flight {
                            let i = crate::context::slot_of(v.slots, v.active);
                            assert(record_covered(
                                v.slots[i].record,
                                sum_ticks(old(self)@.sessions),
                                old(self)@.clock.ticks,
                                old(self)@.total_events,
                            ));
                        }
                        if crate::context::has_context(v.slots, context) {
                            let i = crate::context::slot_of(v.slots, context);
                            assert(record_covered(
                                v.slots[i].record,
                                sum_ticks(old(self)@.sessions),
                                old(self)@.clock.ticks,
                                old(self)@.total_events,
                            ));
                        }
                        lemma_switch_slots(v, context, timestamp, priority);
                    }
                }
                let outcome = self.contexts.on_switch(context, timestamp, priority);
                switch = Some(outcome);
                proof {
                    let v = old(self)@.contexts;
                    let w = self@.contexts;
                    assert forall|k: int| 0 <= k < w.slots.len() implies record_covered(
                        (#[trigger] w.slots[k]).record,
                        sum_ticks(self@.sessions),
                        self@.clock.ticks,
                        self@.total_events,
                    ) by {
                        if k < v.slots.len() {
                            assert(record_covered(
                                v.slots[k].record,
                                sum_ticks(old(self)@.sessions),
                                old(self)@.clock.ticks,
                                old(self)@.total_events,
                            ));
                        }
                    }
                }
            },
            EventKind::UnusedStack { handle, low_mark } => {
                self.stacks.observe(handle, low_mark);
                proof {
                    lemma_covered_later(old(self)@, self@.clock.ticks, self@.total_events);
                }
            },
            EventKind::Other => {
                proof {
                    lemma_covered_later(old(self)@, self@.clock.ticks, self@.total_events);
                }
            },
        }
        proof {
            self.contexts.lemma_wf_view();
            assert(self@ == old(self)@.on_event(event, wraparounds));
        }
        Ok(EventOutcome { timestamp, dropped, switch })
    }

    /// Takes note that the stream restarted.
    ///
    /// The count reached becomes a session boundary, the clock forgets its
    /// origin so that the next event establishes a new one, and the idle
    /// context is active again. Every record keeps its cumulative total, its
    /// count and its priorities, while its last switch-in and its interval
    /// samples start over. The interval that was in flight is given up: it
    /// is neither added to a total nor carried into the new session. The
    /// elapsed ticks of all sessions stay what they were.
    pub fn on_restart_detected(&mut self)
        requires
            old(self).wf(),
        ensures
            final(self).wf(),
            final(self)@ == old(self)@.restarted(),
            final(self)@.grand_total() == old(self)@.grand_total(),
            final(self)@.contexts.slots.len() == old(self)@.contexts.slots.len(),
            forall|k: int|
                0 <= k < old(self)@.contexts.slots.len() ==> (#[trigger] final(self)@.contexts.slots[k]).context
                    == old(self)@.contexts.slots[k].context && final(self)@.contexts.slots[k].record.total_runtime
                    == old(self)@.contexts.slots[k].record.total_runtime
                    && final(self)@.contexts.slots[k].record.count == old(self)@.contexts.slots[k].record.count,
    {
        let boundary: u64 = self.clock.now();
        proof {
            lemma_sum_ticks_push(self.sessions@, boundary);
        }
        self.sessions.push(boundary);
        self.closed_ticks += boundary;
        self.clock.on_session_reset();
        self.contexts.reset_session();
        proof {
            let v = old(self)@.contexts;
            let w = self@.contexts;
            assert forall|k: int| 0 <= k < w.slots.len() implies record_covered(
                (#[trigger] w.slots[k]).record,
                sum_ticks(self@.sessions),
                self@.clock.ticks,
                self@.total_events,
            ) by {
                assert(record_covered(
                    v.slots[k].record,
                    sum_ticks(old(self)@.sessions),
                    boundary,
                    old(self)@.total_events,
                ));
            }
            self.contexts.lemma_wf_view();
        }
    }

    /// Ends the run: the interval in flight is closed at the count reached,
    /// and the totals are returned. The grand total of elapsed ticks is the
    /// sum of all session boundaries plus the count that the last session
    /// reached.
    pub fn finish(&mut self) -> (summary: Summary)
        requires
            old(self).wf(),
        ensures
            final(self).wf(),
            final(self)@ == old(self)@.finished(),
            summary == old(self)@.summary(),
            summary.total_ticks == sum_ticks(old(self)@.sessions) + old(self)@.clock.ticks,
            summary.total_events == old(self)@.total_events,
            summary.dropped_events == old(self)@.dropped_events,
            summary.restarts == old(self)@.sessions.len(),
    {
        let end: u64 = self.clock.now();
        proof {
            let v = self@.contexts;
            self.contexts.lemma_wf_view();
            lemma_closed_out_slots(v, end);
            if v.in_flight {
                let i = crate::context::slot_of(v.slots, v.active);
                assert(record_covered(
                    v.slots[i].record,
                    sum_ticks(self.sessions@),
                    end,
                    self@.total_events,
                ));
            }
        }
        self.contexts.close_active(end);
        proof {
            let v = old(self)@.contexts;
            let w = self@.contexts;
            assert forall|k: int| 0 <= k < w.slots.len() implies record_covered(
                (#[trigger] w.slots[k]).record,
                sum_ticks(self@.sessions),
                self@.clock.ticks,
                self@.total_events,
            ) by {
                assert(record_covered(
                    v.slots[k].record,
                    sum_ticks(old(self)@.sessions),
                    end,
                    old(self)@.total_events,
                ));
            }
            self.contexts.lemma_wf_view();
        }
        Summary {
            total_events: self.histogram.total_count(),
            dropped_events: self.dropped_events,
            restarts: self.sessions.len() as u64,
            total_ticks: self.closed_ticks + end,
        }
    }

    /// The clock of the current session.
    pub fn clock(&self) -> (c: TickClock)
        ensures
            c == self@.clock,
    {
        self.clock
    }

    /// The context accumulator.
    pub fn contexts(&self) -> (c: &ContextAccumulator)
        requires
            self.wf(),
        ensures
            c.wf(),
            c@ == self@.contexts,
    {
        &self.contexts
    }

    /// The stack tracker.
    pub fn stacks(&self) -> (s: &StackTracker)
        requires
            self.wf(),
        ensures
            s.wf(),
            s@ == self@.stacks,
    {
        &self.stacks
    }

    /// The event-type histogram.
    pub fn histogram(&self) -> (h: &EventHistogram)
        requires
            self.wf(),
        ensures
            h.wf(),
            h@ == self@.histogram,
            h.total() == self@.total_events,
    {
        &self.histogram
    }

    /// The number of events taken.
    pub fn total_events(&self) -> (n: u64)
        ensures
            n == self@.total_events,
    {
        self.histogram.total_count()
    }

    /// The number of events that the sequence counter shows as lost.
    pub fn dropped_events(&self) -> (n: u64)
        ensures
            n == self@.dropped_events,
    {
        self.dropped_events
    }

    /// The number of restarts seen.
    pub fn restarts(&self) -> (n: usize)
        ensures
            n == self@.restarts(),
    {
        self.sessions.len()
    }

    /// The boundaries of the closed sessions, oldest first.
    pub fn sessions(&self) -> (s: &Vec<u64>)
        ensures
            s@ == self@.sessions,
    {
        &self.sessions
    }

    /// The elapsed ticks of all sessions so far.
    pub fn total_ticks(&self) -> (t: u64)
        requires
            self.wf(),
        ensures
            t == self@.grand_total(),
    {
        self.closed_ticks + self.clock.now()
    }
}

/// The state after the events `events`, each with the wraparound count that
/// came with it, applied in order.
pub open spec fn after_events(v: AnalyzerView, events: Seq<(TraceEvent, u32)>) -> AnalyzerView
    decreases events.len(),
{
    if events.len() == 0 {
        v
    } else {
        after_events(v, events.drop_last()).on_event(events.last().0, events.last().1)
    }
}

/// A restart keeps the elapsed ticks of all sessions: what the clock had
/// reached moves into the boundaries, and the clock starts from zero.
pub proof fn law_restart_keeps_grand_total(v: AnalyzerView)
    ensures
        v.restarted().grand_total() == v.grand_total(),
        v.restarted().clock.ticks == 0,
        !v.restarted().clock.started,
        v.restarted().sessions == v.sessions.push(v.clock.ticks),
{
    lemma_sum_ticks_push(v.sessions, v.clock.ticks);
}

/// A restart adds to no total, and neither does the first switch after it.
///
/// Whatever was running when the restart arrived, every record has the
/// cumulative total after the restart that it had before, and still has it
/// after the first switch of the new session: the interval that was in
/// flight is not measured against the new session's ticks. That switch makes
/// its target the active context.
pub proof fn law_restart_keeps_totals(v: AnalyzerView, event: TraceEvent, wraparounds: u32)
    requires
        v.wf(),
        event.kind is ContextSwitch,
        event.kind->context != ContextHandle::idle_spec(),
    ensures
        ({
            let restarted = v.restarted();
            let after = restarted.on_event(event, wraparounds);
            &&& restarted.contexts.slots.len() == v.contexts.slots.len()
            &&& after.contexts.active == event.kind->context
            &&& after.contexts.in_flight
            &&& forall|k: int|
                0 <= k < v.contexts.slots.len() ==> {
                    &&& (#[trigger] restarted.contexts.slots[k]).context == v.contexts.slots[k].context
                    &&& restarted.contexts.slots[k].record.total_runtime
                        == v.contexts.slots[k].record.total_runtime
                    &&& after.contexts.slots[k].context == v.contexts.slots[k].context
                    &&& after.contexts.slots[k].record.total_runtime
                        == v.contexts.slots[k].record.total_runtime
                    &&& after.contexts.slots[k].record.count == v.contexts.slots[k].record.count + (if v.contexts.slots[k].context
                        == event.kind->context {
                        1nat
                    } else {
                        0nat
                    })
                }
        }),
{
    let restarted = v.restarted();
    let target = event.kind->context;
    let priority = event.kind->priority;
    let timestamp = restarted.timestamp_of(event, wraparounds) as u64;
    assert forall|k: int, l: int| 0 <= k < l < restarted.contexts.slots.len() implies restarted.contexts.slots[k].context
        != restarted.contexts.slots[l].context by {
        assert(v.contexts.slots[k].context != v.contexts.slots[l].context);
    }
    lemma_switch_slots(restarted.contexts, target, timestamp, priority);
}

/// Events never touch the session boundaries.
pub proof fn lemma_events_keep_sessions(v: AnalyzerView, events: Seq<(TraceEvent, u32)>)
    ensures
        after_events(v, events).sessions == v.sessions,
    decreases events.len(),
{
    if events.len() > 0 {
        lemma_events_keep_sessions(v, events.drop_last());
    }
}

/// After a restart and any events of the new session, the elapsed ticks of
/// all sessions are the total before the restart plus the count that the new
/// session has reached: nothing is counted twice and nothing is lost. For a
/// first session that ended at `v.clock.ticks`, the grand total is that count
/// plus the second session's.
pub proof fn law_grand_total_adds_sessions(v: AnalyzerView, events: Seq<(TraceEvent, u32)>)
    ensures
        after_events(v.restarted(), events).grand_total() == v.grand_total() + after_events(
            v.restarted(),
            events,
        ).clock.ticks,
        v.sessions.len() == 0 ==> after_events(v.restarted(), events).grand_total() == v.clock.ticks
            + after_events(v.restarted(), events).clock.ticks,
{
    law_restart_keeps_grand_total(v);
    lemma_events_keep_sessions(v.restarted(), events);
}

/// Every event of `events` is taken: none is refused.
pub open spec fn all_taken(v: AnalyzerView, events: Seq<(TraceEvent, u32)>) -> bool
    decreases events.len(),
{
    events.len() == 0 || (all_taken(v, events.drop_last()) && after_events(
        v,
        events.drop_last(),
    ).rejection(events.last().0, events.last().1).is_none())
}

/// The context switches among `events`, each with the absolute tick count
/// that the engine gives it.
pub open spec fn switches_of(v: AnalyzerView, events: Seq<(TraceEvent, u32)>) -> Seq<SwitchEvent>
    decreases events.len(),
{
    if events.len() == 0 {
        Seq::empty()
    } else {
        let earlier = switches_of(v, events.drop_last());
        match events.last().0.kind {
            EventKind::ContextSwitch { context, priority } => earlier.push(
                SwitchEvent {
                    target: context,
                    timestamp: after_events(v, events.drop_last()).timestamp_of(
                        events.last().0,
                        events.last().1,
                    ) as u64,
                    priority,
                },
            ),
            _ => earlier,
        }
    }
}

/// Applying one more switch after a run of switches is applying the longer
/// run.
pub proof fn lemma_after_switches_push(v: AccumulatorView, switches: Seq<SwitchEvent>, last: SwitchEvent)
    ensures
        after_switches(v, switches.push(last)) == after_switches(v, switches).on_switch(
            last.target,
            last.timestamp,
            last.priority,
        ),
    decreases switches.len(),
{
    let longer = switches.push(last);
    if switches.len() == 0 {
        assert(longer.drop_first() =~= Seq::<SwitchEvent>::empty());
        assert(after_switches(
            v.on_switch(last.target, last.timestamp, last.priority),
            longer.drop_first(),
        ) == v.on_switch(last.target, last.timestamp, last.priority));
    } else {
        assert(longer.drop_first() =~= switches.drop_first().push(last));
        lemma_after_switches_push(
            v.on_switch(switches[0].target, switches[0].timestamp, switches[0].priority),
            switches.drop_first(),
            last,
        );
    }
}

/// The engine hands the accumulator exactly the context switches among the
/// events, in order.
pub proof fn lemma_contexts_follow_switches(v: AnalyzerView, events: Seq<(TraceEvent, u32)>)
    ensures
        after_events(v, events).contexts == after_switches(v.contexts, switches_of(v, events)),
    decreases events.len(),
{
    if events.len() > 0 {
        let earlier = events.drop_last();
        lemma_contexts_follow_switches(v, earlier);
        match events.last().0.kind {
            EventKind::ContextSwitch { context, priority } => {
                let timestamp = after_events(v, earlier).timestamp_of(events.last().0, events.last().1) as u64;
                lemma_after_switches_push(
                    v.contexts,
                    switches_of(v, earlier),
                    SwitchEvent { target: context, timestamp, priority },
                );
            },
            _ => {},
        }
    }
}

/// Within a session the engine's timestamps never go back: the switches it
/// hands on are in order between the session's origin and the count reached.
pub proof fn lemma_switches_in_order(v: AnalyzerView, events: Seq<(TraceEvent, u32)>)
    requires
        v.clock.wf(),
        !v.clock.started,
        events.len() > 0,
        all_taken(v, events),
    ensures
        after_events(v, events).clock.started,
        after_events(v, events).clock.bits == v.clock.bits,
        in_order(
            v.timestamp_of(events[0].0, events[0].1) as u64,
            switches_of(v, events),
            after_events(v, events).clock.ticks,
        ),
    decreases events.len(),
{
    let earlier = events.drop_last();
    let before = after_events(v, earlier);
    let origin = v.timestamp_of(events[0].0, events[0].1) as u64;
    let now = before.timestamp_of(events.last().0, events.last().1);
    let switches = switches_of(v, events);
    if earlier.len() == 0 {
        assert(events.last() == events[0]);
        assert(switches_of(v, earlier) =~= Seq::<SwitchEvent>::empty());
    } else {
        assert(earlier[0] == events[0]);
        lemma_switches_in_order(v, earlier);
        lemma_modulus_bounds(v.clock.bits);
        lemma_advanced_bounds(before.clock.ticks as nat, events.last().0.raw_ticks as nat, modulus(v.clock.bits));
        let past = switches_of(v, earlier);
        assert forall|i: int| 0 <= i < switches.len() implies origin <= (#[trigger] switches[i]).timestamp
            <= now by {
            if i < past.len() {
                assert(switches[i] == past[i]);
            }
        }
        assert forall|i: int, j: int| 0 <= i < j < switches.len() implies (#[trigger] switches[i]).timestamp
            <= (#[trigger] switches[j]).timestamp by {
            assert(switches[i] == past[i]);
            if j < past.len() {
                assert(switches[j] == past[j]);
            }
        }
    }
}

/// Conservation of time over the session that the end of the run closes.
///
/// A session begins with the first event after the start or a restart, which
/// establishes the origin. Where the run is finished, the interval in flight
/// is closed at the count reached. If every event of that session is taken,
/// the running ticks that it adds to all records, plus the idle time before
/// the first switch away from the idle context, are exactly the ticks
/// between the origin and the count reached. A session that a restart ends
/// gives up its interval in flight instead, so its records hold less.
pub proof fn law_engine_attributes_session_time(v: AnalyzerView, events: Seq<(TraceEvent, u32)>)
    requires
        v.wf(),
        !v.clock.started,
        events.len() > 0,
        all_taken(v, events),
    ensures
        ({
            let end = after_events(v, events);
            let origin = v.timestamp_of(events[0].0, events[0].1) as u64;
            &&& origin <= end.clock.ticks
            &&& total_runtime(end.finished().contexts.slots) + idle_ticks(
                v.contexts.active,
                switches_of(v, events),
                origin,
                end.clock.ticks,
            ) == total_runtime(v.contexts.slots) + (end.clock.ticks - origin)
        }),
{
    let end = after_events(v, events);
    let origin = v.timestamp_of(events[0].0, events[0].1) as u64;
    lemma_switches_in_order(v, events);
    lemma_contexts_follow_switches(v, events);
    law_session_time_is_attributed(v.contexts, switches_of(v, events), origin, end.clock.ticks);
}

} // verus!
