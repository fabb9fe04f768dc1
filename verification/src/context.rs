//! Per-context runtime accounting from switch-in and switch-out edges.

use std::collections::HashSet;
use vstd::prelude::*;

verus! {

/// The handle that stands for "no task": the idle or start-up context.
pub const NO_TASK: u32 = 2;

/// The identity of an execution context: a task or an interrupt service
/// routine, each with its object handle. Two contexts are equal only if both
/// the kind and the handle agree.
#[derive(Clone, Copy, Debug, PartialEq, Eq, Structural, Hash, PartialOrd, Ord)]
pub enum ContextHandle {
    Task(u32),
    Isr(u32),
}

impl ContextHandle {
    /// The idle context, which is considered running until a switch is seen.
    pub open spec fn idle_spec() -> ContextHandle {
        ContextHandle::Task(NO_TASK)
    }

    /// The object handle without the kind.
    pub open spec fn handle_spec(self) -> u32 {
        match self {
            ContextHandle::Task(h) => h,
            ContextHandle::Isr(h) => h,
        }
    }

    /// The idle context.
    #[verifier::when_used_as_spec(idle_spec)]
    pub fn idle() -> (c: ContextHandle)
        ensures
            c == ContextHandle::idle_spec(),
    {
        ContextHandle::Task(NO_TASK)
    }

    /// The object handle without the kind.
    #[verifier::when_used_as_spec(handle_spec)]
    pub fn object_handle(self) -> (h: u32)
        ensures
            h == self.handle_spec(),
    {
        match self {
            ContextHandle::Task(h) => h,
            ContextHandle::Isr(h) => h,
        }
    }
}

/// What a context's record holds, as mathematical values.
pub struct ContextRecord {
    /// The priorities the context was seen running at.
    pub priorities: Set<u32>,
    /// When the context was last switched in.
    pub last_timestamp: u64,
    /// Ticks spent running, over all sessions.
    pub total_runtime: nat,
    /// The length of the completed running intervals of this session that
    /// were kept as samples, oldest first.
    pub running_instances: Seq<u64>,
    /// How often the context was switched in.
    pub count: nat,
    /// How many intervals are kept as samples in a session at most; `None`
    /// keeps all.
    pub interval_cap: Option<usize>,
    /// Whether an interval of this session was not kept as a sample because
    /// the cap was reached.
    pub truncated: bool,
}

impl ContextRecord {
    /// The record of a context first seen at `timestamp`.
    pub open spec fn fresh(timestamp: u64, interval_cap: Option<usize>) -> ContextRecord {
        ContextRecord {
            priorities: Set::empty(),
            last_timestamp: timestamp,
            total_runtime: 0,
            running_instances: Seq::empty(),
            count: 0,
            interval_cap,
            truncated: false,
        }
    }

    /// Whether one more interval can be kept as a sample.
    pub open spec fn has_room(self) -> bool {
        match self.interval_cap {
            Some(cap) => self.running_instances.len() < cap,
            None => true,
        }
    }

    /// The record after the context is switched in at `timestamp`.
    pub open spec fn switched_in(self, timestamp: u64, priority: u32) -> ContextRecord {
        ContextRecord {
            priorities: self.priorities.insert(priority),
            last_timestamp: timestamp,
            count: self.count + 1nat,
            ..self
        }
    }

    /// Whether a switch-out at `timestamp` is consistent with the last
    /// switch-in.
    pub open spec fn accepts_switch_out(self, timestamp: u64) -> bool {
        timestamp >= self.last_timestamp
    }

    /// Whether the total that a switch-out at `timestamp` raises stays within
    /// 64 bits. A switch-out that is discarded raises nothing.
    pub open spec fn switch_out_fits(self, timestamp: u64) -> bool {
        self.accepts_switch_out(timestamp) ==> self.total_runtime + (timestamp - self.last_timestamp)
            <= u64::MAX
    }

    /// The record after the context is switched out at `timestamp`. An
    /// earlier timestamp than the last switch-in leaves the record as it is.
    /// Otherwise the interval since the last switch-in is added to the
    /// cumulative total, and kept as a sample while the cap leaves room; once
    /// the cap is reached, later intervals of the session count towards the
    /// total only, and the record is marked as truncated.
    pub open spec fn switched_out(self, timestamp: u64) -> ContextRecord {
        if self.accepts_switch_out(timestamp) {
            let delta = (timestamp - self.last_timestamp) as u64;
            ContextRecord {
                last_timestamp: timestamp,
                total_runtime: self.total_runtime + delta as nat,
                running_instances: if self.has_room() {
                    self.running_instances.push(delta)
                } else {
                    self.running_instances
                },
                truncated: self.truncated || !self.has_room(),
                ..self
            }
        } else {
            self
        }
    }

    /// The record at the start of a new session: the cumulative total, the
    /// count, the priorities and the cap stay, the rest starts over.
    pub open spec fn reset(self) -> ContextRecord {
        ContextRecord { last_timestamp: 0, running_instances: Seq::empty(), truncated: false, ..self }
    }
}

/// `m` is the shortest of the intervals `runs`: `None` where there is none,
/// else an interval that occurs and that no other undercuts.
pub open spec fn is_shortest(runs: Seq<u64>, m: Option<u64>) -> bool {
    match m {
        None => runs.len() == 0,
        Some(x) => runs.contains(x) && forall|i: int| 0 <= i < runs.len() ==> x <= runs[i],
    }
}

/// `m` is the longest of the intervals `runs`: `None` where there is none,
/// else an interval that occurs and that no other exceeds.
pub open spec fn is_longest(runs: Seq<u64>, m: Option<u64>) -> bool {
    match m {
        None => runs.len() == 0,
        Some(x) => runs.contains(x) && forall|i: int| 0 <= i < runs.len() ==> x >= runs[i],
    }
}

/// The running statistics of one execution context.
pub struct ContextStats {
    priorities: HashSet<u32>,
    last_timestamp: u64,
    total_runtime: u64,
    running_instances: Vec<u64>,
    count: u64,
    interval_cap: Option<usize>,
    truncated: bool,
}

impl View for ContextStats {
    type V = ContextRecord;

    closed spec fn view(&self) -> ContextRecord {
        ContextRecord {
            priorities: self.priorities@,
            last_timestamp: self.last_timestamp,
            total_runtime: self.total_runtime as nat,
            running_instances: self.running_instances@,
            count: self.count as nat,
            interval_cap: self.interval_cap,
            truncated: self.truncated,
        }
    }
}

impl ContextStats {
    /// No more interval samples are held than the cap allows.
    pub closed spec fn wf(&self) -> bool {
        self.interval_cap matches Some(cap) ==> self.running_instances@.len() <= cap
    }

    /// The counters of a record are held in 64 bits.
    pub proof fn lemma_counters_fit(&self)
        ensures
            self@.total_runtime <= u64::MAX,
            self@.count <= u64::MAX,
    {
    }

    /// A record for a context first seen at `last_timestamp`, which keeps
    /// every running interval as a sample.
    pub fn new(last_timestamp: u64) -> (s: ContextStats)
        ensures
            s.wf(),
            s@ == ContextRecord::fresh(last_timestamp, None),
    {
        ContextStats::with_interval_cap(last_timestamp, None)
    }

    /// A record for a context first seen at `last_timestamp`, which keeps at
    /// most `interval_cap` running intervals of a session as samples: the
    /// first ones. `None` keeps all.
    pub fn with_interval_cap(last_timestamp: u64, interval_cap: Option<usize>) -> (s: ContextStats)
        ensures
            s.wf(),
            s@ == ContextRecord::fresh(last_timestamp, interval_cap),
    {
        let s = ContextStats {
            priorities: HashSet::new(),
            last_timestamp,
            total_runtime: 0,
            running_instances: Vec::new(),
            count: 0,
            interval_cap,
            truncated: false,
        };
        s
    }

    /// Called when this context is switched in.
    pub fn switch_in(&mut self, last_timestamp: u64, prio: u32)
        requires
            old(self).wf(),
            old(self)@.count < u64::MAX,
        ensures
            final(self).wf(),
            final(self)@ == old(self)@.switched_in(last_timestamp, prio),
    {
        broadcast use vstd::std_specs::hash::group_hash_axioms;

        self.last_timestamp = last_timestamp;
        self.count += 1;
        self.priorities.insert(prio);
    }

    /// Called when this context is switched out. Returns whether the
    /// interval was accounted; `false` means that `timestamp` lies before
    /// the last switch-in and the record was left untouched.
    pub fn switch_out(&mut self, timestamp: u64) -> (accounted: bool)
        requires
            old(self).wf(),
            old(self)@.switch_out_fits(timestamp),
        ensures
            final(self).wf(),
            final(self)@ == old(self)@.switched_out(timestamp),
            accounted == old(self)@.accepts_switch_out(timestamp),
    {
        if timestamp < self.last_timestamp {
            false
        } else {
            let diff = timestamp - self.last_timestamp;
            self.total_runtime += diff;
            self.last_timestamp = timestamp;
            let has_room = match self.interval_cap {
                Some(cap) => self.running_instances.len() < cap,
                None => true,
            };
            if has_room {
                self.running_instances.push(diff);
            } else {
                self.truncated = true;
            }
            true
        }
    }

    /// Starts the record over for a new session, keeping what is cumulative.
    pub fn reset_session(&mut self)
        requires
            old(self).wf(),
        ensures
            final(self).wf(),
            final(self)@ == old(self)@.reset(),
    {
        self.last_timestamp = 0;
        self.running_instances.clear();
        self.truncated = false;
    }

    /// The priorities observed.
    pub fn priorities(&self) -> (p: &HashSet<u32>)
        ensures
            p@ == self@.priorities,
    {
        &self.priorities
    }

    /// When the context was last switched in.
    pub fn last_timestamp(&self) -> (t: u64)
        ensures
            t == self@.last_timestamp,
    {
        self.last_timestamp
    }

    /// Total ticks the context has been running.
    pub fn total_runtime(&self) -> (t: u64)
        ensures
            t == self@.total_runtime,
    {
        self.total_runtime
    }

    /// The length in ticks of the completed running intervals of this
    /// session that were kept as samples, oldest first.
    pub fn running_instances(&self) -> (r: &Vec<u64>)
        ensures
            r@ == self@.running_instances,
    {
        &self.running_instances
    }

    /// How many intervals are kept as samples in a session at most.
    pub fn interval_cap(&self) -> (cap: Option<usize>)
        ensures
            cap == self@.interval_cap,
    {
        self.interval_cap
    }

    /// Whether an interval of this session was not kept as a sample.
    pub fn truncated(&self) -> (t: bool)
        ensures
            t == self@.truncated,
    {
        self.truncated
    }

    /// Number of times the context was switched in.
    pub fn count(&self) -> (c: u64)
        ensures
            c == self@.count,
    {
        self.count
    }

    /// The shortest of the sampled running intervals, if there is one.
    pub fn shortest_run(&self) -> (m: Option<u64>)
        ensures
            is_shortest(self@.running_instances, m),
    {
        if self.running_instances.len() == 0 {
            return None;
        }
        let mut best: u64 = self.running_instances[0];
        let mut i: usize = 1;
        while i < self.running_instances.len()
            invariant
                1 <= i <= self.running_instances@.len(),
                self.running_instances@.contains(best),
                forall|k: int| 0 <= k < i ==> best <= self.running_instances@[k],
            decreases self.running_instances@.len() - i,
        {
            if self.running_instances[i] < best {
                best = self.running_instances[i];
            }
            i += 1;
        }
        Some(best)
    }

    /// The longest of the sampled running intervals, if there is one.
    pub fn longest_run(&self) -> (m: Option<u64>)
        ensures
            is_longest(self@.running_instances, m),
    {
        if self.running_instances.len() == 0 {
            return None;
        }
        let mut best: u64 = self.running_instances[0];
        let mut i: usize = 1;
        while i < self.running_instances.len()
            invariant
                1 <= i <= self.running_instances@.len(),
                self.running_instances@.contains(best),
                forall|k: int| 0 <= k < i ==> best >= self.running_instances@[k],
            decreases self.running_instances@.len() - i,
        {
            if self.running_instances[i] > best {
                best = self.running_instances[i];
            }
            i += 1;
        }
        Some(best)
    }
}

/// One context together with its record, as mathematical values.
pub struct Slot {
    pub context: ContextHandle,
    pub record: ContextRecord,
}

/// Whether `context` has a record among `slots`.
pub open spec fn has_context(slots: Seq<Slot>, context: ContextHandle) -> bool {
    exists|i: int| 0 <= i < slots.len() && #[trigger] slots[i].context == context
}

/// The position of `context` among `slots`; meaningful where
/// `has_context(slots, context)` holds.
pub open spec fn slot_of(slots: Seq<Slot>, context: ContextHandle) -> int {
    choose|i: int| 0 <= i < slots.len() && #[trigger] slots[i].context == context
}

/// No context occurs twice.
pub open spec fn distinct_contexts(slots: Seq<Slot>) -> bool {
    forall|i: int, j: int| 0 <= i < j < slots.len() ==> slots[i].context != slots[j].context
}

/// Where no context occurs twice, a context is looked up at the position
/// at which it stands.
pub proof fn lemma_slot_of(slots: Seq<Slot>, i: int)
    requires
        distinct_contexts(slots),
        0 <= i < slots.len(),
    ensures
        has_context(slots, slots[i].context),
        slot_of(slots, slots[i].context) == i,
{
    let j = slot_of(slots, slots[i].context);
    assert(j == i);
}

/// The sum of the cumulative running ticks of all records.
pub open spec fn total_runtime(slots: Seq<Slot>) -> nat
    decreases slots.len(),
{
    if slots.len() == 0 {
        0
    } else {
        total_runtime(slots.drop_last()) + slots.last().record.total_runtime
    }
}

/// What a switch event did to the accumulator.
#[derive(Clone, Copy, Debug, PartialEq, Eq, Structural)]
pub enum SwitchOutcome {
    /// The target was already the active context: nothing changed.
    SameContext,
    /// The outgoing context, if one was running, was closed out and the
    /// target was switched in.
    Switched,
    /// The target was switched in, but the event's timestamp lies before the
    /// outgoing context's last switch-in: its interval was discarded.
    TimestampWentBackwards,
}

/// The state of the accumulator as mathematical values: the records in the
/// order in which their contexts were first seen, the active context, and
/// whether the active context has a running interval in flight. Until the
/// first switch of a session the idle context is active with nothing in
/// flight.
pub struct AccumulatorView {
    pub slots: Seq<Slot>,
    pub active: ContextHandle,
    pub in_flight: bool,
    /// The cap on interval samples that new records are created with.
    pub interval_cap: Option<usize>,
}

impl AccumulatorView {
    /// No context occurs twice, and a context with an interval in flight has
    /// a record.
    pub open spec fn wf(self) -> bool {
        &&& distinct_contexts(self.slots)
        &&& self.in_flight ==> has_context(self.slots, self.active)
    }

    /// The state before anything was seen.
    pub open spec fn empty(interval_cap: Option<usize>) -> AccumulatorView {
        AccumulatorView {
            slots: Seq::empty(),
            active: ContextHandle::idle_spec(),
            in_flight: false,
            interval_cap,
        }
    }

    /// The record of the active context; meaningful while an interval is in
    /// flight.
    pub open spec fn active_record(self) -> ContextRecord {
        self.slots[slot_of(self.slots, self.active)].record
    }

    /// Whether closing the interval in flight at `timestamp` would be
    /// discarded because the timestamp lies before the last switch-in.
    pub open spec fn goes_backwards(self, timestamp: u64) -> bool {
        self.in_flight && !self.active_record().accepts_switch_out(timestamp)
    }

    /// The records after the interval in flight, if any, is closed at
    /// `timestamp`.
    pub open spec fn closed_out(self, timestamp: u64) -> Seq<Slot> {
        if self.in_flight {
            let i = slot_of(self.slots, self.active);
            self.slots.update(
                i,
                Slot { context: self.active, record: self.slots[i].record.switched_out(timestamp) },
            )
        } else {
            self.slots
        }
    }

    /// The state after a switch event for `target`.
    pub open spec fn on_switch(self, target: ContextHandle, timestamp: u64, priority: u32) -> AccumulatorView {
        if target == self.active {
            self
        } else {
            let closed = self.closed_out(timestamp);
            let opened = if has_context(closed, target) {
                let i = slot_of(closed, target);
                closed.update(
                    i,
                    Slot { context: target, record: closed[i].record.switched_in(timestamp, priority) },
                )
            } else {
                closed.push(
                    Slot {
                        context: target,
                        record: ContextRecord::fresh(timestamp, self.interval_cap).switched_in(
                            timestamp,
                            priority,
                        ),
                    },
                )
            };
            AccumulatorView { slots: opened, active: target, in_flight: true, ..self }
        }
    }

    /// What a switch event for `target` reports.
    pub open spec fn switch_outcome(self, target: ContextHandle, timestamp: u64) -> SwitchOutcome {
        if target == self.active {
            SwitchOutcome::SameContext
        } else if self.goes_backwards(timestamp) {
            SwitchOutcome::TimestampWentBackwards
        } else {
            SwitchOutcome::Switched
        }
    }

    /// Whether the counters that a switch event for `target` raises stay
    /// within 64 bits.
    pub open spec fn switch_fits(self, target: ContextHandle, timestamp: u64) -> bool {
        target != self.active ==> {
            &&& self.close_fits(timestamp)
            &&& has_context(self.slots, target) ==> self.slots[slot_of(self.slots, target)].record.count
                < u64::MAX
        }
    }

    /// Whether the total that closing the interval in flight raises stays
    /// within 64 bits.
    pub open spec fn close_fits(self, timestamp: u64) -> bool {
        self.in_flight ==> self.active_record().switch_out_fits(timestamp)
    }

    /// The state after the session ends at `timestamp`: the interval in
    /// flight is closed and the idle context is active again.
    pub open spec fn close_active(self, timestamp: u64) -> AccumulatorView {
        AccumulatorView {
            slots: self.closed_out(timestamp),
            active: ContextHandle::idle_spec(),
            in_flight: false,
            ..self
        }
    }

    /// The state at the start of a new session: every record starts over,
    /// keeping what is cumulative, and the idle context is active. An
    /// interval that is still in flight is given up and adds to no total.
    pub open spec fn session_reset(self) -> AccumulatorView {
        AccumulatorView {
            slots: Seq::new(
                self.slots.len(),
                |i: int| Slot { context: self.slots[i].context, record: self.slots[i].record.reset() },
            ),
            active: ContextHandle::idle_spec(),
            in_flight: false,
            ..self
        }
    }
}

/// A context and its statistics.
pub struct ContextEntry {
    context: ContextHandle,
    stats: ContextStats,
}

impl ContextEntry {
    /// The entry as mathematical values.
    pub closed spec fn slot(&self) -> Slot {
        Slot { context: self.context, record: self.stats@ }
    }
}

/// The context runtime accumulator: one record per context that was ever
/// switched in, the active context, and whether it has an interval in flight.
pub struct ContextAccumulator {
    entries: Vec<ContextEntry>,
    active: ContextHandle,
    in_flight: bool,
    interval_cap: Option<usize>,
}

impl View for ContextAccumulator {
    type V = AccumulatorView;

    closed spec fn view(&self) -> AccumulatorView {
        AccumulatorView {
            slots: Seq::new(self.entries@.len(), |i: int| self.entries@[i].slot()),
            active: self.active,
            in_flight: self.in_flight,
            interval_cap: self.interval_cap,
        }
    }
}

impl ContextAccumulator {
    /// Every record is well formed and so is the state as a whole.
    pub closed spec fn wf(&self) -> bool {
        &&& self@.wf()
        &&& forall|i: int| 0 <= i < self.entries@.len() ==> (#[trigger] self.entries@[i]).stats.wf()
    }

    /// What `wf` promises of the view.
    pub proof fn lemma_wf_view(&self)
        requires
            self.wf(),
        ensures
            self@.wf(),
    {
    }

    /// The counters of every record are held in 64 bits.
    pub proof fn lemma_counters_fit(&self)
        ensures
            forall|k: int|
                0 <= k < self@.slots.len() ==> (#[trigger] self@.slots[k]).record.total_runtime <= u64::MAX
                    && self@.slots[k].record.count <= u64::MAX,
    {
        assert forall|k: int| 0 <= k < self@.slots.len() implies (#[trigger] self@.slots[k]).record.total_runtime
            <= u64::MAX && self@.slots[k].record.count <= u64::MAX by {
            self.entries@[k].stats.lemma_counters_fit();
        }
    }

    /// An accumulator that has seen nothing: the idle context is active.
    /// Every running interval is kept as a sample.
    pub fn new() -> (a: ContextAccumulator)
        ensures
            a.wf(),
            a@ == AccumulatorView::empty(None),
    {
        ContextAccumulator::with_interval_cap(None)
    }

    /// An accumulator that has seen nothing, whose records keep at most
    /// `interval_cap` running intervals of a session as samples: the first
    /// ones. Cumulative totals are not affected by the cap. `None` keeps all.
    pub fn with_interval_cap(interval_cap: Option<usize>) -> (a: ContextAccumulator)
        ensures
            a.wf(),
            a@ == AccumulatorView::empty(interval_cap),
    {
        let a = ContextAccumulator {
            entries: Vec::new(),
            active: ContextHandle::idle(),
            in_flight: false,
            interval_cap,
        };
        assert(a@.slots =~= Seq::<Slot>::empty());
        a
    }

    fn find(&self, context: ContextHandle) -> (r: Option<usize>)
        requires
            self.wf(),
        ensures
            match r {
                Some(i) => i < self.entries@.len() && self@.slots[i as int].context == context
                    && has_context(self@.slots, context) && slot_of(self@.slots, context) == i,
                None => !has_context(self@.slots, context),
            },
    {
        let mut i: usize = 0;
        while i < self.entries.len()
            invariant
                self.wf(),
                i <= self.entries@.len(),
                forall|k: int| 0 <= k < i ==> self@.slots[k].context != context,
            decreases self.entries@.len() - i,
        {
            if self.entries[i].context == context {
                proof {
                    lemma_slot_of(self@.slots, i as int);
                }
                return Some(i);
            }
            i += 1;
        }
        None
    }

    /// Closes the interval in flight, if there is one, at `timestamp`.
    /// Returns whether the timestamp was consistent.
    fn close_out(&mut self, timestamp: u64) -> (accounted: bool)
        requires
            old(self).wf(),
            old(self)@.close_fits(timestamp),
        ensures
            final(self).wf(),
            final(self)@ == (AccumulatorView { slots: old(self)@.closed_out(timestamp), ..old(self)@ }),
            accounted == !old(self)@.goes_backwards(timestamp),
    {
        if !self.in_flight {
            return true;
        }
        match self.find(self.active) {
            Some(i) => {
                let accounted = self.entries[i].stats.switch_out(timestamp);
                proof {
                    let want = old(self)@.closed_out(timestamp);
                    assert(self.entries@.len() == old(self).entries@.len());
                    assert forall|k: int| 0 <= k < self.entries@.len() implies #[trigger] self@.slots[k]
                        == want[k] by {
                        assert(self.entries@[k].context == old(self).entries@[k].context);
                    }
                    assert(self@.slots =~= want);
                    assert forall|k: int, l: int| 0 <= k < l < self@.slots.len() implies self@.slots[k].context
                        != self@.slots[l].context by {
                        assert(old(self)@.slots[k].context != old(self)@.slots[l].context);
                    }
                    assert(self@.slots[i as int].context == self@.active);
                }
                accounted
            },
            None => true,
        }
    }

    /// Handles a context switch event: begin, resume or activate of `target`
    /// at `timestamp` with `priority`.
    ///
    /// A switch to the context that is already active changes nothing.
    /// Otherwise the outgoing context's interval, if one is in flight, is
    /// closed at `timestamp`, the target is switched in, creating its record
    /// on first sight, and becomes the active context. Where `timestamp`
    /// lies before the outgoing context's last switch-in, the outgoing record
    /// is left untouched and the outcome says so.
    pub fn on_switch(&mut self, target: ContextHandle, timestamp: u64, priority: u32) -> (outcome: SwitchOutcome)
        requires
            old(self).wf(),
            old(self)@.switch_fits(target, timestamp),
        ensures
            final(self).wf(),
            final(self)@ == old(self)@.on_switch(target, timestamp, priority),
            outcome == old(self)@.switch_outcome(target, timestamp),
    {
        if target == self.active {
            return SwitchOutcome::SameContext;
        }
        let accounted = self.close_out(timestamp);
        let ghost closed = *self;
        proof {
            if old(self)@.in_flight {
                let a = slot_of(old(self)@.slots, old(self)@.active);
                if has_context(old(self)@.slots, target) {
                    let t = slot_of(old(self)@.slots, target);
                    assert(closed@.slots[t].context == target);
                    lemma_slot_of(closed@.slots, t);
                    assert(a != t);
                }
            }
        }
        match self.find(target) {
            Some(i) => {
                proof {
                    assert(old(self)@.slots[i as int].context == target);
                    lemma_slot_of(old(self)@.slots, i as int);
                }
                self.entries[i].stats.switch_in(timestamp, priority);
                proof {
                    assert forall|k: int| 0 <= k < self.entries@.len() implies #[trigger] self.entries@[k].context
                        == closed.entries@[k].context by {}
                }
            },
            None => {
                let mut stats = ContextStats::with_interval_cap(timestamp, self.interval_cap);
                stats.switch_in(timestamp, priority);
                self.entries.push(ContextEntry { context: target, stats });
            },
        }
        self.active = target;
        self.in_flight = true;
        proof {
            let want = old(self)@.on_switch(target, timestamp, priority);
            assert(self@.slots.len() == want.slots.len());
            assert forall|k: int| 0 <= k < self@.slots.len() implies #[trigger] self@.slots[k] == want.slots[k] by {}
            assert(self@.slots =~= want.slots);
            assert forall|k: int, l: int| 0 <= k < l < self@.slots.len() implies self@.slots[k].context
                != self@.slots[l].context by {
                if l < closed@.slots.len() {
                    assert(closed@.slots[k].context != closed@.slots[l].context);
                } else {
                    assert(closed@.slots[k].context != target);
                }
            }
            let w = if has_context(closed@.slots, target) { slot_of(closed@.slots, target) } else { closed@.slots.len() as int };
            assert(self@.slots[w].context == target);
        }
        if accounted {
            SwitchOutcome::Switched
        } else {
            SwitchOutcome::TimestampWentBackwards
        }
    }

    /// Ends the session at `timestamp`: the interval in flight, if any, is
    /// closed there, and the idle context becomes active with nothing in
    /// flight. Returns whether the timestamp was consistent with the last
    /// switch-in; if not, the interval was discarded.
    pub fn close_active(&mut self, timestamp: u64) -> (accounted: bool)
        requires
            old(self).wf(),
            old(self)@.close_fits(timestamp),
        ensures
            final(self).wf(),
            final(self)@ == old(self)@.close_active(timestamp),
            accounted == !old(self)@.goes_backwards(timestamp),
    {
        let accounted = self.close_out(timestamp);
        self.active = ContextHandle::idle();
        self.in_flight = false;
        accounted
    }

    /// Prepares for a new session: every record keeps its cumulative total,
    /// its count and its priorities, while its last switch-in and its
    /// interval list start over; the idle context becomes active. An
    /// interval that is still in flight is given up and adds to no total.
    pub fn reset_session(&mut self)
        requires
            old(self).wf(),
        ensures
            final(self).wf(),
            final(self)@ == old(self)@.session_reset(),
    {
        let mut i: usize = 0;
        while i < self.entries.len()
            invariant
                i <= self.entries@.len(),
                self.interval_cap == old(self).interval_cap,
                self.entries@.len() == old(self).entries@.len(),
                forall|k: int| 0 <= k < self.entries@.len() ==> (#[trigger] self.entries@[k]).stats.wf(),
                forall|k: int| 0 <= k < self.entries@.len() ==> (#[trigger] self.entries@[k]).context == old(
                    self,
                ).entries@[k].context,
                forall|k: int| 0 <= k < i ==> (#[trigger] self.entries@[k]).stats@ == old(
                    self,
                ).entries@[k].stats@.reset(),
                forall|k: int| i <= k < self.entries@.len() ==> (#[trigger] self.entries@[k]).stats@ == old(
                    self,
                ).entries@[k].stats@,
            decreases self.entries@.len() - i,
        {
            self.entries[i].stats.reset_session();
            i += 1;
        }
        self.active = ContextHandle::idle();
        self.in_flight = false;
        proof {
            let want = old(self)@.session_reset();
            assert(self@.slots =~= want.slots);
            assert forall|k: int, l: int| 0 <= k < l < self@.slots.len() implies self@.slots[k].context
                != self@.slots[l].context by {
                assert(old(self)@.slots[k].context != old(self)@.slots[l].context);
            }
        }
    }

    /// The context that is considered running.
    pub fn active(&self) -> (c: ContextHandle)
        ensures
            c == self@.active,
    {
        self.active
    }

    /// The cap on interval samples that new records are created with.
    pub fn interval_cap(&self) -> (cap: Option<usize>)
        ensures
            cap == self@.interval_cap,
    {
        self.interval_cap
    }

    /// Whether the active context has a running interval in flight.
    pub fn in_flight(&self) -> (b: bool)
        ensures
            b == self@.in_flight,
    {
        self.in_flight
    }

    /// The number of contexts with a record.
    pub fn len(&self) -> (n: usize)
        ensures
            n == self@.slots.len(),
    {
        self.entries.len()
    }

    /// The context at position `i` in the order of first sight.
    pub fn context_at(&self, i: usize) -> (c: ContextHandle)
        requires
            i < self@.slots.len(),
        ensures
            c == self@.slots[i as int].context,
    {
        self.entries[i].context
    }

    /// The statistics at position `i` in the order of first sight.
    pub fn stats_at(&self, i: usize) -> (s: &ContextStats)
        requires
            self.wf(),
            i < self@.slots.len(),
        ensures
            s.wf(),
            s@ == self@.slots[i as int].record,
    {
        &self.entries[i].stats
    }

    /// The statistics of `context`, or `None` if it was never switched in.
    pub fn get(&self, context: ContextHandle) -> (r: Option<&ContextStats>)
        requires
            self.wf(),
        ensures
            match r {
                Some(s) => has_context(self@.slots, context) && s.wf() && s@ == self@.slots[slot_of(
                    self@.slots,
                    context,
                )].record,
                None => !has_context(self@.slots, context),
            },
    {
        match self.find(context) {
            Some(i) => Some(&self.entries[i].stats),
            None => None,
        }
    }
}

} // verus!
