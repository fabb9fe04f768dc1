//! Stack watermark tracking: the smallest and largest low-water mark seen
//! for each task or interrupt handler.

use std::collections::HashMap;
use vstd::prelude::*;

verus! {

/// The historical extremes of one object's low-water mark.
#[derive(Clone, Copy, Debug, PartialEq, Eq, Structural, Hash)]
pub struct StackStats {
    pub low_mark_min: u32,
    pub low_mark_max: u32,
}

/// The smaller of two marks.
pub open spec fn min_mark(a: u32, b: u32) -> u32 {
    if a <= b {
        a
    } else {
        b
    }
}

/// The larger of two marks.
pub open spec fn max_mark(a: u32, b: u32) -> u32 {
    if a >= b {
        a
    } else {
        b
    }
}

impl StackStats {
    /// The record of a single sample.
    pub open spec fn first(low_mark: u32) -> StackStats {
        StackStats { low_mark_min: low_mark, low_mark_max: low_mark }
    }

    /// The record after one more sample: the minimum can only fall and the
    /// maximum can only rise.
    pub open spec fn updated(self, low_mark: u32) -> StackStats {
        StackStats {
            low_mark_min: min_mark(self.low_mark_min, low_mark),
            low_mark_max: max_mark(self.low_mark_max, low_mark),
        }
    }

    /// A record is well formed when its minimum does not exceed its maximum.
    pub open spec fn wf(self) -> bool {
        self.low_mark_min <= self.low_mark_max
    }

    /// Starts a record from the first sample.
    pub fn new(low_mark: u32) -> (s: StackStats)
        ensures
            s == StackStats::first(low_mark),
            s.wf(),
    {
        StackStats { low_mark_min: low_mark, low_mark_max: low_mark }
    }

    /// Folds one more sample into the record.
    pub fn update(&mut self, low_mark: u32)
        ensures
            *final(self) == old(self).updated(low_mark),
            old(self).wf() ==> final(self).wf(),
    {
        if low_mark < self.low_mark_min {
            self.low_mark_min = low_mark;
        }
        if low_mark > self.low_mark_max {
            self.low_mark_max = low_mark;
        }
    }
}

/// The record that a first sample followed by the samples of `rest`, in
/// order, leaves behind.
pub open spec fn fold_samples(first: u32, rest: Seq<u32>) -> StackStats
    decreases rest.len(),
{
    if rest.len() == 0 {
        StackStats::first(first)
    } else {
        fold_samples(first, rest.drop_last()).updated(rest.last())
    }
}

/// A repeated sample changes nothing: neither the one that created the
/// record nor any later one.
pub proof fn law_repeated_sample_is_idempotent(s: StackStats, low_mark: u32)
    ensures
        s.updated(low_mark).updated(low_mark) == s.updated(low_mark),
        StackStats::first(low_mark).updated(low_mark) == StackStats::first(low_mark),
{
}

/// A sample only tightens a record: the minimum does not rise, the maximum
/// does not fall, and the sample lies between the two.
pub proof fn law_sample_tightens(s: StackStats, low_mark: u32)
    ensures
        s.updated(low_mark).low_mark_min <= s.low_mark_min,
        s.updated(low_mark).low_mark_max >= s.low_mark_max,
        s.updated(low_mark).low_mark_min <= low_mark <= s.updated(low_mark).low_mark_max,
        s.wf() ==> s.updated(low_mark).wf(),
{
}

/// After any run of samples the record holds exactly the smallest and the
/// largest of them: both are samples that occurred, and every sample lies
/// between them.
pub proof fn law_record_holds_extremes(first: u32, rest: Seq<u32>)
    ensures
        ({
            let r = fold_samples(first, rest);
            &&& r.wf()
            &&& r.low_mark_min <= first <= r.low_mark_max
            &&& forall|i: int| 0 <= i < rest.len() ==> r.low_mark_min <= #[trigger] rest[i] <= r.low_mark_max
            &&& (r.low_mark_min == first || exists|i: int| 0 <= i < rest.len() && #[trigger] rest[i] == r.low_mark_min)
            &&& (r.low_mark_max == first || exists|i: int| 0 <= i < rest.len() && #[trigger] rest[i] == r.low_mark_max)
        }),
    decreases rest.len(),
{
    if rest.len() > 0 {
        let init = rest.drop_last();
        law_record_holds_extremes(first, init);
        let p = fold_samples(first, init);
        let r = fold_samples(first, rest);
        let n = rest.len() - 1;
        assert(r == p.updated(rest[n]));
        assert forall|i: int| 0 <= i < rest.len() implies r.low_mark_min <= #[trigger] rest[i] <= r.low_mark_max by {
            if i < n {
                assert(init[i] == rest[i]);
            }
        }
        if r.low_mark_min != first {
            if r.low_mark_min == rest[n] {
            } else {
                let i = choose|i: int| 0 <= i < init.len() && #[trigger] init[i] == p.low_mark_min;
                assert(rest[i] == r.low_mark_min);
            }
        }
        if r.low_mark_max != first {
            if r.low_mark_max == rest[n] {
            } else {
                let i = choose|i: int| 0 <= i < init.len() && #[trigger] init[i] == p.low_mark_max;
                assert(rest[i] == r.low_mark_max);
            }
        }
    }
}

/// Watermark records keyed by object handle.
pub struct StackTracker {
    records: HashMap<u32, StackStats>,
}

impl View for StackTracker {
    type V = Map<u32, StackStats>;

    closed spec fn view(&self) -> Map<u32, StackStats> {
        self.records@
    }
}

impl StackTracker {
    /// Every record is well formed.
    pub open spec fn wf(&self) -> bool {
        forall|handle: u32| self@.contains_key(handle) ==> (#[trigger] self@[handle]).wf()
    }

    /// An empty tracker.
    pub fn new() -> (t: StackTracker)
        ensures
            t.wf(),
            t@ == Map::<u32, StackStats>::empty(),
    {
        StackTracker { records: HashMap::new() }
    }

    /// Records one sample: the first sample of a handle creates its record
    /// with both extremes equal to it, a later one tightens the record.
    pub fn observe(&mut self, handle: u32, low_mark: u32)
        requires
            old(self).wf(),
        ensures
            final(self).wf(),
            final(self)@ == old(self)@.insert(
                handle,
                if old(self)@.contains_key(handle) {
                    old(self)@[handle].updated(low_mark)
                } else {
                    StackStats::first(low_mark)
                },
            ),
    {
        broadcast use vstd::std_specs::hash::group_hash_axioms;

        let stats = match self.records.get(&handle) {
            Some(seen) => {
                let mut stats = *seen;
                stats.update(low_mark);
                stats
            },
            None => StackStats::new(low_mark),
        };
        assert(stats.wf());
        self.records.insert(handle, stats);
        assert forall|h: u32| self@.contains_key(h) implies (#[trigger] self@[h]).wf() by {
            if h != handle {
                assert(old(self)@.contains_key(h));
            }
        }
    }

    /// The record of `handle`, or `None` while it is unobserved.
    pub fn record(&self, handle: u32) -> (r: Option<StackStats>)
        requires
            self.wf(),
        ensures
            r == (if self@.contains_key(handle) {
                Some(self@[handle])
            } else {
                None
            }),
    {
        broadcast use vstd::std_specs::hash::group_hash_axioms;

        match self.records.get(&handle) {
            Some(seen) => Some(*seen),
            None => None,
        }
    }
}

} // verus!
