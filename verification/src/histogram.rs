//! Counting events by type.

use std::collections::BTreeMap;
use vstd::prelude::*;
use vstd::std_specs::btree::{increasing_seq, spec_btree_map_iter};
use vstd::std_specs::cmp::OrdSpec;
use vstd::std_specs::iter::IteratorSpec;

verus! {

/// How often one event type was seen.
#[derive(Clone, Copy, Debug, PartialEq, Eq, Structural)]
pub struct TypeCount {
    /// The key by which event types are told apart and ordered.
    pub event_type: u16,
    /// The number of events of this type.
    pub count: u64,
}

/// The entries are in strictly ascending order of their event types, so no
/// type occurs twice.
pub open spec fn ascending_types(entries: Seq<TypeCount>) -> bool {
    forall|i: int, j: int| 0 <= i < j < entries.len() ==> entries[i].event_type < entries[j].event_type
}

/// Whether `event_type` has an entry.
pub open spec fn has_type(entries: Seq<TypeCount>, event_type: u16) -> bool {
    exists|i: int| 0 <= i < entries.len() && #[trigger] entries[i].event_type == event_type
}

/// The number of events of `event_type` that `entries` records; zero where
/// the type has no entry.
pub open spec fn count_of(entries: Seq<TypeCount>, event_type: u16) -> nat {
    if has_type(entries, event_type) {
        let i = choose|i: int| 0 <= i < entries.len() && #[trigger] entries[i].event_type == event_type;
        entries[i].count as nat
    } else {
        0
    }
}

/// The sum of all counts.
pub open spec fn sum_counts(entries: Seq<TypeCount>) -> nat
    decreases entries.len(),
{
    if entries.len() == 0 {
        0
    } else {
        sum_counts(entries.drop_last()) + entries.last().count as nat
    }
}

/// Where the types ascend, a type is counted by the entry at which it
/// stands.
pub proof fn lemma_count_at(entries: Seq<TypeCount>, i: int)
    requires
        ascending_types(entries),
        0 <= i < entries.len(),
    ensures
        has_type(entries, entries[i].event_type),
        count_of(entries, entries[i].event_type) == entries[i].count,
{
    let t = entries[i].event_type;
    let j = choose|j: int| 0 <= j < entries.len() && #[trigger] entries[j].event_type == t;
    if j < i {
        assert(entries[j].event_type < entries[i].event_type);
    }
    if i < j {
        assert(entries[i].event_type < entries[j].event_type);
    }
}

/// Replacing one entry changes the sum by the difference of the two counts.
pub proof fn lemma_sum_update(entries: Seq<TypeCount>, i: int, entry: TypeCount)
    requires
        0 <= i < entries.len(),
    ensures
        sum_counts(entries.update(i, entry)) + entries[i].count == sum_counts(entries) + entry.count,
    decreases entries.len(),
{
    let updated = entries.update(i, entry);
    if i == entries.len() - 1 {
        assert(updated.drop_last() =~= entries.drop_last());
    } else {
        assert(updated.drop_last() =~= entries.drop_last().update(i, entry));
        lemma_sum_update(entries.drop_last(), i, entry);
    }
}

/// A new entry adds its count to the sum, wherever it is put.
pub proof fn lemma_sum_insert(entries: Seq<TypeCount>, i: int, entry: TypeCount)
    requires
        0 <= i <= entries.len(),
    ensures
        sum_counts(entries.insert(i, entry)) == sum_counts(entries) + entry.count,
    decreases entries.len(),
{
    let inserted = entries.insert(i, entry);
    if i == entries.len() {
        assert(inserted.drop_last() =~= entries);
    } else {
        assert(inserted.drop_last() =~= entries.drop_last().insert(i, entry));
        assert(inserted.last() == entries.last());
        lemma_sum_insert(entries.drop_last(), i, entry);
    }
}

/// No single count exceeds the sum.
pub proof fn lemma_count_below_sum(entries: Seq<TypeCount>, i: int)
    requires
        0 <= i < entries.len(),
    ensures
        entries[i].count <= sum_counts(entries),
    decreases entries.len(),
{
    if i < entries.len() - 1 {
        lemma_count_below_sum(entries.drop_last(), i);
    }
}

/// The counts that `entries` records, as a map from event type to count.
pub open spec fn counts_of(entries: Seq<TypeCount>) -> Map<u16, nat> {
    Map::new(|t: u16| has_type(entries, t), |t: u16| count_of(entries, t))
}

/// The counts after one more event of `event_type`.
pub open spec fn counted(counts: Map<u16, nat>, event_type: u16) -> Map<u16, nat> {
    counts.insert(
        event_type,
        if counts.contains_key(event_type) {
            counts[event_type] + 1
        } else {
            1
        },
    )
}

/// `rows` lists exactly what `counts` holds, in ascending order of the types.
pub open spec fn lists(rows: Seq<TypeCount>, counts: Map<u16, u64>) -> bool {
    &&& ascending_types(rows)
    &&& forall|i: int|
        0 <= i < rows.len() ==> counts.contains_key((#[trigger] rows[i]).event_type)
            && counts[rows[i].event_type] == rows[i].count
    &&& forall|t: u16| counts.contains_key(t) ==> has_type(rows, t)
}

/// A map has one listing only.
pub proof fn lemma_lists_unique(a: Seq<TypeCount>, b: Seq<TypeCount>, counts: Map<u16, u64>)
    requires
        lists(a, counts),
        lists(b, counts),
    ensures
        a == b,
    decreases a.len(),
{
    if a.len() == 0 {
        if b.len() > 0 {
            assert(counts.contains_key(b[0].event_type));
            assert(has_type(a, b[0].event_type));
        }
        assert(a =~= b);
    } else {
        let x = a.last();
        assert(counts.contains_key(a[a.len() - 1].event_type));
        assert(has_type(b, x.event_type));
        let j = choose|j: int| 0 <= j < b.len() && #[trigger] b[j].event_type == x.event_type;
        if j < b.len() - 1 {
            let y = b[b.len() - 1];
            assert(b[j].event_type < y.event_type);
            assert(counts.contains_key(y.event_type));
            assert(has_type(a, y.event_type));
            let k = choose|k: int| 0 <= k < a.len() && #[trigger] a[k].event_type == y.event_type;
            if k < a.len() - 1 {
                assert(a[k].event_type < a[a.len() - 1].event_type);
            }
        }
        assert(b.last() == x);
        let rest = counts.remove(x.event_type);
        let a0 = a.drop_last();
        let b0 = b.drop_last();
        assert(lists(a0, rest)) by {
            assert forall|i: int| 0 <= i < a0.len() implies rest.contains_key((#[trigger] a0[i]).event_type)
                && rest[a0[i].event_type] == a0[i].count by {
                assert(a[i].event_type < a[a.len() - 1].event_type);
            }
            assert forall|t: u16| rest.contains_key(t) implies has_type(a0, t) by {
                assert(has_type(a, t));
                let k = choose|k: int| 0 <= k < a.len() && #[trigger] a[k].event_type == t;
                assert(a0[k].event_type == t);
            }
        }
        assert(lists(b0, rest)) by {
            assert forall|i: int| 0 <= i < b0.len() implies rest.contains_key((#[trigger] b0[i]).event_type)
                && rest[b0[i].event_type] == b0[i].count by {
                assert(b[i].event_type < b[b.len() - 1].event_type);
            }
            assert forall|t: u16| rest.contains_key(t) implies has_type(b0, t) by {
                assert(has_type(b, t));
                let k = choose|k: int| 0 <= k < b.len() && #[trigger] b[k].event_type == t;
                assert(b0[k].event_type == t);
            }
        }
        lemma_lists_unique(a0, b0, rest);
        assert(a =~= a0.push(x));
        assert(b =~= b0.push(x));
    }
}

/// The position at which a type without an entry belongs: behind all
/// smaller types and before all larger ones.
pub proof fn lemma_insertion_point(rows: Seq<TypeCount>, event_type: u16) -> (i: int)
    requires
        ascending_types(rows),
        !has_type(rows, event_type),
    ensures
        0 <= i <= rows.len(),
        forall|k: int| 0 <= k < i ==> rows[k].event_type < event_type,
        forall|k: int| i <= k < rows.len() ==> rows[k].event_type > event_type,
    decreases rows.len(),
{
    if rows.len() == 0 {
        0
    } else if rows[rows.len() - 1].event_type < event_type {
        assert forall|k: int| 0 <= k < rows.len() implies rows[k].event_type < event_type by {
            if k < rows.len() - 1 {
                assert(rows[k].event_type < rows[rows.len() - 1].event_type);
            }
        }
        rows.len() as int
    } else {
        let init = rows.drop_last();
        assert(!has_type(init, event_type)) by {
            if has_type(init, event_type) {
                let k = choose|k: int| 0 <= k < init.len() && #[trigger] init[k].event_type == event_type;
                assert(rows[k].event_type == event_type);
            }
        }
        let i = lemma_insertion_point(init, event_type);
        let last = rows.len() - 1;
        assert(rows[last].event_type > event_type) by {
            if rows[last].event_type == event_type {
                assert(has_type(rows, event_type));
            }
        }
        assert forall|k: int| 0 <= k < i implies rows[k].event_type < event_type by {
            assert(init[k] == rows[k]);
        }
        assert forall|k: int| i <= k < rows.len() implies rows[k].event_type > event_type by {
            if k < last {
                assert(init[k] == rows[k]);
            }
        }
        i
    }
}

/// The event-type histogram: a count for every type that was seen, together
/// with the number of events counted in all.
pub struct EventHistogram {
    counts: BTreeMap<u16, u64>,
    total: u64,
}

impl View for EventHistogram {
    type V = Map<u16, nat>;

    open spec fn view(&self) -> Map<u16, nat> {
        counts_of(self.rows())
    }
}

impl EventHistogram {
    /// The entries in ascending order of their event types.
    pub closed spec fn rows(&self) -> Seq<TypeCount> {
        choose|rows: Seq<TypeCount>| lists(rows, self.counts@)
    }

    /// The rows list what the map holds.
    pub closed spec fn listed(&self) -> bool {
        lists(self.rows(), self.counts@)
    }

    /// The number of events counted in all.
    pub closed spec fn total(&self) -> nat {
        self.total as nat
    }

    /// The types ascend, every entry counts at least one event, and the
    /// counts add up to the total.
    pub open spec fn wf(&self) -> bool {
        &&& self.listed()
        &&& ascending_types(self.rows())
        &&& forall|i: int| 0 <= i < self.rows().len() ==> (#[trigger] self.rows()[i]).count >= 1
        &&& sum_counts(self.rows()) == self.total()
        &&& self.total() <= u64::MAX
    }

    /// A histogram that has counted nothing.
    pub fn new() -> (h: EventHistogram)
        ensures
            h.wf(),
            h.rows() == Seq::<TypeCount>::empty(),
            h@ == Map::<u16, nat>::empty(),
            h.total() == 0,
    {
        let h = EventHistogram { counts: BTreeMap::new(), total: 0 };
        proof {
            let none = Seq::<TypeCount>::empty();
            assert(lists(none, h.counts@));
            lemma_lists_unique(h.rows(), none, h.counts@);
            assert(h@ =~= Map::<u16, nat>::empty());
        }
        h
    }

    /// Counts one event of `event_type`.
    pub fn record(&mut self, event_type: u16)
        requires
            old(self).wf(),
            old(self).total() < u64::MAX,
        ensures
            final(self).wf(),
            final(self).total() == old(self).total() + 1,
            final(self)@ == counted(old(self)@, event_type),
    {
        broadcast use vstd::std_specs::btree::group_btree_axioms;
        broadcast use vstd::laws_cmp::group_laws_cmp;

        let ghost before = self.rows();
        let ghost held = self.counts@;
        let next: u64 = match self.counts.get(&event_type) {
            Some(count) => {
                proof {
                    assert(has_type(before, event_type));
                    let i = choose|i: int| 0 <= i < before.len() && #[trigger] before[i].event_type == event_type;
                    lemma_count_below_sum(before, i);
                }
                *count + 1
            },
            None => 1,
        };
        self.counts.insert(event_type, next);
        self.total += 1;
        proof {
            let entry = TypeCount { event_type, count: next };
            if held.contains_key(event_type) {
                let i = choose|i: int| 0 <= i < before.len() && #[trigger] before[i].event_type == event_type;
                let after = before.update(i, entry);
                lemma_count_at(before, i);
                lemma_sum_update(before, i, entry);
                assert(ascending_types(after)) by {
                    assert forall|k: int, l: int| 0 <= k < l < after.len() implies after[k].event_type
                        < after[l].event_type by {
                        assert(before[k].event_type < before[l].event_type);
                    }
                }
                lemma_count_at(after, i);
                assert forall|t: u16| t != event_type implies has_type(after, t) == has_type(before, t)
                    && count_of(after, t) == count_of(before, t) by {
                    if has_type(before, t) {
                        let k = choose|k: int| 0 <= k < before.len() && #[trigger] before[k].event_type == t;
                        lemma_count_at(before, k);
                        assert(after[k].event_type == t);
                        lemma_count_at(after, k);
                    } else if has_type(after, t) {
                        let k = choose|k: int| 0 <= k < after.len() && #[trigger] after[k].event_type == t;
                        assert(before[k].event_type == t);
                    }
                }
                assert(lists(after, self.counts@)) by {
                    assert forall|t: u16| self.counts@.contains_key(t) implies has_type(after, t) by {
                        if t != event_type {
                            assert(has_type(before, t));
                        }
                    }
                }
                lemma_lists_unique(self.rows(), after, self.counts@);
                assert(counts_of(after) =~= counted(counts_of(before), event_type));
            } else {
                assert(!has_type(before, event_type)) by {
                    if has_type(before, event_type) {
                        let k = choose|k: int| 0 <= k < before.len() && #[trigger] before[k].event_type
                            == event_type;
                        assert(held.contains_key(before[k].event_type));
                    }
                }
                let i = lemma_insertion_point(before, event_type);
                let after = before.insert(i, entry);
                lemma_sum_insert(before, i, entry);
                assert(ascending_types(after)) by {
                    assert forall|k: int, l: int| 0 <= k < l < after.len() implies after[k].event_type
                        < after[l].event_type by {
                        let bk = if k < i { k } else { k - 1 };
                        let bl = if l < i { l } else { l - 1 };
                        if k != i && l != i {
                            assert(before[bk].event_type < before[bl].event_type);
                        }
                    }
                }
                lemma_count_at(after, i);
                assert forall|t: u16| t != event_type implies has_type(after, t) == has_type(before, t)
                    && count_of(after, t) == count_of(before, t) by {
                    if has_type(before, t) {
                        let k = choose|k: int| 0 <= k < before.len() && #[trigger] before[k].event_type == t;
                        lemma_count_at(before, k);
                        let ak = if k < i { k } else { k + 1 };
                        assert(after[ak].event_type == t);
                        lemma_count_at(after, ak);
                    } else if has_type(after, t) {
                        let k = choose|k: int| 0 <= k < after.len() && #[trigger] after[k].event_type == t;
                        let bk = if k < i { k } else { k - 1 };
                        assert(before[bk].event_type == t);
                    }
                }
                assert(lists(after, self.counts@)) by {
                    assert forall|k: int| 0 <= k < after.len() implies self.counts@.contains_key(
                        (#[trigger] after[k]).event_type,
                    ) && self.counts@[after[k].event_type] == after[k].count by {
                        if k != i {
                            let bk = if k < i { k } else { k - 1 };
                            assert(held.contains_key(before[bk].event_type));
                        }
                    }
                    assert forall|t: u16| self.counts@.contains_key(t) implies has_type(after, t) by {
                        if t != event_type {
                            assert(has_type(before, t));
                        }
                    }
                }
                lemma_lists_unique(self.rows(), after, self.counts@);
                assert(counts_of(after) =~= counted(counts_of(before), event_type));
            }
        }
    }

    /// The number of events counted in all.
    pub fn total_count(&self) -> (t: u64)
        ensures
            t == self.total(),
    {
        self.total
    }

    /// The entries in ascending order of their event types.
    pub fn entries(&self) -> (e: Vec<TypeCount>)
        requires
            self.wf(),
        ensures
            e@ == self.rows(),
    {
        broadcast use vstd::std_specs::btree::group_btree_axioms;
        broadcast use vstd::laws_cmp::group_laws_cmp;

        let mut rows: Vec<TypeCount> = Vec::new();
        for pair in it: self.counts.iter()
            invariant
                it.seq() == spec_btree_map_iter(&self.counts).remaining(),
                increasing_seq(it.seq().map_values(|kv: (&u16, &u64)| *kv.0)),
                rows@.len() == it.index(),
                forall|j: int|
                    0 <= j < rows@.len() ==> rows@[j] == (TypeCount {
                        event_type: *it.seq()[j].0,
                        count: *it.seq()[j].1,
                    }),
        {
            rows.push(TypeCount { event_type: *pair.0, count: *pair.1 });
        }
        proof {
            let walked = spec_btree_map_iter(&self.counts).remaining();
            let keys = walked.map_values(|kv: (&u16, &u64)| *kv.0);
            assert forall|i: int, j: int| 0 <= i < j < rows@.len() implies rows@[i].event_type
                < rows@[j].event_type by {
                assert(keys[i] == rows@[i].event_type);
                assert(keys[j] == rows@[j].event_type);
                assert(vstd::laws_cmp::obeys_cmp::<u16>());
                assert(keys[i].cmp_spec(&keys[j]) is Less);
            }
            assert forall|t: u16| self.counts@.contains_key(t) implies has_type(rows@, t) by {
                let held = (&t, &self.counts@[t]);
                assert(walked.contains(held));
                let i = choose|i: int| 0 <= i < walked.len() && walked[i] == held;
                assert(rows@[i].event_type == t);
            }
            lemma_lists_unique(rows@, self.rows(), self.counts@);
        }
        rows
    }
}

} // verus!
