//! Sorting, as the report tables need it. The sorting itself is done by
//! `itertools`; what is proved here is what follows from its result.

use itertools::Itertools;
use std::collections::HashSet;
use vstd::prelude::*;
use vstd::std_specs::hash::spec_hash_keys_iter;
use vstd::std_specs::iter::IteratorSpec;

verus! {

/// `order` lists the positions of `keys` in ascending order of their keys,
/// positions with equal keys in ascending order of the positions: the order
/// in which a stable sort by key leaves the items.
pub open spec fn is_stable_order(keys: Seq<u64>, order: Seq<usize>) -> bool {
    &&& order.len() == keys.len()
    &&& forall|i: int| 0 <= i < order.len() ==> (#[trigger] order[i]) < keys.len()
    &&& forall|i: int, j: int|
        0 <= i < j < order.len() ==> keys[(#[trigger] order[i]) as int] < keys[(#[trigger] order[j]) as int]
            || (keys[order[i] as int] == keys[order[j] as int] && order[i] < order[j])
}

/// Whether `order` names the position `p`.
pub open spec fn names(order: Seq<usize>, p: int) -> bool {
    exists|i: int| 0 <= i < order.len() && #[trigger] order[i] == p
}

/// No value is followed by a smaller one.
pub open spec fn ascending(values: Seq<u32>) -> bool {
    forall|i: int, j: int| 0 <= i < j < values.len() ==> values[i] <= values[j]
}

/// Every value is followed by larger ones only.
pub open spec fn strictly_ascending(values: Seq<u32>) -> bool {
    forall|i: int, j: int| 0 <= i < j < values.len() ==> values[i] < values[j]
}

/// Calls `Itertools::sorted_by_key` on the positions of `keys`, paired with
/// their keys, and hands back the positions in the order it leaves them in.
///
/// Trusted: the result is a sort of all positions by key, and the sort is
/// stable, as the documentation of `sorted_by_key` says; the pairs enter in
/// ascending order of their positions, so equal keys keep that order.
#[verifier::external_body]
fn order_by_key(keys: &Vec<u64>) -> (order: Vec<usize>)
    ensures
        is_stable_order(keys@, order@),
{
    keys.iter().enumerate().sorted_by_key(|pair| *pair.1).map(|pair| pair.0).collect()
}

/// Calls `Itertools::sorted` on `values`.
///
/// Trusted: the result holds the same values as often as `values` does, in
/// ascending order, as the documentation of `sorted` says.
#[verifier::external_body]
fn sort_values(values: &Vec<u32>) -> (sorted: Vec<u32>)
    ensures
        sorted@.to_multiset() == values@.to_multiset(),
        ascending(sorted@),
{
    values.iter().copied().sorted().collect()
}

/// A stable order names every position exactly once.
pub proof fn lemma_stable_order_is_permutation(keys: Seq<u64>, order: Seq<usize>)
    requires
        is_stable_order(keys, order),
    ensures
        forall|i: int, j: int| 0 <= i < j < order.len() ==> order[i] != order[j],
        forall|p: int| 0 <= p < keys.len() ==> #[trigger] names(order, p),
{
    let n = keys.len() as int;
    let named = Seq::new(order.len(), |i: int| order[i] as int);
    assert forall|i: int, j: int| 0 <= i < j < order.len() implies order[i] != order[j] by {
        let a = order[i];
        let b = order[j];
    }
    assert(named.no_duplicates()) by {
        assert forall|i: int, j: int| 0 <= i < named.len() && 0 <= j < named.len() && i != j implies named[i]
            != named[j] by {
            if i < j {
                assert(order[i] != order[j]);
            } else {
                assert(order[j] != order[i]);
            }
        }
    }
    named.unique_seq_to_set();
    vstd::set_lib::lemma_int_range(0, n);
    let range = vstd::set_lib::set_int_range(0, n);
    assert(named.to_set().subset_of(range)) by {
        assert forall|p: int| named.to_set().contains(p) implies range.contains(p) by {
            let i = choose|i: int| 0 <= i < named.len() && named[i] == p;
            assert(order[i] < keys.len());
        }
    }
    assert(named.to_set().finite()) by {
        vstd::set_lib::lemma_set_subset_finite(range, named.to_set());
    }
    vstd::set_lib::lemma_subset_equality(named.to_set(), range);
    assert forall|p: int| 0 <= p < keys.len() implies #[trigger] names(order, p) by {
        assert(range.contains(p));
        assert(named.to_set().contains(p));
        let i = choose|i: int| 0 <= i < named.len() && named[i] == p;
        assert(order[i] == p);
    }
}

/// The positions of `keys` in ascending order of their keys; positions with
/// equal keys stay in ascending order. Every position occurs exactly once.
pub fn ascending_order(keys: &Vec<u64>) -> (order: Vec<usize>)
    ensures
        is_stable_order(keys@, order@),
        forall|i: int, j: int| 0 <= i < j < order@.len() ==> order@[i] != order@[j],
        forall|p: int| 0 <= p < keys@.len() ==> #[trigger] names(order@, p),
{
    let order = order_by_key(keys);
    proof {
        lemma_stable_order_is_permutation(keys@, order@);
    }
    order
}

/// The values of `values`, which holds none twice, in strictly ascending
/// order.
pub fn sorted_distinct(values: &Vec<u32>) -> (sorted: Vec<u32>)
    requires
        values@.no_duplicates(),
    ensures
        strictly_ascending(sorted@),
        sorted@.len() == values@.len(),
        sorted@.to_set() == values@.to_set(),
{
    let sorted = sort_values(values);
    proof {
        vstd::seq_lib::to_multiset_len(values@);
        vstd::seq_lib::to_multiset_len(sorted@);
        values@.lemma_multiset_has_no_duplicates();
        sorted@.lemma_multiset_has_no_duplicates_conv();
        assert forall|i: int, j: int| 0 <= i < j < sorted@.len() implies sorted@[i] < sorted@[j] by {
            assert(sorted@[i] != sorted@[j]);
        }
        assert forall|x: u32| sorted@.contains(x) <==> values@.contains(x) by {
            vstd::seq_lib::to_multiset_contains(sorted@, x);
            vstd::seq_lib::to_multiset_contains(values@, x);
        }
        assert(sorted@.to_set() =~= values@.to_set());
    }
    sorted
}

/// The members of `values` in strictly ascending order.
pub fn sorted_members(values: &HashSet<u32>) -> (sorted: Vec<u32>)
    ensures
        strictly_ascending(sorted@),
        sorted@.len() == values@.len(),
        sorted@.to_set() == values@,
{
    broadcast use vstd::std_specs::hash::group_hash_axioms;

    let mut members: Vec<u32> = Vec::new();
    for value in it: values.iter()
        invariant
            it.seq() == spec_hash_keys_iter(values).remaining(),
            members@.len() == it.index(),
            forall|j: int| 0 <= j < members@.len() ==> members@[j] == *it.seq()[j],
    {
        members.push(*value);
    }
    proof {
        let walked = spec_hash_keys_iter(values).remaining();
        assert(members@ =~= walked.unref());
    }
    sorted_distinct(&members)
}

} // verus!
