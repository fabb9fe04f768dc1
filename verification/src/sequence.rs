//! Loss detection from a narrow per-event sequence counter that wraps.

use crate::wrap::{forward_distance, lemma_floor, lemma_modulus_bounds, modulus, reduce, valid_width, wrapping_distance};
use vstd::prelude::*;

verus! {

/// Tracks the sequence counter that the source raises by one for every event
/// it emits, and turns each gap into a count of events that were lost.
#[derive(Clone, Copy, Debug, PartialEq, Eq, Structural)]
pub struct SequenceTracker {
    /// The width of the counter in bits.
    pub bits: u32,
    /// The last value observed, within the counter's range.
    pub last: u32,
}

/// The number of events that were skipped between two consecutive
/// observations on a counter that wraps at `m`: the forward distance minus
/// the one step that the observed event itself accounts for. An unchanged
/// value means a full turn, so `m - 1` events were skipped.
pub open spec fn skipped_between(prev: nat, cur: nat, m: nat) -> nat {
    (forward_distance(prev, cur, m) - 1) as nat
}

impl SequenceTracker {
    /// The width is accepted and the last value lies in the counter's range.
    pub open spec fn wf(self) -> bool {
        &&& valid_width(self.bits)
        &&& self.last < modulus(self.bits)
    }

    /// A tracker whose last value is zero.
    pub fn new(bits: u32) -> (t: SequenceTracker)
        requires
            valid_width(bits),
        ensures
            t == (SequenceTracker { bits, last: 0 }),
            t.wf(),
    {
        proof {
            lemma_modulus_bounds(bits);
        }
        SequenceTracker { bits, last: 0 }
    }

    /// Records the first sequence value of a session. No loss is reported.
    pub fn set_initial_count(&mut self, seq: u32)
        requires
            old(self).wf(),
        ensures
            final(self).wf(),
            final(self).bits == old(self).bits,
            final(self).last == seq as nat % modulus(old(self).bits),
    {
        proof {
            lemma_modulus_bounds(self.bits);
            lemma_floor(seq as nat, modulus(self.bits));
        }
        self.last = reduce(seq, self.bits);
    }

    /// The count that `update` would return for `seq`, without recording it.
    pub fn projected(&self, seq: u32) -> (skipped: u64)
        requires
            self.wf(),
        ensures
            skipped == skipped_between(
                self.last as nat,
                seq as nat % modulus(self.bits),
                modulus(self.bits),
            ),
            skipped < modulus(self.bits),
    {
        proof {
            lemma_modulus_bounds(self.bits);
            vstd::arithmetic::div_mod::lemma_small_mod(self.last as nat, modulus(self.bits));
        }
        wrapping_distance(self.last, seq, self.bits) - 1
    }

    /// Records the next sequence value and returns how many events were
    /// skipped since the previous one; zero when the value is the successor
    /// of the previous one.
    pub fn update(&mut self, seq: u32) -> (skipped: u64)
        requires
            old(self).wf(),
        ensures
            final(self).wf(),
            final(self).bits == old(self).bits,
            final(self).last == seq as nat % modulus(old(self).bits),
            skipped == skipped_between(
                old(self).last as nat,
                seq as nat % modulus(old(self).bits),
                modulus(old(self).bits),
            ),
            skipped < modulus(old(self).bits),
    {
        proof {
            lemma_modulus_bounds(self.bits);
            lemma_floor(seq as nat, modulus(self.bits));
            lemma_floor(self.last as nat, modulus(self.bits));
            vstd::arithmetic::div_mod::lemma_small_mod(self.last as nat, modulus(self.bits));
        }
        let distance: u64 = wrapping_distance(self.last, seq, self.bits);
        self.last = reduce(seq, self.bits);
        distance - 1
    }
}

/// For every pair of values of a counter that wraps at `m`, the forward
/// distance is at least one step and at most one full turn, so the count of
/// skipped events is never negative; and stepping the distance forward from
/// the previous value arrives, with wraparound, at the current one.
pub proof fn law_distance_wraps(prev: nat, cur: nat, m: nat)
    requires
        m > 0,
        prev < m,
        cur < m,
    ensures
        1 <= forward_distance(prev, cur, m) <= m,
        0 <= skipped_between(prev, cur, m) < m,
        skipped_between(prev, cur, m) + 1 == forward_distance(prev, cur, m),
        (prev + forward_distance(prev, cur, m)) % m == cur,
        (prev + 1 + skipped_between(prev, cur, m)) % m == cur,
{
    let d = forward_distance(prev, cur, m);
    if cur > prev {
        vstd::arithmetic::div_mod::lemma_small_mod(cur, m);
    } else {
        vstd::arithmetic::div_mod::lemma_fundamental_div_mod_converse(
            (prev + d) as int,
            m as int,
            1,
            cur as int,
        );
    }
}

} // verus!
