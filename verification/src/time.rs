//! Monotonic time reconstruction from a narrow tick counter that wraps.

use crate::wrap::{
    advance_fits, advanced, counter_modulus, lemma_advanced_bounds, lemma_floor,
    lemma_modulus_bounds, modulus, valid_width, wrapping_advance,
};
use vstd::prelude::*;

verus! {

/// Reconstructs an ever-increasing absolute tick count from the raw readings
/// of a counter of `bits` bits.
///
/// The clock holds the absolute count of the last reading. A reading that is
/// numerically below the previous one is taken as exactly one wraparound, so
/// the count is exact as long as less than one full turn of the counter
/// passes between two readings; with more, whole turns go unnoticed.
#[derive(Clone, Copy, Debug, PartialEq, Eq, Structural)]
pub struct TickClock {
    /// The width of the counter in bits.
    pub bits: u32,
    /// Whether the session's origin has been established.
    pub started: bool,
    /// The absolute tick count of the last reading; zero before the origin.
    pub ticks: u64,
}

/// The absolute counts that the readings `raws`, taken in order after the
/// count `ticks`, produce on a counter that wraps at `m`.
pub open spec fn elapsed_sequence(ticks: nat, raws: Seq<u32>, m: nat) -> Seq<nat>
    decreases raws.len(),
{
    if raws.len() == 0 {
        Seq::empty()
    } else {
        let init = elapsed_sequence(ticks, raws.drop_last(), m);
        let prev = if init.len() == 0 {
            ticks
        } else {
            init.last()
        };
        init.push(advanced(prev, raws.last() as nat, m))
    }
}

impl TickClock {
    /// The width is accepted, and nothing has elapsed before the origin.
    pub open spec fn wf(self) -> bool {
        &&& valid_width(self.bits)
        &&& !self.started ==> self.ticks == 0
    }

    /// The absolute count that session metadata and the first reading give:
    /// the wraparounds reported at session start, then the reading.
    pub open spec fn origin(bits: u32, first_raw_tick: u32, wraparound_count: u32) -> nat {
        wraparound_count as nat * modulus(bits) + first_raw_tick as nat % modulus(bits)
    }

    /// A clock without origin.
    pub fn new(bits: u32) -> (c: TickClock)
        requires
            valid_width(bits),
        ensures
            c == (TickClock { bits, started: false, ticks: 0 }),
            c.wf(),
    {
        TickClock { bits, started: false, ticks: 0 }
    }

    /// Computes the origin that `initialize` would establish. It always
    /// fits in 64 bits.
    pub fn origin_ticks(bits: u32, first_raw_tick: u32, wraparound_count: u32) -> (t: u64)
        requires
            valid_width(bits),
        ensures
            t == TickClock::origin(bits, first_raw_tick, wraparound_count),
    {
        let m: u64 = counter_modulus(bits);
        let low: u64 = (first_raw_tick as u64) % m;
        assert((wraparound_count as u64) * m <= 0xFFFF_FFFF * 0x1_0000_0000) by (nonlinear_arith)
            requires
                wraparound_count <= 0xFFFF_FFFF,
                m <= 0x1_0000_0000,
        ;
        (wraparound_count as u64) * m + low
    }

    /// Establishes the session's origin from the first reading and the
    /// wraparound count of the stream's metadata.
    pub fn initialize(&mut self, first_raw_tick: u32, wraparound_count: u32)
        requires
            old(self).wf(),
        ensures
            final(self).wf(),
            final(self).bits == old(self).bits,
            final(self).started,
            final(self).ticks == TickClock::origin(old(self).bits, first_raw_tick, wraparound_count),
    {
        self.ticks = TickClock::origin_ticks(self.bits, first_raw_tick, wraparound_count);
        self.started = true;
    }

    /// Whether the count after the reading `raw_tick` fits in 64 bits.
    pub open spec fn can_elapse(self, raw_tick: u32) -> bool {
        advance_fits(self.ticks, raw_tick, self.bits)
    }

    /// The count that `elapsed` would return for `raw_tick`, without moving
    /// the clock; `None` when it does not fit in 64 bits.
    pub fn projected(&self, raw_tick: u32) -> (r: Option<u64>)
        requires
            self.wf(),
        ensures
            self.can_elapse(raw_tick) ==> r == Some(
                advanced(self.ticks as nat, raw_tick as nat, modulus(self.bits)) as u64,
            ),
            !self.can_elapse(raw_tick) ==> r.is_none(),
    {
        wrapping_advance(self.ticks, raw_tick, self.bits)
    }

    /// Takes the reading `raw_tick` and returns the absolute tick count,
    /// which never goes back.
    pub fn elapsed(&mut self, raw_tick: u32) -> (now: u64)
        requires
            old(self).wf(),
            old(self).started,
            old(self).can_elapse(raw_tick),
        ensures
            final(self).wf(),
            final(self).bits == old(self).bits,
            final(self).started,
            final(self).ticks == now,
            now == advanced(old(self).ticks as nat, raw_tick as nat, modulus(old(self).bits)),
            old(self).ticks <= now < old(self).ticks + modulus(old(self).bits),
            now as nat % modulus(old(self).bits) == raw_tick as nat % modulus(old(self).bits),
    {
        proof {
            lemma_modulus_bounds(self.bits);
            lemma_advanced_bounds(self.ticks as nat, raw_tick as nat, modulus(self.bits));
        }
        match wrapping_advance(self.ticks, raw_tick, self.bits) {
            Some(now) => {
                self.ticks = now;
                now
            },
            None => self.ticks,
        }
    }

    /// The absolute tick count of the last reading; zero before the origin.
    pub fn now(&self) -> (t: u64)
        ensures
            t == self.ticks,
    {
        self.ticks
    }

    /// Forgets the origin, so that the next session establishes its own.
    /// The caller records the count reached as the session's boundary first.
    pub fn on_session_reset(&mut self)
        requires
            old(self).wf(),
        ensures
            *final(self) == (TickClock { bits: old(self).bits, started: false, ticks: 0 }),
            final(self).wf(),
    {
        self.started = false;
        self.ticks = 0;
    }
}

/// Whatever the readings are, the reconstructed counts never go back: each
/// is at least the count before it, and the first at least the origin.
pub proof fn law_elapsed_never_goes_back(ticks: nat, raws: Seq<u32>, m: nat)
    requires
        m > 0,
    ensures
        elapsed_sequence(ticks, raws, m).len() == raws.len(),
        forall|i: int| 0 <= i < raws.len() ==> ticks <= #[trigger] elapsed_sequence(ticks, raws, m)[i],
        forall|i: int, j: int|
            0 <= i <= j < raws.len() ==> #[trigger] elapsed_sequence(ticks, raws, m)[i]
                <= #[trigger] elapsed_sequence(ticks, raws, m)[j],
        forall|i: int|
            0 <= i < raws.len() ==> (#[trigger] elapsed_sequence(ticks, raws, m)[i]) % m == raws[i] as nat % m,
    decreases raws.len(),
{
    if raws.len() > 0 {
        let init = elapsed_sequence(ticks, raws.drop_last(), m);
        law_elapsed_never_goes_back(ticks, raws.drop_last(), m);
        let prev = if init.len() == 0 {
            ticks
        } else {
            init.last()
        };
        lemma_advanced_bounds(prev, raws.last() as nat, m);
        let all = elapsed_sequence(ticks, raws, m);
        assert(all == init.push(advanced(prev, raws.last() as nat, m)));
        assert forall|i: int, j: int| 0 <= i <= j < raws.len() implies #[trigger] all[i] <= #[trigger] all[j] by {
            if j < init.len() {
                assert(all[i] == init[i] && all[j] == init[j]);
            } else if i < init.len() {
                assert(all[i] == init[i]);
                assert(init[i] <= init[init.len() - 1]);
            }
        }
        assert forall|i: int| 0 <= i < raws.len() implies (#[trigger] all[i]) % m == raws[i] as nat % m by {
            if i < init.len() {
                assert(all[i] == init[i]);
                assert(raws.drop_last()[i] == raws[i]);
            }
        }
    }
}

/// The reconstruction is exact while less than one full turn of the counter
/// passes between two readings: if the true count moved on by `delta` ticks,
/// with `delta` below the modulus, the reading of the new count yields the
/// old count plus `delta`.
pub proof fn law_elapsed_is_exact(ticks: nat, delta: nat, m: nat)
    requires
        m > 0,
        delta < m,
    ensures
        advanced(ticks, (ticks + delta) % m, m) == ticks + delta,
{
    lemma_floor(ticks, m);
    lemma_floor(ticks + delta, m);
    let last = ticks % m;
    let q = ticks / m;
    let raw = (ticks + delta) % m;
    vstd::arithmetic::div_mod::lemma_mod_twice((ticks + delta) as int, m as int);
    assert(raw % m == raw);
    if last + delta < m {
        vstd::arithmetic::div_mod::lemma_fundamental_div_mod_converse(
            (ticks + delta) as int,
            m as int,
            q as int,
            (last + delta) as int,
        );
    } else {
        assert(ticks + delta == (q + 1) * m + (last + delta - m)) by (nonlinear_arith)
            requires
                ticks - last == q * m,
        ;
        vstd::arithmetic::div_mod::lemma_fundamental_div_mod_converse(
            (ticks + delta) as int,
            m as int,
            (q + 1) as int,
            (last + delta - m) as int,
        );
    }
}

} // verus!
