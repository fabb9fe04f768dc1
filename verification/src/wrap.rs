//! Arithmetic on narrow counters that wrap at a power of two.
//!
//! Every function takes the counter's width in bits. A value wider than the
//! counter is reduced modulo the counter's modulus before it is used, as a
//! truncating read of the hardware register would do.

use vstd::arithmetic::power2::{lemma2_to64, lemma_pow2_strictly_increases, pow2};
use vstd::bits::lemma_u64_shl_is_mul;
use vstd::prelude::*;

verus! {

/// The widest counter the library handles.
pub const MAX_COUNTER_BITS: u32 = 32;

/// A counter width the library accepts: between 1 and 32 bits.
pub open spec fn valid_width(bits: u32) -> bool {
    1 <= bits <= MAX_COUNTER_BITS
}

/// The number of distinct values of a counter of `bits` bits.
pub open spec fn modulus(bits: u32) -> nat {
    pow2(bits as nat)
}

/// The forward distance from `prev` to `cur` on a counter that wraps at `m`:
/// the number of increments that lead from `prev` to `cur`, where an
/// unchanged value counts as one full turn. Both values are below `m`.
pub open spec fn forward_distance(prev: nat, cur: nat, m: nat) -> nat {
    if cur > prev {
        (cur - prev) as nat
    } else {
        (cur + m - prev) as nat
    }
}

/// The absolute tick count after observing `raw` on a counter that wraps at
/// `m`, given the absolute count `ticks` reached so far. A raw value below
/// the previous one means the counter wrapped once.
pub open spec fn advanced(ticks: nat, raw: nat, m: nat) -> nat {
    let last = ticks % m;
    let tick = raw % m;
    if tick < last {
        (ticks - last + m + tick) as nat
    } else {
        (ticks - last + tick) as nat
    }
}

/// The modulus lies between 2 and 2^32 for every accepted width.
pub proof fn lemma_modulus_bounds(bits: u32)
    requires
        valid_width(bits),
    ensures
        2 <= modulus(bits) <= 0x1_0000_0000,
{
    lemma2_to64();
    if bits > 1 {
        lemma_pow2_strictly_increases(1, bits as nat);
    }
    if bits < 32 {
        lemma_pow2_strictly_increases(bits as nat, 32);
    }
}

/// Computes the modulus of a counter of `bits` bits.
pub fn counter_modulus(bits: u32) -> (m: u64)
    requires
        valid_width(bits),
    ensures
        m == modulus(bits),
        2 <= m <= 0x1_0000_0000,
{
    proof {
        lemma_modulus_bounds(bits);
        lemma_u64_shl_is_mul(1, bits as u64);
    }
    1u64 << (bits as u64)
}

/// Reduces a raw reading to the counter's range.
pub fn reduce(raw: u32, bits: u32) -> (r: u32)
    requires
        valid_width(bits),
    ensures
        r == raw as nat % modulus(bits),
{
    let m: u64 = counter_modulus(bits);
    let r: u64 = (raw as u64) % m;
    r as u32
}

/// The wraparound-aware forward distance between two readings of a counter
/// of `bits` bits. It is never computed by plain subtraction: the result is
/// at least 1 and at most the modulus, whatever the two readings are.
pub fn wrapping_distance(prev: u32, cur: u32, bits: u32) -> (d: u64)
    requires
        valid_width(bits),
    ensures
        d == forward_distance(prev as nat % modulus(bits), cur as nat % modulus(bits), modulus(bits)),
        1 <= d <= modulus(bits),
{
    let m: u64 = counter_modulus(bits);
    let p: u64 = (prev as u64) % m;
    let c: u64 = (cur as u64) % m;
    if c > p {
        c - p
    } else {
        c + m - p
    }
}

/// Whether `advanced(ticks, raw, modulus(bits))` still fits in 64 bits.
pub open spec fn advance_fits(ticks: u64, raw: u32, bits: u32) -> bool {
    advanced(ticks as nat, raw as nat, modulus(bits)) <= u64::MAX
}

/// Wraparound-corrected accumulation: the absolute tick count after the
/// reading `raw`, or `None` when that count does not fit in 64 bits.
pub fn wrapping_advance(ticks: u64, raw: u32, bits: u32) -> (r: Option<u64>)
    requires
        valid_width(bits),
    ensures
        advance_fits(ticks, raw, bits) ==> r == Some(advanced(ticks as nat, raw as nat, modulus(bits)) as u64),
        !advance_fits(ticks, raw, bits) ==> r.is_none(),
{
    let m: u64 = counter_modulus(bits);
    let last: u64 = ticks % m;
    let tick: u64 = (raw as u64) % m;
    proof {
        lemma_floor(ticks as nat, m as nat);
    }
    let base: u64 = ticks - last;
    if tick < last {
        match base.checked_add(m) {
            Some(wrapped) => wrapped.checked_add(tick),
            None => None,
        }
    } else {
        base.checked_add(tick)
    }
}

/// Rounding `t` down to a multiple of `m` removes exactly `t % m`.
pub proof fn lemma_floor(t: nat, m: nat)
    requires
        m > 0,
    ensures
        t % m < m,
        t % m <= t,
        t - t % m == (t / m) * m,
{
    vstd::arithmetic::div_mod::lemma_fundamental_div_mod(t as int, m as int);
    vstd::arithmetic::div_mod::lemma_mod_bound(t as int, m as int);
    let q = t / m;
    assert(m * q == q * m && q * m >= 0) by (nonlinear_arith)
        requires
            m > 0,
            q >= 0,
    ;
}

/// The absolute count never goes back, moves by less than one modulus, and
/// ends on the reading that was observed.
pub proof fn lemma_advanced_bounds(ticks: nat, raw: nat, m: nat)
    requires
        m > 0,
    ensures
        ticks <= advanced(ticks, raw, m) < ticks + m,
        advanced(ticks, raw, m) % m == raw % m,
{
    let tick = raw % m;
    lemma_floor(ticks, m);
    lemma_floor(raw, m);
    let q: int = if tick < ticks % m { (ticks / m) as int + 1 } else { (ticks / m) as int };
    assert(advanced(ticks, raw, m) == q * m + tick) by (nonlinear_arith)
        requires
            ticks - ticks % m == (ticks / m) * m,
            tick == raw % m,
            q == (if tick < ticks % m { (ticks / m) as int + 1 } else { (ticks / m) as int }),
            advanced(ticks, raw, m) == (if tick < ticks % m { ticks - ticks % m + m + tick } else { ticks - ticks % m + tick }),
    ;
    vstd::arithmetic::div_mod::lemma_fundamental_div_mod_converse(
        advanced(ticks, raw, m) as int, m as int, q, tick as int);
}

} // verus!
