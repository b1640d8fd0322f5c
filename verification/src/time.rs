//! Durations and monotonic moments as exact integer nanoseconds.
//!
//! Time is modelled as a whole number of nanoseconds, bounded the way a standard
//! duration is bounded (`u64::MAX` seconds plus a sub-second part). Every conversion to a
//! coarser unit truncates, and every operation that could leave the range either saturates
//! or says so with `None`: an absurd duration must not become a small, plausible one.

use vstd::prelude::*;

verus! {

/// Nanoseconds in one second.
pub const NANOS_PER_SEC: u128 = 1_000_000_000;

/// The largest representable span, in nanoseconds.
pub const MAX_NANOS: u128 = 18_446_744_073_709_551_615_999_999_999;

/// A span of time, in whole nanoseconds.
#[derive(Debug, Clone, Copy, PartialEq, Eq, Structural, PartialOrd, Ord, Hash)]
pub struct Duration {
    nanos: u128,
}

impl Duration {
    #[verifier::type_invariant]
    spec fn in_range(self) -> bool {
        self.nanos <= MAX_NANOS
    }

    /// The span in nanoseconds.
    pub closed spec fn view(self) -> nat {
        self.nanos as nat
    }

    /// No time at all.
    pub fn zero() -> (d: Duration)
        ensures
            d@ == 0,
    {
        Duration { nanos: 0 }
    }

    /// The largest representable span.
    pub fn maximum() -> (d: Duration)
        ensures
            d@ == MAX_NANOS,
    {
        Duration { nanos: MAX_NANOS }
    }

    /// A span of exactly `nanos` nanoseconds.
    pub fn from_nanos(nanos: u64) -> (d: Duration)
        ensures
            d@ == nanos,
    {
        Duration { nanos: nanos as u128 }
    }

    /// A span of exactly `micros` microseconds.
    pub fn from_micros(micros: u64) -> (d: Duration)
        ensures
            d@ == micros * 1_000,
    {
        Duration { nanos: micros as u128 * 1_000 }
    }

    /// A span of exactly `millis` milliseconds.
    pub fn from_millis(millis: u64) -> (d: Duration)
        ensures
            d@ == millis * 1_000_000,
    {
        Duration { nanos: millis as u128 * 1_000_000 }
    }

    /// A span of exactly `secs` seconds.
    pub fn from_secs(secs: u64) -> (d: Duration)
        ensures
            d@ == secs * 1_000_000_000,
    {
        Duration { nanos: secs as u128 * NANOS_PER_SEC }
    }

    /// Whether the span is empty.
    pub fn is_zero(&self) -> (b: bool)
        ensures
            b == (self@ == 0),
    {
        self.nanos == 0
    }

    /// The span in nanoseconds.
    pub fn as_nanos(&self) -> (n: u128)
        ensures
            n == self@,
            self@ <= MAX_NANOS,
    {
        proof {
            use_type_invariant(self);
        }
        self.nanos
    }

    /// Whole microseconds in the span, truncating.
    pub fn as_micros(&self) -> (n: u128)
        ensures
            n == self@ / 1_000,
            self@ <= MAX_NANOS,
    {
        proof {
            use_type_invariant(self);
        }
        self.nanos / 1_000
    }

    /// Whole milliseconds in the span, truncating.
    pub fn as_millis(&self) -> (n: u128)
        ensures
            n == self@ / 1_000_000,
            self@ <= MAX_NANOS,
    {
        proof {
            use_type_invariant(self);
        }
        self.nanos / 1_000_000
    }

    /// Whole seconds in the span, truncating.
    pub fn as_secs(&self) -> (n: u64)
        ensures
            n == self@ / 1_000_000_000,
    {
        proof {
            use_type_invariant(self);
        }
        (self.nanos / NANOS_PER_SEC) as u64
    }

    /// Whether this span is shorter than `other`.
    pub fn lt(&self, other: &Duration) -> (b: bool)
        ensures
            b == (self@ < other@),
    {
        self.nanos < other.nanos
    }

    /// Whether this span is no longer than `other`.
    pub fn le(&self, other: &Duration) -> (b: bool)
        ensures
            b == (self@ <= other@),
    {
        self.nanos <= other.nanos
    }

    /// The shorter of the two spans.
    pub fn min(self, other: Duration) -> (d: Duration)
        ensures
            d@ == if self@ <= other@ { self@ } else { other@ },
    {
        if self.nanos <= other.nanos {
            self
        } else {
            other
        }
    }

    /// The longer of the two spans.
    pub fn max(self, other: Duration) -> (d: Duration)
        ensures
            d@ == if self@ >= other@ { self@ } else { other@ },
    {
        if self.nanos >= other.nanos {
            self
        } else {
            other
        }
    }

    /// The sum, or `None` when it would leave the representable range.
    pub fn checked_add(self, other: Duration) -> (d: Option<Duration>)
        ensures
            d matches Some(d) ==> d@ == self@ + other@,
            d is None <==> self@ + other@ > MAX_NANOS,
    {
        proof {
            use_type_invariant(self);
            use_type_invariant(other);
        }
        let sum = self.nanos + other.nanos;
        if sum > MAX_NANOS {
            None
        } else {
            Some(Duration { nanos: sum })
        }
    }

    /// The sum, stopping at the largest representable span.
    pub fn saturating_add(self, other: Duration) -> (d: Duration)
        ensures
            d@ == if self@ + other@ > MAX_NANOS { MAX_NANOS as nat } else { self@ + other@ },
    {
        match self.checked_add(other) {
            Some(d) => d,
            None => Duration::maximum(),
        }
    }

    /// The difference, or `None` when `other` is longer.
    pub fn checked_sub(self, other: Duration) -> (d: Option<Duration>)
        ensures
            d matches Some(d) ==> d@ == self@ - other@,
            d is None <==> self@ < other@,
    {
        proof {
            use_type_invariant(self);
        }
        if other.nanos > self.nanos {
            None
        } else {
            Some(Duration { nanos: self.nanos - other.nanos })
        }
    }

    /// The difference, or zero when `other` is longer.
    pub fn saturating_sub(self, other: Duration) -> (d: Duration)
        ensures
            d@ == if self@ < other@ { 0 } else { self@ - other@ },
    {
        proof {
            use_type_invariant(self);
        }
        if other.nanos > self.nanos {
            Duration::zero()
        } else {
            Duration { nanos: self.nanos - other.nanos }
        }
    }

    /// The span `factor` times over, or `None` when it would leave the range.
    pub fn checked_mul(self, factor: u32) -> (d: Option<Duration>)
        ensures
            d matches Some(d) ==> d@ == self@ * factor,
            d is None <==> self@ * factor > MAX_NANOS,
    {
        proof {
            use_type_invariant(self);
            assert(self.nanos * factor <= MAX_NANOS * u32::MAX) by (nonlinear_arith)
                requires
                    self.nanos <= MAX_NANOS,
                    factor <= u32::MAX,
            ;
        }
        let product = self.nanos * (factor as u128);
        if product > MAX_NANOS {
            None
        } else {
            Some(Duration { nanos: product })
        }
    }

    /// The span `factor` times over, stopping at the largest representable span.
    pub fn saturating_mul(self, factor: u32) -> (d: Duration)
        ensures
            d@ == if self@ * factor > MAX_NANOS { MAX_NANOS as int } else { self@ * factor },
    {
        match self.checked_mul(factor) {
            Some(d) => d,
            None => Duration::maximum(),
        }
    }

    /// A quarter of the span, rounded down to a whole nanosecond.
    pub fn div(self, divisor: u32) -> (d: Duration)
        requires
            divisor > 0,
        ensures
            d@ == self@ / (divisor as nat),
    {
        proof {
            use_type_invariant(self);
        }
        Duration { nanos: self.nanos / (divisor as u128) }
    }
}

/// Whole seconds in `elapsed`, saturating at `u32::MAX` (about 136 years).
///
/// Saturating rather than wrapping: an absurd duration must not become a small,
/// plausible-looking number.
pub fn elapsed_secs(elapsed: Duration) -> (secs: u32)
    ensures
        secs == if elapsed@ / 1_000_000_000 > u32::MAX { u32::MAX as nat } else {
            elapsed@ / 1_000_000_000
        },
{
    let whole = elapsed.as_secs();
    if whole > u32::MAX as u64 {
        u32::MAX
    } else {
        whole as u32
    }
}

/// A moment on a monotonic clock, as the time elapsed since the clock's origin.
///
/// Only differences are meaningful; the origin is whatever the caller chose. No function
/// here reads a clock.
#[derive(Debug, Clone, Copy, PartialEq, Eq, Structural, PartialOrd, Ord, Hash)]
pub struct Instant {
    since: Duration,
}

impl Instant {
    /// The moment, in nanoseconds after the origin.
    pub closed spec fn view(self) -> nat {
        self.since@
    }

    /// The moment `since` after the origin.
    pub fn from_origin(since: Duration) -> (i: Instant)
        ensures
            i@ == since@,
    {
        Instant { since }
    }

    /// How long after the origin this moment is.
    pub fn since_origin(self) -> (d: Duration)
        ensures
            d@ == self@,
    {
        self.since
    }

    /// How long after `earlier` this is, or zero when it is not later.
    ///
    /// A clock that appears to move backwards yields no time rather than a panic.
    pub fn saturating_duration_since(self, earlier: Instant) -> (d: Duration)
        ensures
            d@ == if self@ < earlier@ { 0 } else { self@ - earlier@ },
    {
        self.since.saturating_sub(earlier.since)
    }

    /// The moment `offset` after this one, meaningful when that is within the clock's
    /// range.
    pub closed spec fn later_by(self, offset: Duration) -> Instant {
        Instant { since: Duration { nanos: (self.since.nanos + offset.nanos) as u128 } }
    }

    /// Within the clock's range, `later_by` lands exactly `offset` later.
    pub proof fn lemma_later_by(self, offset: Duration)
        requires
            self@ + offset@ <= MAX_NANOS,
        ensures
            self.later_by(offset)@ == self@ + offset@,
    {
    }

    /// This moment `offset` later, or `None` when that is beyond the clock's range.
    pub fn checked_add(self, offset: Duration) -> (i: Option<Instant>)
        ensures
            i matches Some(i) ==> i@ == self@ + offset@ && i == self.later_by(offset),
            i is None <==> self@ + offset@ > MAX_NANOS,
    {
        match self.since.checked_add(offset) {
            Some(since) => Some(Instant { since }),
            None => None,
        }
    }

    /// This moment `offset` earlier, or `None` when that is before the origin.
    pub fn checked_sub(self, offset: Duration) -> (i: Option<Instant>)
        ensures
            i matches Some(i) ==> i@ == self@ - offset@,
            i is None <==> self@ < offset@,
    {
        match self.since.checked_sub(offset) {
            Some(since) => Some(Instant { since }),
            None => None,
        }
    }

    /// Whether this moment comes strictly before `other`.
    pub fn lt(&self, other: &Instant) -> (b: bool)
        ensures
            b == (self@ < other@),
    {
        self.since.lt(&other.since)
    }

    /// Whether this moment comes no later than `other`.
    pub fn le(&self, other: &Instant) -> (b: bool)
        ensures
            b == (self@ <= other@),
    {
        self.since.le(&other.since)
    }
}

/// A moment on the wall clock, as the time elapsed since the Unix epoch.
///
/// Used only for spans that must survive the application being closed; measurement uses
/// `Instant`. A wall clock can step backwards, so differences are partial.
#[derive(Debug, Clone, Copy, PartialEq, Eq, Structural, PartialOrd, Ord, Hash)]
pub struct WallTime {
    since_epoch: Duration,
}

impl WallTime {
    /// The moment, in nanoseconds after the epoch.
    pub closed spec fn view(self) -> nat {
        self.since_epoch@
    }

    /// The moment `since_epoch` after the Unix epoch.
    pub fn from_unix(since_epoch: Duration) -> (t: WallTime)
        ensures
            t@ == since_epoch@,
    {
        WallTime { since_epoch }
    }

    /// How long after the Unix epoch this moment is.
    pub fn since_unix(self) -> (d: Duration)
        ensures
            d@ == self@,
    {
        self.since_epoch
    }

    /// How long after `earlier` this is, or `None` when `earlier` is the later of the two.
    pub fn duration_since(self, earlier: WallTime) -> (d: Option<Duration>)
        ensures
            self@ >= earlier@ ==> (d matches Some(d) && d@ == self@ - earlier@),
            self@ < earlier@ ==> d is None,
    {
        self.since_epoch.checked_sub(earlier.since_epoch)
    }

    /// Whether this moment comes strictly before `other`.
    pub fn lt(&self, other: &WallTime) -> (b: bool)
        ensures
            b == (self@ < other@),
    {
        self.since_epoch.lt(&other.since_epoch)
    }

    /// Two moments are the same exactly when they are the same distance from the epoch.
    pub proof fn lemma_view_injective(a: WallTime, b: WallTime)
        ensures
            (a@ == b@) == (a == b),
    {
    }
}

} // verus!
