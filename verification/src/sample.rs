//! What a single probe produced.

use crate::time::{Duration, Instant};
use vstd::prelude::*;

verus! {

/// A round-trip time, stored as whole microseconds.
///
/// Integers rather than floats: storage stays exact and totally ordered. The range reaches
/// about 71.6 minutes, far beyond any probe timeout.
#[derive(Debug, Clone, Copy, PartialEq, Eq, Structural, PartialOrd, Ord, Hash)]
pub struct Rtt(pub u32);

impl Rtt {
    /// The largest representable round-trip time.
    pub fn maximum() -> (r: Rtt)
        ensures
            r.0 == u32::MAX,
    {
        Rtt(u32::MAX)
    }

    /// Builds a round-trip time from whole microseconds.
    pub fn from_micros(micros: u32) -> (r: Rtt)
        ensures
            r.0 == micros,
    {
        Rtt(micros)
    }

    /// Builds a round-trip time from a measured duration, truncating to whole microseconds
    /// and saturating at the largest representable value.
    ///
    /// Saturating rather than wrapping: an absurd measurement must not look like a fast one.
    pub fn from_duration(measured: Duration) -> (r: Rtt)
        ensures
            r.0 == if measured@ / 1_000 > u32::MAX { u32::MAX as nat } else {
                measured@ / 1_000
            },
    {
        let micros = measured.as_micros();
        if micros > u32::MAX as u128 {
            Rtt(u32::MAX)
        } else {
            Rtt(micros as u32)
        }
    }

    /// The round-trip time in whole microseconds.
    pub fn as_micros(self) -> (micros: u32)
        ensures
            micros == self.0,
    {
        self.0
    }
}

/// What came back from one probe.
///
/// * `Timeout` is packet loss: nothing answered in time.
/// * `Unreachable` is a definitive negative answer: the path works, the destination does not.
/// * `Blocked` means this probe kind is filtered, so the sample says nothing about the link.
#[derive(Debug, Clone, Copy, PartialEq, Eq, Structural, Hash)]
pub enum ProbeOutcome {
    /// A reply arrived, taking this long.
    Success(Rtt),
    /// Nothing replied within the probe's deadline.
    Timeout,
    /// The destination answered that it cannot be reached.
    Unreachable,
    /// This probe kind is filtered on the path; the sample measures nothing.
    Blocked,
}

impl ProbeOutcome {
    /// Whether this outcome is evidence about packet delivery: only successes and timeouts.
    pub open spec fn spec_tests_delivery(self) -> bool {
        self is Success || self is Timeout
    }

    /// The measured round-trip time, if this probe measured one.
    pub fn rtt(self) -> (r: Option<Rtt>)
        ensures
            r == (match self {
                ProbeOutcome::Success(rtt) => Some(rtt),
                _ => None,
            }),
    {
        match self {
            ProbeOutcome::Success(rtt) => Some(rtt),
            _ => None,
        }
    }

    /// Whether this outcome is evidence about packet delivery.
    ///
    /// Unreachable and blocked outcomes answer a different question and must stay out of
    /// the loss ratio's denominator.
    pub fn tests_delivery(self) -> (b: bool)
        ensures
            b == self.spec_tests_delivery(),
    {
        match self {
            ProbeOutcome::Success(_) | ProbeOutcome::Timeout => true,
            _ => false,
        }
    }
}

/// One probe result, stamped on the monotonic clock.
#[derive(Debug, Clone, Copy, PartialEq, Eq, Structural)]
pub struct ProbeSample {
    /// When the probe completed.
    pub at: Instant,
    /// What it produced.
    pub outcome: ProbeOutcome,
}

impl ProbeSample {
    /// Builds a sample.
    pub fn new(at: Instant, outcome: ProbeOutcome) -> (s: ProbeSample)
        ensures
            s.at == at,
            s.outcome == outcome,
    {
        ProbeSample { at, outcome }
    }
}

} // verus!
