//! Stretching the interval of a target that has stopped saying anything new.
//!
//! Only *unbroken* failure stretches the interval: every success puts the target back to
//! full rate, so a link losing half its packets is never coarsened. Backoff engages only
//! where the answer has been identical for several probes running, and it is bounded by a
//! ceiling that is part of the type.

use crate::error::Error;
use crate::sample::ProbeOutcome;
use crate::time::{Duration, MAX_NANOS};
use vstd::arithmetic::power2::pow2;
use vstd::bits::{lemma_u32_pow2_no_overflow, lemma_u32_shl_is_mul};
use vstd::prelude::*;

verus! {

/// How many consecutive failures pass before the interval starts stretching.
pub const FAILURES_BEFORE_STRETCHING: u32 = 3;

/// The interval for a target probed every `base`, never above `max`, that has failed
/// `failures` times in a row.
///
/// Up to the threshold it is the base. Beyond it, the base doubles with every further
/// failure — the factor saturating at `u32::MAX` once the doubling leaves 32 bits — and is
/// capped by the ceiling, which is also the answer whenever the product would leave the
/// representable range.
pub open spec fn stretched_interval(base: nat, max: nat, failures: nat) -> nat {
    if failures <= FAILURES_BEFORE_STRETCHING {
        base
    } else {
        let stretching = (failures - FAILURES_BEFORE_STRETCHING) as nat;
        let factor = if stretching < 32 { pow2(stretching) } else { u32::MAX as nat };
        let product = base * factor;
        if product > MAX_NANOS || product > max {
            max
        } else {
            product
        }
    }
}

/// Per-target interval that grows while a target keeps giving the same non-answer.
#[derive(Debug, Clone, Copy, PartialEq, Eq, Structural)]
pub struct Backoff {
    base: Duration,
    max: Duration,
    consecutive_failures: u32,
}

impl Backoff {
    #[verifier::type_invariant]
    spec fn ordered(self) -> bool {
        0 < self.base@ <= self.max@
    }

    /// The interval the target is probed at before any stretching.
    pub closed spec fn spec_base(self) -> nat {
        self.base@
    }

    /// The ceiling no interval exceeds.
    pub closed spec fn spec_max(self) -> nat {
        self.max@
    }

    /// How many probes in a row have failed.
    pub closed spec fn spec_failures(self) -> nat {
        self.consecutive_failures as nat
    }

    /// The interval to use for the next probe.
    pub open spec fn spec_interval(self) -> nat {
        stretched_interval(self.spec_base(), self.spec_max(), self.spec_failures())
    }

    /// Creates a backoff that starts at `base` and never exceeds `max`.
    ///
    /// A `max` below `base` is raised to `base`: honouring such a ceiling would silently
    /// probe faster than asked. A zero `base` is refused, since it would make a target
    /// permanently due.
    pub fn new(base: Duration, max: Duration) -> (r: Result<Backoff, Error>)
        ensures
            base@ == 0 ==> r == Err::<Backoff, Error>(Error::ZeroInterval),
            base@ > 0 ==> (r matches Ok(b) && b.spec_base() == base@ && b.spec_max() == (
            if max@ >= base@ {
                max@
            } else {
                base@
            }) && b.spec_failures() == 0),
    {
        if base.is_zero() {
            return Err(Error::ZeroInterval);
        }
        Ok(Backoff { base, max: max.max(base), consecutive_failures: 0 })
    }

    /// The interval to use for the next probe.
    pub fn interval(&self) -> (d: Duration)
        ensures
            d@ == self.spec_interval(),
            self.spec_base() <= d@ <= self.spec_max(),
    {
        proof {
            use_type_invariant(self);
        }
        let stretching = if self.consecutive_failures > FAILURES_BEFORE_STRETCHING {
            self.consecutive_failures - FAILURES_BEFORE_STRETCHING
        } else {
            0
        };
        if stretching == 0 {
            return self.base;
        }
        let factor: u32 = if stretching >= 32 {
            u32::MAX
        } else {
            proof {
                lemma_u32_pow2_no_overflow(stretching as nat);
                lemma_u32_shl_is_mul(1, stretching);
            }
            1u32 << stretching
        };
        proof {
            vstd::arithmetic::power2::lemma_pow2_pos(stretching as nat);
            assert(factor >= 1);
            assert(self.base@ * factor >= self.base@) by (nonlinear_arith)
                requires
                    factor >= 1,
            ;
        }
        match self.base.checked_mul(factor) {
            Some(product) => product.min(self.max),
            None => self.max,
        }
    }

    /// The interval this target is probed at before any stretching.
    pub fn base(&self) -> (d: Duration)
        ensures
            d@ == self.spec_base(),
    {
        self.base
    }

    /// Changes the base interval, keeping the failure history.
    ///
    /// How often we want to look is a different question from how the endpoint has been
    /// behaving, so the failure count survives. A zero base is refused and changes nothing;
    /// a ceiling below the new base is raised to it.
    pub fn rebase(&mut self, base: Duration) -> (r: Result<(), Error>)
        ensures
            base@ == 0 ==> r == Err::<(), Error>(Error::ZeroInterval) && *final(self) == *old(
                self,
            ),
            base@ > 0 ==> {
                &&& r is Ok
                &&& final(self).spec_base() == base@
                &&& final(self).spec_max() == if old(self).spec_max() >= base@ {
                    old(self).spec_max()
                } else {
                    base@
                }
                &&& final(self).spec_failures() == old(self).spec_failures()
            },
    {
        if base.is_zero() {
            return Err(Error::ZeroInterval);
        }
        let max = self.max.max(base);
        *self = Backoff { base, max, consecutive_failures: self.consecutive_failures };
        Ok(())
    }

    /// How many probes in a row have failed to say anything new.
    pub fn consecutive_failures(&self) -> (n: u32)
        ensures
            n == self.spec_failures(),
    {
        self.consecutive_failures
    }

    /// Whether the interval has been stretched beyond its base.
    pub fn is_stretched(&self) -> (b: bool)
        ensures
            b == (self.spec_interval() > self.spec_base()),
    {
        let interval = self.interval();
        self.base.lt(&interval)
    }

    /// Folds one probe result in.
    ///
    /// A success is the only outcome that restores full rate; silence, a standing refusal
    /// and a filtered probe kind each count as one more failure, saturating.
    pub fn record(&mut self, outcome: ProbeOutcome)
        ensures
            final(self).spec_base() == old(self).spec_base(),
            final(self).spec_max() == old(self).spec_max(),
            final(self).spec_failures() == match outcome {
                ProbeOutcome::Success(_) => 0,
                _ => if old(self).spec_failures() == u32::MAX {
                    u32::MAX as nat
                } else {
                    old(self).spec_failures() + 1
                },
            },
    {
        proof {
            use_type_invariant(&*self);
        }
        let failures = match outcome {
            ProbeOutcome::Success(_) => 0,
            _ => if self.consecutive_failures == u32::MAX {
                u32::MAX
            } else {
                self.consecutive_failures + 1
            },
        };
        *self = Backoff { base: self.base, max: self.max, consecutive_failures: failures };
    }

    /// Returns to full rate, keeping base and ceiling.
    pub fn reset(&mut self)
        ensures
            final(self).spec_base() == old(self).spec_base(),
            final(self).spec_max() == old(self).spec_max(),
            final(self).spec_failures() == 0,
    {
        proof {
            use_type_invariant(&*self);
        }
        *self = Backoff { base: self.base, max: self.max, consecutive_failures: 0 };
    }
}

} // verus!
