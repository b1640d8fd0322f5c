//! Letting a verdict change on screen without letting the page move underneath the reader.
//!
//! What is shown changes immediately; what the ordering uses lags, and only adopts a new
//! state once that state has held continuously for a stated period. A flicker back and
//! forth therefore never moves a row, because the change never survives long enough to
//! settle. No clock is read: `now` is passed in.

use crate::health::Health;
use crate::time::{Duration, Instant};
use vstd::prelude::*;

verus! {

/// How long a health state must hold before the ordering adopts it: five seconds.
pub fn order_hold() -> (d: Duration)
    ensures
        d@ == 5_000_000_000,
{
    Duration::from_secs(5)
}

/// How long a state that began at `since` has held by `now`; no time if the clock appears
/// to have moved backwards.
pub open spec fn held_for(since: nat, now: nat) -> nat {
    if now < since {
        0
    } else {
        (now - since) as nat
    }
}

/// A health state, and the possibly older one the ordering is still using.
#[derive(Debug, Clone, Copy, PartialEq, Eq, Structural)]
pub struct Settling {
    shown: Health,
    settled: Health,
    /// When `shown` last became something other than what it was.
    since: Instant,
}

impl Settling {
    /// What the badge says.
    pub closed spec fn spec_shown(self) -> Health {
        self.shown
    }

    /// What the ordering uses.
    pub closed spec fn spec_settled(self) -> Health {
        self.settled
    }

    /// When the shown state last changed.
    pub closed spec fn spec_since(self) -> Instant {
        self.since
    }

    /// Starts from a first observation, with nothing yet to settle.
    pub fn new(health: Health, now: Instant) -> (s: Settling)
        ensures
            s.spec_shown() == health,
            s.spec_settled() == health,
            s.spec_since() == now,
    {
        Settling { shown: health, settled: health, since: now }
    }

    /// Folds in the latest verdict.
    ///
    /// The shown state becomes `health` at once. The settled state follows only when the
    /// shown state has been the same for `hold`, counted from when it changed; a clock that
    /// appears to move backwards counts as no time. A state that returns to what the
    /// ordering already uses needs no settling at all.
    pub fn observe(&mut self, health: Health, now: Instant, hold: Duration)
        ensures
            final(self).spec_shown() == health,
            final(self).spec_since() == if health != old(self).spec_shown() {
                now
            } else {
                old(self).spec_since()
            },
            final(self).spec_settled() == if health == old(self).spec_settled() {
                old(self).spec_settled()
            } else if held_for(final(self).spec_since()@, now@) >= hold@ {
                health
            } else {
                old(self).spec_settled()
            },
    {
        if health != self.shown {
            self.shown = health;
            self.since = now;
        }
        if self.shown == self.settled {
            return;
        }
        let held = now.saturating_duration_since(self.since);
        if hold.le(&held) {
            self.settled = self.shown;
        }
    }

    /// What the badge says. Always the latest measurement.
    pub fn shown(&self) -> (h: Health)
        ensures
            h == self.spec_shown(),
    {
        self.shown
    }

    /// What the ordering uses.
    pub fn settled(&self) -> (h: Health)
        ensures
            h == self.spec_settled(),
    {
        self.settled
    }
}

} // verus!
