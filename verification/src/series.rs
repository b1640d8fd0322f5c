//! Putting several targets' samples on one time axis.
//!
//! Three rules, all of which exist because the obvious shortcut lies:
//!
//! * **A slot with no reply stays empty.** It is a gap in the line, not a zero and not an
//!   interpolation between its neighbours.
//! * **A slot shows its slowest reply, and nothing is averaged**, so the spike the user
//!   opened the chart to find is never smoothed away.
//! * **The grid is anchored where monitoring began, and it steps rather than slides.** Slot
//!   boundaries are whole steps from `start`, so the axis moves once every step. Until the
//!   window has filled the drawing grows rightwards from the left edge; only then does it
//!   scroll.

use crate::error::Error;
use crate::history::SampleHistory;
use crate::sample::{ProbeOutcome, ProbeSample, Rtt};
use crate::time::{Duration, Instant};
use vstd::prelude::*;

verus! {

/// Which slot of the session the moment `at` belongs to: whole steps since `start`,
/// saturating at `u64::MAX`, and slot zero for anything before `start`.
pub open spec fn slot_at(step: nat, start: nat, at: nat) -> nat {
    let elapsed: nat = if at < start {
        0
    } else {
        (at - start) as nat
    };
    if step == 0 || elapsed / step > u64::MAX {
        u64::MAX as nat
    } else {
        elapsed / step
    }
}

/// The slowest reply among `samples` that lands in slot `target`, where a sample lands in
/// the slot of its moment, or in `newest` if it is stamped later than that.
pub open spec fn slowest_in(
    samples: Seq<ProbeSample>,
    step: nat,
    start: nat,
    newest: nat,
    target: nat,
) -> Option<Rtt>
    decreases samples.len(),
{
    if samples.len() == 0 {
        None
    } else {
        let earlier = slowest_in(samples.drop_last(), step, start, newest, target);
        let last = samples.last();
        let slot = if slot_at(step, start, last.at@) > newest {
            newest
        } else {
            slot_at(step, start, last.at@)
        };
        match last.outcome {
            ProbeOutcome::Success(rtt) => if slot == target {
                match earlier {
                    Some(held) => if held.0 >= rtt.0 {
                        Some(held)
                    } else {
                        Some(rtt)
                    },
                    None => Some(rtt),
                }
            } else {
                earlier
            },
            _ => earlier,
        }
    }
}

/// A fixed ladder of slots, newest last, to place samples on.
#[derive(Debug, Clone, Copy, PartialEq, Eq, Structural)]
pub struct Grid {
    step: Duration,
    points: usize,
}

impl Grid {
    /// The width of one slot.
    pub closed spec fn spec_step(self) -> nat {
        self.step@
    }

    /// How many slots the grid has.
    pub closed spec fn spec_points(self) -> nat {
        self.points as nat
    }

    /// The grid has slots, and they have a width.
    pub closed spec fn wf(self) -> bool {
        self.step@ > 0 && self.points > 0
    }

    /// The newest slot the window ending at `now` shows.
    pub open spec fn spec_newest_slot(self, start: Instant, now: Instant) -> nat {
        slot_at(self.spec_step(), start@, now@)
    }

    /// The oldest slot the window ending at `now` shows: zero until a whole window has
    /// elapsed, then one slot further every step.
    pub open spec fn spec_first_slot(self, start: Instant, now: Instant) -> nat {
        let newest = self.spec_newest_slot(start, now);
        let span = (self.spec_points() - 1) as nat;
        if newest < span {
            0
        } else {
            (newest - span) as nat
        }
    }

    /// Builds a grid of `points` slots, `step` apart.
    ///
    /// A zero step is refused — every sample would land in one slot — and so is a grid with
    /// no slots at all.
    pub fn new(step: Duration, points: usize) -> (r: Result<Grid, Error>)
        ensures
            step@ == 0 ==> r == Err::<Grid, Error>(Error::ZeroInterval),
            step@ > 0 && points == 0 ==> r == Err::<Grid, Error>(Error::ZeroCapacity),
            step@ > 0 && points > 0 ==> (r matches Ok(g) && g.wf() && g.spec_step() == step@
                && g.spec_points() == points),
    {
        if step.is_zero() {
            return Err(Error::ZeroInterval);
        }
        if points == 0 {
            return Err(Error::ZeroCapacity);
        }
        Ok(Grid { step, points })
    }

    /// How many slots the grid has.
    pub fn points(&self) -> (n: usize)
        ensures
            n == self.spec_points(),
    {
        self.points
    }

    /// The span the grid covers: one step fewer than it has slots, saturating.
    pub fn span(&self) -> (d: Duration)
        requires
            self.wf(),
        ensures
            d@ == {
                let gaps = if self.spec_points() - 1 > u32::MAX {
                    u32::MAX as nat
                } else {
                    (self.spec_points() - 1) as nat
                };
                if self.spec_step() * gaps > crate::time::MAX_NANOS {
                    crate::time::MAX_NANOS as nat
                } else {
                    self.spec_step() * gaps
                }
            },
    {
        let gaps = self.points - 1;
        let gaps: u32 = if gaps > u32::MAX as usize {
            u32::MAX
        } else {
            gaps as u32
        };
        self.step.saturating_mul(gaps)
    }

    /// Which slot of the whole session an instant belongs to, counted from `start`.
    pub fn slot_of(&self, start: Instant, at: Instant) -> (slot: u64)
        requires
            self.wf(),
        ensures
            slot == slot_at(self.spec_step(), start@, at@),
    {
        let elapsed = at.saturating_duration_since(start);
        let slot = elapsed.as_nanos() / self.step.as_nanos();
        if slot > u64::MAX as u128 {
            u64::MAX
        } else {
            slot as u64
        }
    }

    /// The newest slot the window ending at `now` may show.
    pub fn newest_slot(&self, start: Instant, now: Instant) -> (slot: u64)
        requires
            self.wf(),
        ensures
            slot == self.spec_newest_slot(start, now),
    {
        self.slot_of(start, now)
    }

    /// The oldest slot the window ending at `now` shows.
    pub fn first_slot(&self, start: Instant, now: Instant) -> (slot: u64)
        requires
            self.wf(),
        ensures
            slot == self.spec_first_slot(start, now),
    {
        let span = self.points - 1;
        let newest = self.newest_slot(start, now);
        let span: u64 = if span as u128 > u64::MAX as u128 {
            u64::MAX
        } else {
            span as u64
        };
        if newest < span {
            0
        } else {
            newest - span
        }
    }

    /// The session slot of each position on the axis of the window ending at `now`, oldest
    /// first.
    ///
    /// The whole ladder is returned from the first moment, which is what fixes the width of
    /// the axis: the line grows into it rather than being stretched across it. Multiplied
    /// by the step, these are each position's time since `start`.
    pub fn slot_indices(&self, start: Instant, now: Instant) -> (slots: Vec<u64>)
        requires
            self.wf(),
        ensures
            slots@.len() == self.spec_points(),
            forall|i: int|
                0 <= i < slots@.len() ==> #[trigger] slots@[i] == if self.spec_first_slot(
                    start,
                    now,
                ) + i > u64::MAX {
                    u64::MAX as int
                } else {
                    self.spec_first_slot(start, now) + i
                },
    {
        let first = self.first_slot(start, now);
        let mut slots: Vec<u64> = Vec::new();
        let mut i: usize = 0;
        while i < self.points
            invariant
                self.wf(),
                i <= self.points,
                first == self.spec_first_slot(start, now),
                slots@.len() == i,
                forall|k: int|
                    0 <= k < i ==> #[trigger] slots@[k] == if first + k > u64::MAX {
                        u64::MAX as int
                    } else {
                        first + k
                    },
            decreases self.points - i,
        {
            let slot = if first as u128 + i as u128 > u64::MAX as u128 {
                u64::MAX
            } else {
                first + i as u64
            };
            slots.push(slot);
            i = i + 1;
        }
        slots
    }

    /// Places a history's round-trip times on the grid, the slowest reply per slot.
    ///
    /// Samples outside the window are dropped, a slot in which nothing answered stays
    /// empty, and a sample stamped after `now` belongs to the present rather than off the
    /// end of the axis.
    pub fn place(&self, history: &SampleHistory, start: Instant, now: Instant) -> (values: Vec<
        Option<Rtt>,
    >)
        requires
            self.wf(),
            history.wf(),
        ensures
            values@.len() == self.spec_points(),
            forall|j: int|
                0 <= j < values@.len() ==> #[trigger] values@[j] == slowest_in(
                    history@,
                    self.spec_step(),
                    start@,
                    self.spec_newest_slot(start, now),
                    (self.spec_first_slot(start, now) + j) as nat,
                ),
    {
        let samples = history.samples();
        let first = self.first_slot(start, now);
        let newest = self.newest_slot(start, now);
        let ghost step = self.spec_step();
        let mut values: Vec<Option<Rtt>> = Vec::new();
        let mut j: usize = 0;
        while j < self.points
            invariant
                j <= self.points,
                values@.len() == j,
                forall|k: int| 0 <= k < j ==> #[trigger] values@[k] == None::<Rtt>,
            decreases self.points - j,
        {
            values.push(None);
            j = j + 1;
        }
        let mut i: usize = 0;
        while i < samples.len()
            invariant
                self.wf(),
                step == self.spec_step(),
                samples@ == history@,
                first == self.spec_first_slot(start, now),
                newest == self.spec_newest_slot(start, now),
                i <= samples@.len(),
                values@.len() == self.spec_points(),
                forall|k: int|
                    0 <= k < values@.len() ==> #[trigger] values@[k] == slowest_in(
                        samples@.take(i as int),
                        step,
                        start@,
                        newest as nat,
                        (first + k) as nat,
                    ),
            decreases samples@.len() - i,
        {
            let sample = samples[i];
            let ghost before = values@;
            proof {
                assert(samples@.take(i + 1).drop_last() =~= samples@.take(i as int));
                assert(samples@.take(i + 1).last() == sample);
            }
            let at = self.slot_of(start, sample.at);
            let slot = if at > newest {
                newest
            } else {
                at
            };
            if slot >= first && ((slot - first) as u128) < self.points as u128 {
                let index = (slot - first) as usize;
                match sample.outcome {
                    ProbeOutcome::Success(rtt) => {
                        let cell = match values[index] {
                            Some(held) => if held.0 >= rtt.0 {
                                Some(held)
                            } else {
                                Some(rtt)
                            },
                            None => Some(rtt),
                        };
                        values.set(index, cell);
                    },
                    _ => {},
                }
            }
            i = i + 1;
        }
        proof {
            assert(samples@.take(samples@.len() as int) =~= samples@);
        }
        values
    }
}

} // verus!
