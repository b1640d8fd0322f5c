//! Probe scheduling model.
//!
//! Decides which targets to probe when, and nothing else: it issues no probes, owns no
//! clock and performs no I/O. Callers pass the current moment in.
//!
//! Two rules define its behaviour:
//!
//! * **The global rate cap is never exceeded.** The budget is a token bucket with a small
//!   burst allowance, so many simultaneously due targets trickle out instead of firing at
//!   once.
//! * **Nothing is ever silently dropped.** When more targets are due than the budget allows,
//!   the most overdue go first and the rest stay due.

use crate::error::Error;
use crate::target::TargetId;
use crate::time::{Duration, Instant, MAX_NANOS};
use vstd::prelude::*;

verus! {

/// The burst allowance is one `BURST_DIVISOR`th of a second's worth of probes.
pub const BURST_DIVISOR: u32 = 8;

/// When a target should next be probed, and how often.
#[derive(Debug, Clone, Copy, PartialEq, Eq, Structural)]
pub struct Schedule {
    /// How often the target is probed.
    pub interval: Duration,
    /// When it is next due.
    pub next_due: Instant,
}

/// Whole probes earned between `last` and `now` (nanoseconds) at `per_sec` probes a second.
///
/// Time is counted in whole microseconds, and a clock that appears to move backwards
/// earns nothing.
pub open spec fn earned_tokens(per_sec: nat, last: nat, now: nat) -> nat {
    let elapsed_micros: nat = if now < last {
        0
    } else {
        ((now - last) / 1000) as nat
    };
    elapsed_micros * per_sec / 1_000_000
}

/// The earned count as it is held, saturating at `u32::MAX`.
pub open spec fn clamped_tokens(earned: nat) -> nat {
    if earned > u32::MAX {
        u32::MAX as nat
    } else {
        earned
    }
}

/// Tokens available after a refill: what was there plus what was earned, capped at the
/// burst allowance.
pub open spec fn refilled_available(available: nat, burst: nat, earned: nat) -> nat {
    if earned == 0 {
        available
    } else if available + clamped_tokens(earned) > burst {
        burst
    } else {
        available + clamped_tokens(earned)
    }
}

/// Where the bucket's clock stands after a refill.
///
/// It advances only by the time the earned whole probes cost, so fractional remainders
/// carry forward instead of being rounded away; if that would leave the clock's range it
/// jumps to `now`.
pub open spec fn refilled_clock(per_sec: nat, last: nat, now: nat, earned: nat) -> nat {
    if earned == 0 {
        last
    } else {
        let cost_micros = clamped_tokens(earned) * 1_000_000 / per_sec;
        let cost = if cost_micros > u64::MAX {
            u64::MAX as nat
        } else {
            cost_micros
        };
        if last + cost * 1000 > MAX_NANOS {
            now
        } else {
            last + cost * 1000
        }
    }
}

/// A token bucket over the global probe budget.
#[derive(Debug, Clone, Copy)]
struct RateLimiter {
    per_sec: u32,
    burst: u32,
    available: u32,
    last_refill: Instant,
}

impl RateLimiter {
    spec fn wf(self) -> bool {
        &&& self.per_sec > 0
        &&& self.burst >= 1
        &&& self.available <= self.burst
    }

    spec fn earned(self, now: Instant) -> nat {
        earned_tokens(self.per_sec as nat, self.last_refill@, now@)
    }

    fn new(per_sec: u32, now: Instant) -> (r: RateLimiter)
        requires
            per_sec > 0,
        ensures
            r.wf(),
            r.per_sec == per_sec,
            r.burst == if per_sec / BURST_DIVISOR >= 1 { per_sec / BURST_DIVISOR } else { 1 },
            r.available == r.burst,
            r.last_refill == now,
    {
        let eighth = per_sec / BURST_DIVISOR;
        let burst = if eighth >= 1 {
            eighth
        } else {
            1
        };
        RateLimiter { per_sec, burst, available: burst, last_refill: now }
    }

    fn refill(&mut self, now: Instant)
        requires
            old(self).wf(),
        ensures
            final(self).wf(),
            final(self).per_sec == old(self).per_sec,
            final(self).burst == old(self).burst,
            final(self).available == refilled_available(
                old(self).available as nat,
                old(self).burst as nat,
                old(self).earned(now),
            ),
            final(self).last_refill@ == refilled_clock(
                old(self).per_sec as nat,
                old(self).last_refill@,
                now@,
                old(self).earned(now),
            ),
    {
        let elapsed = now.saturating_duration_since(self.last_refill);
        let micros = elapsed.as_micros();
        proof {
            assert(micros <= MAX_NANOS / 1000);
            assert(micros * (self.per_sec as u128) <= (MAX_NANOS / 1000) * (u32::MAX as u128))
                by (nonlinear_arith)
                requires
                    micros <= MAX_NANOS / 1000,
                    self.per_sec <= u32::MAX,
            ;
        }
        let earned = micros * (self.per_sec as u128) / 1_000_000;
        if earned == 0 {
            return;
        }
        let earned: u32 = if earned > u32::MAX as u128 {
            u32::MAX
        } else {
            earned as u32
        };
        let topped = if self.available as u64 + earned as u64 > self.burst as u64 {
            self.burst
        } else {
            self.available + earned
        };
        proof {
            assert((earned as u128) * 1_000_000 <= (u32::MAX as u128) * 1_000_000);
        }
        let cost_micros = (earned as u128) * 1_000_000 / (self.per_sec as u128);
        let cost: u64 = if cost_micros > u64::MAX as u128 {
            u64::MAX
        } else {
            cost_micros as u64
        };
        let advanced = match self.last_refill.checked_add(Duration::from_micros(cost)) {
            Some(at) => at,
            None => now,
        };
        self.available = topped;
        self.last_refill = advanced;
    }

    fn take(&mut self, now: Instant, wanted: usize) -> (granted: usize)
        requires
            old(self).wf(),
        ensures
            final(self).wf(),
            final(self).per_sec == old(self).per_sec,
            final(self).burst == old(self).burst,
            granted == if wanted
                <= refilled_available(
                old(self).available as nat,
                old(self).burst as nat,
                old(self).earned(now),
            ) {
                wanted as nat
            } else {
                refilled_available(
                    old(self).available as nat,
                    old(self).burst as nat,
                    old(self).earned(now),
                )
            },
            final(self).available == refilled_available(
                old(self).available as nat,
                old(self).burst as nat,
                old(self).earned(now),
            ) - granted,
            final(self).last_refill@ == refilled_clock(
                old(self).per_sec as nat,
                old(self).last_refill@,
                now@,
                old(self).earned(now),
            ),
    {
        self.refill(now);
        let granted: usize = if (wanted as u64) <= (self.available as u64) {
            wanted
        } else {
            self.available as usize
        };
        self.available = self.available - granted as u32;
        granted
    }
}

/// One scheduled target.
#[derive(Debug, Clone, Copy)]
struct Slot {
    id: TargetId,
    schedule: Schedule,
}

/// Slots held in strictly increasing handle order, each with a non-zero interval.
spec fn slots_wf(s: Seq<Slot>) -> bool {
    &&& forall|i: int, j: int| 0 <= i < j < s.len() ==> s[i].id.raw() < s[j].id.raw()
    &&& forall|i: int| 0 <= i < s.len() ==> s[i].schedule.interval@ > 0
}

spec fn holds(s: Seq<Slot>, id: TargetId) -> bool {
    exists|i: int| 0 <= i < s.len() && s[i].id == id
}

spec fn index_of(s: Seq<Slot>, id: TargetId) -> int {
    choose|i: int| 0 <= i < s.len() && s[i].id == id
}

spec fn map_of(s: Seq<Slot>) -> Map<TargetId, Schedule> {
    Map::new(|id: TargetId| holds(s, id), |id: TargetId| s[index_of(s, id)].schedule)
}

proof fn lemma_index_of(s: Seq<Slot>, i: int)
    requires
        slots_wf(s),
        0 <= i < s.len(),
    ensures
        holds(s, s[i].id),
        index_of(s, s[i].id) == i,
        map_of(s).contains_key(s[i].id),
        map_of(s)[s[i].id] == s[i].schedule,
{
    let id = s[i].id;
    assert(holds(s, id));
    let j = index_of(s, id);
    assert(s[j].id == id);
    if j < i {
        assert(s[j].id.raw() < s[i].id.raw());
    } else if j > i {
        assert(s[i].id.raw() < s[j].id.raw());
    }
}

proof fn lemma_map_update(s: Seq<Slot>, i: int, schedule: Schedule)
    requires
        slots_wf(s),
        0 <= i < s.len(),
        schedule.interval@ > 0,
    ensures
        slots_wf(s.update(i, Slot { id: s[i].id, schedule })),
        map_of(s.update(i, Slot { id: s[i].id, schedule })) == map_of(s).insert(s[i].id, schedule),
{
    let t = s.update(i, Slot { id: s[i].id, schedule });
    assert(slots_wf(t));
    let m = map_of(s).insert(s[i].id, schedule);
    assert forall|id: TargetId| #[trigger] map_of(t).contains_key(id) == m.contains_key(id) by {
        if holds(t, id) {
            let k = choose|k: int| 0 <= k < t.len() && t[k].id == id;
            assert(s[k].id == id);
        }
        if holds(s, id) {
            let k = choose|k: int| 0 <= k < s.len() && s[k].id == id;
            assert(t[k].id == id);
        }
    }
    assert forall|id: TargetId| #[trigger] map_of(t).contains_key(id) implies map_of(t)[id]
        == m[id] by {
        let k = choose|k: int| 0 <= k < t.len() && t[k].id == id;
        lemma_index_of(t, k);
        lemma_index_of(s, k);
    }
    assert(map_of(t) =~= m);
}

proof fn lemma_map_insert(s: Seq<Slot>, p: int, slot: Slot)
    requires
        slots_wf(s),
        0 <= p <= s.len(),
        slot.schedule.interval@ > 0,
        forall|k: int| 0 <= k < p ==> s[k].id.raw() < slot.id.raw(),
        forall|k: int| p <= k < s.len() ==> slot.id.raw() < s[k].id.raw(),
    ensures
        slots_wf(s.insert(p, slot)),
        !map_of(s).contains_key(slot.id),
        map_of(s.insert(p, slot)) == map_of(s).insert(slot.id, slot.schedule),
{
    let t = s.insert(p, slot);
    assert(slots_wf(t));
    if holds(s, slot.id) {
        let k = choose|k: int| 0 <= k < s.len() && s[k].id == slot.id;
        assert(false);
    }
    let m = map_of(s).insert(slot.id, slot.schedule);
    assert forall|id: TargetId| #[trigger] map_of(t).contains_key(id) == m.contains_key(id) by {
        if holds(t, id) {
            let k = choose|k: int| 0 <= k < t.len() && t[k].id == id;
            if k < p {
                assert(s[k].id == id);
            } else if k > p {
                assert(s[k - 1].id == id);
            }
        }
        if holds(s, id) {
            let k = choose|k: int| 0 <= k < s.len() && s[k].id == id;
            if k < p {
                assert(t[k].id == id);
            } else {
                assert(t[k + 1].id == id);
            }
        }
        if id == slot.id {
            assert(t[p].id == id);
        }
    }
    assert forall|id: TargetId| #[trigger] map_of(t).contains_key(id) implies map_of(t)[id]
        == m[id] by {
        let k = choose|k: int| 0 <= k < t.len() && t[k].id == id;
        lemma_index_of(t, k);
        if k < p {
            lemma_index_of(s, k);
        } else if k > p {
            lemma_index_of(s, k - 1);
        }
    }
    assert(map_of(t) =~= m);
}

proof fn lemma_map_remove(s: Seq<Slot>, i: int)
    requires
        slots_wf(s),
        0 <= i < s.len(),
    ensures
        slots_wf(s.remove(i)),
        map_of(s.remove(i)) == map_of(s).remove(s[i].id),
{
    let t = s.remove(i);
    assert(slots_wf(t)) by {
        assert forall|a: int, b: int| 0 <= a < b < t.len() implies t[a].id.raw()
            < t[b].id.raw() by {
            let a2 = if a < i {
                a
            } else {
                a + 1
            };
            let b2 = if b < i {
                b
            } else {
                b + 1
            };
            assert(t[a] == s[a2]);
            assert(t[b] == s[b2]);
        }
    }
    let m = map_of(s).remove(s[i].id);
    assert forall|id: TargetId| #[trigger] map_of(t).contains_key(id) == m.contains_key(id) by {
        if holds(t, id) {
            let k = choose|k: int| 0 <= k < t.len() && t[k].id == id;
            let k2 = if k < i {
                k
            } else {
                k + 1
            };
            assert(s[k2].id == id);
            assert(s[k2].id.raw() != s[i].id.raw());
        }
        if holds(s, id) && id != s[i].id {
            let k = choose|k: int| 0 <= k < s.len() && s[k].id == id;
            if k < i {
                assert(t[k].id == id);
            } else {
                assert(k != i);
                assert(t[k - 1].id == id);
            }
        }
    }
    assert forall|id: TargetId| #[trigger] map_of(t).contains_key(id) implies map_of(t)[id]
        == m[id] by {
        let k = choose|k: int| 0 <= k < t.len() && t[k].id == id;
        lemma_index_of(t, k);
        if k < i {
            lemma_index_of(s, k);
        } else {
            lemma_index_of(s, k + 1);
        }
    }
    assert(map_of(t) =~= m);
}

/// When a target probed at `now` is next due: one interval later, or `now` itself where
/// that would leave the clock's range.
pub open spec fn advanced(now: nat, interval: nat) -> nat {
    if now + interval > MAX_NANOS {
        now
    } else {
        now + interval
    }
}

proof fn lemma_same_handles(s: Seq<Slot>, t: Seq<Slot>)
    requires
        slots_wf(s),
        slots_wf(t),
        s.len() == t.len(),
        forall|j: int| 0 <= j < s.len() ==> #[trigger] t[j].id == s[j].id,
    ensures
        map_of(t).dom() == map_of(s).dom(),
{
    assert forall|id: TargetId| #[trigger] map_of(t).dom().contains(id) == map_of(s).dom().contains(
        id,
    ) by {
        if holds(s, id) {
            let k = choose|k: int| 0 <= k < s.len() && s[k].id == id;
            assert(t[k].id == id);
        }
        if holds(t, id) {
            let k = choose|k: int| 0 <= k < t.len() && t[k].id == id;
            assert(s[k].id == id);
        }
    }
    assert(map_of(t).dom() =~= map_of(s).dom());
}

proof fn lemma_push_contains<A>(s: Seq<A>, x: A, y: A)
    ensures
        s.push(x).contains(y) == (s.contains(y) || x == y),
{
    if s.push(x).contains(y) {
        let k = choose|k: int| 0 <= k < s.push(x).len() && s.push(x)[k] == y;
        if k < s.len() {
            assert(s[k] == y);
        }
    }
    if s.contains(y) {
        let k = choose|k: int| 0 <= k < s.len() && s[k] == y;
        assert(s.push(x)[k] == y);
    }
    if x == y {
        assert(s.push(x)[s.len() as int] == y);
    }
}

/// `a` is due earlier than `b`, handles breaking ties.
pub open spec fn earlier(a: (TargetId, Schedule), b: (TargetId, Schedule)) -> bool {
    a.1.next_due@ < b.1.next_due@ || (a.1.next_due@ == b.1.next_due@ && a.0.raw() < b.0.raw())
}

/// Tracks when each registered target is next due, within a global rate cap.
#[derive(Debug, Clone)]
pub struct ProbeScheduler {
    entries: Vec<Slot>,
    rate: RateLimiter,
}

impl ProbeScheduler {
    /// The scheduled targets and when each is next due.
    pub closed spec fn view(self) -> Map<TargetId, Schedule> {
        map_of(self.entries@)
    }

    /// The scheduler's bookkeeping is consistent.
    pub closed spec fn wf(self) -> bool {
        &&& slots_wf(self.entries@)
        &&& self.rate.wf()
    }

    /// The global cap, in probes per second.
    pub closed spec fn spec_rate(self) -> nat {
        self.rate.per_sec as nat
    }

    /// The most probes that may go out at once.
    pub closed spec fn spec_burst(self) -> nat {
        self.rate.burst as nat
    }

    /// Probes the budget holds right now, before any refill.
    pub closed spec fn spec_available(self) -> nat {
        self.rate.available as nat
    }

    /// Where the budget's clock stands.
    pub closed spec fn spec_refilled_at(self) -> nat {
        self.rate.last_refill@
    }

    /// Probes the budget would hold at `now`, after a refill.
    pub open spec fn budget_at(self, now: nat) -> nat {
        refilled_available(
            self.spec_available(),
            self.spec_burst(),
            earned_tokens(self.spec_rate(), self.spec_refilled_at(), now),
        )
    }

    /// Creates a scheduler limited to `probes_per_sec` across every target it manages.
    ///
    /// A cap of zero is refused: it would stall every target forever. The burst allowance
    /// is an eighth of a second's worth of probes, at least one, and starts full.
    pub fn new(probes_per_sec: u32, now: Instant) -> (r: Result<ProbeScheduler, Error>)
        ensures
            probes_per_sec == 0 ==> r == Err::<ProbeScheduler, Error>(Error::ZeroProbeRate),
            probes_per_sec > 0 ==> (r matches Ok(s) && {
                &&& s.wf()
                &&& s@ == Map::<TargetId, Schedule>::empty()
                &&& s.spec_rate() == probes_per_sec
                &&& s.spec_burst() == if probes_per_sec / BURST_DIVISOR >= 1 {
                    probes_per_sec / BURST_DIVISOR
                } else {
                    1
                }
                &&& s.spec_available() == s.spec_burst()
                &&& s.spec_refilled_at() == now@
            }),
    {
        if probes_per_sec == 0 {
            return Err(Error::ZeroProbeRate);
        }
        let s = ProbeScheduler { entries: Vec::new(), rate: RateLimiter::new(probes_per_sec, now) };
        assert(s@ =~= Map::<TargetId, Schedule>::empty());
        Ok(s)
    }

    /// Where `id` sits, or would sit, in handle order.
    fn position(&self, id: TargetId) -> (p: usize)
        requires
            slots_wf(self.entries@),
        ensures
            p <= self.entries@.len(),
            forall|k: int| 0 <= k < p ==> self.entries@[k].id.raw() < id.raw(),
            forall|k: int| p <= k < self.entries@.len() ==> id.raw() <= self.entries@[k].id.raw(),
    {
        let mut p: usize = 0;
        while p < self.entries.len() && self.entries[p].id.get() < id.get()
            invariant
                slots_wf(self.entries@),
                p <= self.entries@.len(),
                forall|k: int| 0 <= k < p ==> self.entries@[k].id.raw() < id.raw(),
            decreases self.entries@.len() - p,
        {
            p = p + 1;
        }
        proof {
            if p < self.entries@.len() {
                assert forall|k: int| p <= k < self.entries@.len() implies id.raw()
                    <= self.entries@[k].id.raw() by {
                    if k > p {
                        assert(self.entries@[p as int].id.raw() < self.entries@[k].id.raw());
                    }
                }
            }
        }
        p
    }

    /// Starts probing `id` every `interval`, or changes the interval of one already scheduled.
    ///
    /// A newly scheduled target is due at once. Changing an existing target's interval
    /// leaves its pending deadline alone. A zero interval is refused and changes nothing.
    pub fn schedule(&mut self, id: TargetId, interval: Duration, now: Instant) -> (r: Result<
        (),
        Error,
    >)
        requires
            old(self).wf(),
        ensures
            final(self).wf(),
            final(self).spec_rate() == old(self).spec_rate(),
            final(self).spec_burst() == old(self).spec_burst(),
            final(self).spec_available() == old(self).spec_available(),
            final(self).spec_refilled_at() == old(self).spec_refilled_at(),
            interval@ == 0 ==> r == Err::<(), Error>(Error::ZeroInterval) && final(self)@ == old(
                self,
            )@,
            interval@ > 0 ==> r is Ok && final(self)@ == old(self)@.insert(
                id,
                Schedule {
                    interval,
                    next_due: if old(self)@.contains_key(id) {
                        old(self)@[id].next_due
                    } else {
                        now
                    },
                },
            ),
            interval@ > 0 ==> final(self)@.len() == old(self)@.len() + if old(self)@.contains_key(
                id,
            ) {
                0int
            } else {
                1int
            },
    {
        if interval.is_zero() {
            return Err(Error::ZeroInterval);
        }
        proof {
            old(self).lemma_len();
        }
        let p = self.position(id);
        if p < self.entries.len() && self.entries[p].id.get() == id.get() {
            let next_due = self.entries[p].schedule.next_due;
            let ghost before = self.entries@;
            proof {
                TargetId::lemma_raw_injective(before[p as int].id, id);
                lemma_index_of(before, p as int);
                lemma_map_update(before, p as int, Schedule { interval, next_due });
            }
            self.entries.set(p, Slot { id, schedule: Schedule { interval, next_due } });
        } else {
            let ghost before = self.entries@;
            proof {
                if p < before.len() {
                    assert(id.raw() < before[p as int].id.raw());
                }
                lemma_map_insert(before, p as int, Slot { id, schedule: Schedule { interval, next_due: now } });
            }
            self.entries.insert(p, Slot { id, schedule: Schedule { interval, next_due: now } });
        }
        proof {
            (*self).lemma_len();
        }
        Ok(())
    }

    /// Schedules `id` with its first probe a full `interval` from `now`, replacing any
    /// existing deadline.
    ///
    /// Used to put a target back once its probe has answered, so the interval runs from the
    /// answer rather than the request. A zero interval is refused and changes nothing. Past
    /// the clock's range the deadline is `now`.
    pub fn schedule_after(&mut self, id: TargetId, interval: Duration, now: Instant) -> (r: Result<
        (),
        Error,
    >)
        requires
            old(self).wf(),
        ensures
            final(self).wf(),
            final(self).spec_rate() == old(self).spec_rate(),
            final(self).spec_burst() == old(self).spec_burst(),
            final(self).spec_available() == old(self).spec_available(),
            final(self).spec_refilled_at() == old(self).spec_refilled_at(),
            interval@ == 0 ==> r == Err::<(), Error>(Error::ZeroInterval) && final(self)@ == old(
                self,
            )@,
            interval@ > 0 ==> r is Ok && final(self)@.dom() == old(self)@.dom().insert(id)
                && (forall|k: TargetId| #[trigger]
                old(self)@.contains_key(k) && k != id ==> final(self)@[k] == old(self)@[k])
                && final(self)@[id].interval == interval && final(self)@[id].next_due@ == if now@
                + interval@ > MAX_NANOS {
                now@
            } else {
                now@ + interval@
            },
            interval@ > 0 ==> final(self)@.len() == old(self)@.len() + if old(self)@.contains_key(
                id,
            ) {
                0int
            } else {
                1int
            },
    {
        if interval.is_zero() {
            return Err(Error::ZeroInterval);
        }
        proof {
            old(self).lemma_len();
        }
        let next_due = match now.checked_add(interval) {
            Some(at) => at,
            None => now,
        };
        let schedule = Schedule { interval, next_due };
        let p = self.position(id);
        let ghost before = self.entries@;
        if p < self.entries.len() && self.entries[p].id.get() == id.get() {
            proof {
                TargetId::lemma_raw_injective(before[p as int].id, id);
                lemma_map_update(before, p as int, schedule);
            }
            self.entries.set(p, Slot { id, schedule });
        } else {
            proof {
                if p < before.len() {
                    assert(id.raw() < before[p as int].id.raw());
                }
                lemma_map_insert(before, p as int, Slot { id, schedule });
            }
            self.entries.insert(p, Slot { id, schedule });
        }
        proof {
            assert(self@ == map_of(before).insert(id, schedule));
            assert(self@.dom() =~= map_of(before).dom().insert(id));
            (*self).lemma_len();
        }
        Ok(())
    }

    /// Stops probing `id`. Returns `true` if it was scheduled.
    pub fn unschedule(&mut self, id: TargetId) -> (was: bool)
        requires
            old(self).wf(),
        ensures
            final(self).wf(),
            final(self).spec_rate() == old(self).spec_rate(),
            final(self).spec_burst() == old(self).spec_burst(),
            final(self).spec_available() == old(self).spec_available(),
            final(self).spec_refilled_at() == old(self).spec_refilled_at(),
            was == old(self)@.contains_key(id),
            final(self)@ == old(self)@.remove(id),
            final(self)@.len() == old(self)@.len() - if was {
                1int
            } else {
                0int
            },
    {
        proof {
            old(self).lemma_len();
        }
        let p = self.position(id);
        let ghost before = self.entries@;
        if p < self.entries.len() && self.entries[p].id.get() == id.get() {
            proof {
                TargetId::lemma_raw_injective(before[p as int].id, id);
                lemma_index_of(before, p as int);
                lemma_map_remove(before, p as int);
            }
            self.entries.remove(p);
            proof {
                (*self).lemma_len();
            }
            true
        } else {
            proof {
                if holds(before, id) {
                    let k = choose|k: int| 0 <= k < before.len() && before[k].id == id;
                    if k >= p {
                        assert(before[k].id.raw() >= id.raw());
                        if k > p {
                            assert(before[p as int].id.raw() < before[k].id.raw());
                        }
                    }
                }
                assert(map_of(before).remove(id) =~= map_of(before));
            }
            false
        }
    }

    /// Fills `out` with the targets to probe right now, most overdue first.
    ///
    /// `out` is cleared first and reused. Every target listed was due; they come in order of
    /// their deadlines, handles breaking ties; and the list is a prefix of all the due
    /// targets in that order, as long as the budget allows. Targets left out stay due and
    /// keep their deadlines; listed targets are next due one interval from `now`, never from
    /// the missed deadline. When nothing is due the budget is left untouched.
    pub fn due(&mut self, now: Instant, out: &mut Vec<TargetId>)
        requires
            old(self).wf(),
        ensures
            final(self).wf(),
            final(self).spec_rate() == old(self).spec_rate(),
            final(self).spec_burst() == old(self).spec_burst(),
            // Only due targets, each once, most overdue first.
            forall|i: int|
                0 <= i < final(out)@.len() ==> #[trigger] old(self)@.contains_key(final(out)@[i])
                    && old(self)@[final(out)@[i]].next_due@ <= now@,
            forall|i: int, j: int|
                0 <= i < j < final(out)@.len() ==> earlier(
                    (final(out)@[i], old(self)@[final(out)@[i]]),
                    (final(out)@[j], old(self)@[final(out)@[j]]),
                ),
            // A due target left out comes after every one that was listed.
            forall|id: TargetId|
                #![trigger old(self)@[id]]
                old(self)@.contains_key(id) && old(self)@[id].next_due@ <= now@
                    && !final(out)@.contains(id) ==> forall|i: int|
                    0 <= i < final(out)@.len() ==> earlier(
                        (final(out)@[i], old(self)@[final(out)@[i]]),
                        (id, old(self)@[id]),
                    ),
            // As many as the budget allows, and all of them when it allows more.
            final(out)@.len() <= old(self).budget_at(now@),
            final(out)@.len() < old(self).budget_at(now@) ==> forall|id: TargetId|
                old(self)@.contains_key(id) && #[trigger] old(self)@[id].next_due@ <= now@
                    ==> final(out)@.contains(id),
            // The budget pays for exactly what was listed.
            final(out)@.len() > 0 ==> final(self).spec_available() == old(self).budget_at(now@)
                - final(out)@.len() && final(self).spec_refilled_at() == refilled_clock(
                old(self).spec_rate(),
                old(self).spec_refilled_at(),
                now@,
                earned_tokens(old(self).spec_rate(), old(self).spec_refilled_at(), now@),
            ),
            final(out)@.len() == 0 ==> (forall|id: TargetId|
                #[trigger] old(self)@.contains_key(id) ==> old(self)@[id].next_due@ > now@)
                || old(self).budget_at(now@) == 0,
            // Deadlines move forward from now for what was listed, and nowhere else.
            final(self)@.dom() == old(self)@.dom(),
            forall|id: TargetId| #[trigger]
                old(self)@.contains_key(id) ==> if final(out)@.contains(id) {
                    &&& final(self)@[id].interval == old(self)@[id].interval
                    &&& final(self)@[id].next_due@ == advanced(
                        now@,
                        old(self)@[id].interval@,
                    )
                } else {
                    final(self)@[id] == old(self)@[id]
                },
    {
        out.clear();
        let ghost start = self.entries@;
        let ghost m = map_of(start);
        // The due slots, in handle order.
        let mut collected: Vec<Slot> = Vec::new();
        let mut i: usize = 0;
        while i < self.entries.len()
            invariant
                self.entries@ == start,
                slots_wf(start),
                i <= start.len(),
                forall|a: int, b: int|
                    0 <= a < b < collected@.len() ==> collected@[a].id.raw()
                        < collected@[b].id.raw(),
                forall|a: int|
                    0 <= a < collected@.len() ==> exists|k: int|
                        0 <= k < i && #[trigger] start[k] == #[trigger] collected@[a],
                forall|a: int|
                    0 <= a < collected@.len() ==> #[trigger] collected@[a].schedule.next_due@
                        <= now@,
                forall|k: int|
                    0 <= k < i && #[trigger] start[k].schedule.next_due@ <= now@
                        ==> collected@.contains(start[k]),
            decreases start.len() - i,
        {
            let slot = self.entries[i];
            if slot.schedule.next_due.le(&now) {
                proof {
                    assert forall|a: int| 0 <= a < collected@.len() implies collected@[a].id.raw()
                        < slot.id.raw() by {
                        let k = choose|k: int| 0 <= k < i && #[trigger] start[k] == collected@[a];
                    }
                }
                let ghost prev = collected@;
                collected.push(slot);
                proof {
                    assert forall|a: int| 0 <= a < collected@.len() implies exists|k: int|
                        0 <= k < i + 1 && #[trigger] start[k] == #[trigger] collected@[a] by {
                        if a == collected@.len() - 1 {
                            assert(start[i as int] == collected@[a]);
                        } else {
                            let k = choose|k: int|
                                0 <= k < i && #[trigger] start[k] == collected@[a];
                        }
                    }
                    assert forall|k: int|
                        0 <= k < i + 1 && #[trigger] start[k].schedule.next_due@ <= now@
                            implies collected@.contains(start[k]) by {
                        if k == i {
                            assert(collected@[collected@.len() - 1] == start[k]);
                        } else {
                            assert(prev.contains(start[k]));
                            let x = choose|x: int| 0 <= x < prev.len() && prev[x] == start[k];
                            assert(collected@[x] == start[k]);
                        }
                    }
                }
            }
            i = i + 1;
        }
        if collected.len() == 0 {
            proof {
                assert forall|id: TargetId| #[trigger] m.contains_key(id) implies m[id].next_due@
                    > now@ by {
                    let k = choose|k: int| 0 <= k < start.len() && start[k].id == id;
                    lemma_index_of(start, k);
                    if start[k].schedule.next_due@ <= now@ {
                        assert(collected@.contains(start[k]));
                    }
                }
                assert(self@ =~= m);
            }
            return;
        }
        // Most overdue first: insertion into a list kept in deadline order.
        let mut sorted: Vec<Slot> = Vec::new();
        let mut c: usize = 0;
        while c < collected.len()
            invariant
                c <= collected@.len(),
                forall|a: int, b: int|
                    0 <= a < b < collected@.len() ==> collected@[a].id.raw()
                        < collected@[b].id.raw(),
                sorted@.len() == c,
                forall|a: int, b: int|
                    0 <= a < b < sorted@.len() ==> earlier(
                        (sorted@[a].id, sorted@[a].schedule),
                        (sorted@[b].id, sorted@[b].schedule),
                    ),
                forall|x: Slot| sorted@.contains(x) <==> collected@.subrange(0, c as int).contains(x),
            decreases collected@.len() - c,
        {
            let ghost upto = collected@.subrange(0, c as int);
            let ghost upto_next = collected@.subrange(0, c as int + 1);
            let x = collected[c];
            let mut p: usize = 0;
            while p < sorted.len() && (sorted[p].schedule.next_due.lt(&x.schedule.next_due) || (
            sorted[p].schedule.next_due.le(&x.schedule.next_due) && sorted[p].id.get()
                < x.id.get()))
                invariant
                    p <= sorted@.len(),
                    forall|k: int|
                        0 <= k < p ==> earlier(
                            (sorted@[k].id, sorted@[k].schedule),
                            (x.id, x.schedule),
                        ),
                decreases sorted@.len() - p,
            {
                p = p + 1;
            }
            proof {
                // Every held slot has a handle different from the one being placed.
                assert forall|k: int| 0 <= k < sorted@.len() implies sorted@[k].id.raw()
                    != x.id.raw() by {
                    assert(sorted@.contains(sorted@[k]));
                    assert(upto.contains(sorted@[k]));
                    let y = choose|y: int|
                        0 <= y < c && upto[y] == sorted@[k];
                    assert(collected@[y] == sorted@[k]);
                    assert(collected@[y].id.raw() < collected@[c as int].id.raw());
                }
                assert forall|k: int| p <= k < sorted@.len() implies earlier(
                    (x.id, x.schedule),
                    (sorted@[k].id, sorted@[k].schedule),
                ) by {
                    if k > p {
                        assert(earlier(
                            (sorted@[p as int].id, sorted@[p as int].schedule),
                            (sorted@[k].id, sorted@[k].schedule),
                        ));
                    }
                }
            }
            let ghost before = sorted@;
            sorted.insert(p, x);
            proof {
                assert forall|a: int, b: int| 0 <= a < b < sorted@.len() implies earlier(
                    (sorted@[a].id, sorted@[a].schedule),
                    (sorted@[b].id, sorted@[b].schedule),
                ) by {
                    if b < p {
                    } else if b == p {
                    } else if a < p {
                        assert(sorted@[b] == before[b - 1]);
                    } else if a == p {
                        assert(sorted@[b] == before[b - 1]);
                    } else {
                        assert(sorted@[a] == before[a - 1]);
                        assert(sorted@[b] == before[b - 1]);
                    }
                }
                assert forall|y: Slot| sorted@.contains(y) <==> upto_next.contains(y) by {
                    if sorted@.contains(y) {
                        let k = choose|k: int| 0 <= k < sorted@.len() && sorted@[k] == y;
                        if k == p {
                            assert(upto_next[c as int] == y);
                        } else {
                            let k2 = if k < p {
                                k
                            } else {
                                k - 1
                            };
                            assert(before[k2] == y);
                            assert(before.contains(y));
                            let z = choose|z: int|
                                0 <= z < c && upto[z] == y;
                            assert(upto_next[z] == y);
                        }
                    }
                    if upto_next.contains(y) {
                        let z = choose|z: int|
                            0 <= z < c + 1 && upto_next[z] == y;
                        if z == c {
                            assert(sorted@[p as int] == y);
                        } else {
                            assert(upto[z] == y);
                            assert(before.contains(y));
                            let k = choose|k: int| 0 <= k < before.len() && before[k] == y;
                            if k < p {
                                assert(sorted@[k] == y);
                            } else {
                                assert(sorted@[k + 1] == y);
                            }
                        }
                    }
                }
            }
            c = c + 1;
        }
        proof {
            assert(collected@.subrange(0, collected@.len() as int) =~= collected@);
        }
        let wanted = sorted.len();
        let granted = self.rate.take(now, wanted);
        let mut g: usize = 0;
        while g < granted
            invariant
                granted <= sorted@.len(),
                g <= granted,
                out@.len() == g,
                forall|k: int| 0 <= k < g ==> out@[k] == sorted@[k].id,
            decreases granted - g,
        {
            out.push(sorted[g].id);
            g = g + 1;
        }
        // Move the listed targets' deadlines forward from now.
        let ghost listed = out@;
        let ghost rate_after = self.rate;
        let mut k: usize = 0;
        while k < self.entries.len()
            invariant
                self.rate == rate_after,
                self.rate.wf(),
                out@ == listed,
                self.entries@.len() == start.len(),
                slots_wf(start),
                k <= start.len(),
                forall|j: int| 0 <= j < start.len() ==> #[trigger] self.entries@[j].id == start[j].id,
                forall|j: int|
                    k <= j < start.len() ==> #[trigger] self.entries@[j] == start[j],
                forall|j: int|
                    0 <= j < k ==> if #[trigger] listed.contains(start[j].id) {
                        &&& self.entries@[j].schedule.interval == start[j].schedule.interval
                        &&& self.entries@[j].schedule.next_due@ == advanced(
                            now@,
                            start[j].schedule.interval@,
                        )
                    } else {
                        self.entries@[j] == start[j]
                    },
            decreases start.len() - k,
        {
            let slot = self.entries[k];
            let mut listed_here = false;
            let mut q: usize = 0;
            while q < out.len()
                invariant
                    q <= out@.len(),
                    listed_here == out@.subrange(0, q as int).contains(slot.id),
                decreases out@.len() - q,
            {
                proof {
                    assert(out@.subrange(0, q + 1) =~= out@.subrange(0, q as int).push(out@[q as int]));
                    lemma_push_contains(out@.subrange(0, q as int), out@[q as int], slot.id);
                }
                if out[q].get() == slot.id.get() {
                    proof {
                        TargetId::lemma_raw_injective(out@[q as int], slot.id);
                    }
                    listed_here = true;
                } else {
                    proof {
                        TargetId::lemma_raw_injective(out@[q as int], slot.id);
                    }
                }
                q = q + 1;
            }
            proof {
                assert(out@.subrange(0, out@.len() as int) =~= out@);
            }
            if listed_here {
                let next_due = match now.checked_add(slot.schedule.interval) {
                    Some(at) => at,
                    None => now,
                };
                self.entries.set(
                    k,
                    Slot {
                        id: slot.id,
                        schedule: Schedule { interval: slot.schedule.interval, next_due },
                    },
                );
            }
            k = k + 1;
        }
        proof {
            let fin = self.entries@;
            assert(slots_wf(fin)) by {
                assert forall|j: int| 0 <= j < fin.len() implies fin[j].schedule.interval@ > 0 by {
                    assert(fin[j].id == start[j].id);
                    if listed.contains(start[j].id) {
                    } else {
                    }
                }
                assert forall|a: int, b: int| 0 <= a < b < fin.len() implies fin[a].id.raw()
                    < fin[b].id.raw() by {
                    assert(fin[a].id == start[a].id);
                    assert(fin[b].id == start[b].id);
                }
            }
            lemma_same_handles(start, fin);
            // The listed handles are the granted prefix of the deadline order.
            assert forall|x: int| 0 <= x < sorted@.len() implies #[trigger] m.contains_key(
                sorted@[x].id,
            ) && m[sorted@[x].id] == sorted@[x].schedule && sorted@[x].schedule.next_due@
                <= now@ by {
                assert(sorted@.contains(sorted@[x]));
                let a = choose|a: int| 0 <= a < collected@.len() && collected@[a] == sorted@[x];
                let kk = choose|kk: int| 0 <= kk < start.len() && #[trigger] start[kk] == collected@[a];
                lemma_index_of(start, kk);
            }
            assert forall|a: int, b: int| 0 <= a < sorted@.len() && 0 <= b < sorted@.len()
                && sorted@[a].id == sorted@[b].id implies a == b by {
                if a < b {
                    assert(earlier(
                        (sorted@[a].id, sorted@[a].schedule),
                        (sorted@[b].id, sorted@[b].schedule),
                    ));
                    assert(m.contains_key(sorted@[a].id));
                    assert(m.contains_key(sorted@[b].id));
                } else if b < a {
                    assert(earlier(
                        (sorted@[b].id, sorted@[b].schedule),
                        (sorted@[a].id, sorted@[a].schedule),
                    ));
                    assert(m.contains_key(sorted@[a].id));
                    assert(m.contains_key(sorted@[b].id));
                }
            }
            // Every due handle is somewhere in the deadline order.
            assert forall|id: TargetId| m.contains_key(id) && #[trigger] m[id].next_due@ <= now@
                implies exists|x: int| 0 <= x < sorted@.len() && sorted@[x].id == id by {
                let kk = choose|kk: int| 0 <= kk < start.len() && start[kk].id == id;
                lemma_index_of(start, kk);
                assert(collected@.contains(start[kk]));
                assert(collected@.subrange(0, collected@.len() as int).contains(start[kk]));
                assert(sorted@.contains(start[kk]));
            }
            assert forall|id: TargetId| #![trigger m[id]]
                m.contains_key(id) && m[id].next_due@ <= now@ && !listed.contains(id)
                implies forall|i: int| 0 <= i < listed.len() ==> earlier(
                    (listed[i], m[listed[i]]),
                    (id, m[id]),
                ) by {
                let x = choose|x: int| 0 <= x < sorted@.len() && sorted@[x].id == id;
                if x < listed.len() {
                    assert(listed[x] == id);
                }
                assert forall|i: int| 0 <= i < listed.len() implies earlier(
                    (listed[i], m[listed[i]]),
                    (id, m[id]),
                ) by {
                    assert(listed[i] == sorted@[i].id);
                    assert(earlier(
                        (sorted@[i].id, sorted@[i].schedule),
                        (sorted@[x].id, sorted@[x].schedule),
                    ));
                }
            }
            assert forall|i: int, j: int| 0 <= i < j < listed.len() implies earlier(
                (listed[i], m[listed[i]]),
                (listed[j], m[listed[j]]),
            ) by {
                assert(listed[i] == sorted@[i].id);
                assert(listed[j] == sorted@[j].id);
            }
            assert forall|i: int| 0 <= i < listed.len() implies #[trigger] m.contains_key(listed[i])
                && m[listed[i]].next_due@ <= now@ by {
                assert(listed[i] == sorted@[i].id);
            }
            if listed.len() < granted || listed.len() == sorted@.len() {
                assert forall|id: TargetId| m.contains_key(id) && #[trigger] m[id].next_due@
                    <= now@ implies listed.contains(id) by {
                    let x = choose|x: int| 0 <= x < sorted@.len() && sorted@[x].id == id;
                    assert(listed[x] == id);
                }
            }
            assert forall|id: TargetId| #[trigger] m.contains_key(id) implies if listed.contains(id) {
                &&& map_of(fin)[id].interval == m[id].interval
                &&& map_of(fin)[id].next_due@ == advanced(now@, m[id].interval@)
            } else {
                map_of(fin)[id] == m[id]
            } by {
                let kk = choose|kk: int| 0 <= kk < start.len() && start[kk].id == id;
                lemma_index_of(start, kk);
                lemma_index_of(fin, kk);
            }
        }
    }

    /// Whether a target is scheduled.
    pub fn contains(&self, id: TargetId) -> (b: bool)
        requires
            self.wf(),
        ensures
            b == self@.contains_key(id),
    {
        let p = self.position(id);
        let found = p < self.entries.len() && self.entries[p].id.get() == id.get();
        proof {
            if found {
                TargetId::lemma_raw_injective(self.entries@[p as int].id, id);
                lemma_index_of(self.entries@, p as int);
            } else if holds(self.entries@, id) {
                let k = choose|k: int| 0 <= k < self.entries@.len() && self.entries@[k].id == id;
                if k > p {
                    assert(self.entries@[p as int].id.raw() < self.entries@[k].id.raw());
                }
            }
        }
        found
    }

    /// How many targets are scheduled.
    pub fn len(&self) -> (n: usize)
        requires
            self.wf(),
        ensures
            n == self@.len(),
    {
        proof {
            self.lemma_len();
        }
        self.entries.len()
    }

    /// A well-formed scheduler holds finitely many targets, one per handle.
    pub proof fn lemma_finite(self)
        requires
            self.wf(),
        ensures
            self@.dom().finite(),
    {
        self.lemma_len();
    }

    proof fn lemma_len(self)
        requires
            self.wf(),
        ensures
            self@.len() == self.entries@.len(),
            self@.dom().finite(),
        decreases self.entries@.len(),
    {
        let s = self.entries@;
        let ids = Seq::new(s.len(), |i: int| s[i].id);
        assert(self@.dom() =~= ids.to_set()) by {
            assert forall|id: TargetId| #[trigger] self@.dom().contains(id) == ids.to_set().contains(
                id,
            ) by {
                if ids.to_set().contains(id) {
                    let k = choose|k: int| 0 <= k < ids.len() && ids[k] == id;
                    assert(s[k].id == id);
                }
                if holds(s, id) {
                    let k = choose|k: int| 0 <= k < s.len() && s[k].id == id;
                    assert(ids[k] == id);
                }
            }
        }
        assert(ids.no_duplicates()) by {
            assert forall|a: int, b: int| 0 <= a < ids.len() && 0 <= b < ids.len() && a != b implies ids[a]
                != ids[b] by {
                if a < b {
                    assert(s[a].id.raw() < s[b].id.raw());
                } else {
                    assert(s[b].id.raw() < s[a].id.raw());
                }
            }
        }
        ids.unique_seq_to_set();
    }

    /// Whether nothing is scheduled.
    pub fn is_empty(&self) -> (b: bool)
        requires
            self.wf(),
        ensures
            b == (self@.len() == 0),
    {
        self.len() == 0
    }

    /// The earliest deadline across all targets, so a driver knows how long it may sleep.
    pub fn next_deadline(&self) -> (r: Option<Instant>)
        requires
            self.wf(),
        ensures
            self@.len() == 0 ==> r is None,
            r matches Some(at) ==> {
                &&& exists|id: TargetId| #[trigger]
                    self@.contains_key(id) && self@[id].next_due == at
                &&& forall|id: TargetId| #[trigger]
                    self@.contains_key(id) ==> at@ <= self@[id].next_due@
            },
            self@.len() > 0 ==> r is Some,
    {
        proof {
            self.lemma_len();
        }
        if self.entries.len() == 0 {
            return None;
        }
        let mut best = self.entries[0].schedule.next_due;
        let mut best_at: usize = 0;
        let mut i: usize = 1;
        while i < self.entries.len()
            invariant
                self.wf(),
                1 <= i <= self.entries@.len(),
                best_at < i,
                best == self.entries@[best_at as int].schedule.next_due,
                forall|k: int| 0 <= k < i ==> best@ <= self.entries@[k].schedule.next_due@,
            decreases self.entries@.len() - i,
        {
            if self.entries[i].schedule.next_due.lt(&best) {
                best = self.entries[i].schedule.next_due;
                best_at = i;
            }
            i = i + 1;
        }
        proof {
            lemma_index_of(self.entries@, best_at as int);
            assert forall|id: TargetId| #[trigger]
                self@.contains_key(id) implies best@ <= self@[id].next_due@ by {
                let k = choose|k: int| 0 <= k < self.entries@.len() && self.entries@[k].id == id;
                lemma_index_of(self.entries@, k);
            }
        }
        Some(best)
    }
}

} // verus!
