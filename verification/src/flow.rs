//! Passive metrics from the operating system's own flow events.
//!
//! Every other measurement here describes a probe we sent. This one describes the traffic
//! the application itself exchanged, counted by the operating system and handed over as
//! events: the only signal that measures the user's actual game traffic.
//!
//! What these figures are not:
//!
//! - **Not a round-trip time.** Nothing here times a request against its answer.
//! - **Not purely the network's doing.** Arrival timing folds in the server's own send
//!   cadence: a server that skips a tick looks exactly like a network that delayed one.
//! - **Not loss.** A datagram that never arrives is invisible; the receive shortfall is the
//!   nearest honest thing, a fall in what comes back while what we send holds steady.
//!
//! Everything runs on `FlowInstant`, the stamp the operating system put on the event, and
//! never on the caller's clock: events arrive in buffered batches, and timing them on
//! delivery would measure the buffer flush rather than the traffic.

use crate::error::Error;
use crate::ring::RingBuffer;
use crate::stats::{jitter_step, nearest_rank};
use crate::time::{Duration, MAX_NANOS};
use vstd::prelude::*;
use vstd::relations::sorted_by;

verus! {

broadcast use vstd::seq_lib::group_to_multiset_ensures;

/// How many observations of one endpoint are retained by default.
///
/// A busy game endpoint produces about forty events a second, so this holds roughly
/// thirteen seconds, comfortably more than the default window.
pub const DEFAULT_CAPACITY: usize = 512;

/// A moment on the operating system's event clock.
///
/// Deliberately a type of its own, so that it cannot be mixed with the caller's clock by
/// accident. Only differences are meaningful.
#[derive(Debug, Clone, Copy, PartialEq, Eq, Structural, PartialOrd, Ord, Hash)]
pub struct FlowInstant(Duration);

impl FlowInstant {
    /// The moment, in nanoseconds after the clock's origin.
    pub closed spec fn view(self) -> nat {
        self.0@
    }

    /// A moment `since` after the clock's unspecified origin.
    pub fn from_origin(since: Duration) -> (i: FlowInstant)
        ensures
            i@ == since@,
    {
        FlowInstant(since)
    }

    /// How long after the origin this is.
    pub fn since_origin(self) -> (d: Duration)
        ensures
            d@ == self@,
    {
        self.0
    }

    /// How long after `earlier` this is, or zero if it is not later.
    ///
    /// An out-of-order event is an ordering artefact, not a negative measurement.
    pub fn saturating_duration_since(self, earlier: FlowInstant) -> (d: Duration)
        ensures
            d@ == if self@ < earlier@ {
                0
            } else {
                self@ - earlier@
            },
    {
        self.0.saturating_sub(earlier.0)
    }

    /// This moment `offset` later, or `None` beyond the clock's range.
    pub fn checked_add(self, offset: Duration) -> (i: Option<FlowInstant>)
        ensures
            i matches Some(i) ==> i@ == self@ + offset@,
            i is None <==> self@ + offset@ > MAX_NANOS,
    {
        match self.0.checked_add(offset) {
            Some(d) => Some(FlowInstant(d)),
            None => None,
        }
    }

    /// This moment `offset` earlier, or the origin.
    pub fn saturating_sub(self, offset: Duration) -> (i: FlowInstant)
        ensures
            i@ == if self@ < offset@ {
                0
            } else {
                self@ - offset@
            },
    {
        FlowInstant(self.0.saturating_sub(offset))
    }

    /// Whether this moment comes no later than `other`.
    pub fn le(&self, other: &FlowInstant) -> (b: bool)
        ensures
            b == (self@ <= other@),
    {
        self.0.le(&other.0)
    }

    /// Nanoseconds after the origin.
    fn nanos(&self) -> (n: u128)
        ensures
            n == self@,
    {
        self.0.as_nanos()
    }
}

/// Which way an observation went.
#[derive(Debug, Clone, Copy, PartialEq, Eq, Structural, Hash)]
pub enum FlowDirection {
    /// The application sent them.
    Sent,
    /// The application received them.
    Received,
}

/// One flow event, as the passive metrics see it.
#[derive(Debug, Clone, Copy, PartialEq, Eq, Structural)]
pub struct FlowObservation {
    /// When the operating system says it happened.
    pub at: FlowInstant,
    /// Which way it went.
    pub direction: FlowDirection,
    /// How many bytes it accounts for.
    pub bytes: u32,
}

impl FlowObservation {
    /// An observation of bytes sent.
    pub fn sent(at: FlowInstant, bytes: u32) -> (o: FlowObservation)
        ensures
            o == (FlowObservation { at, direction: FlowDirection::Sent, bytes }),
    {
        FlowObservation { at, direction: FlowDirection::Sent, bytes }
    }

    /// An observation of bytes received.
    pub fn received(at: FlowInstant, bytes: u32) -> (o: FlowObservation)
        ensures
            o == (FlowObservation { at, direction: FlowDirection::Received, bytes }),
    {
        FlowObservation { at, direction: FlowDirection::Received, bytes }
    }
}

/// Where the lines are drawn for the passive figures.
#[derive(Debug, Clone, Copy, PartialEq, Eq, Structural)]
pub struct FlowPolicy {
    /// How much of the recent past every figure covers.
    pub window: Duration,
    /// Arrivals closer together than this belong to the same burst.
    ///
    /// A server does not always answer a tick with one datagram; timing raw events would
    /// report enormous jitter for a stream arriving perfectly regularly in pairs.
    pub burst_gap: Duration,
    /// A receive gap at least this long, while sending continues, is a stall.
    pub stall_after: Duration,
    /// How many bursts a window needs before any arrival figure is quoted.
    pub min_arrivals: usize,
}

impl Default for FlowPolicy {
    /// A ten-second window, five-millisecond bursts, a stall after half a second of
    /// silence, and eight arrivals before any timing figure.
    fn default() -> (p: FlowPolicy)
        ensures
            p.window@ == 10 * 1_000_000_000,
            p.burst_gap@ == 5 * 1_000_000,
            p.stall_after@ == 500 * 1_000_000,
            p.min_arrivals == 8,
    {
        FlowPolicy {
            window: Duration::from_secs(10),
            burst_gap: Duration::from_millis(5),
            stall_after: Duration::from_millis(500),
            min_arrivals: 8,
        }
    }
}

impl FlowPolicy {
    /// Checks the policy can produce a figure at all: a window of zero makes every rate a
    /// division by nothing.
    pub fn validate(&self) -> (r: Result<(), Error>)
        ensures
            r == if self.window@ == 0 {
                Err::<(), Error>(Error::ZeroFlowWindow)
            } else {
                Ok(())
            },
    {
        if self.window.is_zero() {
            return Err(Error::ZeroFlowWindow);
        }
        Ok(())
    }
}

/// One endpoint's flow history, and the figures it supports.
///
/// Recording is O(1) and allocates nothing; the figures are computed on demand.
#[derive(Debug, Clone)]
pub struct FlowMetrics {
    observations: RingBuffer<FlowObservation>,
    policy: FlowPolicy,
}

impl FlowMetrics {
    /// The retained observations, oldest first.
    pub closed spec fn view(self) -> Seq<FlowObservation> {
        self.observations@
    }

    /// The policy in force.
    pub closed spec fn spec_policy(self) -> FlowPolicy {
        self.policy
    }

    /// The most observations retained.
    pub closed spec fn spec_capacity(self) -> nat {
        self.observations.spec_capacity()
    }

    /// The bookkeeping is consistent and the window is not empty.
    pub closed spec fn wf(self) -> bool {
        &&& self.observations.wf()
        &&& self.policy.window@ > 0
    }

    /// Creates a history holding at most `capacity` observations.
    ///
    /// A window of zero is refused first, then a capacity of zero.
    pub fn new(policy: FlowPolicy, capacity: usize) -> (r: Result<FlowMetrics, Error>)
        ensures
            policy.window@ == 0 ==> r == Err::<FlowMetrics, Error>(Error::ZeroFlowWindow),
            policy.window@ > 0 && capacity == 0 ==> r == Err::<FlowMetrics, Error>(
                Error::ZeroCapacity,
            ),
            policy.window@ > 0 && capacity > 0 ==> (r matches Ok(m) && m.wf() && m@
                == Seq::<FlowObservation>::empty() && m.spec_policy() == policy
                && m.spec_capacity() == capacity),
    {
        match policy.validate() {
            Err(e) => Err(e),
            Ok(()) => match RingBuffer::new(capacity) {
                Err(e) => Err(e),
                Ok(observations) => Ok(FlowMetrics { observations, policy }),
            },
        }
    }

    /// Creates a history holding `DEFAULT_CAPACITY` observations.
    pub fn with_policy(policy: FlowPolicy) -> (r: Result<FlowMetrics, Error>)
        ensures
            policy.window@ == 0 ==> r == Err::<FlowMetrics, Error>(Error::ZeroFlowWindow),
            policy.window@ > 0 ==> (r matches Ok(m) && m.wf() && m@
                == Seq::<FlowObservation>::empty() && m.spec_policy() == policy
                && m.spec_capacity() == DEFAULT_CAPACITY),
    {
        FlowMetrics::new(policy, DEFAULT_CAPACITY)
    }

    /// Records one flow event, evicting the oldest once the history is full.
    pub fn record(&mut self, observation: FlowObservation)
        requires
            old(self).wf(),
        ensures
            final(self).wf(),
            final(self).spec_policy() == old(self).spec_policy(),
            final(self).spec_capacity() == old(self).spec_capacity(),
            old(self)@.len() < old(self).spec_capacity() ==> final(self)@ == old(self)@.push(
                observation,
            ),
            old(self)@.len() == old(self).spec_capacity() ==> final(self)@ == old(
                self,
            )@.drop_first().push(observation),
            final(self)@.len() > 0,
            final(self)@.last() == observation,
            final(self)@.len() <= final(self).spec_capacity(),
    {
        proof {
            old(self).lemma_within_capacity();
        }
        self.observations.push(observation);
        proof {
            self.lemma_within_capacity();
        }
    }

    /// A well-formed history never holds more than its capacity, and that capacity is
    /// positive.
    pub proof fn lemma_within_capacity(self)
        requires
            self.wf(),
        ensures
            self@.len() <= self.spec_capacity(),
            self.spec_capacity() > 0,
    {
        self.observations.lemma_within_capacity();
    }

    /// The policy in force.
    pub fn policy(&self) -> (p: FlowPolicy)
        ensures
            p == self.spec_policy(),
    {
        self.policy
    }

    /// When the most recent event happened, on the operating system's clock.
    pub fn latest(&self) -> (r: Option<FlowInstant>)
        requires
            self.wf(),
        ensures
            self@.len() == 0 ==> r is None,
            self@.len() > 0 ==> r == Some(self@.last().at),
    {
        match self.observations.newest() {
            Some(last) => Some(last.at),
            None => None,
        }
    }

    /// Whether anything has been recorded.
    pub fn is_empty(&self) -> (b: bool)
        requires
            self.wf(),
        ensures
            b == (self@.len() == 0),
    {
        self.observations.is_empty()
    }
}

/// `a - b`, or zero when `b` is later.
pub open spec fn gap(a: nat, b: nat) -> nat {
    if a < b {
        0
    } else {
        (a - b) as nat
    }
}

/// The observations of `obs` at or after `cutoff`, in their recorded order.
pub open spec fn within(obs: Seq<FlowObservation>, cutoff: nat) -> Seq<FlowObservation>
    decreases obs.len(),
{
    if obs.len() == 0 {
        Seq::empty()
    } else {
        let earlier = within(obs.drop_last(), cutoff);
        if obs.last().at@ >= cutoff {
            earlier.push(obs.last())
        } else {
            earlier
        }
    }
}

/// How many observations of `w` went `direction`.
pub open spec fn events_of(w: Seq<FlowObservation>, direction: FlowDirection) -> nat
    decreases w.len(),
{
    if w.len() == 0 {
        0
    } else {
        events_of(w.drop_last(), direction) + if w.last().direction == direction {
            1nat
        } else {
            0nat
        }
    }
}

/// The bytes of the observations of `w` that went `direction`, stopping at `u64::MAX`.
pub open spec fn bytes_of(w: Seq<FlowObservation>, direction: FlowDirection) -> nat
    decreases w.len(),
{
    if w.len() == 0 {
        0
    } else {
        let earlier = bytes_of(w.drop_last(), direction);
        if w.last().direction == direction {
            if earlier + w.last().bytes > u64::MAX {
                u64::MAX as nat
            } else {
                (earlier + w.last().bytes) as nat
            }
        } else {
            earlier
        }
    }
}

/// The moments, in nanoseconds, at which the observations of `w` that were received
/// happened.
pub open spec fn arrivals_of(w: Seq<FlowObservation>) -> Seq<u128>
    decreases w.len(),
{
    if w.len() == 0 {
        Seq::empty()
    } else {
        let earlier = arrivals_of(w.drop_last());
        if w.last().direction == FlowDirection::Received {
            earlier.push(w.last().at@ as u128)
        } else {
            earlier
        }
    }
}

/// `a - b`, or zero when `b` is larger.
pub open spec fn gap_u128(a: u128, b: u128) -> u128 {
    if a < b {
        0
    } else {
        (a - b) as u128
    }
}

/// Arrivals coalesced into bursts: the moment the current burst began, and the intervals
/// between the starts of consecutive bursts.
///
/// An arrival no more than `burst_gap` after the one before it belongs to the same burst;
/// any other begins a new one.
pub open spec fn bursts(arrivals: Seq<u128>, burst_gap: nat) -> (u128, Seq<u128>)
    decreases arrivals.len(),
{
    if arrivals.len() == 0 {
        (0, Seq::empty())
    } else if arrivals.len() == 1 {
        (arrivals[0], Seq::empty())
    } else {
        let (start, intervals) = bursts(arrivals.drop_last(), burst_gap);
        let now = arrivals.last();
        let previous = arrivals[arrivals.len() - 2];
        if gap_u128(now, previous) <= burst_gap {
            (start, intervals)
        } else {
            (now, intervals.push(gap_u128(now, start)))
        }
    }
}

/// RFC 3550 smoothing over consecutive intervals, in whole nanoseconds.
pub open spec fn interval_jitter(intervals: Seq<u128>) -> nat
    decreases intervals.len(),
{
    if intervals.len() < 2 {
        0
    } else {
        let last = intervals.last();
        let previous = intervals[intervals.len() - 2];
        let deviation: nat = if last >= previous {
            (last - previous) as nat
        } else {
            (previous - last) as nat
        };
        jitter_step(interval_jitter(intervals.drop_last()), deviation)
    }
}

/// The sum of `intervals`, stopping at `u128::MAX`.
pub open spec fn capped_total(intervals: Seq<u128>) -> nat
    decreases intervals.len(),
{
    if intervals.len() == 0 {
        0
    } else {
        let sum = capped_total(intervals.drop_last()) + intervals.last();
        if sum > u128::MAX {
            u128::MAX as nat
        } else {
            sum as nat
        }
    }
}

/// The intervals in ascending order.
pub open spec fn ascending_intervals(intervals: Seq<u128>) -> Seq<u128> {
    intervals.sort_by(|a: u128, b: u128| a <= b)
}

/// How much crossed an endpoint in one direction.
#[derive(Debug, Clone, Copy, PartialEq, Eq, Structural, Default)]
pub struct DirectionStats {
    /// Events counted.
    pub events: usize,
    /// Bytes they accounted for, stopping at `u64::MAX`.
    pub bytes: u64,
}

/// How regularly the far end's traffic arrived.
///
/// Not a round-trip time and not path jitter: the spread of the intervals between one
/// arrival and the next, which folds in whatever cadence the server chose.
#[derive(Debug, Clone, Copy, PartialEq, Eq, Structural)]
pub struct ArrivalStats {
    /// How many arrivals the intervals were measured between.
    pub bursts: usize,
    /// How many events those arrivals were made of.
    pub events: usize,
    /// Mean interval between arrivals, in nanoseconds, rounded down.
    pub mean_ns: u128,
    /// RFC 3550 mean deviation of those intervals, in nanoseconds.
    pub jitter_ns: u128,
    /// 95th percentile interval, in nanoseconds, by nearest rank.
    pub p95_ns: u128,
    /// Longest interval in the window, in nanoseconds: the worst hitch.
    pub max_ns: u128,
}

/// What the arrival intervals support: nothing with no interval, or with fewer arrivals
/// than `minimum` (and never fewer than two).
pub open spec fn arrival_figures(intervals: Seq<u128>, events: nat, minimum: nat) -> Option<
    ArrivalStats,
> {
    let n = intervals.len();
    let sorted = ascending_intervals(intervals);
    if n == 0 || n + 1 < minimum || n + 1 < 2 {
        None
    } else {
        Some(
            ArrivalStats {
                bursts: (n + 1) as usize,
                events: events as usize,
                mean_ns: (capped_total(intervals) / n) as u128,
                jitter_ns: interval_jitter(intervals) as u128,
                p95_ns: sorted[nearest_rank(95, n) - 1],
                max_ns: sorted[n - 1],
            },
        )
    }
}

/// The moment of the last observation of `w` that went `direction`.
pub open spec fn last_moment(w: Seq<FlowObservation>, direction: FlowDirection) -> Option<nat>
    decreases w.len(),
{
    if w.len() == 0 {
        None
    } else if w.last().direction == direction {
        Some(w.last().at@)
    } else {
        last_moment(w.drop_last(), direction)
    }
}

/// How long nothing has come back while the application kept sending, as of `last`.
///
/// Nothing when nothing was sent, or when the last send was no later than the reference:
/// the last arrival, or the window's first event when nothing arrived at all. A silence of
/// ours is no evidence about theirs.
pub open spec fn stall_of(w: Seq<FlowObservation>, last: nat, stall_after: nat) -> Option<nat> {
    match last_moment(w, FlowDirection::Sent) {
        None => None,
        Some(sent) => {
            let since = match last_moment(w, FlowDirection::Received) {
                Some(received) => received,
                None => w[0].at@,
            };
            if sent <= since || w.len() == 0 {
                None
            } else if gap(last, since) >= stall_after {
                Some(gap(last, since))
            } else {
                None
            }
        },
    }
}

/// How many observations of `w` went `direction` and fall on the given side of `from`.
pub open spec fn counted(w: Seq<FlowObservation>, direction: FlowDirection, from: nat, recent: bool) -> nat
    decreases w.len(),
{
    if w.len() == 0 {
        0
    } else {
        counted(w.drop_last(), direction, from, recent) + if w.last().direction == direction && (
        w.last().at@ >= from) == recent {
            1nat
        } else {
            0nat
        }
    }
}

/// The counts behind a receive shortfall: what was sent and received in the earlier three
/// quarters of the window and in its last quarter.
///
/// The shortfall itself is `1 - (recent_received / recent_sent) / (earlier_received /
/// earlier_sent)`: how far the ratio of what comes back to what goes out has fallen below
/// what this endpoint itself established.
#[derive(Debug, Clone, Copy, PartialEq, Eq, Structural)]
pub struct Shortfall {
    /// Sent before the last quarter.
    pub earlier_sent: usize,
    /// Received before the last quarter.
    pub earlier_received: usize,
    /// Sent in the last quarter.
    pub recent_sent: usize,
    /// Received in the last quarter.
    pub recent_received: usize,
}

/// Whether the application's own sending fell away: a recent send rate below four fifths
/// of the earlier one, over spans of `recent_span` and `earlier_span` nanoseconds. Over no
/// span at all the recent rate counts as nothing.
pub open spec fn sends_fell(recent_sent: nat, earlier_sent: nat, recent_span: nat, earlier_span: nat) -> bool {
    if recent_span == 0 {
        earlier_sent > 0 && earlier_span > 0
    } else {
        5 * recent_sent * earlier_span < 4 * earlier_sent * recent_span
    }
}

/// The receive shortfall a window supports, if it supports one.
///
/// The window from `cutoff` to `last` is split at three quarters. Nothing is claimed with
/// too little history on either side (fewer than `minimum` earlier sends or arrivals,
/// fewer than two recent sends, nothing earlier at all), when our own sending fell away
/// too, when the shortfall is under five per cent, or when both sides of the send-rate
/// comparison are beyond 128-bit arithmetic.
pub open spec fn shortfall_of(w: Seq<FlowObservation>, last: nat, cutoff: nat, minimum: nat) -> Option<
    Shortfall,
> {
    let span = gap(last, cutoff);
    let quarter = span / 4;
    let recent_from = gap(last, quarter);
    let es = counted(w, FlowDirection::Sent, recent_from, false);
    let rs = counted(w, FlowDirection::Sent, recent_from, true);
    let er = counted(w, FlowDirection::Received, recent_from, false);
    let rr = counted(w, FlowDirection::Received, recent_from, true);
    let earlier_span = (span - quarter) as nat;
    if recent_from <= cutoff {
        None
    } else if es < minimum || er < minimum || rs < 2 || es == 0 || er == 0 {
        None
    } else if quarter > 0 && 5 * rs * earlier_span > u128::MAX && 4 * es * quarter > u128::MAX {
        None
    } else if sends_fell(rs, es, quarter, earlier_span) {
        None
    } else if 20 * (rr * es) > 19 * (rs * er) {
        None
    } else {
        Some(
            Shortfall {
                earlier_sent: es as usize,
                earlier_received: er as usize,
                recent_sent: rs as usize,
                recent_received: rr as usize,
            },
        )
    }
}

/// What one endpoint's own traffic says.
#[derive(Debug, Clone, Copy, PartialEq, Eq, Structural)]
pub struct FlowReading {
    /// How much time the figures actually cover: the window, or less when the history
    /// does not reach that far back.
    pub span: Duration,
    /// What the application sent.
    pub sent: DirectionStats,
    /// What came back.
    pub received: DirectionStats,
    /// How regularly it came back, once there is enough of it to say.
    pub arrival: Option<ArrivalStats>,
    /// How long nothing has come back while sending continued.
    pub stall: Option<Duration>,
    /// How far what comes back has fallen behind what the endpoint's own recent past
    /// promised, when that can be said honestly.
    pub receive_shortfall: Option<Shortfall>,
}

impl FlowReading {
    /// Whether any traffic at all was seen in the window.
    pub fn is_carrying_traffic(&self) -> (b: bool)
        ensures
            b == (self.sent.events > 0 || self.received.events > 0),
    {
        self.sent.events > 0 || self.received.events > 0
    }
}

/// Whether `reading` is what the observations `obs`, the newest last, say under `policy`:
/// every figure over the window ending at the newest observation.
pub open spec fn describes_flow(reading: FlowReading, obs: Seq<FlowObservation>, policy: FlowPolicy) -> bool {
    let last = obs.last().at@;
    let cutoff = gap(last, policy.window@);
    let w = within(obs, cutoff);
    let arrivals = arrivals_of(w);
    &&& w.len() > 0
    &&& reading.span@ == gap(last, w[0].at@)
    &&& reading.sent == (DirectionStats {
        events: events_of(w, FlowDirection::Sent) as usize,
        bytes: bytes_of(w, FlowDirection::Sent) as u64,
    })
    &&& reading.received == (DirectionStats {
        events: events_of(w, FlowDirection::Received) as usize,
        bytes: bytes_of(w, FlowDirection::Received) as u64,
    })
    &&& reading.arrival == arrival_figures(
        bursts(arrivals, policy.burst_gap@).1,
        arrivals.len(),
        policy.min_arrivals as nat,
    )
    &&& match (reading.stall, stall_of(w, last, policy.stall_after@)) {
        (None, None) => true,
        (Some(d), Some(g)) => d@ == g,
        _ => false,
    }
    &&& reading.receive_shortfall == shortfall_of(w, last, cutoff, policy.min_arrivals as nat)
}

proof fn lemma_ascending_intervals(intervals: Seq<u128>)
    ensures
        ascending_intervals(intervals).to_multiset() == intervals.to_multiset(),
        sorted_by(ascending_intervals(intervals), |a: u128, b: u128| a <= b),
        ascending_intervals(intervals).len() == intervals.len(),
{
    intervals.lemma_sort_by_ensures(|a: u128, b: u128| a <= b);
    vstd::seq_lib::to_multiset_len(intervals);
    vstd::seq_lib::to_multiset_len(ascending_intervals(intervals));
}

/// How many of `s` satisfy `pred`.
pub open spec fn count_where(s: Seq<u128>, pred: spec_fn(u128) -> bool) -> nat
    decreases s.len(),
{
    if s.len() == 0 {
        0
    } else {
        count_where(s.drop_last(), pred) + if pred(s.last()) {
            1nat
        } else {
            0nat
        }
    }
}

proof fn lemma_count_concat(a: Seq<u128>, b: Seq<u128>, pred: spec_fn(u128) -> bool)
    ensures
        count_where(a + b, pred) == count_where(a, pred) + count_where(b, pred),
    decreases b.len(),
{
    if b.len() == 0 {
        assert(a + b =~= a);
    } else {
        lemma_count_concat(a, b.drop_last(), pred);
        assert((a + b).drop_last() =~= a + b.drop_last());
        assert((a + b).last() == b.last());
    }
}

proof fn lemma_count_bounds(s: Seq<u128>, pred: spec_fn(u128) -> bool)
    ensures
        count_where(s, pred) <= s.len(),
        (forall|i: int| 0 <= i < s.len() ==> pred(#[trigger] s[i])) ==> count_where(s, pred)
            == s.len(),
        (forall|i: int| 0 <= i < s.len() ==> !pred(#[trigger] s[i])) ==> count_where(s, pred)
            == 0,
    decreases s.len(),
{
    if s.len() > 0 {
        lemma_count_bounds(s.drop_last(), pred);
        assert forall|i: int| 0 <= i < s.drop_last().len() implies #[trigger] s.drop_last()[i]
            == s[i] by {}
        assert(s.last() == s[s.len() - 1]);
    }
}

proof fn lemma_count_remove(t: Seq<u128>, i: int, pred: spec_fn(u128) -> bool)
    requires
        0 <= i < t.len(),
    ensures
        count_where(t, pred) == count_where(t.remove(i), pred) + if pred(t[i]) {
            1nat
        } else {
            0nat
        },
{
    let front = t.take(i);
    let back = t.subrange(i + 1, t.len() as int);
    assert(t =~= front + seq![t[i]] + back);
    assert(t.remove(i) =~= front + back);
    lemma_count_concat(front + seq![t[i]], back, pred);
    lemma_count_concat(front, seq![t[i]], pred);
    lemma_count_concat(front, back, pred);
    assert(seq![t[i]].drop_last() =~= Seq::<u128>::empty());
    assert(seq![t[i]].last() == t[i]);
    assert(count_where(Seq::<u128>::empty(), pred) == 0);
}

/// Counting does not depend on the order: two arrangements of the same values have as many
/// that satisfy any test.
pub proof fn lemma_count_permutation(s: Seq<u128>, t: Seq<u128>, pred: spec_fn(u128) -> bool)
    requires
        s.to_multiset() == t.to_multiset(),
    ensures
        count_where(s, pred) == count_where(t, pred),
    decreases s.len(),
{
    if s.len() == 0 {
        vstd::seq_lib::to_multiset_len(t);
        vstd::seq_lib::to_multiset_len(s);
        assert(t =~= Seq::<u128>::empty());
    } else {
        let x = s.last();
        assert(s.contains(x)) by {
            assert(s[s.len() - 1] == x);
        }
        assert(s.to_multiset().count(x) > 0);
        assert(t.to_multiset().count(x) > 0);
        assert(t.contains(x));
        let i = choose|i: int| 0 <= i < t.len() && t[i] == x;
        let rest = s.drop_last();
        assert(rest =~= s.remove(s.len() - 1));
        assert(rest.to_multiset() == t.remove(i).to_multiset());
        lemma_count_permutation(rest, t.remove(i), pred);
        lemma_count_remove(t, i, pred);
    }
}

/// The reported 95th percentile is the interval at the 95th percentile by nearest rank: it
/// is one of the intervals, at least 95 % of them (rounded up) are no longer than it, and
/// fewer than that are shorter. The reported maximum is the longest interval.
pub proof fn lemma_p95_is_the_95th_percentile(intervals: Seq<u128>, events: nat, minimum: nat)
    requires
        arrival_figures(intervals, events, minimum) is Some,
    ensures
        ({
            let a = arrival_figures(intervals, events, minimum)->0;
            let n = intervals.len();
            let rank = (95 * n + 99) / 100;
            &&& 1 <= rank <= n
            &&& intervals.contains(a.p95_ns)
            &&& count_where(intervals, |x: u128| x <= a.p95_ns) >= rank
            &&& count_where(intervals, |x: u128| x < a.p95_ns) < rank
            &&& intervals.contains(a.max_ns)
            &&& forall|i: int| 0 <= i < n ==> #[trigger] intervals[i] <= a.max_ns
        }),
{
    let a = arrival_figures(intervals, events, minimum)->0;
    let n = intervals.len();
    let rank = (95 * n + 99) / 100;
    let sorted = ascending_intervals(intervals);
    lemma_ascending_intervals(intervals);
    assert(nearest_rank(95, n) == rank);
    assert(1 <= rank <= n) by (nonlinear_arith)
        requires
            n >= 1,
            rank == (95 * n + 99) / 100,
    ;
    let p = sorted[rank - 1];
    assert(a.p95_ns == p);
    let leq = |a: u128, b: u128| a <= b;
    assert(sorted_by(sorted, leq));
    let at_most = |x: u128| x <= a.p95_ns;
    let below = |x: u128| x < a.p95_ns;
    let low = sorted.take(rank as int);
    let high = sorted.subrange(rank as int, n as int);
    assert(sorted =~= low + high);
    lemma_count_concat(low, high, at_most);
    assert forall|i: int| 0 <= i < low.len() implies at_most(#[trigger] low[i]) by {
        if i < rank - 1 {
            assert(leq(sorted[i], sorted[rank - 1]));
        }
    }
    lemma_count_bounds(low, at_most);
    let under = sorted.take(rank - 1);
    let over = sorted.subrange(rank - 1, n as int);
    assert(sorted =~= under + over);
    lemma_count_concat(under, over, below);
    assert forall|i: int| 0 <= i < over.len() implies !below(#[trigger] over[i]) by {
        if i > 0 {
            assert(leq(sorted[rank - 1], sorted[rank - 1 + i]));
        }
    }
    lemma_count_bounds(over, below);
    lemma_count_bounds(under, below);
    lemma_count_permutation(sorted, intervals, at_most);
    lemma_count_permutation(sorted, intervals, below);
    assert(sorted.contains(p)) by {
        assert(sorted[rank - 1] == p);
    }
    assert(sorted.to_multiset().count(p) > 0);
    assert(intervals.contains(a.p95_ns));
    assert(sorted.contains(sorted[n - 1]));
    assert(sorted.to_multiset().count(sorted[n - 1]) > 0);
    assert(intervals.contains(a.max_ns));
    assert forall|i: int| 0 <= i < n implies #[trigger] intervals[i] <= a.max_ns by {
        assert(intervals.contains(intervals[i]));
        assert(intervals.to_multiset().count(intervals[i]) > 0);
        assert(sorted.contains(intervals[i]));
        let j = choose|j: int| 0 <= j < sorted.len() && sorted[j] == intervals[i];
        if j < n - 1 {
            assert(leq(sorted[j], sorted[n - 1]));
        }
    }
}

proof fn lemma_capped_total_fits(intervals: Seq<u128>)
    ensures
        capped_total(intervals) <= u128::MAX,
    decreases intervals.len(),
{
    if intervals.len() > 0 {
        lemma_capped_total_fits(intervals.drop_last());
    }
}

/// The reported mean is the intervals' total shared out evenly, rounded down: that many
/// nanoseconds for each interval fits in the total, and one more for each does not.
pub proof fn lemma_mean_is_the_average(intervals: Seq<u128>, events: nat, minimum: nat)
    requires
        arrival_figures(intervals, events, minimum) is Some,
    ensures
        ({
            let a = arrival_figures(intervals, events, minimum)->0;
            let n = intervals.len();
            &&& a.mean_ns * n <= capped_total(intervals)
            &&& capped_total(intervals) < (a.mean_ns + 1) * n
        }),
{
    let a = arrival_figures(intervals, events, minimum)->0;
    let n = intervals.len();
    let total = capped_total(intervals);
    lemma_capped_total_fits(intervals);
    assert(a.mean_ns == total / n);
    assert((total / n) * n <= total && total < (total / n + 1) * n) by (nonlinear_arith)
        requires
            n > 0,
    ;
}

/// `values` sorted ascending, by insertion.
fn sorted_intervals(values: &Vec<u128>) -> (sorted: Vec<u128>)
    ensures
        sorted@ == ascending_intervals(values@),
{
    let mut sorted: Vec<u128> = Vec::new();
    let mut i: usize = 0;
    while i < values.len()
        invariant
            i <= values@.len(),
            forall|a: int, b: int| 0 <= a < b < sorted@.len() ==> sorted@[a] <= sorted@[b],
            sorted@.to_multiset() == values@.take(i as int).to_multiset(),
        decreases values@.len() - i,
    {
        let x = values[i];
        let mut p: usize = 0;
        while p < sorted.len() && sorted[p] <= x
            invariant
                p <= sorted@.len(),
                forall|k: int| 0 <= k < p ==> sorted@[k] <= x,
            decreases sorted@.len() - p,
        {
            p = p + 1;
        }
        let ghost before = sorted@;
        sorted.insert(p, x);
        proof {
            assert forall|a: int, b: int| 0 <= a < b < sorted@.len() implies sorted@[a]
                <= sorted@[b] by {
                if b < p {
                    assert(before[a] <= before[b]);
                } else if b == p {
                } else if a < p {
                    assert(sorted@[b] == before[b - 1]);
                    assert(before[a] <= before[b - 1]);
                } else if a == p {
                    assert(sorted@[b] == before[b - 1]);
                    assert(before[p as int] <= before[b - 1]);
                } else {
                    assert(before[a - 1] <= before[b - 1]);
                }
            }
            assert(values@.take(i + 1) =~= values@.take(i as int).push(x));
        }
        i = i + 1;
    }
    proof {
        assert(values@.take(values@.len() as int) =~= values@);
        assert(sorted_by(sorted@, |a: u128, b: u128| a <= b));
        lemma_ascending_intervals(values@);
        vstd::seq_lib::lemma_sorted_unique(
            sorted@,
            ascending_intervals(values@),
            |a: u128, b: u128| a <= b,
        );
    }
    sorted
}

/// The statistics the intervals between bursts support.
fn arrival_stats(intervals: &Vec<u128>, events: usize, minimum: usize) -> (r: Option<ArrivalStats>)
    requires
        intervals@.len() < usize::MAX,
    ensures
        r == arrival_figures(intervals@, events as nat, minimum as nat),
{
    let n = intervals.len();
    if n == 0 || (minimum > 0 && n < minimum - 1) {
        return None;
    }
    let mut jitter: u128 = 0;
    let mut total: u128 = intervals[0];
    let mut k: usize = 1;
    proof {
        assert(intervals@.take(1).drop_last() =~= Seq::<u128>::empty());
        assert(intervals@.take(1).last() == intervals@[0]);
        assert(capped_total(Seq::<u128>::empty()) == 0);
        assert(capped_total(intervals@.take(1)) == intervals@[0]);
    }
    while k < n
        invariant
            1 <= k <= n,
            n == intervals@.len(),
            jitter == interval_jitter(intervals@.take(k as int)),
            total == capped_total(intervals@.take(k as int)),
        decreases n - k,
    {
        let last = intervals[k];
        let previous = intervals[k - 1];
        let deviation = if last >= previous {
            last - previous
        } else {
            previous - last
        };
        proof {
            let t = intervals@.take(k + 1);
            assert(t.drop_last() =~= intervals@.take(k as int));
            assert(t.last() == last);
            assert(t[t.len() - 2] == previous);
        }
        jitter = if deviation >= jitter {
            jitter + (deviation - jitter) / 16
        } else {
            jitter - (jitter - deviation) / 16
        };
        total = total.saturating_add(last);
        k = k + 1;
    }
    proof {
        assert(intervals@.take(n as int) =~= intervals@);
        lemma_ascending_intervals(intervals@);
    }
    let sorted = sorted_intervals(intervals);
    assert(95 * (n as u128) + 99 <= u128::MAX) by (nonlinear_arith)
        requires
            n < usize::MAX,
            usize::MAX <= u64::MAX,
    ;
    let scaled: u128 = (95 * (n as u128) + 99) / 100;
    proof {
        assert(scaled == (95 * n + 99) / 100);
        assert(scaled <= n) by (nonlinear_arith)
            requires
                scaled == (95 * n + 99) / 100,
                n >= 1,
        ;
    }
    let rank: usize = if scaled < 1 {
        1
    } else {
        scaled as usize
    };
    proof {
        assert(rank == nearest_rank(95, n as nat));
        assert(1 <= rank <= n);
    }
    Some(
        ArrivalStats {
            bursts: n + 1,
            events,
            mean_ns: total / (n as u128),
            jitter_ns: jitter,
            p95_ns: sorted[rank - 1],
            max_ns: sorted[n - 1],
        },
    )
}

/// Whether an optional moment is the one a specification names.
pub open spec fn same_moment(x: Option<FlowInstant>, m: Option<nat>) -> bool {
    match (x, m) {
        (None, None) => true,
        (Some(x), Some(m)) => x@ == m,
        _ => false,
    }
}

proof fn lemma_within_step(obs: Seq<FlowObservation>, cutoff: nat, i: int)
    requires
        0 <= i < obs.len(),
    ensures
        within(obs.take(i + 1), cutoff) == if obs[i].at@ >= cutoff {
            within(obs.take(i), cutoff).push(obs[i])
        } else {
            within(obs.take(i), cutoff)
        },
{
    assert(obs.take(i + 1).drop_last() =~= obs.take(i));
    assert(obs.take(i + 1).last() == obs[i]);
}

proof fn lemma_within_len(obs: Seq<FlowObservation>, cutoff: nat)
    ensures
        within(obs, cutoff).len() <= obs.len(),
    decreases obs.len(),
{
    if obs.len() > 0 {
        lemma_within_len(obs.drop_last(), cutoff);
    }
}

proof fn lemma_window_counts(w: Seq<FlowObservation>)
    ensures
        events_of(w, FlowDirection::Sent) + events_of(w, FlowDirection::Received) == w.len(),
        arrivals_of(w).len() == events_of(w, FlowDirection::Received),
        bytes_of(w, FlowDirection::Sent) <= u64::MAX,
        bytes_of(w, FlowDirection::Received) <= u64::MAX,
    decreases w.len(),
{
    if w.len() > 0 {
        lemma_window_counts(w.drop_last());
    }
}

proof fn lemma_counted_total(w: Seq<FlowObservation>, from: nat)
    ensures
        counted(w, FlowDirection::Sent, from, false) + counted(w, FlowDirection::Sent, from, true)
            + counted(w, FlowDirection::Received, from, false) + counted(
            w,
            FlowDirection::Received,
            from,
            true,
        ) == w.len(),
    decreases w.len(),
{
    if w.len() > 0 {
        lemma_counted_total(w.drop_last(), from);
    }
}

proof fn lemma_bursts_shorter(arrivals: Seq<u128>, burst_gap: nat)
    ensures
        arrivals.len() == 0 ==> bursts(arrivals, burst_gap).1.len() == 0,
        arrivals.len() > 0 ==> bursts(arrivals, burst_gap).1.len() < arrivals.len(),
    decreases arrivals.len(),
{
    if arrivals.len() > 1 {
        lemma_bursts_shorter(arrivals.drop_last(), burst_gap);
    }
}

impl FlowMetrics {
    /// How long nothing has come back while the application kept sending.
    fn stall(&self, held: &Vec<&FlowObservation>, last: FlowInstant, cutoff: FlowInstant) -> (r: Option<Duration>)
        requires
            held@.len() == self@.len(),
            forall|k: int| 0 <= k < held@.len() ==> *held@[k] == self@[k],
        ensures
            match (r, stall_of(within(self@, cutoff@), last@, self.policy.stall_after@)) {
                (None, None) => true,
                (Some(d), Some(g)) => d@ == g,
                _ => false,
            },
    {
        let ghost obs = self@;
        let mut last_sent: Option<FlowInstant> = None;
        let mut last_received: Option<FlowInstant> = None;
        let mut first: Option<FlowInstant> = None;
        let mut i: usize = 0;
        while i < held.len()
            invariant
                held@.len() == obs.len(),
                forall|k: int| 0 <= k < held@.len() ==> *held@[k] == obs[k],
                i <= obs.len(),
                same_moment(last_sent, last_moment(within(obs.take(i as int), cutoff@), FlowDirection::Sent)),
                same_moment(
                    last_received,
                    last_moment(within(obs.take(i as int), cutoff@), FlowDirection::Received),
                ),
                within(obs.take(i as int), cutoff@).len() == 0 ==> first is None,
                within(obs.take(i as int), cutoff@).len() > 0 ==> first == Some(
                    within(obs.take(i as int), cutoff@)[0].at,
                ),
            decreases obs.len() - i,
        {
            let o = *held[i];
            proof {
                lemma_within_step(obs, cutoff@, i as int);
                let w = within(obs.take(i as int), cutoff@);
                assert(w.push(o).drop_last() =~= w);
            }
            if cutoff.le(&o.at) {
                if first.is_none() {
                    first = Some(o.at);
                }
                match o.direction {
                    FlowDirection::Sent => {
                        last_sent = Some(o.at);
                    },
                    FlowDirection::Received => {
                        last_received = Some(o.at);
                    },
                }
            }
            i = i + 1;
        }
        proof {
            assert(obs.take(obs.len() as int) =~= obs);
        }
        let sent = match last_sent {
            None => {
                return None;
            },
            Some(sent) => sent,
        };
        let since = match last_received {
            Some(received) => received,
            None => match first {
                Some(first) => first,
                None => {
                    return None;
                },
            },
        };
        if sent.le(&since) {
            return None;
        }
        let silence = last.saturating_duration_since(since);
        if self.policy.stall_after.le(&silence) {
            Some(silence)
        } else {
            None
        }
    }
}

impl FlowMetrics {
    /// How far the return traffic has fallen behind what this endpoint itself established.
    ///
    /// The last quarter of the window is now; the three before it are what the endpoint
    /// normally does. Comparing an endpoint against itself is the only honest baseline: no
    /// protocol owes one datagram back per datagram sent, but a change in the ratio means
    /// something.
    fn shortfall(&self, held: &Vec<&FlowObservation>, last: FlowInstant, cutoff: FlowInstant) -> (r:
        Option<Shortfall>)
        requires
            held@.len() == self@.len(),
            forall|k: int| 0 <= k < held@.len() ==> *held@[k] == self@[k],
            cutoff@ <= last@,
        ensures
            r == shortfall_of(
                within(self@, cutoff@),
                last@,
                cutoff@,
                self.policy.min_arrivals as nat,
            ),
    {
        let ghost obs = self@;
        let span = last.saturating_duration_since(cutoff);
        let quarter = span.div(4);
        let recent_from = last.saturating_sub(quarter);
        if recent_from.le(&cutoff) {
            return None;
        }
        let mut earlier_sent: usize = 0;
        let mut recent_sent: usize = 0;
        let mut earlier_received: usize = 0;
        let mut recent_received: usize = 0;
        let mut i: usize = 0;
        while i < held.len()
            invariant
                held@.len() == obs.len(),
                forall|k: int| 0 <= k < held@.len() ==> *held@[k] == obs[k],
                i <= obs.len(),
                earlier_sent == counted(
                    within(obs.take(i as int), cutoff@),
                    FlowDirection::Sent,
                    recent_from@,
                    false,
                ),
                recent_sent == counted(
                    within(obs.take(i as int), cutoff@),
                    FlowDirection::Sent,
                    recent_from@,
                    true,
                ),
                earlier_received == counted(
                    within(obs.take(i as int), cutoff@),
                    FlowDirection::Received,
                    recent_from@,
                    false,
                ),
                recent_received == counted(
                    within(obs.take(i as int), cutoff@),
                    FlowDirection::Received,
                    recent_from@,
                    true,
                ),
            decreases obs.len() - i,
        {
            let o = *held[i];
            proof {
                lemma_within_step(obs, cutoff@, i as int);
                let w = within(obs.take(i as int), cutoff@);
                assert(w.push(o).drop_last() =~= w);
                lemma_counted_total(w, recent_from@);
                lemma_within_len(obs.take(i as int), cutoff@);
            }
            if cutoff.le(&o.at) {
                let recent = recent_from.le(&o.at);
                match o.direction {
                    FlowDirection::Sent => if recent {
                        recent_sent = recent_sent + 1;
                    } else {
                        earlier_sent = earlier_sent + 1;
                    },
                    FlowDirection::Received => if recent {
                        recent_received = recent_received + 1;
                    } else {
                        earlier_received = earlier_received + 1;
                    },
                }
            }
            i = i + 1;
        }
        proof {
            assert(obs.take(obs.len() as int) =~= obs);
        }
        let minimum = self.policy.min_arrivals;
        if earlier_sent < minimum || earlier_received < minimum || recent_sent < 2 || earlier_sent
            == 0 || earlier_received == 0 {
            return None;
        }
        let q: u128 = quarter.as_nanos();
        let e: u128 = span.as_nanos() - q;
        if q == 0 {
            if e > 0 {
                return None;
            }
        } else {
            let lhs = (5 * (recent_sent as u128)).checked_mul(e);
            let rhs = (4 * (earlier_sent as u128)).checked_mul(q);
            match (lhs, rhs) {
                (None, None) => {
                    return None;
                },
                (Some(l), Some(r)) => if l < r {
                    return None;
                },
                (Some(_), None) => {
                    return None;
                },
                (None, Some(_)) => {},
            }
        }
        proof {
            assert(recent_sent * earlier_received <= usize::MAX * usize::MAX) by (nonlinear_arith)
                requires
                    recent_sent <= usize::MAX,
                    earlier_received <= usize::MAX,
            ;
            assert(recent_received * earlier_sent <= usize::MAX * usize::MAX) by (nonlinear_arith)
                requires
                    recent_received <= usize::MAX,
                    earlier_sent <= usize::MAX,
            ;
            assert(usize::MAX * usize::MAX <= 0xffff_ffff_ffff_ffff * 0xffff_ffff_ffff_ffff) by (
            nonlinear_arith)
                requires
                    usize::MAX <= 0xffff_ffff_ffff_ffff,
            ;
        }
        let a: u128 = (recent_sent as u128) * (earlier_received as u128);
        let b: u128 = (recent_received as u128) * (earlier_sent as u128);
        let c: u128 = (a + 19) / 20;
        proof {
            assert((20 * b > 19 * a) == (b > a - c));
        }
        if b > a - c {
            return None;
        }
        Some(
            Shortfall {
                earlier_sent,
                earlier_received,
                recent_sent,
                recent_received,
            },
        )
    }
}

impl FlowMetrics {
    /// What the window ending at the newest observation says; nothing when nothing has
    /// been recorded.
    ///
    /// The window ends at the last event rather than at "now": this module has no clock,
    /// and events arrive up to a buffer flush late. Whether the reading is current is the
    /// caller's question, answered with the caller's own clock.
    pub fn reading(&self) -> (r: Option<FlowReading>)
        requires
            self.wf(),
        ensures
            self@.len() == 0 ==> r is None,
            self@.len() > 0 ==> (r matches Some(reading) && describes_flow(
                reading,
                self@,
                self.spec_policy(),
            )),
    {
        let last = match self.latest() {
            None => {
                return None;
            },
            Some(last) => last,
        };
        let cutoff = last.saturating_sub(self.policy.window);
        let held = self.observations.iter();
        let ghost obs = self@;
        let burst_gap = self.policy.burst_gap.as_nanos();
        let mut first: Option<FlowInstant> = None;
        let mut sent = DirectionStats { events: 0, bytes: 0 };
        let mut received = DirectionStats { events: 0, bytes: 0 };
        let mut previous: Option<u128> = None;
        let mut start: u128 = 0;
        let mut intervals: Vec<u128> = Vec::new();
        let mut i: usize = 0;
        while i < held.len()
            invariant
                held@.len() == obs.len(),
                forall|k: int| 0 <= k < held@.len() ==> *held@[k] == obs[k],
                i <= obs.len(),
                burst_gap == self.policy.burst_gap@,
                within(obs.take(i as int), cutoff@).len() == 0 ==> first is None,
                within(obs.take(i as int), cutoff@).len() > 0 ==> first == Some(
                    within(obs.take(i as int), cutoff@)[0].at,
                ),
                sent.events == events_of(within(obs.take(i as int), cutoff@), FlowDirection::Sent),
                sent.bytes == bytes_of(within(obs.take(i as int), cutoff@), FlowDirection::Sent),
                received.events == events_of(
                    within(obs.take(i as int), cutoff@),
                    FlowDirection::Received,
                ),
                received.bytes == bytes_of(
                    within(obs.take(i as int), cutoff@),
                    FlowDirection::Received,
                ),
                arrivals_of(within(obs.take(i as int), cutoff@)).len() == 0 ==> previous is None,
                arrivals_of(within(obs.take(i as int), cutoff@)).len() > 0 ==> previous == Some(
                    arrivals_of(within(obs.take(i as int), cutoff@)).last(),
                ) && start == bursts(
                    arrivals_of(within(obs.take(i as int), cutoff@)),
                    burst_gap as nat,
                ).0,
                intervals@ == bursts(
                    arrivals_of(within(obs.take(i as int), cutoff@)),
                    burst_gap as nat,
                ).1,
            decreases obs.len() - i,
        {
            let o = *held[i];
            proof {
                lemma_within_step(obs, cutoff@, i as int);
                let w = within(obs.take(i as int), cutoff@);
                assert(w.push(o).drop_last() =~= w);
                lemma_window_counts(w);
                lemma_within_len(obs.take(i as int), cutoff@);
                let r = arrivals_of(w);
                assert(r.push(o.at@ as u128).drop_last() =~= r);
            }
            if cutoff.le(&o.at) {
                if first.is_none() {
                    first = Some(o.at);
                }
                match o.direction {
                    FlowDirection::Sent => {
                        sent.events = sent.events + 1;
                        sent.bytes = sent.bytes.saturating_add(o.bytes as u64);
                    },
                    FlowDirection::Received => {
                        received.events = received.events + 1;
                        received.bytes = received.bytes.saturating_add(o.bytes as u64);
                        let now = o.at.nanos();
                        match previous {
                            None => {
                                start = now;
                            },
                            Some(p) => {
                                let since_previous = if now < p {
                                    0
                                } else {
                                    now - p
                                };
                                if since_previous > burst_gap {
                                    let since_start = if now < start {
                                        0
                                    } else {
                                        now - start
                                    };
                                    intervals.push(since_start);
                                    start = now;
                                }
                            },
                        }
                        previous = Some(now);
                    },
                }
            }
            i = i + 1;
        }
        proof {
            assert(obs.take(obs.len() as int) =~= obs);
            let w = within(obs, cutoff@);
            assert(obs.drop_last().push(obs.last()) =~= obs);
            assert(w == within(obs.drop_last(), cutoff@).push(obs.last()));
            lemma_window_counts(w);
            lemma_within_len(obs, cutoff@);
            lemma_bursts_shorter(arrivals_of(w), burst_gap as nat);
        }
        let span = match first {
            Some(first) => last.saturating_duration_since(first),
            None => Duration::zero(),
        };
        let arrival = arrival_stats(&intervals, received.events, self.policy.min_arrivals);
        let stall = self.stall(&held, last, cutoff);
        let receive_shortfall = self.shortfall(&held, last, cutoff);
        Some(FlowReading { span, sent, received, arrival, stall, receive_shortfall })
    }
}

proof fn lemma_within_after_cutoff(obs: Seq<FlowObservation>, cutoff: nat)
    ensures
        forall|k: int| 0 <= k < within(obs, cutoff).len() ==> #[trigger] within(obs, cutoff)[k].at@ >= cutoff,
    decreases obs.len(),
{
    if obs.len() > 0 {
        lemma_within_after_cutoff(obs.drop_last(), cutoff);
    }
}

/// A reading never covers more time than its window: a rate is never quoted over a period
/// longer than the one asked for.
pub proof fn lemma_span_within_window(reading: FlowReading, obs: Seq<FlowObservation>, policy: FlowPolicy)
    requires
        obs.len() > 0,
        describes_flow(reading, obs, policy),
    ensures
        reading.span@ <= policy.window@,
{
    let last = obs.last().at@;
    let cutoff = gap(last, policy.window@);
    lemma_within_after_cutoff(obs, cutoff);
    assert(within(obs, cutoff)[0].at@ >= cutoff);
}

} // verus!
