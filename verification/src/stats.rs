//! Sliding-window statistics over probe samples.
//!
//! Everything here is a pure function of the samples handed in, in exact integers. Absent
//! values are `None`, never a zero standing in for "we don't know": a fabricated `0 ms` or
//! `0 % loss` is exactly the kind of confident-looking lie this library must not tell.

use crate::sample::{ProbeOutcome, ProbeSample, Rtt};
use vstd::prelude::*;
use vstd::relations::sorted_by;

verus! {

broadcast use vstd::seq_lib::group_to_multiset_ensures;

/// How many probes of each kind a window contained.
#[derive(Debug, Clone, Copy, PartialEq, Eq, Structural, Default)]
pub struct OutcomeCounts {
    /// Probes that got a reply.
    pub success: usize,
    /// Probes that got no reply in time — the only outcome that counts as loss.
    pub timeout: usize,
    /// Probes the destination explicitly rejected.
    pub unreachable: usize,
    /// Probes filtered on the path, carrying no information about the link.
    pub blocked: usize,
}

impl OutcomeCounts {
    /// Total number of probes counted.
    pub open spec fn spec_total(self) -> nat {
        (self.success + self.timeout + self.unreachable + self.blocked) as nat
    }

    /// Probes that actually tested whether packets get through.
    pub open spec fn spec_delivery_attempts(self) -> nat {
        (self.success + self.timeout) as nat
    }

    /// The counts with one more probe of `outcome`'s kind.
    pub open spec fn with(self, outcome: ProbeOutcome) -> OutcomeCounts {
        match outcome {
            ProbeOutcome::Success(_) => OutcomeCounts { success: (self.success + 1) as usize, ..self },
            ProbeOutcome::Timeout => OutcomeCounts { timeout: (self.timeout + 1) as usize, ..self },
            ProbeOutcome::Unreachable => OutcomeCounts {
                unreachable: (self.unreachable + 1) as usize,
                ..self
            },
            ProbeOutcome::Blocked => OutcomeCounts { blocked: (self.blocked + 1) as usize, ..self },
        }
    }

    /// No probe counted yet.
    pub fn new() -> (c: OutcomeCounts)
        ensures
            c == (OutcomeCounts { success: 0, timeout: 0, unreachable: 0, blocked: 0 }),
    {
        OutcomeCounts { success: 0, timeout: 0, unreachable: 0, blocked: 0 }
    }

    /// Total number of probes counted.
    pub fn total(self) -> (n: usize)
        requires
            self.spec_total() <= usize::MAX,
        ensures
            n == self.spec_total(),
    {
        self.success + self.timeout + self.unreachable + self.blocked
    }

    /// Probes that actually tested whether packets get through.
    pub fn delivery_attempts(self) -> (n: usize)
        requires
            self.spec_total() <= usize::MAX,
        ensures
            n == self.spec_delivery_attempts(),
    {
        self.success + self.timeout
    }

    /// Counts one more probe.
    pub fn record(&mut self, outcome: ProbeOutcome)
        requires
            old(self).spec_total() < usize::MAX,
        ensures
            *final(self) == old(self).with(outcome),
            final(self).spec_total() == old(self).spec_total() + 1,
    {
        match outcome {
            ProbeOutcome::Success(_) => self.success = self.success + 1,
            ProbeOutcome::Timeout => self.timeout = self.timeout + 1,
            ProbeOutcome::Unreachable => self.unreachable = self.unreachable + 1,
            ProbeOutcome::Blocked => self.blocked = self.blocked + 1,
        }
    }
}

/// The outcome counts of a run of samples.
pub open spec fn count_outcomes(samples: Seq<ProbeSample>) -> OutcomeCounts
    decreases samples.len(),
{
    if samples.len() == 0 {
        OutcomeCounts { success: 0, timeout: 0, unreachable: 0, blocked: 0 }
    } else {
        count_outcomes(samples.drop_last()).with(samples.last().outcome)
    }
}

/// The round-trip times of the replies among `samples`, in microseconds, in order.
pub open spec fn replies_of(samples: Seq<ProbeSample>) -> Seq<u32>
    decreases samples.len(),
{
    if samples.len() == 0 {
        Seq::empty()
    } else {
        let earlier = replies_of(samples.drop_last());
        match samples.last().outcome {
            ProbeOutcome::Success(rtt) => earlier.push(rtt.0),
            _ => earlier,
        }
    }
}

/// The replies in ascending order.
pub open spec fn ascending(replies: Seq<u32>) -> Seq<u32> {
    replies.sort_by(|a: u32, b: u32| a <= b)
}

/// The nearest rank of the `p`th percentile among `n` values: `ceil(p/100 × n)` with `p`
/// clamped to `1..=100`, and never below one.
pub open spec fn nearest_rank(p: nat, n: nat) -> nat {
    let p = if p < 1 {
        1
    } else if p > 100 {
        100
    } else {
        p
    };
    let rank = (p * n + 99) / 100;
    if rank < 1 {
        1
    } else {
        rank
    }
}

/// The sum of `values`.
pub open spec fn sum_of(values: Seq<u32>) -> nat
    decreases values.len(),
{
    if values.len() == 0 {
        0
    } else {
        sum_of(values.drop_last()) + values.last() as nat
    }
}

/// The sum of the squares of `values`.
pub open spec fn squares_of(values: Seq<u32>) -> nat
    decreases values.len(),
{
    if values.len() == 0 {
        0
    } else {
        squares_of(values.drop_last()) + values.last() as nat * values.last() as nat
    }
}

proof fn lemma_squares_bounded(values: Seq<u32>)
    ensures
        squares_of(values) <= values.len() * (u32::MAX as nat * u32::MAX as nat),
    decreases values.len(),
{
    if values.len() > 0 {
        lemma_squares_bounded(values.drop_last());
        let x = values.last() as nat;
        let k = u32::MAX as nat * u32::MAX as nat;
        assert(x * x <= k) by (nonlinear_arith)
            requires
                x <= u32::MAX,
                k == u32::MAX as nat * u32::MAX as nat,
        ;
        let n = values.len();
        assert((n - 1) * k + k == n * k) by (nonlinear_arith)
            requires
                n >= 1,
        ;
    }
}

/// One step of RFC 3550 interarrival jitter in whole nanoseconds: the estimate moves a
/// sixteenth of the way towards the latest deviation, the fraction rounded towards zero.
pub open spec fn jitter_step(jitter: nat, deviation: nat) -> nat {
    if deviation >= jitter {
        (jitter + (deviation - jitter) / 16) as nat
    } else {
        (jitter - (jitter - deviation) / 16) as nat
    }
}

/// RFC 3550 interarrival jitter over consecutive replies, in whole nanoseconds.
///
/// A round-trip probe cannot observe one-way transit, so — as ping implementations
/// conventionally do — the difference of consecutive round-trip times stands in for it.
/// Zero for fewer than two replies.
pub open spec fn jitter_of(replies: Seq<u32>) -> nat
    decreases replies.len(),
{
    if replies.len() < 2 {
        0
    } else {
        let last = replies.last();
        let previous = replies[replies.len() - 2];
        let deviation: nat = if last >= previous {
            ((last - previous) * 1000) as nat
        } else {
            ((previous - last) * 1000) as nat
        };
        jitter_step(jitter_of(replies.drop_last()), deviation)
    }
}

proof fn lemma_jitter_bounded(replies: Seq<u32>)
    ensures
        jitter_of(replies) <= u32::MAX * 1000,
    decreases replies.len(),
{
    if replies.len() >= 2 {
        lemma_jitter_bounded(replies.drop_last());
    }
}

proof fn lemma_sum_bounded(values: Seq<u32>)
    ensures
        sum_of(values) <= values.len() * u32::MAX,
    decreases values.len(),
{
    if values.len() > 0 {
        lemma_sum_bounded(values.drop_last());
    }
}

proof fn lemma_ascending(replies: Seq<u32>)
    ensures
        ascending(replies).to_multiset() == replies.to_multiset(),
        sorted_by(ascending(replies), |a: u32, b: u32| a <= b),
        ascending(replies).len() == replies.len(),
{
    replies.lemma_sort_by_ensures(|a: u32, b: u32| a <= b);
    vstd::seq_lib::to_multiset_len(replies);
    vstd::seq_lib::to_multiset_len(ascending(replies));
}

/// The value at the nearest rank of the `p`th percentile of `sorted`, or `None` for an
/// empty slice.
///
/// Rank is `ceil(p/100 × n)` in integer arithmetic, so the boundaries are exact; `p` is
/// clamped to `1..=100`, so no combination can escape the slice.
pub fn percentile(sorted: &[Rtt], p: u32) -> (r: Option<Rtt>)
    ensures
        sorted@.len() == 0 ==> r is None,
        sorted@.len() > 0 ==> r == Some(
            sorted@[nearest_rank(p as nat, sorted@.len()) - 1],
        ),
        sorted@.len() > 0 ==> 1 <= nearest_rank(p as nat, sorted@.len()) <= sorted@.len(),
{
    let count = sorted.len();
    if count == 0 {
        return None;
    }
    let p: u128 = if p < 1 {
        1
    } else if p > 100 {
        100
    } else {
        p as u128
    };
    proof {
        assert(p * count <= 100 * count) by (nonlinear_arith)
            requires
                p <= 100,
        ;
        assert((p * count + 99) / 100 <= count) by (nonlinear_arith)
            requires
                p <= 100,
        ;
    }
    let rank = (p * count as u128 + 99) / 100;
    let rank = if rank < 1 {
        1
    } else {
        rank
    };
    Some(sorted[(rank - 1) as usize])
}

/// Round-trip time statistics over the replies in a window.
#[derive(Debug, Clone, Copy, PartialEq, Eq, Structural)]
pub struct RttStats {
    /// How many replies these figures are based on.
    pub count: usize,
    /// Fastest reply.
    pub min: Rtt,
    /// Slowest reply.
    pub max: Rtt,
    /// The sum of every reply, in microseconds; over `count` it is the exact mean.
    pub sum_micros: u128,
    /// The sum of the square of every reply, in square microseconds; with `sum_micros` it
    /// gives the exact population variance.
    pub sum_squares: u128,
    /// Median (50th percentile).
    pub p50: Rtt,
    /// 95th percentile.
    pub p95: Rtt,
    /// 99th percentile.
    pub p99: Rtt,
    /// RFC 3550 interarrival jitter in nanoseconds; `None` with fewer than two replies.
    pub jitter_ns: Option<u64>,
}

/// Everything a window of samples says about a target.
#[derive(Debug, Clone, Copy, PartialEq, Eq, Structural)]
pub struct WindowStats {
    /// Probe counts by outcome.
    pub outcomes: OutcomeCounts,
    /// Round-trip statistics, or `None` when nothing replied.
    pub rtt: Option<RttStats>,
}

/// What a window of samples says: its counts, and statistics over its replies.
pub open spec fn describes(stats: WindowStats, samples: Seq<ProbeSample>) -> bool {
    let replies = replies_of(samples);
    let sorted = ascending(replies);
    &&& stats.outcomes == count_outcomes(samples)
    &&& replies.len() == 0 ==> stats.rtt is None
    &&& replies.len() > 0 ==> (stats.rtt matches Some(rtt) && {
        &&& rtt.count == replies.len()
        &&& rtt.min.0 == sorted[0]
        &&& rtt.max.0 == sorted[sorted.len() - 1]
        &&& rtt.sum_micros == sum_of(replies)
        &&& rtt.sum_squares == squares_of(replies)
        &&& rtt.p50.0 == sorted[nearest_rank(50, replies.len()) - 1]
        &&& rtt.p95.0 == sorted[nearest_rank(95, replies.len()) - 1]
        &&& rtt.p99.0 == sorted[nearest_rank(99, replies.len()) - 1]
        &&& rtt.jitter_ns == if replies.len() < 2 {
            None
        } else {
            Some(jitter_of(replies) as u64)
        }
    })
}

proof fn lemma_counts_bounded(samples: Seq<ProbeSample>)
    requires
        samples.len() <= usize::MAX,
    ensures
        count_outcomes(samples).spec_total() == samples.len(),
        replies_of(samples).len() == count_outcomes(samples).success,
    decreases samples.len(),
{
    if samples.len() > 0 {
        lemma_counts_bounded(samples.drop_last());
    }
}

/// `values` sorted ascending, by insertion.
fn sorted_ascending(values: &Vec<u32>) -> (sorted: Vec<u32>)
    ensures
        sorted@ == ascending(values@),
{
    let mut sorted: Vec<u32> = Vec::new();
    let mut i: usize = 0;
    while i < values.len()
        invariant
            i <= values@.len(),
            forall|a: int, b: int| 0 <= a < b < sorted@.len() ==> sorted@[a] <= sorted@[b],
            sorted@.to_multiset() == values@.take(i as int).to_multiset(),
        decreases values@.len() - i,
    {
        let x = values[i];
        let mut p: usize = 0;
        while p < sorted.len() && sorted[p] <= x
            invariant
                p <= sorted@.len(),
                forall|k: int| 0 <= k < p ==> sorted@[k] <= x,
            decreases sorted@.len() - p,
        {
            p = p + 1;
        }
        let ghost before = sorted@;
        sorted.insert(p, x);
        proof {
            assert forall|a: int, b: int| 0 <= a < b < sorted@.len() implies sorted@[a]
                <= sorted@[b] by {
                if b < p {
                    assert(before[a] <= before[b]);
                } else if b == p {
                } else if a < p {
                    assert(sorted@[b] == before[b - 1]);
                    assert(before[a] <= before[b - 1]);
                } else if a == p {
                    assert(sorted@[b] == before[b - 1]);
                    assert(before[p as int] <= before[b - 1]);
                } else {
                    assert(before[a - 1] <= before[b - 1]);
                }
            }
            assert(values@.take(i + 1) =~= values@.take(i as int).push(x));
        }
        i = i + 1;
    }
    proof {
        assert(values@.take(values@.len() as int) =~= values@);
        assert(sorted_by(sorted@, |a: u32, b: u32| a <= b));
        lemma_ascending(values@);
        vstd::seq_lib::lemma_sorted_unique(
            sorted@,
            ascending(values@),
            |a: u32, b: u32| a <= b,
        );
    }
    sorted
}

impl WindowStats {
    /// Computes statistics over `samples`, which must be in chronological order.
    ///
    /// Order matters only for jitter, which is defined over consecutive replies; timeouts
    /// and filtered probes in between are skipped rather than treated as gaps.
    pub fn of(samples: &[ProbeSample]) -> (stats: WindowStats)
        ensures
            describes(stats, samples@),
    {
        let mut outcomes = OutcomeCounts::new();
        let mut replies: Vec<u32> = Vec::new();
        let mut i: usize = 0;
        while i < samples.len()
            invariant
                i <= samples@.len(),
                outcomes == count_outcomes(samples@.take(i as int)),
                replies@ == replies_of(samples@.take(i as int)),
            decreases samples@.len() - i,
        {
            proof {
                assert(samples@.take(i + 1).drop_last() =~= samples@.take(i as int));
                lemma_counts_bounded(samples@.take(i as int));
            }
            let sample = samples[i];
            outcomes.record(sample.outcome);
            match sample.outcome {
                ProbeOutcome::Success(rtt) => replies.push(rtt.0),
                _ => {},
            }
            i = i + 1;
        }
        proof {
            assert(samples@.take(samples@.len() as int) =~= samples@);
        }
        if replies.len() == 0 {
            return WindowStats { outcomes, rtt: None };
        }
        // Jitter over consecutive replies, in arrival order.
        let mut jitter: u64 = 0;
        let mut k: usize = 1;
        while k < replies.len()
            invariant
                1 <= k <= replies@.len(),
                jitter == jitter_of(replies@.take(k as int)),
            decreases replies@.len() - k,
        {
            let previous = replies[k - 1];
            let current = replies[k];
            let deviation: u64 = if current >= previous {
                (current - previous) as u64 * 1000
            } else {
                (previous - current) as u64 * 1000
            };
            proof {
                assert(replies@.take(k + 1).drop_last() =~= replies@.take(k as int));
                lemma_jitter_bounded(replies@.take(k as int));
            }
            jitter = if deviation >= jitter {
                jitter + (deviation - jitter) / 16
            } else {
                jitter - (jitter - deviation) / 16
            };
            k = k + 1;
        }
        proof {
            assert(replies@.take(replies@.len() as int) =~= replies@);
        }
        // The exact sum, for the mean.
        let mut sum: u128 = 0;
        let mut s: usize = 0;
        while s < replies.len()
            invariant
                s <= replies@.len(),
                sum == sum_of(replies@.take(s as int)),
            decreases replies@.len() - s,
        {
            proof {
                assert(replies@.take(s + 1).drop_last() =~= replies@.take(s as int));
                lemma_sum_bounded(replies@.take(s as int));
                assert(s * u32::MAX <= usize::MAX * u32::MAX) by (nonlinear_arith);
            }
            sum = sum + replies[s] as u128;
            s = s + 1;
        }
        proof {
            assert(replies@.take(replies@.len() as int) =~= replies@);
        }
        // The exact sum of squares, for the spread.
        let mut squares: u128 = 0;
        let mut q: usize = 0;
        while q < replies.len()
            invariant
                q <= replies@.len(),
                squares == squares_of(replies@.take(q as int)),
            decreases replies@.len() - q,
        {
            let x = replies[q];
            proof {
                assert(replies@.take(q + 1).drop_last() =~= replies@.take(q as int));
                lemma_squares_bounded(replies@.take(q as int));
                assert(q * (u32::MAX as nat * u32::MAX as nat) + x as nat * x as nat
                    <= u128::MAX) by (nonlinear_arith)
                    requires
                        q < usize::MAX,
                        x <= u32::MAX,
                ;
            }
            squares = squares + (x as u128) * (x as u128);
            q = q + 1;
        }
        proof {
            assert(replies@.take(replies@.len() as int) =~= replies@);
        }
        let ascending_replies = sorted_ascending(&replies);
        proof {
            lemma_ascending(replies@);
        }
        let count = ascending_replies.len();
        let mut as_rtts: Vec<Rtt> = Vec::new();
        let mut r: usize = 0;
        while r < count
            invariant
                r <= count,
                count == ascending_replies@.len(),
                as_rtts@.len() == r,
                forall|x: int| 0 <= x < r ==> #[trigger] as_rtts@[x].0 == ascending_replies@[x],
            decreases count - r,
        {
            as_rtts.push(Rtt(ascending_replies[r]));
            r = r + 1;
        }
        let p50 = percentile(as_rtts.as_slice(), 50);
        let p95 = percentile(as_rtts.as_slice(), 95);
        let p99 = percentile(as_rtts.as_slice(), 99);
        let (p50, p95, p99) = match (p50, p95, p99) {
            (Some(a), Some(b), Some(c)) => (a, b, c),
            _ => (Rtt(0), Rtt(0), Rtt(0)),
        };
        let jitter_ns = if replies.len() < 2 {
            None
        } else {
            Some(jitter)
        };
        WindowStats {
            outcomes,
            rtt: Some(
                RttStats {
                    count,
                    min: as_rtts[0],
                    max: as_rtts[count - 1],
                    sum_micros: sum,
                    sum_squares: squares,
                    p50,
                    p95,
                    p99,
                    jitter_ns,
                },
            ),
        }
    }

    /// Whether every probe was filtered, which must be shown as "probe blocked" rather
    /// than as a loss figure.
    pub fn is_entirely_blocked(&self) -> (b: bool)
        requires
            self.outcomes.spec_total() <= usize::MAX,
        ensures
            b == (self.outcomes.blocked > 0 && self.outcomes.blocked
                == self.outcomes.spec_total()),
    {
        self.outcomes.blocked > 0 && self.outcomes.blocked == self.outcomes.total()
    }

    /// Loss as timeouts over delivery attempts, or `None` when nothing tested delivery.
    ///
    /// An idle or entirely filtered window quotes no loss figure at all.
    pub fn loss(&self) -> (r: Option<(usize, usize)>)
        requires
            self.outcomes.spec_total() <= usize::MAX,
        ensures
            self.outcomes.spec_delivery_attempts() == 0 ==> r is None,
            self.outcomes.spec_delivery_attempts() > 0 ==> r == Some(
                (self.outcomes.timeout, self.outcomes.spec_delivery_attempts() as usize),
            ),
    {
        let attempts = self.outcomes.delivery_attempts();
        if attempts == 0 {
            None
        } else {
            Some((self.outcomes.timeout, attempts))
        }
    }
}

} // verus!
