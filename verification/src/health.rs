//! Turning measurements into a verdict.
//!
//! Nothing here invents a number: a target with no delivery test is `Unknown`, never
//! "0 % loss", and a group with nothing measured yet is `Unknown`, never green.

use crate::stats::WindowStats;
use vstd::prelude::*;

verus! {

/// How something is doing, as far as its measurements can honestly say.
///
/// The same states describe one target and a whole group.
#[derive(Debug, Clone, Copy, PartialEq, Eq, Structural, Hash)]
pub enum Health {
    /// Answering, within every threshold.
    Healthy,
    /// Answering, but losing packets, slow or unstable.
    Degraded,
    /// Nothing gets through, or the destination explicitly refuses.
    Unreachable,
    /// Every probe was filtered, so nothing about the link was measured at all.
    Blocked,
    /// Data demonstrably crosses this endpoint, but no probe gets an answer.
    ///
    /// The normal state of a game's match server, which answers no probe while the game
    /// plays perfectly well over it.
    CarryingTraffic,
    /// Not measured enough yet to say anything.
    Unknown,
}

impl Health {
    /// Whether something came back.
    pub open spec fn spec_is_answering(self) -> bool {
        self is Healthy || self is Degraded
    }

    /// Whether the measurements support any verdict at all.
    pub open spec fn spec_is_known(self) -> bool {
        !(self is Unknown)
    }

    /// Whether this state says the endpoint is alive, however little else it says.
    pub open spec fn spec_is_alive(self) -> bool {
        self is Healthy || self is Degraded || self is CarryingTraffic
    }

    /// Whether something came back.
    pub fn is_answering(self) -> (b: bool)
        ensures
            b == self.spec_is_answering(),
    {
        match self {
            Health::Healthy | Health::Degraded => true,
            _ => false,
        }
    }

    /// Whether the measurements support any verdict at all.
    pub fn is_known(self) -> (b: bool)
        ensures
            b == self.spec_is_known(),
    {
        match self {
            Health::Unknown => false,
            _ => true,
        }
    }

    /// Whether this state says the endpoint is alive.
    pub fn is_alive(self) -> (b: bool)
        ensures
            b == self.spec_is_alive(),
    {
        match self {
            Health::Healthy | Health::Degraded | Health::CarryingTraffic => true,
            _ => false,
        }
    }
}

/// Folds passive evidence into a verdict the probes reached on their own.
///
/// It only ever softens a verdict that the endpoint is not there: `Unreachable` becomes
/// `CarryingTraffic` when bytes cross the endpoint, and `Unknown` does too once there is no
/// probe kind left to try. Proven filtering, and any verdict built on probes that answered,
/// are left alone.
pub fn with_passive_evidence(probed: Health, carrying: bool, measurable: bool) -> (h: Health)
    ensures
        h == if !carrying {
            probed
        } else {
            match probed {
                Health::Unreachable => Health::CarryingTraffic,
                Health::Unknown => if measurable {
                    Health::Unknown
                } else {
                    Health::CarryingTraffic
                },
                other => other,
            }
        },
        // Passive evidence never makes a verdict worse, and never touches a measured one.
        probed.spec_is_alive() ==> h == probed,
        probed is Blocked ==> h == probed,
{
    if !carrying {
        return probed;
    }
    match probed {
        Health::Unreachable => Health::CarryingTraffic,
        Health::Unknown => if measurable {
            Health::Unknown
        } else {
            Health::CarryingTraffic
        },
        other => other,
    }
}

/// How many members of a group are in each state.
#[derive(Debug, Clone, Copy, PartialEq, Eq, Structural, Default)]
pub struct HealthCounts {
    /// Members answering within every threshold.
    pub ok: usize,
    /// Members answering but degraded.
    pub degraded: usize,
    /// Members nothing gets through to.
    pub unreachable: usize,
    /// Members whose probes are all filtered.
    pub blocked: usize,
    /// Members proven alive by their traffic, with no probe answering.
    pub carrying_traffic: usize,
    /// Members not measured enough to judge.
    pub unknown: usize,
}

impl HealthCounts {
    /// No member counted yet.
    pub fn new() -> (c: HealthCounts)
        ensures
            c.spec_total() == 0,
            c == (HealthCounts {
                ok: 0,
                degraded: 0,
                unreachable: 0,
                blocked: 0,
                carrying_traffic: 0,
                unknown: 0,
            }),
    {
        HealthCounts { ok: 0, degraded: 0, unreachable: 0, blocked: 0, carrying_traffic: 0, unknown: 0 }
    }

    /// How many members were counted.
    pub open spec fn spec_total(self) -> nat {
        (self.ok + self.degraded + self.unreachable + self.blocked + self.carrying_traffic
            + self.unknown) as nat
    }

    /// Members that came back.
    pub open spec fn spec_answering(self) -> nat {
        (self.ok + self.degraded) as nat
    }

    /// Members whose measurements support a verdict.
    pub open spec fn spec_known(self) -> nat {
        (self.spec_total() - self.unknown) as nat
    }

    /// The counts with one more member in `health`'s state.
    pub open spec fn with(self, health: Health) -> HealthCounts {
        match health {
            Health::Healthy => HealthCounts { ok: (self.ok + 1) as usize, ..self },
            Health::Degraded => HealthCounts { degraded: (self.degraded + 1) as usize, ..self },
            Health::Unreachable => HealthCounts {
                unreachable: (self.unreachable + 1) as usize,
                ..self
            },
            Health::Blocked => HealthCounts { blocked: (self.blocked + 1) as usize, ..self },
            Health::CarryingTraffic => HealthCounts {
                carrying_traffic: (self.carrying_traffic + 1) as usize,
                ..self
            },
            Health::Unknown => HealthCounts { unknown: (self.unknown + 1) as usize, ..self },
        }
    }

    /// Adds one member's verdict.
    ///
    /// The counts stay below `usize::MAX` in total, which is what makes every figure
    /// derived from them exact.
    pub fn record(&mut self, health: Health)
        requires
            old(self).spec_total() < usize::MAX,
        ensures
            *final(self) == old(self).with(health),
            final(self).spec_total() == old(self).spec_total() + 1,
    {
        match health {
            Health::Healthy => self.ok = self.ok + 1,
            Health::Degraded => self.degraded = self.degraded + 1,
            Health::Unreachable => self.unreachable = self.unreachable + 1,
            Health::Blocked => self.blocked = self.blocked + 1,
            Health::CarryingTraffic => self.carrying_traffic = self.carrying_traffic + 1,
            Health::Unknown => self.unknown = self.unknown + 1,
        }
    }

    /// How many members were counted.
    pub fn total(self) -> (n: usize)
        requires
            self.spec_total() <= usize::MAX,
        ensures
            n == self.spec_total(),
    {
        self.ok + self.degraded + self.unreachable + self.blocked + self.carrying_traffic
            + self.unknown
    }

    /// Members that came back.
    pub fn answering(self) -> (n: usize)
        requires
            self.spec_total() <= usize::MAX,
        ensures
            n == self.spec_answering(),
    {
        self.ok + self.degraded
    }

    /// Members whose measurements support a verdict.
    pub fn known(self) -> (n: usize)
        requires
            self.spec_total() <= usize::MAX,
        ensures
            n == self.spec_known(),
    {
        self.total() - self.unknown
    }
}

/// The headline verdict a distribution implies.
///
/// Nothing known is `Unknown`. Anything answering makes the group `Healthy` only when nothing
/// else is wrong with it — a member merely proven alive is no clean sweep — and `Degraded`
/// otherwise. With nothing answering, being alive outranks every explanation of silence,
/// and an explicit refusal outranks filtering.
pub open spec fn spec_verdict_for(counts: HealthCounts) -> Health {
    if counts.spec_known() == 0 {
        Health::Unknown
    } else if counts.spec_answering() > 0 {
        if counts.degraded == 0 && counts.unreachable == 0 && counts.blocked == 0
            && counts.carrying_traffic == 0 {
            Health::Healthy
        } else {
            Health::Degraded
        }
    } else if counts.carrying_traffic > 0 {
        Health::CarryingTraffic
    } else if counts.unreachable > 0 {
        Health::Unreachable
    } else {
        Health::Blocked
    }
}

/// The headline verdict a distribution implies.
pub fn verdict_for(counts: HealthCounts) -> (h: Health)
    requires
        counts.spec_total() <= usize::MAX,
    ensures
        h == spec_verdict_for(counts),
{
    if counts.known() == 0 {
        return Health::Unknown;
    }
    if counts.answering() > 0 {
        if counts.degraded == 0 && counts.unreachable == 0 && counts.blocked == 0
            && counts.carrying_traffic == 0 {
            return Health::Healthy;
        }
        return Health::Degraded;
    }
    if counts.carrying_traffic > 0 {
        return Health::CarryingTraffic;
    }
    if counts.unreachable > 0 {
        Health::Unreachable
    } else {
        Health::Blocked
    }
}

/// A group verdict is never better than its distribution allows: it is `Healthy` only when every
/// judged member is, and `Unknown` only when no member is judged.
pub proof fn lemma_verdict_honest(counts: HealthCounts)
    ensures
        spec_verdict_for(counts) is Healthy <==> (counts.ok > 0 && counts.degraded == 0
            && counts.unreachable == 0 && counts.blocked == 0 && counts.carrying_traffic == 0),
        spec_verdict_for(counts) is Unknown <==> counts.spec_known() == 0,
{
}

/// With nothing answering and nothing proven alive by its traffic, an explicit refusal
/// anywhere outranks filtering: a distribution with some judged member, none answering and
/// none carrying traffic is `Unreachable` exactly when some member is unreachable, and
/// `Blocked` exactly when none is, however many members were filtered.
pub proof fn lemma_refusal_outranks_filtering(counts: HealthCounts)
    requires
        counts.ok == 0,
        counts.degraded == 0,
        counts.carrying_traffic == 0,
        counts.unreachable > 0 || counts.blocked > 0,
    ensures
        spec_verdict_for(counts) is Unreachable <==> counts.unreachable > 0,
        spec_verdict_for(counts) is Blocked <==> counts.unreachable == 0,
{
}

/// A group verdict follows the states its members are in: any answering member makes it
/// `Healthy` or `Degraded`; with none answering, a member proven alive by its traffic makes
/// it `CarryingTraffic`; and it is never a state no member is in, save `Degraded`, which a
/// mix of answering and failing members earns.
pub proof fn lemma_verdict_follows_members(counts: HealthCounts)
    requires
        counts.spec_known() > 0,
    ensures
        counts.ok + counts.degraded > 0 ==> (spec_verdict_for(counts) is Healthy
            || spec_verdict_for(counts) is Degraded),
        counts.ok + counts.degraded == 0 && counts.carrying_traffic > 0 ==> spec_verdict_for(
            counts,
        ) is CarryingTraffic,
        spec_verdict_for(counts) is Unreachable ==> counts.unreachable > 0,
        spec_verdict_for(counts) is Blocked ==> counts.blocked > 0 && counts.unreachable == 0,
        spec_verdict_for(counts) is CarryingTraffic ==> counts.carrying_traffic > 0,
{
}

/// One target's window with no delivery test at all is judged by its refusals: `Unreachable`
/// when anything refused, `Blocked` when every probe was only filtered.
pub proof fn lemma_untested_window_is_judged_by_refusals(t: HealthThresholds, stats: WindowStats)
    requires
        stats.outcomes.success == 0,
        stats.outcomes.timeout == 0,
        stats.outcomes.unreachable + stats.outcomes.blocked > 0,
    ensures
        judged(t, stats) is Unreachable <==> stats.outcomes.unreachable > 0,
        judged(t, stats) is Blocked <==> stats.outcomes.unreachable == 0,
{
}

/// Where the line between healthy, degraded and dead is drawn.
///
/// Values, not constants, so a settings page can move them and every test can pin them.
/// They are exact integers: loss in hundredths of a percent, times in microseconds.
#[derive(Debug, Clone, Copy, PartialEq, Eq, Structural)]
pub struct HealthThresholds {
    /// How many delivery-testing probes a window needs before it is judged at all.
    pub min_delivery_attempts: usize,
    /// Loss at or above this many hundredths of a percent is degradation.
    pub degraded_loss_bp: u32,
    /// A mean round-trip time at or above this many microseconds is degradation.
    pub degraded_rtt_us: u64,
    /// Jitter at or above this many microseconds is degradation.
    pub degraded_jitter_us: u64,
}

/// The verdict one target's window supports under `t`.
///
/// No probe at all is `Unknown`. No delivery test is `Unreachable` if anything refused,
/// else `Blocked`. Fewer delivery tests than the minimum is `Unknown`. Total loss is
/// `Unreachable`; loss, a slow mean or jitter at or above their lines is `Degraded`;
/// anything else is `Healthy`.
pub open spec fn judged(t: HealthThresholds, stats: WindowStats) -> Health {
    let o = stats.outcomes;
    let attempts = o.success + o.timeout;
    if o.success + o.timeout + o.unreachable + o.blocked == 0 {
        Health::Unknown
    } else if attempts == 0 {
        if o.unreachable > 0 {
            Health::Unreachable
        } else {
            Health::Blocked
        }
    } else if attempts < t.min_delivery_attempts {
        Health::Unknown
    } else if o.timeout == attempts {
        Health::Unreachable
    } else if o.timeout * 10_000 >= t.degraded_loss_bp * attempts {
        Health::Degraded
    } else {
        match stats.rtt {
            Some(rtt) => if rtt.sum_micros >= t.degraded_rtt_us * rtt.count {
                Health::Degraded
            } else {
                match rtt.jitter_ns {
                    Some(j) => if j >= t.degraded_jitter_us * 1000 {
                        Health::Degraded
                    } else {
                        Health::Healthy
                    },
                    None => Health::Healthy,
                }
            },
            None => Health::Healthy,
        }
    }
}

/// A window judged on enough delivery tests reads its deliveries: with every test lost it
/// is `Unreachable`; with anything delivered it answers, `Healthy` or `Degraded`, and is
/// never read as unreachable, filtered or unknown.
pub proof fn lemma_window_reads_its_deliveries(t: HealthThresholds, stats: WindowStats)
    requires
        stats.outcomes.success + stats.outcomes.timeout > 0,
        stats.outcomes.success + stats.outcomes.timeout >= t.min_delivery_attempts,
    ensures
        stats.outcomes.success == 0 ==> judged(t, stats) is Unreachable,
        stats.outcomes.success > 0 ==> judged(t, stats).spec_is_answering(),
{
}

/// A window is `Healthy` only when its losses sit below the loss line; a loss at or above
/// it, with something delivered, makes it `Degraded`.
pub proof fn lemma_loss_line(t: HealthThresholds, stats: WindowStats)
    requires
        stats.outcomes.success > 0,
        stats.outcomes.success + stats.outcomes.timeout >= t.min_delivery_attempts,
    ensures
        judged(t, stats) is Healthy ==> stats.outcomes.timeout * 10_000 < t.degraded_loss_bp * (
        stats.outcomes.success + stats.outcomes.timeout),
        stats.outcomes.timeout * 10_000 >= t.degraded_loss_bp * (stats.outcomes.success
            + stats.outcomes.timeout) ==> judged(t, stats) is Degraded,
{
}

impl Default for HealthThresholds {
    /// Two delivery tests, 2 % loss, a 150 ms mean and 30 ms of jitter.
    ///
    /// A competitive game notices a couple of percent of loss and 30 ms of jitter long
    /// before it notices absolute latency, and 150 ms is roughly where an intercontinental
    /// path stops being playable.
    fn default() -> (t: HealthThresholds)
        ensures
            t == (HealthThresholds {
                min_delivery_attempts: 2,
                degraded_loss_bp: 200,
                degraded_rtt_us: 150_000,
                degraded_jitter_us: 30_000,
            }),
    {
        HealthThresholds {
            min_delivery_attempts: 2,
            degraded_loss_bp: 200,
            degraded_rtt_us: 150_000,
            degraded_jitter_us: 30_000,
        }
    }
}

impl HealthThresholds {
    /// Judges one target's window of samples.
    pub fn health_of(&self, stats: &WindowStats) -> (h: Health)
        ensures
            h == judged(*self, *stats),
    {
        let o = stats.outcomes;
        let total = o.success as u128 + o.timeout as u128 + o.unreachable as u128
            + o.blocked as u128;
        let attempts = o.success as u128 + o.timeout as u128;
        if total == 0 {
            return Health::Unknown;
        }
        if attempts == 0 {
            return if o.unreachable > 0 {
                Health::Unreachable
            } else {
                Health::Blocked
            };
        }
        if attempts < self.min_delivery_attempts as u128 {
            return Health::Unknown;
        }
        if o.timeout as u128 == attempts {
            return Health::Unreachable;
        }
        proof {
            assert(o.timeout * 10_000 <= u64::MAX * 10_000);
            assert(self.degraded_loss_bp * attempts <= u32::MAX * (2 * u64::MAX)) by (
            nonlinear_arith)
                requires
                    attempts <= 2 * u64::MAX,
                    self.degraded_loss_bp <= u32::MAX,
            ;
        }
        if o.timeout as u128 * 10_000 >= self.degraded_loss_bp as u128 * attempts {
            return Health::Degraded;
        }
        match stats.rtt {
            Some(rtt) => {
                proof {
                    assert(self.degraded_rtt_us * rtt.count <= u64::MAX * u64::MAX) by (
                    nonlinear_arith)
                        requires
                            self.degraded_rtt_us <= u64::MAX,
                            rtt.count <= u64::MAX,
                    ;
                }
                if rtt.sum_micros >= self.degraded_rtt_us as u128 * rtt.count as u128 {
                    return Health::Degraded;
                }
                match rtt.jitter_ns {
                    Some(j) => if j as u128 >= self.degraded_jitter_us as u128 * 1000 {
                        Health::Degraded
                    } else {
                        Health::Healthy
                    },
                    None => Health::Healthy,
                }
            },
            None => Health::Healthy,
        }
    }
}

/// The verdicts of `members`, counted.
pub open spec fn count_judged(verdicts: Seq<Health>) -> HealthCounts
    decreases verdicts.len(),
{
    if verdicts.len() == 0 {
        HealthCounts { ok: 0, degraded: 0, unreachable: 0, blocked: 0, carrying_traffic: 0, unknown: 0 }
    } else {
        count_judged(verdicts.drop_last()).with(verdicts.last())
    }
}

proof fn lemma_count_judged_total(verdicts: Seq<Health>)
    requires
        verdicts.len() <= usize::MAX,
    ensures
        count_judged(verdicts).spec_total() == verdicts.len(),
    decreases verdicts.len(),
{
    if verdicts.len() > 0 {
        lemma_count_judged_total(verdicts.drop_last());
    }
}

/// Every timeout across a run of windows.
pub open spec fn total_timeouts(members: Seq<WindowStats>) -> nat
    decreases members.len(),
{
    if members.len() == 0 {
        0
    } else {
        (total_timeouts(members.drop_last()) + members.last().outcomes.timeout) as nat
    }
}

/// Every answered probe across a run of windows.
pub open spec fn total_successes(members: Seq<WindowStats>) -> nat
    decreases members.len(),
{
    if members.len() == 0 {
        0
    } else {
        (total_successes(members.drop_last()) + members.last().outcomes.success) as nat
    }
}

proof fn lemma_totals_bounded(members: Seq<WindowStats>)
    ensures
        total_timeouts(members) <= members.len() * u64::MAX,
        total_successes(members) <= members.len() * u64::MAX,
    decreases members.len(),
{
    if members.len() > 0 {
        lemma_totals_bounded(members.drop_last());
    }
}

/// What a group of targets says, taken together.
#[derive(Debug, Clone, Copy, PartialEq, Eq, Structural)]
pub struct GroupHealth {
    /// The headline verdict.
    pub verdict: Health,
    /// The distribution behind it, which must be shown rather than hidden.
    pub counts: HealthCounts,
    /// Every timeout across the group.
    pub timeouts: u128,
    /// Every answered probe across the group.
    ///
    /// Loss across the group is the timeouts over timeouts and answers together: weighted
    /// by probes rather than averaged over members, and absent when the group tested
    /// delivery nowhere.
    pub successes: u128,
}

impl GroupHealth {
    /// Judges a group from its members' windows.
    pub fn of(members: &[WindowStats], thresholds: &HealthThresholds) -> (g: GroupHealth)
        ensures
            g.counts == count_judged(members@.map_values(|m: WindowStats| judged(*thresholds, m))),
            g.verdict == spec_verdict_for(g.counts),
            g.timeouts == total_timeouts(members@),
            g.successes == total_successes(members@),
    {
        let ghost verdicts = members@.map_values(|m: WindowStats| judged(*thresholds, m));
        let mut counts = HealthCounts::new();
        let mut timeouts: u128 = 0;
        let mut successes: u128 = 0;
        let mut i: usize = 0;
        while i < members.len()
            invariant
                i <= members@.len(),
                verdicts == members@.map_values(|m: WindowStats| judged(*thresholds, m)),
                counts == count_judged(verdicts.take(i as int)),
                timeouts == total_timeouts(members@.take(i as int)),
                successes == total_successes(members@.take(i as int)),
            decreases members@.len() - i,
        {
            proof {
                assert(verdicts.take(i + 1).drop_last() =~= verdicts.take(i as int));
                assert(members@.take(i + 1).drop_last() =~= members@.take(i as int));
                lemma_count_judged_total(verdicts.take(i as int));
                lemma_totals_bounded(members@.take(i as int));
                assert(i * u64::MAX <= usize::MAX * u64::MAX) by (nonlinear_arith);
            }
            let stats = members[i];
            counts.record(thresholds.health_of(&stats));
            timeouts = timeouts + stats.outcomes.timeout as u128;
            successes = successes + stats.outcomes.success as u128;
            i = i + 1;
        }
        proof {
            assert(verdicts.take(members@.len() as int) =~= verdicts);
            assert(members@.take(members@.len() as int) =~= members@);
            lemma_count_judged_total(verdicts);
        }
        GroupHealth { verdict: verdict_for(counts), counts, timeouts, successes }
    }
}

impl GroupHealth {
    /// Rolls up members whose verdicts were already reached, each beside the window of
    /// statistics shown with it: the verdicts make the distribution, the windows the loss.
    pub fn of_judged(members: &[(Health, WindowStats)]) -> (g: GroupHealth)
        ensures
            g.counts == count_judged(members@.map_values(|m: (Health, WindowStats)| m.0)),
            g.verdict == spec_verdict_for(g.counts),
            g.timeouts == total_timeouts(members@.map_values(|m: (Health, WindowStats)| m.1)),
            g.successes == total_successes(members@.map_values(|m: (Health, WindowStats)| m.1)),
    {
        let ghost verdicts = members@.map_values(|m: (Health, WindowStats)| m.0);
        let ghost windows = members@.map_values(|m: (Health, WindowStats)| m.1);
        let mut counts = HealthCounts::new();
        let mut timeouts: u128 = 0;
        let mut successes: u128 = 0;
        let mut i: usize = 0;
        while i < members.len()
            invariant
                i <= members@.len(),
                verdicts == members@.map_values(|m: (Health, WindowStats)| m.0),
                windows == members@.map_values(|m: (Health, WindowStats)| m.1),
                counts == count_judged(verdicts.take(i as int)),
                timeouts == total_timeouts(windows.take(i as int)),
                successes == total_successes(windows.take(i as int)),
            decreases members@.len() - i,
        {
            proof {
                assert(verdicts.take(i + 1).drop_last() =~= verdicts.take(i as int));
                assert(windows.take(i + 1).drop_last() =~= windows.take(i as int));
                lemma_count_judged_total(verdicts.take(i as int));
                lemma_totals_bounded(windows.take(i as int));
                assert(i * u64::MAX <= usize::MAX * u64::MAX) by (nonlinear_arith);
            }
            let (health, stats) = members[i];
            counts.record(health);
            timeouts = timeouts + stats.outcomes.timeout as u128;
            successes = successes + stats.outcomes.success as u128;
            i = i + 1;
        }
        proof {
            assert(verdicts.take(members@.len() as int) =~= verdicts);
            assert(windows.take(members@.len() as int) =~= windows);
            lemma_count_judged_total(verdicts);
        }
        GroupHealth { verdict: verdict_for(counts), counts, timeouts, successes }
    }
}

} // verus!
