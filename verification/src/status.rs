//! Judging a status-page service from the checks it has just answered.
//!
//! A service card asks "is it up right now", which a window rule answers badly in both
//! directions: at a check every forty-odd seconds a ten-minute window is mostly history.
//! So the rule here reads the most recent checks, newest first, and reacts within one
//! check interval.
//!
//! One failed check is not an outage, and the page must not claim one: a failing check
//! moves a service off healthy at once, but the word unreachable waits for a run of
//! failures.

use crate::health::{count_judged, spec_verdict_for, total_successes, total_timeouts, GroupHealth, Health};
use crate::sample::{ProbeOutcome, ProbeSample};
use crate::stats::WindowStats;
use vstd::prelude::*;

verus! {

/// Where the lines fall for a service check.
#[derive(Debug, Clone, Copy, PartialEq, Eq, Structural)]
pub struct StatusThresholds {
    /// A check answering at or above this many microseconds reads as slow.
    ///
    /// Higher than the dashboard's line on purpose: these are front doors reached over TLS
    /// on the other side of the world, and a service is not in trouble for being far away.
    pub slow_rtt_us: u32,
    /// How many consecutive failed checks it takes before a service is called unreachable.
    pub failures_before_unreachable: usize,
    /// How many recent checks the verdict looks at at all.
    pub checks_considered: usize,
}

impl Default for StatusThresholds {
    /// A 400 ms slow line, two failures in a row, the five newest checks.
    fn default() -> (t: StatusThresholds)
        ensures
            t == (StatusThresholds {
                slow_rtt_us: 400_000,
                failures_before_unreachable: 2,
                checks_considered: 5,
            }),
    {
        StatusThresholds { slow_rtt_us: 400_000, failures_before_unreachable: 2, checks_considered: 5 }
    }
}

/// What one check produced, as the timeline draws it.
#[derive(Debug, Clone, Copy, PartialEq, Eq, Structural, Hash)]
pub enum CheckMark {
    /// It answered within the slow line.
    Answered,
    /// It answered, but slowly.
    Slow,
    /// Nothing came back in time.
    Lost,
    /// The destination answered that it cannot be reached.
    Refused,
    /// The probe kind was filtered, so this check measured nothing at all.
    Filtered,
}

/// The checks a verdict reads: the newest `considered` of them, oldest first.
pub open spec fn considered_checks(checks: Seq<ProbeSample>, considered: nat) -> Seq<ProbeSample> {
    if checks.len() <= considered {
        checks
    } else {
        checks.subrange(checks.len() - considered, checks.len() as int)
    }
}

/// How many checks at the end of `checks` in a row produced no answer.
pub open spec fn failure_run(checks: Seq<ProbeSample>) -> nat
    decreases checks.len(),
{
    if checks.len() == 0 || checks.last().outcome is Success {
        0
    } else {
        failure_run(checks.drop_last()) + 1
    }
}

/// Whether the last `run` checks were all filtered.
pub open spec fn run_filtered(checks: Seq<ProbeSample>, run: nat) -> bool {
    forall|i: int| checks.len() - run <= i < checks.len() ==> (#[trigger] checks[i]).outcome is Blocked
}

/// What a service endpoint's recent checks say.
///
/// Nothing checked is `Unknown`. A newest check that answered means the service is up:
/// `Degraded` if it was slow or any considered check failed, else `Healthy`. A newest check
/// that failed starts a run: shorter than the threshold is `Degraded`, otherwise `Blocked`
/// when every check in the run was filtered, and `Unreachable` when something was measured.
pub open spec fn check_verdict(t: StatusThresholds, checks: Seq<ProbeSample>) -> Health {
    let c = considered_checks(checks, t.checks_considered as nat);
    if c.len() == 0 {
        Health::Unknown
    } else {
        match c.last().outcome {
            ProbeOutcome::Success(rtt) => if rtt.0 >= t.slow_rtt_us {
                Health::Degraded
            } else if forall|i: int| 0 <= i < c.len() ==> (#[trigger] c[i]).outcome is Success {
                Health::Healthy
            } else {
                Health::Degraded
            },
            _ => if failure_run(c) < t.failures_before_unreachable {
                Health::Degraded
            } else if run_filtered(c, failure_run(c)) {
                Health::Blocked
            } else {
                Health::Unreachable
            },
        }
    }
}

/// A service's verdict follows its newest check: a newest check that answered reads as up,
/// `Healthy` or `Degraded`; one that failed never reads as `Healthy`, and reads as `Blocked`
/// only when it was itself filtered.
pub proof fn lemma_verdict_follows_newest_check(t: StatusThresholds, checks: Seq<ProbeSample>)
    requires
        t.checks_considered > 0,
        checks.len() > 0,
    ensures
        checks.last().outcome is Success ==> check_verdict(t, checks).spec_is_answering(),
        !(checks.last().outcome is Success) ==> !(check_verdict(t, checks) is Healthy)
            && !(check_verdict(t, checks) is Unknown),
        check_verdict(t, checks) is Blocked ==> checks.last().outcome is Blocked,
{
    let c = considered_checks(checks, t.checks_considered as nat);
    assert(c.len() > 0 && c.last() == checks.last());
    if check_verdict(t, checks) is Blocked {
        lemma_failure_run(c);
        assert(c[c.len() - 1] == c.last());
    }
}

proof fn lemma_failure_run(checks: Seq<ProbeSample>)
    ensures
        failure_run(checks) <= checks.len(),
        forall|i: int|
            checks.len() - failure_run(checks) <= i < checks.len() ==> !((#[trigger] checks[i]).outcome is Success),
        failure_run(checks) < checks.len() ==> checks[checks.len() - 1 - failure_run(
            checks,
        )].outcome is Success,
    decreases checks.len(),
{
    if checks.len() > 0 && !(checks.last().outcome is Success) {
        let rest = checks.drop_last();
        lemma_failure_run(rest);
        assert forall|i: int|
            checks.len() - failure_run(checks) <= i < checks.len() implies !((
            #[trigger] checks[i]).outcome is Success) by {
            if i < checks.len() - 1 {
                assert(checks[i] == rest[i]);
            }
        }
        if failure_run(checks) < checks.len() {
            assert(checks[checks.len() - 1 - failure_run(checks)] == rest[rest.len() - 1
                - failure_run(rest)]);
        }
    }
}

impl StatusThresholds {
    /// How one check reads.
    pub fn mark(&self, outcome: ProbeOutcome) -> (m: CheckMark)
        ensures
            m == match outcome {
                ProbeOutcome::Success(rtt) => if rtt.0 >= self.slow_rtt_us {
                    CheckMark::Slow
                } else {
                    CheckMark::Answered
                },
                ProbeOutcome::Timeout => CheckMark::Lost,
                ProbeOutcome::Unreachable => CheckMark::Refused,
                ProbeOutcome::Blocked => CheckMark::Filtered,
            },
    {
        match outcome {
            ProbeOutcome::Success(rtt) => if rtt.as_micros() >= self.slow_rtt_us {
                CheckMark::Slow
            } else {
                CheckMark::Answered
            },
            ProbeOutcome::Timeout => CheckMark::Lost,
            ProbeOutcome::Unreachable => CheckMark::Refused,
            ProbeOutcome::Blocked => CheckMark::Filtered,
        }
    }

    /// Judges one endpoint of a service from its checks, oldest first.
    ///
    /// Only the newest `checks_considered` are read, so a caller can hand over its whole
    /// history.
    pub fn health_of(&self, checks: &[ProbeSample]) -> (h: Health)
        ensures
            h == check_verdict(*self, checks@),
    {
        let n = checks.len();
        let from = if n > self.checks_considered {
            n - self.checks_considered
        } else {
            0
        };
        let ghost c = considered_checks(checks@, self.checks_considered as nat);
        proof {
            assert(c =~= checks@.subrange(from as int, n as int));
        }
        if from == n {
            return Health::Unknown;
        }
        let newest = checks[n - 1];
        match newest.outcome {
            ProbeOutcome::Success(rtt) => {
                if rtt.as_micros() >= self.slow_rtt_us {
                    return Health::Degraded;
                }
                let mut i: usize = from;
                while i < n
                    invariant
                        from <= i <= n,
                        from < n,
                        n == checks@.len(),
                        c =~= checks@.subrange(from as int, n as int),
                        c == considered_checks(checks@, self.checks_considered as nat),
                        checks@[n - 1].outcome == ProbeOutcome::Success(rtt),
                        rtt.0 < self.slow_rtt_us,
                        forall|k: int| 0 <= k < i - from ==> (#[trigger] c[k]).outcome is Success,
                    decreases n - i,
                {
                    match checks[i].outcome {
                        ProbeOutcome::Success(_) => {},
                        _ => {
                            assert(!(c[i - from].outcome is Success));
                            return Health::Degraded;
                        },
                    }
                    i = i + 1;
                }
                Health::Healthy
            },
            _ => {
                let mut run: usize = 0;
                let mut filtered = true;
                let mut i: usize = n;
                proof {
                    lemma_failure_run(c);
                }
                while i > from && checks[i - 1].outcome.rtt().is_none()
                    invariant
                        from <= i <= n,
                        n == checks@.len(),
                        c =~= checks@.subrange(from as int, n as int),
                        run == n - i,
                        run <= failure_run(c),
                        filtered == run_filtered(c, run as nat),
                    decreases i,
                {
                    proof {
                        lemma_failure_run(c);
                    }
                    let blocked = match checks[i - 1].outcome {
                        ProbeOutcome::Blocked => true,
                        _ => false,
                    };
                    filtered = filtered && blocked;
                    i = i - 1;
                    run = run + 1;
                    proof {
                        assert(run_filtered(c, run as nat) == (run_filtered(c, (run - 1) as nat)
                            && c[c.len() - run].outcome is Blocked));
                    }
                }
                proof {
                    lemma_failure_run(c);
                    if i > from {
                        assert(c[i - 1 - from].outcome is Success);
                    }
                    assert(run == failure_run(c));
                }
                if run < self.failures_before_unreachable {
                    return Health::Degraded;
                }
                if filtered {
                    Health::Blocked
                } else {
                    Health::Unreachable
                }
            },
        }
    }

    /// Rolls a service's endpoints up into one verdict and the distribution behind it.
    ///
    /// Each pair is one endpoint's checks and the statistics of the window shown beside the
    /// card: the verdict comes from the checks, the loss figure from the statistics.
    pub fn service_health(&self, endpoints: &[(Vec<ProbeSample>, WindowStats)]) -> (g: GroupHealth)
        ensures
            g.counts == count_judged(
                endpoints@.map_values(
                    |e: (Vec<ProbeSample>, WindowStats)| check_verdict(*self, e.0@),
                ),
            ),
            g.verdict == spec_verdict_for(g.counts),
            g.timeouts == total_timeouts(
                endpoints@.map_values(|e: (Vec<ProbeSample>, WindowStats)| e.1),
            ),
            g.successes == total_successes(
                endpoints@.map_values(|e: (Vec<ProbeSample>, WindowStats)| e.1),
            ),
    {
        let mut judged: Vec<(Health, WindowStats)> = Vec::new();
        let mut i: usize = 0;
        while i < endpoints.len()
            invariant
                i <= endpoints@.len(),
                judged@ == endpoints@.take(i as int).map_values(
                    |e: (Vec<ProbeSample>, WindowStats)| (check_verdict(*self, e.0@), e.1),
                ),
            decreases endpoints@.len() - i,
        {
            let verdict = self.health_of(endpoints[i].0.as_slice());
            judged.push((verdict, endpoints[i].1));
            i = i + 1;
            proof {
                assert(judged@ =~= endpoints@.take(i as int).map_values(
                    |e: (Vec<ProbeSample>, WindowStats)| (check_verdict(*self, e.0@), e.1),
                ));
            }
        }
        proof {
            assert(endpoints@.take(endpoints@.len() as int) =~= endpoints@);
            assert(judged@.map_values(|m: (Health, WindowStats)| m.0) =~= endpoints@.map_values(
                |e: (Vec<ProbeSample>, WindowStats)| check_verdict(*self, e.0@),
            ));
            assert(judged@.map_values(|m: (Health, WindowStats)| m.1) =~= endpoints@.map_values(
                |e: (Vec<ProbeSample>, WindowStats)| e.1,
            ));
        }
        GroupHealth::of_judged(judged.as_slice())
    }
}

} // verus!
