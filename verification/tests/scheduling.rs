use netmon::scheduler::ProbeScheduler;
use netmon::target::TargetId;
use netmon::time::{Duration, Instant};
use netmon::Error;
use std::collections::BTreeMap;

const SECOND: u64 = 1;

fn second() -> Duration {
    Duration::from_secs(SECOND)
}

fn id(raw: u32) -> TargetId {
    TargetId::from_raw(raw)
}

fn origin() -> Instant {
    Instant::from_origin(Duration::from_secs(1_000_000))
}

fn later(at: Instant, by: Duration) -> Instant {
    at.checked_add(by).unwrap()
}

fn with_targets(
    count: u32,
    interval: Duration,
    cap: u32,
    start: Instant,
) -> (ProbeScheduler, Vec<TargetId>) {
    let mut scheduler = ProbeScheduler::new(cap, start).unwrap();
    let ids: Vec<_> = (0..count).map(id).collect();
    for target in &ids {
        scheduler.schedule(*target, interval, start).unwrap();
    }
    (scheduler, ids)
}

#[test]
fn rejects_a_rate_cap_that_would_stall_everything() {
    assert_eq!(ProbeScheduler::new(0, origin()).unwrap_err(), Error::ZeroProbeRate);
}

#[test]
fn rejects_an_interval_that_would_never_wait() {
    let now = origin();
    let mut scheduler = ProbeScheduler::new(32, now).unwrap();
    assert_eq!(scheduler.schedule(id(0), Duration::zero(), now).unwrap_err(), Error::ZeroInterval);
    assert!(scheduler.is_empty());
}

#[test]
fn an_empty_scheduler_has_nothing_due_and_no_deadline() {
    let now = origin();
    let mut scheduler = ProbeScheduler::new(32, now).unwrap();
    let mut out = Vec::new();
    scheduler.due(now, &mut out);
    assert!(out.is_empty());
    assert_eq!(scheduler.next_deadline(), None);
}

#[test]
fn a_new_target_is_due_immediately() {
    let start = origin();
    let (mut scheduler, ids) = with_targets(1, second(), 32, start);
    let mut out = Vec::new();
    scheduler.due(start, &mut out);
    assert_eq!(out, ids);
    assert_eq!(scheduler.next_deadline(), Some(later(start, second())));
}

#[test]
fn a_target_rescheduled_after_a_probe_waits_a_full_interval() {
    let start = origin();
    let (mut scheduler, ids) = with_targets(1, second(), 32, start);
    let mut out = Vec::new();
    scheduler.due(start, &mut out);
    scheduler.unschedule(ids[0]);
    assert!(scheduler.is_empty());
    let finished = later(start, Duration::from_secs(5));
    scheduler.schedule_after(ids[0], second(), finished).unwrap();
    assert_eq!(scheduler.next_deadline(), Some(later(finished, second())));
    scheduler.due(finished, &mut out);
    assert!(out.is_empty(), "not due until the interval has passed");
    scheduler.due(later(finished, second()), &mut out);
    assert_eq!(out, ids);
}

#[test]
fn rescheduling_after_a_probe_replaces_any_pending_deadline() {
    let start = origin();
    let (mut scheduler, ids) = with_targets(1, second(), 32, start);
    scheduler.schedule_after(ids[0], Duration::from_secs(10), start).unwrap();
    assert_eq!(scheduler.next_deadline(), Some(later(start, Duration::from_secs(10))));
}

#[test]
fn rescheduling_after_a_probe_refuses_a_zero_interval() {
    let start = origin();
    let (mut scheduler, ids) = with_targets(1, second(), 32, start);
    assert_eq!(
        scheduler.schedule_after(ids[0], Duration::zero(), start).unwrap_err(),
        Error::ZeroInterval
    );
}

#[test]
fn a_probed_target_waits_out_its_interval() {
    let start = origin();
    let (mut scheduler, ids) = with_targets(1, second(), 32, start);
    let mut out = Vec::new();
    scheduler.due(start, &mut out);
    assert_eq!(out.len(), 1);
    scheduler.due(later(start, Duration::from_millis(999)), &mut out);
    assert!(out.is_empty());
    scheduler.due(later(start, second()), &mut out);
    assert_eq!(out, ids);
}

#[test]
fn deadlines_run_forward_from_now_so_a_backlog_never_becomes_a_burst() {
    let start = origin();
    let (mut scheduler, _) = with_targets(1, second(), 32, start);
    let mut out = Vec::new();
    let late = later(start, Duration::from_secs(10));
    scheduler.due(late, &mut out);
    assert_eq!(out.len(), 1);
    assert_eq!(scheduler.next_deadline(), Some(later(late, second())));
    scheduler.due(late, &mut out);
    assert!(out.is_empty());
}

#[test]
fn rescheduling_changes_the_interval_without_cancelling_a_pending_probe() {
    let start = origin();
    let (mut scheduler, ids) = with_targets(1, second(), 32, start);
    let mut out = Vec::new();
    scheduler.schedule(ids[0], Duration::from_secs(60), start).unwrap();
    scheduler.due(start, &mut out);
    assert_eq!(out, ids);
    assert_eq!(scheduler.next_deadline(), Some(later(start, Duration::from_secs(60))));
    assert_eq!(scheduler.len(), 1);
}

#[test]
fn unscheduling_removes_a_target_from_future_rounds() {
    let start = origin();
    let (mut scheduler, ids) = with_targets(2, second(), 32, start);
    let mut out = Vec::new();
    assert!(scheduler.unschedule(ids[0]));
    assert!(!scheduler.unschedule(ids[0]));
    assert!(!scheduler.contains(ids[0]));
    scheduler.due(start, &mut out);
    assert_eq!(out, vec![ids[1]]);
}

#[test]
fn a_backlog_is_released_as_a_trickle_not_a_spike() {
    let start = origin();
    let (mut scheduler, _) = with_targets(50, second(), 32, start);
    let mut out = Vec::new();
    scheduler.due(start, &mut out);
    assert_eq!(out.len(), 4);
}

#[test]
fn the_cap_holds_over_a_long_run() {
    let start = origin();
    let cap = 32;
    let (mut scheduler, _) = with_targets(100, second(), cap, start);
    let mut out = Vec::new();
    let mut probes = 0_usize;
    for tick in 0..100_u64 {
        scheduler.due(later(start, Duration::from_millis(tick * 100)), &mut out);
        probes += out.len();
    }
    let ceiling = usize::try_from(cap).unwrap() * 10 + 4;
    assert!(probes <= ceiling, "issued {probes} probes, ceiling is {ceiling}");
    assert!(probes > 300, "the budget should be nearly fully used, got {probes}");
}

#[test]
fn oversubscription_stretches_intervals_instead_of_dropping_targets() {
    let start = origin();
    let (mut scheduler, ids) = with_targets(100, second(), 32, start);
    let mut out = Vec::new();
    let mut counts: BTreeMap<TargetId, usize> = ids.iter().map(|id| (*id, 0)).collect();
    for tick in 0..100_u64 {
        scheduler.due(later(start, Duration::from_millis(tick * 100)), &mut out);
        for probed in &out {
            *counts.entry(*probed).or_default() += 1;
        }
    }
    let fewest = counts.values().copied().min().unwrap();
    let most = counts.values().copied().max().unwrap();
    assert!(fewest >= 2, "a target was starved: only {fewest} probes in 10 s");
    assert!(most - fewest <= 1, "unfair sharing: between {fewest} and {most} probes per target");
}

#[test]
fn the_most_overdue_target_goes_first() {
    let start = origin();
    let mut scheduler = ProbeScheduler::new(32, start).unwrap();
    let mut out = Vec::new();
    let early = id(0);
    let late = id(1);
    scheduler.schedule(early, second(), start).unwrap();
    scheduler.schedule(late, second(), later(start, Duration::from_millis(500))).unwrap();
    scheduler.due(later(start, second()), &mut out);
    assert_eq!(out, vec![early, late]);
}

#[test]
fn the_most_overdue_wins_even_with_a_higher_handle() {
    let start = origin();
    let mut scheduler = ProbeScheduler::new(32, start).unwrap();
    let mut out = Vec::new();
    scheduler.schedule(id(0), second(), later(start, Duration::from_millis(500))).unwrap();
    scheduler.schedule(id(7), second(), start).unwrap();
    scheduler.due(later(start, second()), &mut out);
    assert_eq!(out, vec![id(7), id(0)]);
}

#[test]
fn a_target_held_back_by_the_budget_stays_due() {
    let start = origin();
    let (mut scheduler, _) = with_targets(10, second(), 8, start);
    let mut out = Vec::new();
    scheduler.due(start, &mut out);
    assert_eq!(out.len(), 1);
    let first = out[0];
    scheduler.due(later(start, Duration::from_millis(200)), &mut out);
    assert!(!out.is_empty());
    assert!(!out.contains(&first));
}

#[test]
fn a_clock_that_moves_backwards_grants_no_budget_and_does_not_panic() {
    let start = later(origin(), Duration::from_secs(60));
    let (mut scheduler, _) = with_targets(20, second(), 32, start);
    let mut out = Vec::new();
    scheduler.due(start, &mut out);
    assert_eq!(out.len(), 4);
    let rewound = start.checked_sub(Duration::from_secs(60)).unwrap();
    scheduler.due(rewound, &mut out);
    assert!(out.is_empty());
}

#[test]
fn an_idle_period_does_not_accumulate_a_giant_burst() {
    let start = origin();
    let (mut scheduler, _) = with_targets(100, second(), 32, start);
    let mut out = Vec::new();
    scheduler.due(start, &mut out);
    scheduler.due(later(start, Duration::from_secs(3_600)), &mut out);
    assert_eq!(out.len(), 4);
}

#[test]
fn stale_contents_of_the_output_buffer_are_discarded() {
    let start = origin();
    let (mut scheduler, ids) = with_targets(1, second(), 32, start);
    let mut out = vec![ids[0]; 99];
    scheduler.due(later(start, Duration::from_millis(1)), &mut out);
    assert_eq!(out, ids);
}

#[test]
fn the_output_buffer_is_reused_without_reallocating() {
    let start = origin();
    let (mut scheduler, _) = with_targets(40, second(), 32, start);
    let mut out = Vec::new();

    for tick in 0..20_u64 {
        scheduler.due(later(start, Duration::from_millis(tick * 100)), &mut out);
    }
    let settled = out.capacity();

    for tick in 20..200_u64 {
        scheduler.due(later(start, Duration::from_millis(tick * 100)), &mut out);
        assert_eq!(out.capacity(), settled);
    }
}

#[test]
fn the_count_grows_only_for_new_targets_and_shrinks_only_for_present_ones() {
    let start = origin();
    let mut scheduler = ProbeScheduler::new(32, start).unwrap();
    scheduler.schedule(id(1), second(), start).unwrap();
    assert_eq!(scheduler.len(), 1);
    scheduler.schedule(id(1), Duration::from_secs(5), start).unwrap();
    assert_eq!(scheduler.len(), 1, "changing an interval adds nothing");
    scheduler.schedule_after(id(2), second(), start).unwrap();
    assert_eq!(scheduler.len(), 2);
    scheduler.schedule_after(id(2), second(), start).unwrap();
    assert_eq!(scheduler.len(), 2);
    assert!(scheduler.unschedule(id(1)));
    assert_eq!(scheduler.len(), 1);
    assert!(!scheduler.unschedule(id(1)));
    assert_eq!(scheduler.len(), 1);
    assert!(scheduler.unschedule(id(2)));
    assert!(scheduler.is_empty());
}
