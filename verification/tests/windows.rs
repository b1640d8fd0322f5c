use netmon::history::SampleHistory;
use netmon::ring::RingBuffer;
use netmon::sample::{ProbeOutcome, ProbeSample, Rtt};
use netmon::stats::{OutcomeCounts, RttStats, WindowStats};
use netmon::time::{Duration, Instant};

const EPSILON: f64 = 1e-9;

fn ms(millis: u32) -> Rtt {
    Rtt::from_micros(millis * 1_000)
}

fn origin() -> Instant {
    Instant::from_origin(Duration::from_secs(1_000))
}

fn at(start: Instant, secs: u64) -> Instant {
    start.checked_add(Duration::from_secs(secs)).unwrap()
}

fn samples(outcomes: &[ProbeOutcome]) -> Vec<ProbeSample> {
    let start = origin();
    outcomes
        .iter()
        .enumerate()
        .map(|(index, outcome)| ProbeSample::new(at(start, index as u64), *outcome))
        .collect()
}

fn replies(millis: &[u32]) -> Vec<ProbeSample> {
    let outcomes: Vec<ProbeOutcome> = millis.iter().map(|value| ProbeOutcome::Success(ms(*value))).collect();
    samples(&outcomes)
}

/// Loss as a percentage of delivery attempts, absent when nothing tested delivery.
fn loss_pct(stats: &WindowStats) -> Option<f64> {
    stats.loss().map(|(lost, attempts)| lost as f64 * 100.0 / attempts as f64)
}

fn mean_ms(rtt: &RttStats) -> f64 {
    rtt.sum_micros as f64 / rtt.count as f64 / 1_000.0
}

/// Population standard deviation, from the exact sums.
fn stddev_ms(rtt: &RttStats) -> f64 {
    let n = rtt.count as f64;
    let mean = rtt.sum_micros as f64 / n;
    let variance = rtt.sum_squares as f64 / n - mean * mean;
    variance.max(0.0).sqrt() / 1_000.0
}

fn jitter_ms(rtt: &RttStats) -> Option<f64> {
    rtt.jitter_ns.map(|ns| ns as f64 / 1_000_000.0)
}

#[test]
fn an_empty_window_asserts_nothing() {
    let stats = WindowStats::of(&[]);
    assert_eq!(stats.outcomes, OutcomeCounts::default());
    assert_eq!(loss_pct(&stats), None, "no probes means no loss figure, not 0 %");
    assert_eq!(stats.rtt, None);
    assert!(!stats.is_entirely_blocked());
}

#[test]
fn a_window_of_only_timeouts_is_total_loss_with_no_rtt() {
    let stats = WindowStats::of(&samples(&[ProbeOutcome::Timeout; 5]));
    assert_eq!(loss_pct(&stats), Some(100.0));
    assert_eq!(stats.rtt, None);
    assert_eq!(stats.outcomes.timeout, 5);
}

#[test]
fn a_window_of_only_blocked_probes_quotes_no_loss_at_all() {
    let stats = WindowStats::of(&samples(&[ProbeOutcome::Blocked; 4]));
    assert_eq!(loss_pct(&stats), None);
    assert_eq!(stats.rtt, None);
    assert_eq!(stats.outcomes.blocked, 4);
    assert!(stats.is_entirely_blocked());
}

#[test]
fn unreachable_replies_stay_out_of_the_loss_ratio() {
    let stats = WindowStats::of(&samples(&[
        ProbeOutcome::Success(ms(10)),
        ProbeOutcome::Unreachable,
        ProbeOutcome::Unreachable,
    ]));
    assert_eq!(loss_pct(&stats), Some(0.0));
    assert_eq!(stats.outcomes.unreachable, 2);
    assert!(!stats.is_entirely_blocked());
}

#[test]
fn a_mixed_window_counts_every_outcome() {
    let stats = WindowStats::of(&samples(&[
        ProbeOutcome::Success(ms(10)),
        ProbeOutcome::Timeout,
        ProbeOutcome::Unreachable,
        ProbeOutcome::Blocked,
    ]));
    assert_eq!(stats.outcomes, OutcomeCounts { success: 1, timeout: 1, unreachable: 1, blocked: 1 });
    assert_eq!(stats.outcomes.total(), 4);
    assert_eq!(stats.outcomes.delivery_attempts(), 2);
    assert_eq!(loss_pct(&stats), Some(50.0));
}

#[test]
fn a_single_reply_yields_exact_statistics() {
    let stats = WindowStats::of(&replies(&[42])).rtt.unwrap();
    assert_eq!(stats.count, 1);
    assert_eq!(stats.min, ms(42));
    assert_eq!(stats.max, ms(42));
    assert_eq!(stats.p50, ms(42));
    assert_eq!(stats.p95, ms(42));
    assert_eq!(stats.p99, ms(42));
    assert!((mean_ms(&stats) - 42.0).abs() < EPSILON);
    assert!(stddev_ms(&stats).abs() < EPSILON);
    assert_eq!(jitter_ms(&stats), None, "jitter needs two replies to exist");
}

#[test]
fn computes_mean_and_extremes() {
    let stats = WindowStats::of(&replies(&[10, 30, 20])).rtt.unwrap();
    assert_eq!(stats.min, ms(10));
    assert_eq!(stats.max, ms(30));
    assert!((mean_ms(&stats) - 20.0).abs() < EPSILON);
}

#[test]
fn computes_population_standard_deviation() {
    let stats = WindowStats::of(&replies(&[10, 20, 30, 40])).rtt.unwrap();
    assert!((stddev_ms(&stats) - 125.0_f64.sqrt()).abs() < EPSILON);
}

#[test]
fn identical_replies_have_no_spread() {
    let stats = WindowStats::of(&replies(&[7; 6])).rtt.unwrap();
    assert!(stddev_ms(&stats).abs() < EPSILON);
    assert_eq!(jitter_ms(&stats), Some(0.0));
}

#[test]
fn jitter_needs_two_replies() {
    assert_eq!(WindowStats::of(&replies(&[])).rtt, None);
    assert_eq!(WindowStats::of(&replies(&[10])).rtt.unwrap().jitter_ns, None);
    assert_eq!(jitter_ms(&WindowStats::of(&replies(&[10, 10])).rtt.unwrap()), Some(0.0));
}

#[test]
fn jitter_is_computed_over_replies_only_skipping_failures() {
    let with_gap = WindowStats::of(&samples(&[
        ProbeOutcome::Success(ms(10)),
        ProbeOutcome::Timeout,
        ProbeOutcome::Blocked,
        ProbeOutcome::Success(ms(20)),
    ]));
    let without_gap = WindowStats::of(&replies(&[10, 20]));
    assert_eq!(with_gap.rtt.unwrap().jitter_ns, without_gap.rtt.unwrap().jitter_ns);
}

#[test]
fn jitter_grows_with_instability_and_decays_with_calm() {
    let unstable = jitter_ms(&WindowStats::of(&replies(&[10, 90, 10, 90, 10])).rtt.unwrap()).unwrap();
    let steady = jitter_ms(&WindowStats::of(&replies(&[50, 50, 50, 50, 50])).rtt.unwrap()).unwrap();
    assert!(unstable > steady);
    assert!(steady.abs() < EPSILON);
}

#[test]
fn jitter_is_direction_agnostic() {
    let rising = WindowStats::of(&replies(&[10, 20, 30])).rtt.unwrap().jitter_ns;
    let falling = WindowStats::of(&replies(&[30, 20, 10])).rtt.unwrap().jitter_ns;
    assert_eq!(rising, falling);
}

#[test]
fn handles_the_largest_representable_round_trip_time() {
    let stats = WindowStats::of(&samples(&[ProbeOutcome::Success(Rtt::maximum()), ProbeOutcome::Success(Rtt::from_micros(0))]))
        .rtt
        .unwrap();
    assert_eq!(stats.min, Rtt::from_micros(0));
    assert_eq!(stats.max, Rtt::maximum());
    assert!(mean_ms(&stats).is_finite());
    assert!(stddev_ms(&stats).is_finite());
    assert!(jitter_ms(&stats).is_some_and(f64::is_finite));
}

#[test]
fn loss_percentage_stays_within_bounds_for_every_mix() {
    for successes in 0..8_usize {
        for timeouts in 0..8_usize {
            let mut outcomes = vec![ProbeOutcome::Success(ms(1)); successes];
            outcomes.extend(std::iter::repeat_n(ProbeOutcome::Timeout, timeouts));
            let stats = WindowStats::of(&samples(&outcomes));
            match loss_pct(&stats) {
                None => assert_eq!(successes + timeouts, 0),
                Some(loss) => assert!((0.0..=100.0).contains(&loss), "loss was {}", loss),
            }
        }
    }
}

#[test]
fn the_spread_is_exact_in_integers() {
    let stats = WindowStats::of(&replies(&[10, 20, 30, 40])).rtt.unwrap();
    assert_eq!(stats.sum_micros, 100_000);
    assert_eq!(stats.sum_squares, 3_000_000_000);
}

#[test]
fn an_untouched_history_reports_nothing_measured() {
    let history = SampleHistory::new(8).unwrap();
    assert!(history.is_empty());
    assert_eq!(history.latest(), None);

    let stats = history.stats();
    assert_eq!(loss_pct(&stats), None);
    assert_eq!(stats.rtt, None);
}

#[test]
fn keeps_only_the_most_recent_samples() {
    let start = origin();
    let mut history = SampleHistory::new(3).unwrap();
    for index in 0..10_u64 {
        history.record(ProbeSample::new(at(start, index), ProbeOutcome::Success(ms(u32::try_from(index).unwrap()))));
    }

    assert_eq!(history.len(), 3);
    assert_eq!(history.capacity(), 3);
    let stats = history.stats().rtt.unwrap();
    assert_eq!(stats.count, 3);
    assert_eq!(stats.min, ms(7));
    assert_eq!(stats.max, ms(9));
}

#[test]
fn a_time_window_excludes_older_samples() {
    let start = origin();
    let mut history = SampleHistory::new(16).unwrap();
    for index in 0..10_u64 {
        let outcome = if index < 5 { ProbeOutcome::Timeout } else { ProbeOutcome::Success(ms(20)) };
        history.record(ProbeSample::new(at(start, index), outcome));
    }
    let now = at(start, 9);

    let all = history.stats();
    assert_eq!(loss_pct(&all), Some(50.0));

    let recent = history.stats_for_window(now, Duration::from_secs(4));
    assert_eq!(loss_pct(&recent), Some(0.0));
    assert_eq!(recent.rtt.unwrap().count, 5);

    let straddling = history.stats_for_window(now, Duration::from_secs(5));
    assert_eq!(straddling.outcomes.timeout, 1);
    assert_eq!(straddling.outcomes.success, 5);
}

#[test]
fn a_window_with_no_samples_in_it_asserts_nothing() {
    let start = origin();
    let mut history = SampleHistory::new(4).unwrap();
    history.record(ProbeSample::new(start, ProbeOutcome::Success(ms(10))));

    let much_later = at(start, 3_600);
    let stats = history.stats_for_window(much_later, Duration::from_secs(60));
    assert_eq!(stats.outcomes.total(), 0);
    assert_eq!(loss_pct(&stats), None, "an idle window must not read as 0 % loss");
    assert_eq!(stats.rtt, None);
}

#[test]
fn a_window_wider_than_the_clocks_origin_falls_back_to_everything() {
    let start = origin();
    let mut history = SampleHistory::new(4).unwrap();
    history.record(ProbeSample::new(start, ProbeOutcome::Success(ms(10))));

    let stats = history.stats_for_window(start, Duration::maximum());
    assert_eq!(stats.outcomes.success, 1);
}

#[test]
fn samples_stamped_out_of_order_are_still_filtered_by_time() {
    let start = origin();
    let mut history = SampleHistory::new(4).unwrap();
    history.record(ProbeSample::new(at(start, 100), ProbeOutcome::Success(ms(10))));
    history.record(ProbeSample::new(start, ProbeOutcome::Timeout));

    let stats = history.stats_since(at(start, 50));
    assert_eq!(stats.outcomes.success, 1);
    assert_eq!(stats.outcomes.timeout, 0);
}

#[test]
fn borrows_iterate_in_the_same_order() {
    let mut buffer = RingBuffer::new(3).unwrap();
    for value in 1..=5 {
        buffer.push(value);
    }
    let by_method: Vec<i32> = buffer.iter().into_iter().copied().collect();
    let mut by_for_loop: Vec<i32> = Vec::new();
    for value in buffer.iter() {
        by_for_loop.push(*value);
    }
    assert_eq!(by_method, by_for_loop);
    assert_eq!(by_method, vec![3, 4, 5]);
}

#[test]
fn converts_to_milliseconds_exactly() {
    assert!((Rtt::from_micros(12_500).as_micros() as f64 / 1_000.0 - 12.5).abs() < f64::EPSILON);
    assert!((Rtt::from_micros(0).as_micros() as f64 / 1_000.0).abs() < f64::EPSILON);
}
