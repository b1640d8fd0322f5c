use netmon::health::Health;
use netmon::history::SampleHistory;
use netmon::sample::{ProbeOutcome, ProbeSample, Rtt};
use netmon::series::Grid;
use netmon::settle::{order_hold, Settling};
use netmon::stats::{percentile, WindowStats};
use netmon::time::{Duration, Instant};
use netmon::Error;

fn origin() -> Instant {
    Instant::from_origin(Duration::from_secs(1_000))
}

fn later(at: Instant, by: Duration) -> Instant {
    at.checked_add(by).unwrap()
}

fn grid() -> Grid {
    Grid::new(Duration::from_secs(1), 5).unwrap()
}

/// The axis of a grid with `step_secs`-second slots, in seconds since `start`.
fn axis(grid: &Grid, step_secs: u64, start: Instant, now: Instant) -> Vec<f64> {
    grid.slot_indices(start, now)
        .into_iter()
        .map(|slot| (slot * step_secs) as f64)
        .collect()
}

/// The placed values, in milliseconds.
fn placed(grid: &Grid, history: &SampleHistory, start: Instant, now: Instant) -> Vec<Option<f64>> {
    grid.place(history, start, now)
        .into_iter()
        .map(|value| value.map(|rtt| f64::from(rtt.as_micros()) / 1_000.0))
        .collect()
}

fn history(samples: &[(u64, Option<u32>)], start: Instant) -> SampleHistory {
    let mut history = SampleHistory::new(64).unwrap();
    for (secs, micros) in samples {
        let outcome = micros.map_or(ProbeOutcome::Timeout, |micros| {
            ProbeOutcome::Success(Rtt::from_micros(micros))
        });
        history.record(ProbeSample::new(later(start, Duration::from_secs(*secs)), outcome));
    }
    history
}

// --- the chart grid -----------------------------------------------------------------

#[test]
fn rejects_a_grid_that_could_hold_nothing() {
    assert_eq!(
        Grid::new(Duration::zero(), 5).unwrap_err(),
        Error::ZeroInterval
    );
    assert_eq!(
        Grid::new(Duration::from_secs(1), 0).unwrap_err(),
        Error::ZeroCapacity
    );
}

#[test]
fn the_axis_begins_where_monitoring_did_and_ascends() {
    let start = origin();
    assert_eq!(
        axis(&grid(), 1, start, start),
        vec![0.0, 1.0, 2.0, 3.0, 4.0]
    );
    assert_eq!(grid().span(), Duration::from_secs(4));
}

#[test]
fn the_drawing_grows_from_the_left_before_the_window_is_full() {
    let start = origin();
    let history = history(&[(0, Some(1_000)), (1, Some(2_000))], start);
    let now = later(start, Duration::from_secs(1));

    assert_eq!(
        placed(&grid(), &history, start, now),
        vec![Some(1.0), Some(2.0), None, None, None]
    );
    assert_eq!(axis(&grid(), 1, start, now), vec![0.0, 1.0, 2.0, 3.0, 4.0]);
}

#[test]
fn the_window_scrolls_only_once_it_is_full() {
    let start = origin();
    for (secs, expected_first) in [(0, 0.0), (3, 0.0), (4, 0.0), (5, 1.0), (9, 5.0)] {
        let axis = axis(&grid(), 1, start, later(start, Duration::from_secs(secs)));
        assert_eq!(
            axis.first().copied(),
            Some(expected_first),
            "at {secs} s the window should begin at {expected_first} s"
        );
    }
}

#[test]
fn the_axis_steps_on_slot_boundaries_rather_than_sliding() {
    let start = origin();
    let grid = Grid::new(Duration::from_secs(3), 5).unwrap();
    let full = later(start, Duration::from_secs(12));

    let at_twelve = axis(&grid, 3, start, full);
    for offset in [0, 500, 1_500, 2_900] {
        assert_eq!(
            axis(&grid, 3, start, later(full, Duration::from_millis(offset))),
            at_twelve
        );
    }
    assert_ne!(
        axis(&grid, 3, start, later(full, Duration::from_secs(3))),
        at_twelve
    );
}

#[test]
fn a_single_point_grid_is_the_present_alone() {
    let start = origin();
    let grid = Grid::new(Duration::from_secs(1), 1).unwrap();
    assert_eq!(axis(&grid, 1, start, start), vec![0.0]);
    assert_eq!(grid.span(), Duration::zero());
}

#[test]
fn samples_land_on_the_slot_they_belong_to() {
    let start = origin();
    let history = history(&[(0, Some(1_000)), (1, Some(2_000)), (2, Some(3_000))], start);
    assert_eq!(
        placed(&grid(), &history, start, later(start, Duration::from_secs(2))),
        vec![Some(1.0), Some(2.0), Some(3.0), None, None]
    );
}

#[test]
fn a_gap_stays_a_gap() {
    let start = origin();
    let history = history(&[(0, Some(1_000)), (2, Some(3_000)), (4, Some(5_000))], start);
    assert_eq!(
        placed(&grid(), &history, start, later(start, Duration::from_secs(4))),
        vec![Some(1.0), None, Some(3.0), None, Some(5.0)]
    );
}

#[test]
fn a_probe_that_did_not_come_back_leaves_its_slot_empty() {
    let start = origin();
    let history = history(&[(0, Some(1_000)), (1, None), (2, Some(3_000))], start);
    assert_eq!(
        placed(&grid(), &history, start, later(start, Duration::from_secs(2))),
        vec![Some(1.0), None, Some(3.0), None, None]
    );
}

#[test]
fn samples_older_than_the_window_are_dropped() {
    let start = origin();
    let history = history(&[(0, Some(1_000)), (9, Some(9_000))], start);
    assert_eq!(
        placed(&grid(), &history, start, later(start, Duration::from_secs(9))),
        vec![None, None, None, None, Some(9.0)]
    );
}

#[test]
fn a_slot_shows_its_slowest_sample_whichever_order_they_arrived_in() {
    let start = origin();
    for order in [[1_000, 9_000], [9_000, 1_000]] {
        let mut history = SampleHistory::new(8).unwrap();
        for (step, micros) in order.iter().enumerate() {
            history.record(ProbeSample::new(
                later(start, Duration::from_millis(100 * step as u64)),
                ProbeOutcome::Success(Rtt::from_micros(*micros)),
            ));
        }
        assert_eq!(placed(&grid(), &history, start, start)[0], Some(9.0));
    }
}

#[test]
fn a_failure_beside_a_success_leaves_the_success_standing() {
    let start = origin();
    let mut history = SampleHistory::new(8).unwrap();
    history.record(ProbeSample::new(start, ProbeOutcome::Timeout));
    history.record(ProbeSample::new(
        later(start, Duration::from_millis(100)),
        ProbeOutcome::Success(Rtt::from_micros(5_000)),
    ));
    assert_eq!(placed(&grid(), &history, start, start)[0], Some(5.0));
}

#[test]
fn a_sample_belongs_to_the_slot_it_falls_inside() {
    let start = origin();
    let history = history(&[(0, Some(1_000))], start);
    assert_eq!(
        placed(&grid(), &history, start, later(start, Duration::from_secs(2))),
        vec![Some(1.0), None, None, None, None]
    );

    let mut late = SampleHistory::new(8).unwrap();
    late.record(ProbeSample::new(
        later(start, Duration::from_millis(1_900)),
        ProbeOutcome::Success(Rtt::from_micros(1_000)),
    ));
    assert_eq!(
        placed(&grid(), &late, start, later(start, Duration::from_secs(2))),
        vec![None, Some(1.0), None, None, None]
    );
}

#[test]
fn a_sample_from_the_future_lands_in_the_present() {
    let start = origin();
    let history = history(&[(5, Some(1_000))], start);
    assert_eq!(
        placed(&grid(), &history, start, start),
        vec![Some(1.0), None, None, None, None]
    );
}

#[test]
fn a_sample_from_before_monitoring_began_is_dropped() {
    let earlier = origin();
    let start = later(earlier, Duration::from_secs(5));
    let history = history(&[(0, Some(1_000))], earlier);
    let placed = placed(&grid(), &history, start, later(start, Duration::from_secs(20)));
    assert!(placed.iter().all(Option::is_none));
}

#[test]
fn an_empty_history_is_all_gaps() {
    let now = origin();
    let history = SampleHistory::new(4).unwrap();
    assert_eq!(placed(&grid(), &history, now, now), vec![None; 5]);
}

#[test]
fn a_slow_endpoint_keeps_its_few_points_rather_than_none() {
    let start = origin();
    let grid = Grid::new(Duration::from_secs(1), 30).unwrap();
    let history = history(&[(0, Some(1_000)), (10, Some(2_000)), (20, Some(3_000))], start);
    let placed = placed(&grid, &history, start, later(start, Duration::from_secs(20)));

    assert_eq!(placed.iter().filter(|value| value.is_some()).count(), 3);
    assert_eq!(placed[0], Some(1.0));
    assert_eq!(placed[10], Some(2.0));
    assert_eq!(placed[20], Some(3.0));
}

// --- settling the order -------------------------------------------------------------

#[test]
fn a_first_observation_settles_immediately() {
    let now = origin();
    let settling = Settling::new(Health::Healthy, now);
    assert_eq!(settling.shown(), Health::Healthy);
    assert_eq!(settling.settled(), Health::Healthy);
}

#[test]
fn what_is_shown_changes_at_once_while_the_order_waits() {
    let now = origin();
    let mut settling = Settling::new(Health::Healthy, now);
    settling.observe(Health::Degraded, now, order_hold());
    assert_eq!(settling.shown(), Health::Degraded);
    assert_eq!(settling.settled(), Health::Healthy);
}

#[test]
fn a_change_that_holds_is_adopted() {
    let now = origin();
    let mut settling = Settling::new(Health::Healthy, now);
    for step in 1..=6 {
        settling.observe(
            Health::Degraded,
            later(now, Duration::from_secs(step)),
            order_hold(),
        );
    }
    assert_eq!(settling.settled(), Health::Degraded);
}

#[test]
fn a_flicker_never_moves_a_row() {
    let now = origin();
    let mut settling = Settling::new(Health::Healthy, now);
    for step in 0..60 {
        let health = if step % 2 == 0 {
            Health::Degraded
        } else {
            Health::Healthy
        };
        settling.observe(health, later(now, Duration::from_secs(step)), order_hold());
        assert_eq!(settling.settled(), Health::Healthy, "step {step}");
    }
}

#[test]
fn returning_to_the_settled_state_costs_nothing() {
    let now = origin();
    let mut settling = Settling::new(Health::Healthy, now);

    settling.observe(Health::Degraded, later(now, Duration::from_secs(1)), order_hold());
    settling.observe(Health::Healthy, later(now, Duration::from_secs(2)), order_hold());
    settling.observe(Health::Unreachable, later(now, Duration::from_secs(3)), order_hold());
    settling.observe(Health::Unreachable, later(now, Duration::from_secs(7)), order_hold());

    assert_eq!(settling.settled(), Health::Healthy);

    settling.observe(Health::Unreachable, later(now, Duration::from_secs(8)), order_hold());
    assert_eq!(settling.settled(), Health::Unreachable);
}

#[test]
fn a_clock_that_appears_to_move_backwards_settles_nothing_early() {
    let earlier = origin();
    let now = later(earlier, Duration::from_secs(60));
    let mut settling = Settling::new(Health::Healthy, now);

    settling.observe(Health::Unreachable, now, order_hold());
    settling.observe(Health::Unreachable, earlier, order_hold());

    assert_eq!(settling.settled(), Health::Healthy);
}

#[test]
fn a_zero_hold_adopts_everything_at_once() {
    let now = origin();
    let mut settling = Settling::new(Health::Healthy, now);
    settling.observe(Health::Blocked, now, Duration::zero());
    assert_eq!(settling.settled(), Health::Blocked);
}

// --- window statistics --------------------------------------------------------------

fn ms(millis: u32) -> Rtt {
    Rtt::from_micros(millis * 1_000)
}

fn replies(millis: &[u32]) -> Vec<ProbeSample> {
    let start = origin();
    millis
        .iter()
        .enumerate()
        .map(|(index, value)| {
            ProbeSample::new(
                later(start, Duration::from_secs(index as u64)),
                ProbeOutcome::Success(ms(*value)),
            )
        })
        .collect()
}

#[test]
fn percentiles_handle_the_smallest_slices() {
    assert_eq!(percentile(&[], 50), None);
    assert_eq!(percentile(&[ms(5)], 99), Some(ms(5)));
    assert_eq!(percentile(&[ms(5), ms(9)], 50), Some(ms(5)));
    assert_eq!(percentile(&[ms(5), ms(9)], 51), Some(ms(9)));
}

#[test]
fn percentiles_use_nearest_rank() {
    let sorted: Vec<Rtt> = (1..=10).map(ms).collect();
    assert_eq!(percentile(&sorted, 50), Some(ms(5)));
    assert_eq!(percentile(&sorted, 95), Some(ms(10)));
    assert_eq!(percentile(&sorted, 99), Some(ms(10)));
    assert_eq!(percentile(&sorted, 10), Some(ms(1)));
    assert_eq!(percentile(&sorted, 100), Some(ms(10)));
}

#[test]
fn percentiles_never_index_out_of_range() {
    for count in 1_u32..=64 {
        let sorted: Vec<Rtt> = (1..=count).map(ms).collect();
        for p in 0..=120 {
            let value = percentile(&sorted, p).expect("a non-empty slice always has one");
            assert!(sorted.contains(&value));
        }
    }
}

#[test]
fn percentiles_come_from_sorted_order_not_arrival_order() {
    let stats = WindowStats::of(&replies(&[100, 1, 50])).rtt.unwrap();
    assert_eq!(stats.p50, ms(50));
    assert_eq!(stats.min, ms(1));
    assert_eq!(stats.max, ms(100));
}

#[test]
fn a_steady_stream_has_no_jitter_and_an_exact_mean() {
    let stats = WindowStats::of(&replies(&[10, 10, 10, 10])).rtt.unwrap();
    assert_eq!(stats.jitter_ns, Some(0));
    assert_eq!(stats.sum_micros, 40_000);
    assert_eq!(stats.count, 4);
}

#[test]
fn jitter_moves_a_sixteenth_of_the_way_each_step() {
    // Deviations of 16 ms then 0: 16/16 = 1 ms, then 1 - 1/16 ms.
    let stats = WindowStats::of(&replies(&[10, 26, 26])).rtt.unwrap();
    assert_eq!(stats.jitter_ns, Some(1_000_000 - 62_500));
}
