use netmon::flow::{FlowInstant, FlowMetrics, FlowObservation, FlowPolicy, Shortfall};
use netmon::time::Duration;
use netmon::Error;

const MS: u128 = 1_000_000;

fn at(millis: u64) -> FlowInstant {
    FlowInstant::from_origin(Duration::from_millis(millis))
}

fn metrics() -> FlowMetrics {
    FlowMetrics::with_policy(FlowPolicy::default()).expect("the default policy is valid")
}

/// A steady exchange: `count` updates each way, `period_ms` apart.
fn steady(period_ms: u64, count: u64) -> FlowMetrics {
    let mut flow = metrics();
    for index in 0..count {
        let moment = index * period_ms;
        flow.record(FlowObservation::sent(at(moment), 64));
        flow.record(FlowObservation::received(at(moment + 1), 256));
    }
    flow
}

/// The shortfall the counts describe, as a percentage.
fn pct(shortfall: &Shortfall) -> f64 {
    let earlier = shortfall.earlier_received as f64 / shortfall.earlier_sent as f64;
    let recent = shortfall.recent_received as f64 / shortfall.recent_sent as f64;
    (1.0 - recent / earlier) * 100.0
}

#[test]
fn nothing_recorded_reports_nothing() {
    let flow = metrics();
    assert!(flow.is_empty());
    assert_eq!(flow.latest(), None);
    assert_eq!(flow.reading(), None, "an empty window must not invent zeros");
}

#[test]
fn a_zero_window_is_refused_at_construction() {
    let policy = FlowPolicy {
        window: Duration::zero(),
        ..FlowPolicy::default()
    };
    assert_eq!(
        FlowMetrics::with_policy(policy).unwrap_err(),
        Error::ZeroFlowWindow
    );
}

#[test]
fn a_zero_capacity_is_refused_at_construction() {
    assert_eq!(
        FlowMetrics::new(FlowPolicy::default(), 0).unwrap_err(),
        Error::ZeroCapacity
    );
}

#[test]
fn a_single_observation_supports_counts_but_no_rate_and_no_jitter() {
    let mut flow = metrics();
    flow.record(FlowObservation::received(at(0), 256));
    let reading = flow.reading().expect("one observation is still a reading");

    assert_eq!(reading.received.events, 1);
    assert_eq!(reading.received.bytes, 256);
    assert_eq!(reading.span, Duration::zero(), "one observation spans no time");
    assert_eq!(reading.arrival, None);
    assert!(reading.is_carrying_traffic());
}

#[test]
fn the_latest_is_the_newest_observation() {
    let mut flow = metrics();
    flow.record(FlowObservation::sent(at(10), 1));
    flow.record(FlowObservation::received(at(30), 1));
    assert_eq!(flow.latest(), Some(at(30)));
    assert!(!flow.is_empty());
}

// --- arrival timing -----------------------------------------------------------------

#[test]
fn a_perfectly_regular_stream_has_no_jitter() {
    let reading = steady(50, 100).reading().expect("a reading");
    let arrival = reading.arrival.expect("a hundred arrivals is plenty");

    assert_eq!(arrival.mean_ns, 50 * MS);
    assert_eq!(arrival.jitter_ns, 0);
    assert_eq!(arrival.max_ns, 50 * MS);
    assert_eq!(arrival.p95_ns, 50 * MS);
    assert_eq!(arrival.bursts, 100);
}

#[test]
fn a_late_update_shows_up_as_the_worst_interval() {
    let mut flow = metrics();
    let mut moment = 0;
    for index in 0..40_u64 {
        flow.record(FlowObservation::sent(at(moment), 64));
        flow.record(FlowObservation::received(at(moment + 1), 256));
        moment += if index == 20 { 120 } else { 50 };
    }
    let arrival = flow.reading().expect("a reading").arrival.expect("arrivals");

    assert_eq!(arrival.max_ns, 120 * MS);
    assert!(arrival.jitter_ns > 0);
    assert!(arrival.mean_ns > 50 * MS && arrival.mean_ns < 55 * MS);
}

#[test]
fn datagrams_of_one_update_are_one_arrival() {
    let mut flow = metrics();
    for index in 0..40_u64 {
        let moment = index * 50;
        flow.record(FlowObservation::received(at(moment), 256));
        flow.record(FlowObservation::received(at(moment + 1), 256));
    }
    let arrival = flow.reading().expect("a reading").arrival.expect("arrivals");

    assert_eq!(arrival.bursts, 40, "each pair is one update");
    assert_eq!(arrival.events, 80, "and it is made of two datagrams");
    assert_eq!(arrival.mean_ns, 50 * MS);
    assert_eq!(arrival.jitter_ns, 0, "a split update is not a jittery one");
}

#[test]
fn a_gap_wider_than_the_burst_rule_is_its_own_arrival() {
    let mut flow = metrics();
    for index in 0..40_u64 {
        let moment = index * 50;
        flow.record(FlowObservation::received(at(moment), 256));
        flow.record(FlowObservation::received(at(moment + 6), 256));
    }
    let arrival = flow.reading().expect("a reading").arrival.expect("arrivals");

    assert_eq!(arrival.bursts, 80);
    assert!(arrival.jitter_ns > 0);
}

#[test]
fn too_few_arrivals_claim_nothing() {
    let mut flow = metrics();
    for index in 0..4_u64 {
        flow.record(FlowObservation::received(at(index * 50), 256));
    }
    assert_eq!(flow.reading().expect("a reading").arrival, None);
}

#[test]
fn arrivals_outside_the_window_are_not_counted() {
    let mut flow = metrics();
    for index in 0..20_u64 {
        flow.record(FlowObservation::received(at(index * 50), 256));
    }
    for index in 0..20_u64 {
        flow.record(FlowObservation::received(at(60_000 + index * 50), 256));
    }
    let reading = flow.reading().expect("a reading");

    assert_eq!(reading.received.events, 20);
    assert!(reading.span <= Duration::from_secs(10));
}

#[test]
fn a_full_ring_reports_the_span_it_actually_covers() {
    let mut flow = FlowMetrics::new(FlowPolicy::default(), 16).expect("sixteen is valid");
    for index in 0..200_u64 {
        flow.record(FlowObservation::received(at(index * 50), 256));
    }
    let reading = flow.reading().expect("a reading");

    assert_eq!(reading.received.events, 16);
    assert!(reading.span < Duration::from_secs(1));
}

// --- counts and rates ---------------------------------------------------------------

#[test]
fn rates_are_counted_over_the_span_the_reading_covers() {
    let reading = steady(50, 100).reading().expect("a reading");

    assert_eq!(reading.sent.events, 100);
    assert_eq!(reading.received.events, 100);
    assert_eq!(reading.sent.bytes, 6_400);
    assert_eq!(reading.received.bytes, 25_600);
    let secs = reading.span.as_nanos() as f64 / 1e9;
    let per_sec = reading.received.events as f64 / secs;
    assert!((per_sec - 20.0).abs() < 0.5, "{per_sec}");
}

// --- stalls -------------------------------------------------------------------------

#[test]
fn a_stream_flowing_both_ways_is_not_stalled() {
    assert_eq!(steady(50, 100).reading().expect("a reading").stall, None);
}

#[test]
fn sending_into_silence_is_a_stall() {
    let mut flow = steady(50, 40);
    for index in 0..20_u64 {
        flow.record(FlowObservation::sent(at(2_000 + index * 50), 64));
    }
    let stall = flow.reading().expect("a reading").stall.expect("a stall");
    assert!(stall >= Duration::from_millis(900) && stall <= Duration::from_millis(1_100));
}

#[test]
fn our_own_silence_is_never_called_a_stall() {
    let mut flow = metrics();
    for index in 0..40_u64 {
        let moment = index * 50;
        flow.record(FlowObservation::sent(at(moment), 64));
        flow.record(FlowObservation::received(at(moment + 1), 256));
    }
    assert_eq!(flow.reading().expect("a reading").stall, None);
}

#[test]
fn a_gap_shorter_than_the_threshold_is_not_a_stall() {
    let mut flow = steady(50, 40);
    for index in 0..4_u64 {
        flow.record(FlowObservation::sent(at(2_000 + index * 50), 64));
    }
    assert_eq!(flow.reading().expect("a reading").stall, None);
}

#[test]
fn sending_with_nothing_ever_coming_back_is_a_stall() {
    let mut flow = metrics();
    for index in 0..40_u64 {
        flow.record(FlowObservation::sent(at(index * 50), 64));
    }
    let reading = flow.reading().expect("a reading");

    assert_eq!(reading.stall, Some(Duration::from_millis(1_950)));
    assert_eq!(reading.received.events, 0);
    assert!(reading.is_carrying_traffic(), "sending is still traffic");
}

// --- receive shortfall --------------------------------------------------------------

#[test]
fn a_symmetric_stream_reports_no_shortfall() {
    assert_eq!(
        steady(50, 100).reading().expect("a reading").receive_shortfall,
        None
    );
}

#[test]
fn an_asymmetric_but_steady_stream_reports_no_shortfall() {
    let mut flow = metrics();
    for index in 0..100_u64 {
        let moment = index * 50;
        flow.record(FlowObservation::sent(at(moment), 64));
        flow.record(FlowObservation::received(at(moment + 10), 256));
        flow.record(FlowObservation::received(at(moment + 30), 256));
    }
    assert_eq!(flow.reading().expect("a reading").receive_shortfall, None);
}

#[test]
fn return_traffic_halving_while_sending_holds_is_a_shortfall() {
    let mut flow = metrics();
    for index in 0..200_u64 {
        let moment = index * 50;
        flow.record(FlowObservation::sent(at(moment), 64));
        if index < 150 || index % 2 == 0 {
            flow.record(FlowObservation::received(at(moment + 10), 256));
        }
    }
    let shortfall = flow
        .reading()
        .expect("a reading")
        .receive_shortfall
        .expect("half the return traffic gone is exactly what this measures");
    let pct = pct(&shortfall);
    assert!((pct - 50.0).abs() < 5.0, "{pct}");
}

#[test]
fn degradation_only_part_way_into_the_recent_quarter_is_reported_smaller() {
    let mut flow = metrics();
    for index in 0..200_u64 {
        let moment = index * 50;
        flow.record(FlowObservation::sent(at(moment), 64));
        if index < 180 || index % 2 == 0 {
            flow.record(FlowObservation::received(at(moment + 10), 256));
        }
    }
    let shortfall = flow
        .reading()
        .expect("a reading")
        .receive_shortfall
        .expect("a collapse in the last second is still visible");
    let pct = pct(&shortfall);
    assert!(pct > 10.0 && pct < 30.0, "{pct}");
}

#[test]
fn a_shortfall_is_not_claimed_when_our_own_sending_stopped_too() {
    let mut flow = metrics();
    for index in 0..160_u64 {
        let moment = index * 50;
        flow.record(FlowObservation::sent(at(moment), 64));
        flow.record(FlowObservation::received(at(moment + 10), 256));
    }
    for index in 0..3_u64 {
        flow.record(FlowObservation::sent(at(8_000 + index * 600), 64));
    }
    assert_eq!(flow.reading().expect("a reading").receive_shortfall, None);
}

#[test]
fn a_shortfall_too_small_to_mean_anything_is_not_reported() {
    let mut flow = metrics();
    for index in 0..200_u64 {
        let moment = index * 50;
        flow.record(FlowObservation::sent(at(moment), 64));
        if index != 175 {
            flow.record(FlowObservation::received(at(moment + 10), 256));
        }
    }
    assert_eq!(flow.reading().expect("a reading").receive_shortfall, None);
}

#[test]
fn too_little_history_claims_no_shortfall() {
    let mut flow = metrics();
    for index in 0..6_u64 {
        let moment = index * 50;
        flow.record(FlowObservation::sent(at(moment), 64));
        flow.record(FlowObservation::received(at(moment + 10), 256));
    }
    assert_eq!(flow.reading().expect("a reading").receive_shortfall, None);
}

// --- clock robustness ---------------------------------------------------------------

#[test]
fn an_out_of_order_event_yields_no_negative_interval() {
    let mut flow = metrics();
    for index in 0..40_u64 {
        flow.record(FlowObservation::received(at(index * 50), 256));
    }
    flow.record(FlowObservation::received(at(1_000), 256));
    let reading = flow.reading().expect("a reading");

    if let Some(arrival) = reading.arrival {
        assert!(arrival.max_ns <= 50 * MS);
    }
    assert!(reading.span <= Duration::from_secs(10));
}

#[test]
fn the_flow_instant_saturates_rather_than_wrapping() {
    let early = at(100);
    let late = at(500);
    assert_eq!(
        late.saturating_duration_since(early),
        Duration::from_millis(400)
    );
    assert_eq!(early.saturating_duration_since(late), Duration::zero());
    assert_eq!(at(50).saturating_sub(Duration::from_millis(500)), at(0));
}
