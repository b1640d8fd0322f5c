use netmon::address::{AddressClass, IpAddr, IpCidr};
use netmon::forgery::{hops_travelled, reply_was_answered_locally, INITIAL_HOP_LIMITS};
use netmon::health::{
    verdict_for, with_passive_evidence, GroupHealth, Health, HealthCounts, HealthThresholds,
};
use netmon::sample::{ProbeOutcome, ProbeSample, Rtt};
use netmon::stats::WindowStats;
use netmon::time::{Duration, Instant};

/// Builds a window from a list of outcomes, one second apart.
fn window(outcomes: &[ProbeOutcome]) -> WindowStats {
    let start = Instant::from_origin(Duration::from_secs(1_000));
    let samples: Vec<ProbeSample> = outcomes
        .iter()
        .enumerate()
        .map(|(index, outcome)| {
            let offset = Duration::from_secs(u64::try_from(index).unwrap_or(0));
            ProbeSample::new(start.checked_add(offset).unwrap(), *outcome)
        })
        .collect();
    WindowStats::of(&samples)
}

fn ok(millis: u32) -> ProbeOutcome {
    ProbeOutcome::Success(Rtt::from_micros(millis * 1_000))
}

fn health(outcomes: &[ProbeOutcome]) -> Health {
    HealthThresholds::default().health_of(&window(outcomes))
}

fn group(members: &[WindowStats]) -> GroupHealth {
    GroupHealth::of(members, &HealthThresholds::default())
}

// --- one target ---------------------------------------------------------------------

#[test]
fn nothing_measured_is_unknown_rather_than_healthy() {
    assert_eq!(health(&[]), Health::Unknown);
}

#[test]
fn a_single_lost_packet_is_not_yet_a_verdict() {
    assert_eq!(health(&[ProbeOutcome::Timeout]), Health::Unknown);
    assert_eq!(health(&[ok(10)]), Health::Unknown);
}

#[test]
fn steady_fast_replies_are_healthy() {
    assert_eq!(health(&[ok(10), ok(11), ok(10), ok(12)]), Health::Healthy);
}

#[test]
fn total_silence_is_unreachable() {
    assert_eq!(
        health(&[ProbeOutcome::Timeout, ProbeOutcome::Timeout]),
        Health::Unreachable
    );
}

#[test]
fn partial_loss_is_degradation_not_an_outage() {
    assert_eq!(
        health(&[ok(10), ProbeOutcome::Timeout, ok(11), ok(10)]),
        Health::Degraded
    );
}

#[test]
fn loss_below_the_threshold_stays_healthy() {
    let mut outcomes = vec![ok(10); 99];
    outcomes.push(ProbeOutcome::Timeout);
    assert_eq!(health(&outcomes), Health::Healthy);
}

#[test]
fn loss_exactly_on_the_threshold_is_degraded() {
    // Two of a hundred is 2 %, the default line, which is inclusive.
    let mut outcomes = vec![ok(10); 98];
    outcomes.push(ProbeOutcome::Timeout);
    outcomes.push(ProbeOutcome::Timeout);
    assert_eq!(health(&outcomes), Health::Degraded);
}

#[test]
fn a_slow_path_is_degraded_even_with_no_loss() {
    assert_eq!(health(&[ok(400), ok(410), ok(405)]), Health::Degraded);
}

#[test]
fn an_unstable_path_is_degraded_even_when_fast_on_average() {
    let outcomes = [ok(5), ok(200), ok(5), ok(200), ok(5), ok(200), ok(5), ok(200)];
    assert_eq!(health(&outcomes), Health::Degraded);
}

#[test]
fn filtered_probes_are_blocked_rather_than_lost() {
    assert_eq!(health(&[ProbeOutcome::Blocked; 4]), Health::Blocked);
}

#[test]
fn an_explicit_refusal_outranks_filtering() {
    assert_eq!(
        health(&[ProbeOutcome::Blocked, ProbeOutcome::Unreachable]),
        Health::Unreachable
    );
}

#[test]
fn a_refused_destination_is_unreachable() {
    assert_eq!(health(&[ProbeOutcome::Unreachable; 3]), Health::Unreachable);
}

#[test]
fn thresholds_are_data_and_move_the_verdict() {
    let strict = HealthThresholds {
        degraded_rtt_us: 5_000,
        ..HealthThresholds::default()
    };
    let stats = window(&[ok(10), ok(10), ok(10)]);
    assert_eq!(HealthThresholds::default().health_of(&stats), Health::Healthy);
    assert_eq!(strict.health_of(&stats), Health::Degraded);
}

// --- groups -------------------------------------------------------------------------

#[test]
fn an_empty_group_knows_nothing() {
    let health = group(&[]);
    assert_eq!(health.verdict, Health::Unknown);
    assert_eq!(health.counts, HealthCounts::default());
    assert_eq!(health.timeouts, 0);
    assert_eq!(health.successes, 0);
}

#[test]
fn a_group_nothing_has_been_measured_on_is_not_green() {
    assert_eq!(group(&[window(&[]), window(&[])]).verdict, Health::Unknown);
}

#[test]
fn a_group_is_healthy_only_when_every_judged_member_is() {
    let health = group(&[
        window(&[ok(10), ok(11), ok(10)]),
        window(&[ok(20), ok(21), ok(20)]),
    ]);
    assert_eq!(health.verdict, Health::Healthy);
    assert_eq!(health.counts.ok, 2);
}

#[test]
fn a_member_still_warming_up_does_not_hold_the_group_back() {
    let health = group(&[window(&[ok(10), ok(11), ok(10)]), window(&[ok(20)])]);
    assert_eq!(health.verdict, Health::Healthy);
    assert_eq!(health.counts.unknown, 1);
}

#[test]
fn one_failing_member_degrades_the_group_without_hiding_the_rest() {
    let health = group(&[
        window(&[ok(10), ok(11), ok(10)]),
        window(&[ok(12), ok(11), ok(12)]),
        window(&[ok(10), ok(10), ok(11)]),
        window(&[ProbeOutcome::Timeout; 4]),
    ]);
    assert_eq!(health.verdict, Health::Degraded);
    assert_eq!(health.counts.ok, 3);
    assert_eq!(health.counts.unreachable, 1);
}

#[test]
fn a_group_where_nothing_answers_is_unreachable() {
    let health = group(&[
        window(&[ProbeOutcome::Timeout; 3]),
        window(&[ProbeOutcome::Unreachable; 2]),
    ]);
    assert_eq!(health.verdict, Health::Unreachable);
    assert_eq!(health.counts.answering(), 0);
}

#[test]
fn a_group_whose_probes_are_all_filtered_is_blocked_not_unreachable() {
    let health = group(&[
        window(&[ProbeOutcome::Blocked; 3]),
        window(&[ProbeOutcome::Blocked; 3]),
    ]);
    assert_eq!(health.verdict, Health::Blocked);
    assert_eq!(
        health.timeouts + health.successes,
        0,
        "filtered probes are not delivery attempts"
    );
}

#[test]
fn group_loss_is_weighted_by_probes_rather_than_by_member() {
    // One member probed 100 times with 1 loss, one probed twice with 1 loss: 2 of 102.
    let mut many = vec![ok(10); 99];
    many.push(ProbeOutcome::Timeout);
    let health = group(&[window(&many), window(&[ok(10), ProbeOutcome::Timeout])]);
    assert_eq!(health.timeouts, 2);
    assert_eq!(health.timeouts + health.successes, 102);
}

#[test]
fn counts_add_up_to_the_membership() {
    let health = group(&[
        window(&[ok(10), ok(10), ok(10)]),
        window(&[ok(10), ProbeOutcome::Timeout, ok(10), ok(10)]),
        window(&[ProbeOutcome::Timeout; 3]),
        window(&[ProbeOutcome::Blocked; 3]),
        window(&[]),
    ]);
    assert_eq!(health.counts.total(), 5);
    assert_eq!(health.counts.known(), 4);
    assert_eq!(health.counts.answering(), 2);
    assert_eq!(health.counts.ok, 1);
    assert_eq!(health.counts.degraded, 1);
    assert_eq!(health.counts.unreachable, 1);
    assert_eq!(health.counts.blocked, 1);
    assert_eq!(health.counts.unknown, 1);
}

// --- states and passive evidence ----------------------------------------------------

#[test]
fn states_report_what_they_mean() {
    assert!(Health::Healthy.is_answering());
    assert!(Health::Degraded.is_answering());
    assert!(!Health::Unreachable.is_answering());
    assert!(!Health::Blocked.is_answering());
    assert!(!Health::Unknown.is_answering());

    assert!(Health::Blocked.is_known());
    assert!(!Health::Unknown.is_known());

    assert!(Health::Healthy.is_alive());
    assert!(Health::Degraded.is_alive());
    assert!(Health::CarryingTraffic.is_alive());
    assert!(!Health::Unreachable.is_alive());
    assert!(!Health::Blocked.is_alive());
    assert!(!Health::Unknown.is_alive());
}

#[test]
fn traffic_across_a_silent_endpoint_means_it_is_alive_not_unreachable() {
    assert_eq!(
        with_passive_evidence(Health::Unreachable, true, true),
        Health::CarryingTraffic
    );
}

#[test]
fn a_refusal_is_softened_too_when_traffic_is_crossing() {
    let refused = health(&[ProbeOutcome::Unreachable, ProbeOutcome::Unreachable]);
    assert_eq!(refused, Health::Unreachable);
    assert_eq!(
        with_passive_evidence(refused, true, true),
        Health::CarryingTraffic
    );
}

#[test]
fn silence_without_traffic_stays_unreachable() {
    assert_eq!(
        with_passive_evidence(Health::Unreachable, false, true),
        Health::Unreachable
    );
}

#[test]
fn traffic_never_makes_a_measured_verdict_look_better() {
    for measured in [Health::Healthy, Health::Degraded] {
        assert_eq!(with_passive_evidence(measured, true, true), measured);
    }
}

#[test]
fn proven_filtering_outranks_liveness() {
    assert_eq!(
        with_passive_evidence(Health::Blocked, true, true),
        Health::Blocked
    );
}

#[test]
fn an_endpoint_still_being_tested_stays_unknown() {
    assert_eq!(
        with_passive_evidence(Health::Unknown, true, true),
        Health::Unknown
    );
    assert_eq!(
        with_passive_evidence(Health::Unknown, true, false),
        Health::CarryingTraffic
    );
}

#[test]
fn a_group_reaching_something_is_not_reported_as_unreachable() {
    let mut counts = HealthCounts::default();
    counts.record(Health::CarryingTraffic);
    counts.record(Health::Unreachable);

    assert_eq!(verdict_for(counts), Health::CarryingTraffic);
    assert_eq!(counts.total(), 2);
}

#[test]
fn a_group_is_not_clean_while_a_member_is_unmeasured() {
    let mut counts = HealthCounts::default();
    counts.record(Health::Healthy);
    counts.record(Health::CarryingTraffic);

    assert_eq!(verdict_for(counts), Health::Degraded);
}

// --- address classes ----------------------------------------------------------------

#[test]
fn transport_rtt_is_distrusted_only_for_tunnel_sentinels() {
    assert!(!AddressClass::TunnelSentinel.trusts_transport_rtt());
    assert!(AddressClass::Routable.trusts_transport_rtt());
    assert!(AddressClass::Private.trusts_transport_rtt());
    assert!(AddressClass::Loopback.trusts_transport_rtt());
    assert!(!AddressClass::Unusable.trusts_transport_rtt());
}

#[test]
fn a_tunnel_sentinel_is_still_worth_probing_with_the_right_kind() {
    assert!(AddressClass::TunnelSentinel.worth_probing());
    assert!(AddressClass::Routable.worth_probing());
    assert!(!AddressClass::Unusable.worth_probing());
    assert!(!AddressClass::Loopback.worth_probing());
}

#[test]
fn a_block_keeps_only_its_network_bits() {
    let block = IpCidr::new(IpAddr::v4(198, 18, 7, 9), 15).unwrap();
    assert_eq!(block.network(), IpAddr::v4(198, 18, 0, 0));
    assert_eq!(block.prefix_len(), 15);
    assert!(block.contains(IpAddr::v4(198, 19, 255, 255)));
    assert!(!block.contains(IpAddr::v4(198, 20, 0, 0)));
    assert!(IpCidr::new(IpAddr::v4(10, 0, 0, 0), 33).is_err());
}

// --- forged replies -----------------------------------------------------------------

#[test]
fn a_reply_is_read_against_the_next_initial_limit_above_it() {
    assert_eq!(hops_travelled(128), Some(0));
    assert_eq!(hops_travelled(57), Some(7));
}

#[test]
fn every_initial_limit_reads_as_no_router_crossed() {
    for limit in INITIAL_HOP_LIMITS {
        assert_eq!(hops_travelled(limit), Some(0), "{limit}");
    }
}

#[test]
fn hop_counts_are_measured_from_the_limit_just_above() {
    assert_eq!(hops_travelled(254), Some(1));
    assert_eq!(hops_travelled(127), Some(1));
    assert_eq!(hops_travelled(63), Some(1));
    assert_eq!(hops_travelled(31), Some(1));
    assert_eq!(hops_travelled(65), Some(63));
}

#[test]
fn a_hop_limit_of_zero_is_read_rather_than_refused() {
    assert_eq!(hops_travelled(0), Some(32));
}

#[test]
fn a_public_address_answering_from_zero_hops_away_is_proven_local() {
    assert!(reply_was_answered_locally(AddressClass::Routable, 128));
    assert!(reply_was_answered_locally(AddressClass::Routable, 64));
    assert!(reply_was_answered_locally(AddressClass::Routable, 255));
}

#[test]
fn a_reply_that_crossed_even_one_router_proves_nothing() {
    for arrived_with in [127, 63, 254, 57, 12] {
        assert!(
            !reply_was_answered_locally(AddressClass::Routable, arrived_with),
            "{arrived_with}"
        );
    }
}

#[test]
fn the_claim_is_only_made_about_an_address_that_ought_to_be_far_away() {
    for class in [
        AddressClass::Private,
        AddressClass::Loopback,
        AddressClass::CarrierGrade,
        AddressClass::Unusable,
        AddressClass::TunnelSentinel,
        AddressClass::TunnelledEgress,
    ] {
        assert!(!reply_was_answered_locally(class, 128), "{class:?}");
    }
}
