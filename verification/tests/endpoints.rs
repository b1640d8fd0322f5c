use netmon::address::{IpAddr, SocketAddr};
use netmon::endpoint::{
    AppId, Appearance, EndpointKey, EndpointTracker, LifecyclePolicy, Liveness, Probing,
    TrackedEndpoint, MAX_MONITORED_APPS,
};
use netmon::time::{Duration, Instant};
use netmon::Error;

fn tracker() -> EndpointTracker {
    EndpointTracker::new(LifecyclePolicy::default()).unwrap()
}

fn socket(last: u8, port: u16) -> SocketAddr {
    SocketAddr::new(IpAddr::v4(203, 0, 113, last), port)
}

fn udp(last: u8) -> EndpointKey {
    EndpointKey::udp(socket(last, 27_015))
}

fn app() -> AppId {
    AppId::new(1)
}

fn origin() -> Instant {
    Instant::from_origin(Duration::from_secs(1_000))
}

fn after(at: Instant, secs: u64) -> Instant {
    at.checked_add(Duration::from_secs(secs)).unwrap()
}

fn monitored() -> (EndpointTracker, Instant) {
    let mut tracker = tracker();
    tracker.monitor(app()).unwrap();
    (tracker, origin())
}

fn first(tracker: &EndpointTracker) -> TrackedEndpoint {
    tracker.endpoints(app())[0]
}

fn fast(tracker: &EndpointTracker) -> Vec<EndpointKey> {
    tracker
        .endpoints(app())
        .iter()
        .filter(|e| e.probing() == Probing::Active)
        .map(TrackedEndpoint::key)
        .collect()
}

#[test]
fn a_new_tracker_watches_nothing() {
    let tracker = tracker();
    assert_eq!(tracker.app_count(), 0);
    assert!(!tracker.is_monitored(app()));
    assert!(tracker.endpoints(app()).is_empty());
}

#[test]
fn rejects_a_policy_that_cannot_be_satisfied() {
    let zero_interval = LifecyclePolicy {
        active_interval: Duration::zero(),
        ..LifecyclePolicy::default()
    };
    assert_eq!(
        EndpointTracker::new(zero_interval).unwrap_err(),
        Error::ZeroInterval
    );

    let no_slots = LifecyclePolicy {
        max_active_endpoints: 0,
        ..LifecyclePolicy::default()
    };
    assert_eq!(
        EndpointTracker::new(no_slots).unwrap_err(),
        Error::ZeroEndpointCap
    );

    let forgetful = LifecyclePolicy {
        active_for: Duration::from_secs(60),
        retain_for: Duration::from_secs(30),
        ..LifecyclePolicy::default()
    };
    assert_eq!(
        EndpointTracker::new(forgetful).unwrap_err(),
        Error::RetentionShorterThanActivity
    );
}

#[test]
fn monitors_up_to_the_cap_and_then_refuses() {
    let mut tracker = tracker();
    for raw in 0..MAX_MONITORED_APPS {
        tracker.monitor(AppId::new(raw)).unwrap();
    }
    assert_eq!(tracker.app_count(), 5);
    assert_eq!(
        tracker.monitor(AppId::new(99)).unwrap_err(),
        Error::TooManyApps { limit: 5 }
    );
    assert_eq!(tracker.app_count(), 5);
    assert!(tracker.is_monitored(AppId::new(0)));
}

#[test]
fn monitoring_the_same_app_twice_costs_no_slot() {
    let mut tracker = tracker();
    tracker.monitor(app()).unwrap();
    tracker.monitor(app()).unwrap();
    assert_eq!(tracker.app_count(), 1);
}

#[test]
fn an_unmonitored_app_is_refused_rather_than_registered() {
    let mut tracker = tracker();
    let error = tracker.observe(app(), udp(1), None, origin()).unwrap_err();
    assert_eq!(error, Error::UnknownApp { app: 1 });
    assert_eq!(tracker.app_count(), 0);
}

#[test]
fn the_first_sighting_is_new_and_the_rest_are_known() {
    let (mut tracker, now) = monitored();
    assert_eq!(
        tracker.observe(app(), udp(1), None, now).unwrap(),
        Appearance::New
    );
    assert_eq!(
        tracker.observe(app(), udp(1), None, now).unwrap(),
        Appearance::Known
    );
    assert_eq!(tracker.endpoint_count(app()), 1);
}

#[test]
fn transport_and_port_are_part_of_the_identity() {
    let (mut tracker, now) = monitored();
    let address = socket(1, 27_015);
    tracker.observe(app(), EndpointKey::udp(address), None, now).unwrap();
    tracker.observe(app(), EndpointKey::tcp(address), None, now).unwrap();
    tracker
        .observe(app(), EndpointKey::udp(socket(1, 27_016)), None, now)
        .unwrap();
    assert_eq!(tracker.endpoint_count(app()), 3);
}

#[test]
fn two_apps_talking_to_one_address_keep_separate_records() {
    let mut tracker = tracker();
    let other = AppId::new(2);
    tracker.monitor(app()).unwrap();
    tracker.monitor(other).unwrap();
    let now = origin();

    tracker.observe(app(), udp(1), Some(100), now).unwrap();
    assert_eq!(
        tracker.observe(other, udp(1), Some(5), now).unwrap(),
        Appearance::New
    );
    assert_eq!(tracker.endpoints(app())[0].recent_bytes(), Some(100));
    assert_eq!(tracker.endpoints(other)[0].recent_bytes(), Some(5));
}

#[test]
fn an_endpoint_goes_idle_before_it_is_forgotten() {
    let (mut tracker, start) = monitored();
    tracker.observe(app(), udp(1), None, start).unwrap();
    let mut gone = Vec::new();

    tracker.sweep(after(start, 5), &mut gone);
    assert_eq!(first(&tracker).liveness(), Liveness::Active);
    assert!(gone.is_empty());

    tracker.sweep(after(start, 30), &mut gone);
    assert_eq!(first(&tracker).liveness(), Liveness::Idle);
    assert!(gone.is_empty(), "idle is not gone");
    assert_eq!(tracker.endpoint_count(app()), 1);
}

#[test]
fn a_long_silent_endpoint_is_forgotten_and_reported() {
    let (mut tracker, start) = monitored();
    tracker.observe(app(), udp(1), None, start).unwrap();
    let mut gone = Vec::new();

    tracker.sweep(after(start, 121), &mut gone);

    assert_eq!(gone, vec![(app(), udp(1))]);
    assert_eq!(tracker.endpoint_count(app()), 0);
}

#[test]
fn being_seen_again_rescues_an_idle_endpoint() {
    let (mut tracker, start) = monitored();
    tracker.observe(app(), udp(1), None, start).unwrap();
    let mut gone = Vec::new();

    tracker.sweep(after(start, 60), &mut gone);
    assert_eq!(first(&tracker).liveness(), Liveness::Idle);

    tracker.observe(app(), udp(1), None, after(start, 100)).unwrap();
    tracker.sweep(after(start, 101), &mut gone);

    assert!(gone.is_empty());
    assert_eq!(first(&tracker).liveness(), Liveness::Active);
}

#[test]
fn a_sweep_reports_only_what_that_sweep_forgot() {
    let (mut tracker, start) = monitored();
    tracker.observe(app(), udp(1), None, start).unwrap();
    let mut gone = Vec::new();

    tracker.sweep(after(start, 121), &mut gone);
    assert_eq!(gone.len(), 1);

    tracker.sweep(after(start, 122), &mut gone);
    assert!(gone.is_empty());
}

#[test]
fn endpoints_past_the_cap_are_demoted_and_never_dropped() {
    let (mut tracker, now) = monitored();
    for last in 1..=20 {
        tracker.observe(app(), udp(last), None, now).unwrap();
    }
    let mut gone = Vec::new();
    tracker.sweep(now, &mut gone);

    assert_eq!(tracker.endpoint_count(app()), 20);
    assert!(gone.is_empty());

    let endpoints = tracker.endpoints(app());
    let active = endpoints.iter().filter(|e| e.probing() == Probing::Active).count();
    let demoted = endpoints.iter().filter(|e| e.probing() == Probing::Demoted).count();
    assert_eq!(active, 16);
    assert_eq!(demoted, 4);
}

#[test]
fn the_busiest_endpoints_keep_the_probe_slots() {
    let policy = LifecyclePolicy {
        max_active_endpoints: 2,
        ..LifecyclePolicy::default()
    };
    let mut tracker = EndpointTracker::new(policy).unwrap();
    tracker.monitor(app()).unwrap();
    let now = origin();

    tracker.observe(app(), udp(1), Some(10), now).unwrap();
    tracker.observe(app(), udp(2), Some(9_000), now).unwrap();
    tracker.observe(app(), udp(3), Some(5_000), now).unwrap();
    tracker.observe(app(), udp(4), Some(1), now).unwrap();

    tracker.sweep(now, &mut Vec::new());

    assert_eq!(fast(&tracker), vec![udp(2), udp(3)]);
}

#[test]
fn without_byte_counts_ranking_falls_back_to_recency() {
    let policy = LifecyclePolicy {
        max_active_endpoints: 2,
        ..LifecyclePolicy::default()
    };
    let mut tracker = EndpointTracker::new(policy).unwrap();
    tracker.monitor(app()).unwrap();
    let start = origin();

    tracker.observe(app(), udp(1), None, start).unwrap();
    tracker.observe(app(), udp(2), None, after(start, 3)).unwrap();
    tracker.observe(app(), udp(3), None, after(start, 6)).unwrap();

    tracker.sweep(after(start, 6), &mut Vec::new());

    assert_eq!(fast(&tracker), vec![udp(2), udp(3)]);
}

#[test]
fn ties_in_volume_and_recency_go_to_the_lower_key() {
    let policy = LifecyclePolicy {
        max_active_endpoints: 1,
        ..LifecyclePolicy::default()
    };
    let mut tracker = EndpointTracker::new(policy).unwrap();
    tracker.monitor(app()).unwrap();
    let now = origin();

    tracker.observe(app(), udp(9), Some(50), now).unwrap();
    tracker.observe(app(), udp(4), Some(50), now).unwrap();
    tracker.sweep(now, &mut Vec::new());

    assert_eq!(fast(&tracker), vec![udp(4)]);
}

#[test]
fn an_idle_endpoint_is_demoted_however_busy_it_was() {
    let (mut tracker, start) = monitored();
    tracker.observe(app(), udp(1), Some(9_000_000), start).unwrap();
    tracker.observe(app(), udp(2), Some(1), after(start, 30)).unwrap();

    tracker.sweep(after(start, 30), &mut Vec::new());

    let heavy = first(&tracker);
    assert_eq!(heavy.key(), udp(1));
    assert_eq!(heavy.liveness(), Liveness::Idle);
    assert_eq!(heavy.probing(), Probing::Demoted);
}

#[test]
fn unknown_throughput_is_none_and_measured_nothing_is_some_zero() {
    let (mut tracker, start) = monitored();
    tracker.observe(app(), udp(1), None, start).unwrap();
    assert_eq!(first(&tracker).recent_bytes(), None);

    tracker.observe(app(), udp(2), Some(0), start).unwrap();
    assert_eq!(tracker.endpoints(app())[1].recent_bytes(), Some(0));
}

#[test]
fn traffic_ages_out_of_the_window() {
    let (mut tracker, start) = monitored();
    tracker.observe(app(), udp(1), Some(1_000), start).unwrap();
    assert_eq!(first(&tracker).recent_bytes(), Some(1_000));

    tracker.sweep(after(start, 31), &mut Vec::new());
    assert_eq!(first(&tracker).recent_bytes(), Some(1_000));

    tracker.sweep(after(start, 75), &mut Vec::new());
    assert_eq!(first(&tracker).recent_bytes(), Some(0));
}

#[test]
fn traffic_accumulates_within_a_window() {
    let (mut tracker, start) = monitored();
    for step in 0..5 {
        tracker
            .observe(app(), udp(1), Some(100), after(start, step * 2))
            .unwrap();
    }
    assert_eq!(first(&tracker).recent_bytes(), Some(500));
}

#[test]
fn a_clock_that_goes_backwards_neither_panics_nor_pays_out() {
    let (mut tracker, start) = monitored();
    let later = after(start, 60);
    tracker.observe(app(), udp(1), Some(10), later).unwrap();

    let mut gone = Vec::new();
    tracker.sweep(start, &mut gone);

    assert!(gone.is_empty());
    let endpoint = first(&tracker);
    assert_eq!(endpoint.liveness(), Liveness::Active);
    assert_eq!(endpoint.recent_bytes(), Some(10));
}

#[test]
fn forgetting_an_app_releases_its_endpoints_and_its_slot() {
    let (mut tracker, now) = monitored();
    tracker.observe(app(), udp(1), None, now).unwrap();
    tracker.observe(app(), udp(2), None, now).unwrap();

    let released = tracker.forget(app());

    assert_eq!(released, vec![udp(1), udp(2)]);
    assert_eq!(tracker.app_count(), 0);
    assert!(!tracker.is_monitored(app()));
    assert_eq!(tracker.forget(app()), Vec::new());
}

#[test]
fn a_new_endpoint_stays_conservative_until_it_is_ranked() {
    let (mut tracker, now) = monitored();
    tracker.observe(app(), udp(1), None, now).unwrap();
    assert_eq!(first(&tracker).probing(), Probing::Demoted);

    tracker.sweep(now, &mut Vec::new());
    assert_eq!(first(&tracker).probing(), Probing::Active);
}

#[test]
fn intervals_follow_the_probing_decision() {
    let policy = LifecyclePolicy::default();
    assert_eq!(policy.interval_for(Probing::Active), Duration::from_secs(1));
    assert_eq!(policy.interval_for(Probing::Demoted), Duration::from_secs(10));
    assert!(policy.interval_for(Probing::Demoted) > policy.interval_for(Probing::Active));
}

#[test]
fn sweeping_an_empty_tracker_is_harmless() {
    let mut tracker = tracker();
    let mut gone = vec![(app(), udp(9))];
    tracker.sweep(origin(), &mut gone);
    assert!(gone.is_empty());
}

#[test]
fn first_seen_survives_later_sightings() {
    let (mut tracker, start) = monitored();
    tracker.observe(app(), udp(1), None, start).unwrap();
    tracker.observe(app(), udp(1), None, after(start, 5)).unwrap();

    let endpoint = first(&tracker);
    assert_eq!(endpoint.first_seen(), start);
    assert_eq!(endpoint.last_seen(), after(start, 5));
}

#[test]
fn endpoints_are_listed_in_key_order_whatever_the_order_of_discovery() {
    let (mut tracker, now) = monitored();
    for last in [7, 3, 9, 1] {
        tracker.observe(app(), udp(last), None, now).unwrap();
    }
    tracker
        .observe(app(), EndpointKey::tcp(socket(200, 80)), None, now)
        .unwrap();
    let keys: Vec<EndpointKey> = tracker.endpoints(app()).iter().map(TrackedEndpoint::key).collect();
    assert_eq!(
        keys,
        vec![
            EndpointKey::tcp(socket(200, 80)),
            udp(1),
            udp(3),
            udp(7),
            udp(9)
        ]
    );
}

#[test]
fn the_same_place_under_another_scope_is_the_same_endpoint() {
    let (mut tracker, now) = monitored();
    let place = IpAddr::v6([0xfe80, 0, 0, 0, 0, 0, 0, 7]);
    let first_seen = EndpointKey::udp(SocketAddr::scoped(place, 27_015, 3));
    let again = EndpointKey::udp(SocketAddr::scoped(place, 27_015, 9));
    assert_eq!(tracker.observe(app(), first_seen, Some(10), now), Ok(Appearance::New));
    assert_eq!(tracker.observe(app(), again, Some(10), after(now, 1)), Ok(Appearance::Known));
    assert_eq!(tracker.endpoint_count(app()), 1);
    assert_eq!(first(&tracker).key(), first_seen, "the key first seen is kept");
    let elsewhere = EndpointKey::udp(SocketAddr::scoped(place, 27_016, 3));
    assert_eq!(tracker.observe(app(), elsewhere, None, after(now, 2)), Ok(Appearance::New));
}
