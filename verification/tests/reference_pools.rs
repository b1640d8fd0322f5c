use netmon::address::IpAddr;
use netmon::pool::{PoolEntry, PoolPolicy, PoolSource, ReferencePool};
use netmon::target::TargetAddress;
use netmon::time::{Duration, WallTime};

fn address(last: u8) -> TargetAddress {
    TargetAddress::icmp(IpAddr::v4(203, 0, 113, last))
}

fn seed(last: u8) -> PoolEntry {
    PoolEntry {
        address: address(last),
        label: Some(format!("Seed {}", last)),
        source: PoolSource::Bundled,
        last_seen: None,
    }
}

fn epoch(secs: u64) -> WallTime {
    WallTime::from_unix(Duration::from_secs(secs))
}

fn policy() -> PoolPolicy {
    PoolPolicy { max_learned: 3, expire_after: Duration::from_secs(100) }
}

fn held(pool: &ReferencePool) -> Vec<TargetAddress> {
    pool.entries().into_iter().map(|e| e.address).collect()
}

#[test]
fn a_pool_with_no_seeds_and_nothing_learned_is_empty() {
    let pool = ReferencePool::new(policy(), Vec::new());
    assert!(pool.is_empty());
    assert!(pool.entries().is_empty());
}

#[test]
fn seeds_cover_the_cold_start() {
    let pool = ReferencePool::new(policy(), vec![seed(1), seed(2)]);
    assert_eq!(pool.len(), 2);
    assert!(pool.entries().iter().all(|entry| entry.source == PoolSource::Bundled));
}

#[test]
fn an_observed_endpoint_joins_the_pool() {
    let mut pool = ReferencePool::new(policy(), vec![seed(1)]);
    pool.observe(address(10), epoch(1_000));

    let entries = pool.entries();
    assert_eq!(entries.len(), 2);
    assert_eq!(entries[0].source, PoolSource::Bundled);
    assert_eq!(entries[1].source, PoolSource::Learned);
    assert_eq!(entries[1].address, address(10));
    assert_eq!(entries[1].last_seen, Some(epoch(1_000)));
    assert_eq!(entries[1].label, None);
}

#[test]
fn seeing_an_endpoint_again_refreshes_it_rather_than_duplicating_it() {
    let mut pool = ReferencePool::new(policy(), Vec::new());
    pool.observe(address(10), epoch(1_000));
    pool.observe(address(10), epoch(2_000));

    assert_eq!(pool.len(), 1);
    assert_eq!(pool.entries()[0].last_seen, Some(epoch(2_000)));
}

#[test]
fn a_stamp_that_would_age_an_entry_is_refused() {
    let mut pool = ReferencePool::new(policy(), Vec::new());
    pool.observe(address(10), epoch(2_000));
    pool.observe(address(10), epoch(1_000));

    assert_eq!(pool.entries()[0].last_seen, Some(epoch(2_000)));
}

#[test]
fn an_address_that_is_already_a_seed_does_not_spend_a_learned_slot() {
    let mut pool = ReferencePool::new(policy(), vec![seed(1)]);
    pool.observe(address(1), epoch(1_000));

    assert_eq!(pool.len(), 1);
    assert_eq!(pool.learned().len(), 0);
}

#[test]
fn past_the_cap_the_least_recently_seen_entry_goes() {
    let mut pool = ReferencePool::new(policy(), Vec::new());
    pool.observe(address(10), epoch(1_000));
    pool.observe(address(11), epoch(2_000));
    pool.observe(address(12), epoch(3_000));
    pool.observe(address(13), epoch(4_000));

    let held = held(&pool);
    assert_eq!(held.len(), 3);
    assert!(!held.contains(&address(10)), "the oldest must be the one evicted");
    assert!(held.contains(&address(13)));
}

#[test]
fn the_cap_never_evicts_a_bundled_seed() {
    let mut pool = ReferencePool::new(policy(), vec![seed(1), seed(2)]);
    for index in 0..10 {
        pool.observe(address(20 + index), epoch(1_000 + u64::from(index)));
    }

    let seeds = pool.entries().into_iter().filter(|entry| entry.source == PoolSource::Bundled).count();
    assert_eq!(seeds, 2);
    assert_eq!(pool.len(), 5, "two seeds and the three learned the cap allows");
}

#[test]
fn learned_entries_come_back_most_recently_seen_first() {
    let mut pool = ReferencePool::new(policy(), Vec::new());
    pool.observe(address(10), epoch(1_000));
    pool.observe(address(11), epoch(3_000));
    pool.observe(address(12), epoch(2_000));

    assert_eq!(held(&pool), vec![address(11), address(12), address(10)]);
}

#[test]
fn an_entry_unseen_for_too_long_expires() {
    let mut pool = ReferencePool::new(policy(), Vec::new());
    pool.observe(address(10), epoch(1_000));
    pool.observe(address(11), epoch(1_080));

    pool.expire(epoch(1_150));

    assert_eq!(held(&pool), vec![address(11)]);
}

#[test]
fn expiry_is_inclusive_of_the_boundary() {
    let mut pool = ReferencePool::new(policy(), Vec::new());
    pool.observe(address(10), epoch(1_000));

    pool.expire(epoch(1_100));
    assert_eq!(pool.len(), 1, "exactly at the limit is still within it");

    pool.expire(epoch(1_101));
    assert_eq!(pool.len(), 0);
}

#[test]
fn expiry_never_touches_a_seed() {
    let mut pool = ReferencePool::new(policy(), vec![seed(1)]);
    pool.expire(epoch(999_999));
    assert_eq!(pool.len(), 1);
}

#[test]
fn a_clock_that_stepped_backwards_does_not_expire_everything() {
    let mut pool = ReferencePool::new(policy(), Vec::new());
    pool.observe(address(10), epoch(5_000));
    pool.expire(epoch(1_000));
    assert_eq!(pool.len(), 1, "a stamp in the future is a moved clock, not a stale entry");
}

#[test]
fn learned_entries_are_persisted_in_address_order() {
    let mut pool = ReferencePool::new(policy(), Vec::new());
    pool.observe(address(12), epoch(1_000));
    pool.observe(address(10), epoch(3_000));
    pool.observe(address(11), epoch(2_000));
    assert_eq!(
        pool.learned(),
        vec![(address(10), epoch(3_000)), (address(11), epoch(2_000)), (address(12), epoch(1_000))]
    );
}

#[test]
fn equal_stamps_are_listed_and_evicted_by_address() {
    let mut pool = ReferencePool::new(policy(), Vec::new());
    pool.observe(address(12), epoch(1_000));
    pool.observe(address(10), epoch(1_000));
    pool.observe(address(11), epoch(1_000));
    assert_eq!(held(&pool), vec![address(10), address(11), address(12)]);
    pool.observe(address(13), epoch(1_000));
    assert_eq!(held(&pool), vec![address(11), address(12), address(13)]);
}

#[test]
fn a_pool_that_may_learn_nothing_keeps_only_its_seeds() {
    let mut pool = ReferencePool::new(PoolPolicy { max_learned: 0, ..policy() }, vec![seed(1)]);
    pool.observe(address(10), epoch(1_000));
    assert_eq!(held(&pool), vec![address(1)]);
}

#[test]
fn seeds_are_listed_exactly_as_bundled() {
    let pool = ReferencePool::new(policy(), vec![seed(2), seed(1)]);
    assert_eq!(pool.entries(), vec![seed(2), seed(1)]);
}
