use netmon::address::IpAddr;
use netmon::target::{Target, TargetAddress, TargetId, TargetRegistry, TargetTag};
use netmon::Error;

fn ip(last: u8) -> IpAddr {
    IpAddr::v4(203, 0, 113, last)
}

#[test]
fn a_new_registry_is_empty() {
    let registry = TargetRegistry::new();
    assert!(registry.is_empty());
    assert_eq!(registry.len(), 0);
    assert_eq!(registry.find(TargetAddress::icmp(ip(1))), None);
}

#[test]
fn registers_and_resolves_a_target() {
    let mut registry = TargetRegistry::new();
    let address = TargetAddress::icmp(ip(1));
    let id = registry.insert(address, TargetTag::AppEndpoint).unwrap();

    let target = registry.get(id).unwrap();
    assert_eq!(target.id(), id);
    assert_eq!(target.address(), address);
    assert!(target.has_tag(TargetTag::AppEndpoint));
    assert_eq!(registry.find(address), Some(id));
    assert_eq!(registry.len(), 1);
}

#[test]
fn the_same_address_is_registered_once_and_accumulates_tags() {
    let mut registry = TargetRegistry::new();
    let address = TargetAddress::icmp(ip(1));

    let first = registry.insert(address, TargetTag::AppEndpoint).unwrap();
    let second = registry.insert(address, TargetTag::ForeignBaseline).unwrap();

    assert_eq!(first, second, "one address must not become two probe targets");
    assert_eq!(registry.len(), 1);
    let tags = registry.get(first).unwrap().tags();
    assert_eq!(tags, vec![TargetTag::AppEndpoint, TargetTag::ForeignBaseline]);
}

#[test]
fn addresses_differing_only_by_port_are_distinct_targets() {
    let mut registry = TargetRegistry::new();
    let bare = registry.insert(TargetAddress::icmp(ip(1)), TargetTag::AppEndpoint).unwrap();
    let with_port = registry.insert(TargetAddress::with_port(ip(1), 443), TargetTag::AppEndpoint).unwrap();
    let other_port = registry.insert(TargetAddress::with_port(ip(1), 80), TargetTag::AppEndpoint).unwrap();

    assert_ne!(bare, with_port);
    assert_ne!(with_port, other_port);
    assert_eq!(registry.len(), 3);
}

#[test]
fn untagging_the_last_reason_removes_the_target() {
    let mut registry = TargetRegistry::new();
    let address = TargetAddress::icmp(ip(1));
    let id = registry.insert(address, TargetTag::StatusService).unwrap();

    assert!(registry.untag(id, TargetTag::StatusService));
    assert!(registry.is_empty());
    assert_eq!(registry.get(id), None);
    assert_eq!(registry.find(address), None, "the address index must not keep a dangling entry");
}

#[test]
fn untagging_one_of_several_reasons_keeps_the_target() {
    let mut registry = TargetRegistry::new();
    let address = TargetAddress::icmp(ip(1));
    let id = registry.insert(address, TargetTag::AppEndpoint).unwrap();
    registry.insert(address, TargetTag::DomesticBaseline).unwrap();

    assert!(!registry.untag(id, TargetTag::AppEndpoint));
    let target = registry.get(id).unwrap();
    assert!(!target.has_tag(TargetTag::AppEndpoint));
    assert!(target.has_tag(TargetTag::DomesticBaseline));
}

#[test]
fn untagging_something_that_was_never_set_is_harmless() {
    let mut registry = TargetRegistry::new();
    let id = registry.insert(TargetAddress::icmp(ip(1)), TargetTag::AppEndpoint).unwrap();
    assert!(!registry.untag(id, TargetTag::StatusService));
    assert_eq!(registry.len(), 1);
}

#[test]
fn removing_reports_whether_anything_was_there() {
    let mut registry = TargetRegistry::new();
    let id = registry.insert(TargetAddress::icmp(ip(1)), TargetTag::AppEndpoint).unwrap();
    assert!(registry.remove(id));
    assert!(!registry.remove(id));
    assert!(!registry.untag(id, TargetTag::AppEndpoint));
}

#[test]
fn identifiers_are_not_reused_after_removal() {
    let mut registry = TargetRegistry::new();
    let first = registry.insert(TargetAddress::icmp(ip(1)), TargetTag::AppEndpoint).unwrap();
    registry.remove(first);
    let second = registry.insert(TargetAddress::icmp(ip(2)), TargetTag::AppEndpoint).unwrap();

    assert_ne!(first, second);
    assert_eq!(registry.get(first), None);
}

#[test]
fn re_registering_a_removed_address_yields_a_fresh_handle() {
    let mut registry = TargetRegistry::new();
    let address = TargetAddress::icmp(ip(1));
    let first = registry.insert(address, TargetTag::AppEndpoint).unwrap();
    registry.remove(first);
    let second = registry.insert(address, TargetTag::AppEndpoint).unwrap();

    assert_ne!(first, second);
    assert_eq!(registry.find(address), Some(second));
    assert_eq!(registry.len(), 1);
}

#[test]
fn filters_by_tag() {
    let mut registry = TargetRegistry::new();
    let app = registry.insert(TargetAddress::icmp(ip(1)), TargetTag::AppEndpoint).unwrap();
    let baseline = registry.insert(TargetAddress::icmp(ip(2)), TargetTag::DomesticBaseline).unwrap();
    registry.insert(TargetAddress::icmp(ip(1)), TargetTag::DomesticBaseline).unwrap();

    let app_ids: Vec<TargetId> = registry.tagged(TargetTag::AppEndpoint).iter().map(|t| t.id()).collect();
    let baseline_ids: Vec<TargetId> =
        registry.tagged(TargetTag::DomesticBaseline).iter().map(|t| t.id()).collect();

    assert_eq!(app_ids, vec![app]);
    assert_eq!(baseline_ids, vec![app, baseline]);
    assert_eq!(registry.tagged(TargetTag::StatusService).len(), 0);
}

#[test]
fn iteration_follows_handle_order() {
    let mut registry = TargetRegistry::new();
    let ids: Vec<TargetId> = (1..=5)
        .map(|last| registry.insert(TargetAddress::icmp(ip(last)), TargetTag::AppEndpoint).unwrap())
        .collect();

    let seen: Vec<TargetId> = registry.iter().iter().map(Target::id).collect();
    assert_eq!(seen, ids);
}

#[test]
fn refuses_to_register_once_identifiers_run_out() {
    let mut registry = TargetRegistry::starting_at(u32::MAX - 1);

    let last = registry.insert(TargetAddress::icmp(ip(1)), TargetTag::AppEndpoint).unwrap();
    assert_eq!(last.get(), u32::MAX - 1);

    assert_eq!(
        registry.insert(TargetAddress::icmp(ip(2)), TargetTag::AppEndpoint).unwrap_err(),
        Error::TargetIdExhausted
    );
    assert_eq!(registry.len(), 1, "a refused registration leaves nothing behind");
}

#[test]
fn an_exhausted_registry_still_tags_what_it_already_holds() {
    let mut registry = TargetRegistry::starting_at(u32::MAX - 1);
    let address = TargetAddress::icmp(ip(1));
    let id = registry.insert(address, TargetTag::AppEndpoint).unwrap();
    assert_eq!(registry.insert(address, TargetTag::PathEdgeHop), Ok(id));
    assert_eq!(registry.get(id).unwrap().tags(), vec![TargetTag::AppEndpoint, TargetTag::PathEdgeHop]);
}

#[test]
fn tags_come_back_in_declaration_order_whatever_order_they_were_added() {
    let mut registry = TargetRegistry::new();
    let address = TargetAddress::with_port(ip(9), 27_015);
    for tag in [
        TargetTag::GameReferencePool,
        TargetTag::StatusService,
        TargetTag::PathEdgeHop,
        TargetTag::ForeignBaseline,
        TargetTag::DomesticBaseline,
        TargetTag::AppEndpoint,
    ] {
        registry.insert(address, tag).unwrap();
    }
    let id = registry.find(address).unwrap();
    assert_eq!(
        registry.get(id).unwrap().tags(),
        vec![
            TargetTag::AppEndpoint,
            TargetTag::PathEdgeHop,
            TargetTag::DomesticBaseline,
            TargetTag::ForeignBaseline,
            TargetTag::StatusService,
            TargetTag::GameReferencePool,
        ]
    );
}

#[test]
fn a_raw_handle_round_trips() {
    assert_eq!(TargetId::from_raw(7).get(), 7);
}
