use netmon::address::{IpAddr, SocketAddr};
use netmon::platform::address::{unmap_ip, unmap_socket};
use netmon::platform::connection::{
    classify_tcp_state, peer, port_from_mib, Connection, Protocol, TcpState, TCP_STATE_CLOSED,
    TCP_STATE_CLOSE_WAIT, TCP_STATE_CLOSING, TCP_STATE_DELETE_TCB, TCP_STATE_ESTAB,
    TCP_STATE_FIN_WAIT1, TCP_STATE_FIN_WAIT2, TCP_STATE_LAST_ACK, TCP_STATE_LISTEN,
    TCP_STATE_SYN_RCVD, TCP_STATE_SYN_SENT, TCP_STATE_TIME_WAIT,
};
use netmon::platform::flow::{
    decode_raw_sockaddr, decode_sockaddr, summary_port, with_port, TcpPortWatch,
    AF_INET, AF_INET6,
};
use netmon::platform::icmp::{
    classify_status, from_in_addr, to_in_addr, EchoRequest, StatusKind, DEFAULT_PAYLOAD_LEN,
    IP_BAD_DESTINATION, IP_BAD_OPTION, IP_BAD_REQ, IP_BAD_ROUTE, IP_BUF_TOO_SMALL,
    IP_DEST_HOST_UNREACHABLE, IP_DEST_NET_UNREACHABLE, IP_DEST_PORT_UNREACHABLE,
    IP_DEST_PROT_UNREACHABLE, IP_GENERAL_FAILURE, IP_HW_ERROR, IP_NO_RESOURCES,
    IP_OPTION_TOO_BIG, IP_PACKET_TOO_BIG, IP_PARAM_PROBLEM, IP_REQ_TIMED_OUT, IP_SOURCE_QUENCH,
    IP_SUCCESS, IP_TTL_EXPIRED_REASSEM, IP_TTL_EXPIRED_TRANSIT,
};
use netmon::platform::interface::{InterfaceNames, NetworkInterface};
use netmon::platform::process::{name_from_wide, parent_of, Pid};
use netmon::platform::route::{kind_of_adapter, EgressKind, IF_TYPE_TUNNEL, NDIS_MEDIUM_IP, NDIS_MEDIUM_TUNNEL};
use netmon::platform::HostPlatform;
use netmon::time::Duration;

fn v4(a: u8, b: u8, c: u8, d: u8) -> IpAddr {
    IpAddr::v4(a, b, c, d)
}

// --- host platform ------------------------------------------------------------------

#[test]
fn ids_are_stable_and_distinct() {
    assert_eq!(HostPlatform::Windows.id(), "windows");
    assert_eq!(HostPlatform::Linux.id(), "linux");
    assert_eq!(HostPlatform::MacOs.id(), "macos");
}

// --- connection tables --------------------------------------------------------------

#[test]
fn ports_are_read_out_of_network_byte_order() {
    assert_eq!(port_from_mib(0x5000), 80);
    assert_eq!(port_from_mib(0x8769), 27_015);
    assert_eq!(port_from_mib(0), 0);
    assert_eq!(port_from_mib(0xFFFF), 65_535);
}

#[test]
fn ports_ignore_the_upper_half_of_the_field() {
    assert_eq!(port_from_mib(0xDEAD_5000), 80);
}

#[test]
fn every_documented_tcp_state_is_classified() {
    for (raw, expected) in [
        (TCP_STATE_CLOSED, TcpState::Closed),
        (TCP_STATE_LISTEN, TcpState::Listen),
        (TCP_STATE_SYN_SENT, TcpState::SynSent),
        (TCP_STATE_SYN_RCVD, TcpState::SynReceived),
        (TCP_STATE_ESTAB, TcpState::Established),
        (TCP_STATE_FIN_WAIT1, TcpState::FinWait1),
        (TCP_STATE_FIN_WAIT2, TcpState::FinWait2),
        (TCP_STATE_CLOSE_WAIT, TcpState::CloseWait),
        (TCP_STATE_CLOSING, TcpState::Closing),
        (TCP_STATE_LAST_ACK, TcpState::LastAck),
        (TCP_STATE_TIME_WAIT, TcpState::TimeWait),
        (TCP_STATE_DELETE_TCB, TcpState::DeleteTcb),
    ] {
        assert_eq!(classify_tcp_state(raw), expected, "state {raw}");
    }
}

#[test]
fn an_unknown_state_keeps_its_value() {
    assert_eq!(classify_tcp_state(100), TcpState::Unknown(100));
    assert_eq!(classify_tcp_state(0), TcpState::Unknown(0));
}

#[test]
fn only_live_states_count_as_active() {
    for state in [
        TcpState::SynSent,
        TcpState::SynReceived,
        TcpState::Established,
        TcpState::CloseWait,
    ] {
        assert!(state.is_active(), "{state:?}");
    }
    for state in [
        TcpState::Closed,
        TcpState::Listen,
        TcpState::FinWait1,
        TcpState::FinWait2,
        TcpState::Closing,
        TcpState::LastAck,
        TcpState::TimeWait,
        TcpState::DeleteTcb,
        TcpState::Unknown(100),
    ] {
        assert!(!state.is_active(), "{state:?}");
    }
}

#[test]
fn a_wildcard_row_names_no_peer() {
    assert_eq!(peer(v4(0, 0, 0, 0), 0), None);
    assert_eq!(peer(v4(0, 0, 0, 0), 443), None);
    assert_eq!(peer(IpAddr::V6(0), 443), None);
}

#[test]
fn port_zero_is_never_a_peer() {
    assert_eq!(peer(v4(203, 0, 113, 5), 0), None);
}

#[test]
fn a_real_peer_survives() {
    let address = v4(203, 0, 113, 5);
    assert_eq!(peer(address, 27_015), Some(SocketAddr::new(address, 27_015)));
}

fn tcp_row(state: TcpState, remote: Option<SocketAddr>) -> Connection {
    Connection {
        protocol: Protocol::Tcp,
        local: SocketAddr::new(v4(192, 0, 2, 10), 51_000),
        remote,
        state: Some(state),
        pid: Pid::new(4242),
    }
}

#[test]
fn an_established_row_offers_its_peer() {
    let remote = SocketAddr::new(v4(203, 0, 113, 5), 443);
    assert_eq!(
        tcp_row(TcpState::Established, Some(remote)).active_peer(),
        Some(remote)
    );
}

#[test]
fn a_dying_connection_is_not_an_endpoint_to_probe() {
    let remote = SocketAddr::new(v4(203, 0, 113, 5), 443);
    assert_eq!(tcp_row(TcpState::TimeWait, Some(remote)).active_peer(), None);
    assert_eq!(tcp_row(TcpState::Listen, None).active_peer(), None);
}

#[test]
fn a_udp_row_never_claims_a_peer() {
    let row = Connection {
        protocol: Protocol::Udp,
        local: SocketAddr::new(v4(0, 0, 0, 0), 50_000),
        remote: None,
        state: None,
        pid: Pid::new(4242),
    };
    assert_eq!(row.active_peer(), None);
}

// --- address unmapping ----------------------------------------------------------------

fn mapped(a: u8, b: u8, c: u8, d: u8) -> IpAddr {
    IpAddr::v6([0, 0, 0, 0, 0, 0xffff, u16::from(a) << 8 | u16::from(b), u16::from(c) << 8 | u16::from(d)])
}

#[test]
fn a_mapped_address_becomes_the_address_it_stands_for() {
    assert_eq!(unmap_ip(mapped(203, 0, 113, 5)), v4(203, 0, 113, 5));
}

#[test]
fn a_mapped_wildcard_becomes_recognisably_unspecified() {
    assert!(unmap_ip(mapped(0, 0, 0, 0)).is_unspecified());
}

#[test]
fn a_mapped_private_address_can_be_classified_again() {
    assert_eq!(unmap_ip(mapped(192, 168, 1, 1)), v4(192, 168, 1, 1));
    assert_eq!(unmap_ip(mapped(127, 0, 0, 1)), v4(127, 0, 0, 1));
}

#[test]
fn a_genuine_ipv6_address_is_untouched() {
    let address = IpAddr::v6([0x2606, 0x4700, 0, 0, 0, 0, 0, 0x1111]);
    assert_eq!(unmap_ip(address), address);
}

#[test]
fn an_ipv4_compatible_address_is_left_alone() {
    assert_eq!(unmap_ip(IpAddr::V6(1)), IpAddr::V6(1));
    let compatible = IpAddr::v6([0, 0, 0, 0, 0, 0, 0xcb00, 0x7105]);
    assert_eq!(unmap_ip(compatible), compatible);
}

#[test]
fn an_ipv4_address_survives_unchanged() {
    let address = v4(203, 0, 113, 5);
    assert_eq!(unmap_ip(address), address);
}

#[test]
fn a_socket_address_keeps_its_port() {
    let socket = SocketAddr::new(mapped(203, 0, 113, 5), 27_015);
    assert_eq!(unmap_socket(socket), SocketAddr::new(v4(203, 0, 113, 5), 27_015));
}

// --- socket-address blobs -----------------------------------------------------------

fn sockaddr_in(port: u16, octets: [u8; 4]) -> Vec<u8> {
    let mut bytes = Vec::new();
    bytes.extend_from_slice(&AF_INET.to_le_bytes());
    bytes.extend_from_slice(&port.to_be_bytes());
    bytes.extend_from_slice(&octets);
    bytes
}

fn sockaddr_in6(port: u16, groups: [u16; 8], scope_id: u32) -> Vec<u8> {
    let mut bytes = Vec::new();
    bytes.extend_from_slice(&AF_INET6.to_le_bytes());
    bytes.extend_from_slice(&port.to_be_bytes());
    bytes.extend_from_slice(&0u32.to_le_bytes());
    for group in groups {
        bytes.extend_from_slice(&group.to_be_bytes());
    }
    bytes.extend_from_slice(&scope_id.to_le_bytes());
    bytes
}

#[test]
fn decodes_an_ipv4_endpoint() {
    assert_eq!(
        decode_sockaddr(&sockaddr_in(27_015, [203, 0, 113, 5])),
        Some(SocketAddr::new(v4(203, 0, 113, 5), 27_015))
    );
}

#[test]
fn reads_the_port_in_network_order() {
    let blob = sockaddr_in(27_015, [203, 0, 113, 5]);
    assert_eq!(blob[2], 0x69);
    assert_eq!(blob[3], 0x87);
    assert_eq!(decode_sockaddr(&blob).map(|a| a.port), Some(27_015));
}

#[test]
fn a_dual_stack_socket_reports_its_ipv4_peer_as_ipv4() {
    let blob = sockaddr_in6(27_015, [0, 0, 0, 0, 0, 0xffff, 0xcb00, 0x7105], 0);
    assert_eq!(
        decode_sockaddr(&blob),
        Some(SocketAddr::new(v4(203, 0, 113, 5), 27_015))
    );
}

#[test]
fn an_unbound_dual_stack_socket_is_recognisably_unspecified() {
    let blob = sockaddr_in6(0, [0, 0, 0, 0, 0, 0xffff, 0, 0], 0);
    let decoded = decode_sockaddr(&blob).expect("it must decode");
    assert!(decoded.ip.is_unspecified());
}

#[test]
fn decodes_an_ipv6_endpoint_with_its_scope() {
    let groups = [0x2001, 0xdb8, 0, 0, 0, 0, 0, 1];
    assert_eq!(
        decode_sockaddr(&sockaddr_in6(443, groups, 7)),
        Some(SocketAddr::scoped(IpAddr::v6(groups), 443, 7))
    );
}

#[test]
fn an_ipv6_blob_without_a_scope_is_still_usable() {
    let groups = [0x2001, 0xdb8, 0, 0, 0, 0, 0, 1];
    let mut blob = sockaddr_in6(443, groups, 9);
    blob.truncate(24);
    assert_eq!(
        decode_sockaddr(&blob),
        Some(SocketAddr::new(IpAddr::v6(groups), 443))
    );
}

#[test]
fn a_longer_blob_than_the_structure_still_decodes() {
    let mut blob = sockaddr_in(443, [203, 0, 113, 5]);
    blob.extend_from_slice(&[0xAA; 20]);
    assert_eq!(decode_sockaddr(&blob).map(|a| a.port), Some(443));
}

#[test]
fn a_truncated_blob_is_rejected_rather_than_guessed() {
    assert_eq!(decode_sockaddr(&[]), None);
    assert_eq!(decode_sockaddr(&[2, 0]), None);
    assert_eq!(decode_sockaddr(&[2, 0, 0x01, 0xBB]), None);
    assert_eq!(decode_sockaddr(&[23, 0, 0x01, 0xBB, 1, 2, 3, 4]), None);
}

#[test]
fn an_unknown_family_yields_nothing() {
    for family in [0u16, 1, 17, 32, 0xFFFF] {
        let mut blob = vec![0u8; 32];
        blob[0..2].copy_from_slice(&family.to_le_bytes());
        assert_eq!(decode_sockaddr(&blob), None, "family {family}");
    }
}

#[test]
fn decodes_the_unspecified_address() {
    assert_eq!(
        decode_sockaddr(&sockaddr_in(0, [0, 0, 0, 0])),
        Some(SocketAddr::new(v4(0, 0, 0, 0), 0))
    );
}

#[test]
fn the_raw_decoding_keeps_the_mapped_form() {
    let blob = sockaddr_in6(80, [0, 0, 0, 0, 0, 0xffff, 0xcb00, 0x7105], 3);
    let raw = decode_raw_sockaddr(&blob).expect("it must decode");
    assert_eq!(raw.ip, mapped(203, 0, 113, 5));
    assert_eq!(raw.scope_id, 3);
}

#[test]
fn the_summarys_local_port_is_read_in_network_order() {
    assert_eq!(summary_port(8_415), Some(57_120));
    assert_eq!(summary_port(9_183), Some(57_123));
    assert_eq!(summary_port(0), Some(0));
    assert_eq!(summary_port(u32::from(u16::MAX) + 1), None);
}

#[test]
fn a_port_nobody_asked_about_is_not_watched() {
    let mut ports = TcpPortWatch::new();
    assert!(!ports.contains(443));

    ports.replace(&[51_000, 51_001]);
    assert!(ports.contains(51_000));
    assert!(!ports.contains(443));

    ports.replace(&[51_002]);
    assert!(!ports.contains(51_000));
    assert!(ports.contains(51_002));
}

#[test]
fn a_missing_port_is_filled_in_and_a_present_one_kept() {
    let bare = SocketAddr::new(v4(203, 0, 113, 5), 0);
    assert_eq!(with_port(bare, 443).port, 443);
    let ported = SocketAddr::new(v4(203, 0, 113, 5), 80);
    assert_eq!(with_port(ported, 443), ported);
}

// --- ICMP -------------------------------------------------------------------------

#[test]
fn classifies_a_reply_as_a_measurement() {
    assert_eq!(classify_status(IP_SUCCESS), StatusKind::Replied);
}

#[test]
fn classifies_both_ttl_expiries_as_hop_responses() {
    assert_eq!(classify_status(IP_TTL_EXPIRED_TRANSIT), StatusKind::TtlExpired);
    assert_eq!(classify_status(IP_TTL_EXPIRED_REASSEM), StatusKind::TtlExpired);
}

#[test]
fn classifies_every_unreachable_flavour_together() {
    for status in [
        IP_DEST_NET_UNREACHABLE,
        IP_DEST_HOST_UNREACHABLE,
        IP_DEST_PROT_UNREACHABLE,
        IP_DEST_PORT_UNREACHABLE,
        IP_BAD_ROUTE,
        IP_BAD_DESTINATION,
    ] {
        assert_eq!(classify_status(status), StatusKind::Unreachable, "{status}");
    }
}

#[test]
fn classifies_a_timeout_as_silence_rather_than_an_error() {
    assert_eq!(classify_status(IP_REQ_TIMED_OUT), StatusKind::TimedOut);
}

#[test]
fn local_failures_measure_nothing_about_the_target() {
    for status in [
        IP_BUF_TOO_SMALL,
        IP_NO_RESOURCES,
        IP_BAD_OPTION,
        IP_HW_ERROR,
        IP_PACKET_TOO_BIG,
        IP_BAD_REQ,
        IP_PARAM_PROBLEM,
        IP_SOURCE_QUENCH,
        IP_OPTION_TOO_BIG,
        IP_GENERAL_FAILURE,
        0xDEAD_BEEF,
    ] {
        assert_eq!(classify_status(status), StatusKind::Unusable, "{status}");
    }
}

#[test]
fn packs_addresses_in_network_order() {
    assert_eq!(to_in_addr(0x7F00_0001), 0x0100_007F);
    assert_eq!(to_in_addr(0x0102_0304), 0x0403_0201);
    assert_eq!(to_in_addr(0), 0);
}

#[test]
fn address_packing_round_trips() {
    for bits in [0x7F00_0001, 0, u32::MAX, 0xCB00_7107, 0x0808_0808] {
        assert_eq!(from_in_addr(to_in_addr(bits)), bits);
    }
}

#[test]
fn a_request_carries_its_routing_constraints() {
    let target = v4(203, 0, 113, 1);
    let source = v4(192, 168, 1, 2);

    let plain = EchoRequest::to(target, Duration::from_secs(1));
    assert_eq!(plain.source, None);
    assert_eq!(plain.ttl, None);
    assert_eq!(plain.payload_len, DEFAULT_PAYLOAD_LEN);

    let routed = plain.from_source(source).with_ttl(3);
    assert_eq!(routed.source, Some(source));
    assert_eq!(routed.ttl, Some(3));
    assert_eq!(routed.target, plain.target);
}

// --- processes --------------------------------------------------------------------

fn wide(text: &str, capacity: usize) -> Vec<u16> {
    let mut buffer: Vec<u16> = text.encode_utf16().collect();
    buffer.resize(capacity, 0);
    buffer
}

#[test]
fn a_pid_round_trips_through_the_newtype() {
    assert_eq!(Pid::new(4).get(), 4);
    assert_eq!(Pid::new(u32::MAX).get(), u32::MAX);
    assert_eq!(Pid::new(1234).to_text(), "1234");
}

#[test]
fn reads_a_name_up_to_its_terminator() {
    assert_eq!(name_from_wide(&wide("Discord.exe", 260)), "Discord.exe");
}

#[test]
fn ignores_whatever_follows_the_terminator() {
    let mut buffer = wide("cs2.exe", 32);
    buffer[10] = u16::from(b'X');
    buffer[11] = u16::from(b'Y');
    assert_eq!(name_from_wide(&buffer), "cs2.exe");
}

#[test]
fn handles_an_unterminated_buffer() {
    let buffer: Vec<u16> = "abc".encode_utf16().collect();
    assert_eq!(name_from_wide(&buffer), "abc");
}

#[test]
fn an_empty_buffer_is_an_empty_name() {
    assert_eq!(name_from_wide(&[]), "");
    assert_eq!(name_from_wide(&[0; 16]), "");
}

#[test]
fn keeps_non_ascii_names_intact() {
    assert_eq!(name_from_wide(&wide("Игра.exe", 260)), "Игра.exe");
    assert_eq!(name_from_wide(&wide("原神.exe", 260)), "原神.exe");
}

#[test]
fn a_malformed_name_is_replaced_rather_than_dropped() {
    let buffer = [0xD800, u16::from(b'a'), 0];
    assert_eq!(name_from_wide(&buffer), "\u{FFFD}a");
}

#[test]
fn the_idle_process_is_nobodys_parent() {
    assert_eq!(parent_of(0), None);
    assert_eq!(parent_of(4), Some(Pid::new(4)));
}

// --- routes -----------------------------------------------------------------------

const ETHERNET: i32 = 0;
const IF_TYPE_ETHERNET: u32 = 6;
const IF_TYPE_PROPVIRTUAL: u32 = 53;

#[test]
fn an_adapter_carrying_bare_ip_is_a_tunnel() {
    assert_eq!(
        kind_of_adapter(NDIS_MEDIUM_IP, IF_TYPE_PROPVIRTUAL),
        EgressKind::LocalTunnel
    );
}

#[test]
fn an_adapter_windows_itself_calls_a_tunnel_is_one() {
    assert_eq!(
        kind_of_adapter(NDIS_MEDIUM_TUNNEL, IF_TYPE_TUNNEL),
        EgressKind::LocalTunnel
    );
}

#[test]
fn either_field_alone_is_enough() {
    assert_eq!(kind_of_adapter(ETHERNET, IF_TYPE_TUNNEL), EgressKind::LocalTunnel);
    assert_eq!(
        kind_of_adapter(NDIS_MEDIUM_IP, IF_TYPE_ETHERNET),
        EgressKind::LocalTunnel
    );
}

#[test]
fn an_ordinary_adapter_is_left_alone() {
    assert_eq!(kind_of_adapter(ETHERNET, IF_TYPE_ETHERNET), EgressKind::Ordinary);
    assert_eq!(
        kind_of_adapter(ETHERNET, IF_TYPE_PROPVIRTUAL),
        EgressKind::Ordinary
    );
}

#[test]
fn an_unknown_pairing_is_read_as_ordinary_rather_than_refused() {
    for media in [1_i32, 9, 16, 17] {
        assert_eq!(kind_of_adapter(media, 71), EgressKind::Ordinary, "{media}");
    }
}

#[test]
fn nothing_known_is_the_default() {
    assert_eq!(EgressKind::default(), EgressKind::Unknown);
}

// --- adapter names ----------------------------------------------------------------

fn interface(name: &str, addresses: &[IpAddr]) -> NetworkInterface {
    NetworkInterface {
        name: name.to_owned(),
        addresses: addresses.to_vec(),
    }
}

fn doc(last: u8) -> IpAddr {
    v4(192, 0, 2, last)
}

#[test]
fn an_address_is_named_after_the_adapter_that_carries_it() {
    let names = InterfaceNames::of(&[
        interface("Ethernet", &[doc(10)]),
        interface("Tunnel", &[doc(20), IpAddr::V6(1)]),
    ]);
    assert_eq!(names.name_of(doc(10)), Some("Ethernet"));
    assert_eq!(names.name_of(doc(20)), Some("Tunnel"));
    assert_eq!(names.name_of(IpAddr::V6(1)), Some("Tunnel"));
}

#[test]
fn an_address_no_adapter_claims_is_unnamed_rather_than_guessed() {
    let names = InterfaceNames::of(&[interface("Ethernet", &[doc(10)])]);
    assert_eq!(names.name_of(doc(99)), None);
}

#[test]
fn an_adapter_with_several_addresses_names_all_of_them() {
    let names = InterfaceNames::of(&[interface("Wi-Fi", &[doc(1), doc(2), doc(3)])]);
    for last in [1, 2, 3] {
        assert_eq!(names.name_of(doc(last)), Some("Wi-Fi"));
    }
}

#[test]
fn an_empty_snapshot_names_nothing_and_says_so() {
    let names = InterfaceNames::of(&[]);
    assert!(names.is_empty());
    assert_eq!(names.name_of(doc(10)), None);
    assert!(InterfaceNames::default().is_empty());
}

#[test]
fn an_adapter_with_no_addresses_contributes_nothing() {
    let names = InterfaceNames::of(&[interface("Disconnected", &[])]);
    assert!(names.is_empty());
}

#[test]
fn a_contested_address_takes_the_first_adapter_that_claims_it() {
    let names = InterfaceNames::of(&[
        interface("First", &[doc(10)]),
        interface("Second", &[doc(10)]),
    ]);
    assert_eq!(names.name_of(doc(10)), Some("First"));
}

#[test]
fn a_scope_survives_decoding_and_is_lost_only_where_the_address_is_rebuilt() {
    let groups = [0xfe80, 0, 0, 0, 0, 0, 0, 1];
    let scoped = decode_sockaddr(&sockaddr_in6(443, groups, 5)).unwrap();
    assert_eq!(scoped.scope_id(), 5);
    assert_eq!(unmap_socket(scoped), scoped, "an unmapped address keeps its scope");
    assert_eq!(with_port(scoped, 80), scoped, "a present port keeps the address whole");
    let bare = decode_sockaddr(&sockaddr_in6(0, groups, 5)).unwrap();
    assert_eq!(with_port(bare, 80), SocketAddr::new(IpAddr::v6(groups), 80));
    let mapped = SocketAddr::scoped(IpAddr::v6([0, 0, 0, 0, 0, 0xffff, 0xcb00, 0x7105]), 80, 5);
    assert_eq!(unmap_socket(mapped), SocketAddr::new(v4(203, 0, 113, 5), 80));
    assert_eq!(SocketAddr::scoped(v4(203, 0, 113, 5), 80, 5).scope_id(), 0, "IPv4 has no scope");
}

#[test]
fn a_name_decodes_surrogate_pairs_and_replaces_lone_surrogates() {
    let buffer = [0x61, 0xD83D, 0xDE00, 0xD800, 0x62, 0xDC00, 0, 0x63];
    assert_eq!(name_from_wide(&buffer), "a\u{1F600}\u{FFFD}b\u{FFFD}");
    assert_eq!(name_from_wide(&[0xDBFF, 0xDFFF, 0]), "\u{10FFFF}");
    assert_eq!(name_from_wide(&[0xD800, 0xD800, 0xDC00]), "\u{FFFD}\u{10000}");
}
