use netmon::address::{IpAddr, SocketAddr};
use netmon::platform::connection::{
    classify_tcp_state, decode_tcp4_table, decode_tcp6_table, decode_udp4_table,
    decode_udp6_table, row_count, table_rows, tcp_peer, Protocol, TcpState, TCP4_ROW_BYTES,
    TCP_STATE_CLOSED, TCP_STATE_CLOSE_WAIT, TCP_STATE_CLOSING, TCP_STATE_DELETE_TCB,
    TCP_STATE_ESTAB, TCP_STATE_FIN_WAIT1, TCP_STATE_FIN_WAIT2, TCP_STATE_LAST_ACK,
    TCP_STATE_LISTEN, TCP_STATE_SYN_RCVD, TCP_STATE_SYN_SENT, TCP_STATE_TIME_WAIT,
    UDP4_ROW_BYTES, query_step, QueryStep, NO_ERROR, ERROR_INSUFFICIENT_BUFFER,
};
use ferrisetw::native::EvntraceNativeError;
use ferrisetw::trace::TraceError;
use netmon::platform::flow::{
    is_watched, map_trace_error, map_trace_failure, summary_event, udp_direction, udp_flow,
    watched_port, FlowDirection, TcpPortWatch,
    TraceFailure, AF_INET, AF_INET6, ERROR_ACCESS_DENIED, EVENT_TCP_SUMMARY, EVENT_UDP_RECEIVED,
    EVENT_UDP_SENT,
    ERROR_ALREADY_EXISTS, ERROR_INVALID_HANDLE, ERROR_INVALID_NAME,
};
use netmon::platform::Error;
use netmon::time::Duration;
use netmon::platform::icmp::{
    echo_call, echo_outcome, EchoOutcome, EchoRequest, MAX_PAYLOAD_LEN,
    IP_BAD_DESTINATION, IP_BAD_OPTION, IP_BAD_REQ, IP_BAD_ROUTE, IP_BUF_TOO_SMALL,
    IP_DEST_HOST_UNREACHABLE, IP_DEST_NET_UNREACHABLE, IP_DEST_PORT_UNREACHABLE,
    IP_DEST_PROT_UNREACHABLE, IP_GENERAL_FAILURE, IP_HW_ERROR, IP_NO_RESOURCES,
    IP_OPTION_TOO_BIG, IP_PACKET_TOO_BIG, IP_PARAM_PROBLEM, IP_REQ_TIMED_OUT, IP_SOURCE_QUENCH,
    IP_SUCCESS, IP_TTL_EXPIRED_REASSEM, IP_TTL_EXPIRED_TRANSIT,
};
use netmon::platform::interface::{
    adapter, adapters_step, AdapterStep, ERROR_BUFFER_OVERFLOW, ERROR_NO_DATA, ERROR_SUCCESS,
};
use netmon::platform::process::{
    Pid,
    path_step, unobservable, walk_end, written_units, PathStep, ERROR_NO_MORE_FILES,
    MAX_PATH_CAPACITY,
};
use netmon::platform::route::{interface_kind, EgressKind, NDIS_MEDIUM_IP, NDIS_MEDIUM_TUNNEL};
use windows_sys::Win32::Foundation as foundation;
use windows_sys::Win32::NetworkManagement::IpHelper as iphelper;
use windows_sys::Win32::NetworkManagement::Ndis as ndis;
use windows_sys::Win32::Networking::WinSock as winsock;

fn word(v: u32) -> [u8; 4] {
    v.to_le_bytes()
}

/// A `MIB_TCPROW_OWNER_PID` as the API lays it out: addresses as octets in network order,
/// ports in network order in the low half of a word.
fn tcp4_row(state: u32, local: [u8; 4], lport: u16, remote: [u8; 4], rport: u16, pid: u32) -> Vec<u8> {
    let mut row = Vec::new();
    row.extend_from_slice(&word(state));
    row.extend_from_slice(&local);
    row.extend_from_slice(&[(lport >> 8) as u8, lport as u8, 0, 0]);
    row.extend_from_slice(&remote);
    row.extend_from_slice(&[(rport >> 8) as u8, rport as u8, 0, 0]);
    row.extend_from_slice(&word(pid));
    row
}

fn table(count: u32, rows: &[Vec<u8>]) -> Vec<u8> {
    let mut bytes = word(count).to_vec();
    for row in rows {
        bytes.extend_from_slice(row);
    }
    bytes
}

#[test]
fn a_short_reply_yields_fewer_rows_rather_than_reading_past_it() {
    // The defence against a header that claims more rows than the API delivered.
    let mut bytes = [0u8; 8];
    bytes[..4].copy_from_slice(&word(1_000));
    assert_eq!(table_rows(&bytes, TCP4_ROW_BYTES), 0);
    assert_eq!(table_rows(&bytes, UDP4_ROW_BYTES), 0);
    assert!(decode_tcp4_table(&bytes).is_empty());
    assert!(decode_udp4_table(&bytes).is_empty());
}

#[test]
fn an_empty_reply_declares_no_rows() {
    assert_eq!(row_count(&[]), 0);
    assert_eq!(row_count(&[0, 0]), 0);
    assert_eq!(row_count(&[7, 0, 0, 0]), 7);
}

#[test]
fn a_listening_row_never_yields_a_stale_peer() {
    let address = IpAddr::v4(203, 0, 113, 9);
    assert_eq!(tcp_peer(TcpState::Listen, address, 443), None);
    assert_eq!(tcp_peer(TcpState::Closed, address, 443), None);
    assert_eq!(
        tcp_peer(TcpState::Established, address, 443),
        Some(SocketAddr::new(address, 443))
    );
}

#[test]
fn tcp_state_constants_match_the_windows_headers() {
    for (ours, theirs) in [
        (TCP_STATE_CLOSED, iphelper::MIB_TCP_STATE_CLOSED),
        (TCP_STATE_LISTEN, iphelper::MIB_TCP_STATE_LISTEN),
        (TCP_STATE_SYN_SENT, iphelper::MIB_TCP_STATE_SYN_SENT),
        (TCP_STATE_SYN_RCVD, iphelper::MIB_TCP_STATE_SYN_RCVD),
        (TCP_STATE_ESTAB, iphelper::MIB_TCP_STATE_ESTAB),
        (TCP_STATE_FIN_WAIT1, iphelper::MIB_TCP_STATE_FIN_WAIT1),
        (TCP_STATE_FIN_WAIT2, iphelper::MIB_TCP_STATE_FIN_WAIT2),
        (TCP_STATE_CLOSE_WAIT, iphelper::MIB_TCP_STATE_CLOSE_WAIT),
        (TCP_STATE_CLOSING, iphelper::MIB_TCP_STATE_CLOSING),
        (TCP_STATE_LAST_ACK, iphelper::MIB_TCP_STATE_LAST_ACK),
        (TCP_STATE_TIME_WAIT, iphelper::MIB_TCP_STATE_TIME_WAIT),
        (TCP_STATE_DELETE_TCB, iphelper::MIB_TCP_STATE_DELETE_TCB),
    ] {
        assert_eq!(u32::try_from(theirs), Ok(ours));
    }
}

#[test]
fn the_reserved_state_stays_unknown() {
    let reserved = u32::try_from(iphelper::MIB_TCP_STATE_RESERVED).unwrap();
    assert_eq!(classify_tcp_state(reserved), TcpState::Unknown(reserved));
}

#[test]
fn address_family_constants_match_the_windows_headers() {
    assert_eq!(AF_INET, winsock::AF_INET);
    assert_eq!(AF_INET6, winsock::AF_INET6);
}

#[test]
fn ip_status_constants_match_the_windows_headers() {
    assert_eq!(IP_SUCCESS, iphelper::IP_SUCCESS);
    assert_eq!(IP_BUF_TOO_SMALL, iphelper::IP_BUF_TOO_SMALL);
    assert_eq!(IP_DEST_NET_UNREACHABLE, iphelper::IP_DEST_NET_UNREACHABLE);
    assert_eq!(IP_DEST_HOST_UNREACHABLE, iphelper::IP_DEST_HOST_UNREACHABLE);
    assert_eq!(IP_DEST_PROT_UNREACHABLE, iphelper::IP_DEST_PROT_UNREACHABLE);
    assert_eq!(IP_DEST_PORT_UNREACHABLE, iphelper::IP_DEST_PORT_UNREACHABLE);
    assert_eq!(IP_NO_RESOURCES, iphelper::IP_NO_RESOURCES);
    assert_eq!(IP_BAD_OPTION, iphelper::IP_BAD_OPTION);
    assert_eq!(IP_HW_ERROR, iphelper::IP_HW_ERROR);
    assert_eq!(IP_PACKET_TOO_BIG, iphelper::IP_PACKET_TOO_BIG);
    assert_eq!(IP_REQ_TIMED_OUT, iphelper::IP_REQ_TIMED_OUT);
    assert_eq!(IP_BAD_REQ, iphelper::IP_BAD_REQ);
    assert_eq!(IP_BAD_ROUTE, iphelper::IP_BAD_ROUTE);
    assert_eq!(IP_TTL_EXPIRED_TRANSIT, iphelper::IP_TTL_EXPIRED_TRANSIT);
    assert_eq!(IP_TTL_EXPIRED_REASSEM, iphelper::IP_TTL_EXPIRED_REASSEM);
    assert_eq!(IP_PARAM_PROBLEM, iphelper::IP_PARAM_PROBLEM);
    assert_eq!(IP_SOURCE_QUENCH, iphelper::IP_SOURCE_QUENCH);
    assert_eq!(IP_OPTION_TOO_BIG, iphelper::IP_OPTION_TOO_BIG);
    assert_eq!(IP_BAD_DESTINATION, iphelper::IP_BAD_DESTINATION);
    assert_eq!(IP_GENERAL_FAILURE, iphelper::IP_GENERAL_FAILURE);
}

#[test]
fn the_written_out_constants_match_the_windows_headers() {
    assert_eq!(NDIS_MEDIUM_TUNNEL, ndis::NdisMediumTunnel);
    assert_eq!(NDIS_MEDIUM_IP, ndis::NdisMediumIP);
}

#[test]
fn an_ipv4_tcp_table_decodes_both_ends_and_the_owner() {
    let established = tcp4_row(TCP_STATE_ESTAB, [192, 168, 1, 10], 50_000, [203, 0, 113, 9], 443, 4242);
    let listening = tcp4_row(TCP_STATE_LISTEN, [0, 0, 0, 0], 8080, [198, 51, 100, 7], 1234, 7);
    let rows = decode_tcp4_table(&table(2, &[established, listening]));
    assert_eq!(rows.len(), 2);
    assert_eq!(rows[0].protocol, Protocol::Tcp);
    assert_eq!(rows[0].local, SocketAddr::new(IpAddr::v4(192, 168, 1, 10), 50_000));
    assert_eq!(rows[0].remote, Some(SocketAddr::new(IpAddr::v4(203, 0, 113, 9), 443)));
    assert_eq!(rows[0].state, Some(TcpState::Established));
    assert_eq!(rows[0].pid.get(), 4242);
    // Leftover remote fields on a listening socket are not a peer.
    assert_eq!(rows[1].remote, None);
    assert_eq!(rows[1].state, Some(TcpState::Listen));
}

#[test]
fn a_header_claiming_fewer_rows_than_the_bytes_hold_is_believed() {
    let row = tcp4_row(TCP_STATE_ESTAB, [10, 0, 0, 1], 1, [10, 0, 0, 2], 2, 1);
    let rows = decode_tcp4_table(&table(1, &[row.clone(), row]));
    assert_eq!(rows.len(), 1);
}

#[test]
fn an_ipv6_tcp_table_decodes_addresses_most_significant_first() {
    let mut row = Vec::new();
    let local: [u8; 16] = [0x20, 0x01, 0x0d, 0xb8, 0, 0, 0, 0, 0, 0, 0, 0, 0, 0, 0, 1];
    let remote: [u8; 16] = [0x20, 0x01, 0x0d, 0xb8, 0, 0, 0, 0, 0, 0, 0, 0, 0, 0, 0, 2];
    row.extend_from_slice(&local);
    row.extend_from_slice(&word(0));
    row.extend_from_slice(&[0x01, 0xbb, 0, 0]);
    row.extend_from_slice(&remote);
    row.extend_from_slice(&word(0));
    row.extend_from_slice(&[0x69, 0x87, 0, 0]);
    row.extend_from_slice(&word(TCP_STATE_ESTAB));
    row.extend_from_slice(&word(99));
    let rows = decode_tcp6_table(&table(1, &[row]));
    assert_eq!(rows.len(), 1);
    assert_eq!(rows[0].local, SocketAddr::new(IpAddr::V6(0x2001_0db8_0000_0000_0000_0000_0000_0001), 443));
    assert_eq!(rows[0].remote, Some(SocketAddr::new(IpAddr::V6(0x2001_0db8_0000_0000_0000_0000_0000_0002), 27_015)));
    assert_eq!(rows[0].pid.get(), 99);
}

#[test]
fn udp_tables_name_only_the_local_socket() {
    let mut v4 = Vec::new();
    v4.extend_from_slice(&[127, 0, 0, 1]);
    v4.extend_from_slice(&[0x0d, 0x05, 0, 0]);
    v4.extend_from_slice(&word(5));
    let rows = decode_udp4_table(&table(1, &[v4]));
    assert_eq!(rows.len(), 1);
    assert_eq!(rows[0].protocol, Protocol::Udp);
    assert_eq!(rows[0].local, SocketAddr::new(IpAddr::v4(127, 0, 0, 1), 3333));
    assert_eq!(rows[0].remote, None);
    assert_eq!(rows[0].state, None);

    let mut v6 = Vec::new();
    v6.extend_from_slice(&[0; 15]);
    v6.push(1);
    v6.extend_from_slice(&word(0));
    v6.extend_from_slice(&[0x0d, 0x05, 0, 0]);
    v6.extend_from_slice(&word(6));
    let rows = decode_udp6_table(&table(1, &[v6]));
    assert_eq!(rows[0].local, SocketAddr::new(IpAddr::V6(1), 3333));
    assert_eq!(rows[0].pid.get(), 6);
}

#[test]
fn access_denied_is_reported_as_a_permission_state_not_a_fault() {
    let denied = TraceError::EtwNativeError(EvntraceNativeError::IoError(
        std::io::Error::from_raw_os_error(
            i32::try_from(foundation::ERROR_ACCESS_DENIED).expect("the constant fits"),
        ),
    ));
    assert_eq!(map_trace_error(denied), Error::TracingNotPermitted);
}

#[test]
fn other_failures_keep_their_code() {
    let other = TraceError::EtwNativeError(EvntraceNativeError::IoError(
        std::io::Error::from_raw_os_error(1450),
    ));
    assert_eq!(
        map_trace_error(other),
        Error::Os {
            api: "StartTrace",
            code: 1450
        }
    );
    assert_eq!(
        map_trace_error(TraceError::EtwNativeError(
            EvntraceNativeError::AlreadyExist
        )),
        Error::Os {
            api: "StartTrace",
            code: foundation::ERROR_ALREADY_EXISTS
        }
    );
}

#[test]
fn the_error_codes_match_the_windows_headers() {
    assert_eq!(ERROR_ACCESS_DENIED, foundation::ERROR_ACCESS_DENIED);
    assert_eq!(ERROR_ALREADY_EXISTS, foundation::ERROR_ALREADY_EXISTS);
    assert_eq!(ERROR_INVALID_HANDLE, foundation::ERROR_INVALID_HANDLE);
    assert_eq!(ERROR_INVALID_NAME, foundation::ERROR_INVALID_NAME);
}

#[test]
fn a_failure_with_no_code_or_a_negative_one_reads_as_zero() {
    let zero = Error::Os { api: "StartTrace", code: 0 };
    assert_eq!(map_trace_failure(TraceFailure::Io(None)), zero);
    assert_eq!(map_trace_failure(TraceFailure::Io(Some(-3))), zero);
    assert_eq!(
        map_trace_failure(TraceFailure::InvalidTraceName),
        Error::Os { api: "StartTrace", code: 123 }
    );
    assert_eq!(
        map_trace_failure(TraceFailure::InvalidHandle),
        Error::Os { api: "StartTrace", code: 6 }
    );
}

#[test]
fn an_ipv4_echo_is_prepared_in_the_apis_terms() {
    let request = EchoRequest::to(IpAddr::v4(203, 0, 113, 9), Duration::from_millis(1_500))
        .from_source(IpAddr::v4(192, 168, 1, 10))
        .with_ttl(3);
    let call = echo_call(&request).unwrap();
    assert_eq!(call.target, u32::from_le_bytes([203, 0, 113, 9]));
    assert_eq!(call.source, u32::from_le_bytes([192, 168, 1, 10]));
    assert_eq!(call.payload_len, 32);
    assert_eq!(call.ttl, Some(3));
    assert_eq!(call.timeout_ms, 1_500);
}

#[test]
fn an_oversized_payload_is_capped_and_no_source_means_any() {
    let mut request = EchoRequest::to(IpAddr::v4(10, 0, 0, 1), Duration::from_secs(10_000_000));
    request.payload_len = 60_000;
    let call = echo_call(&request).unwrap();
    assert_eq!(call.payload_len, MAX_PAYLOAD_LEN);
    assert_eq!(call.source, 0);
    assert_eq!(call.ttl, None);
    assert_eq!(call.timeout_ms, u32::MAX);
}

#[test]
fn an_ipv6_echo_is_refused_rather_than_reported_unreachable() {
    let v6 = EchoRequest::to(IpAddr::V6(1), Duration::from_secs(1));
    assert_eq!(echo_call(&v6), Err(Error::Ipv6Unsupported));
    let v6_source = EchoRequest::to(IpAddr::v4(10, 0, 0, 1), Duration::from_secs(1)).from_source(IpAddr::V6(1));
    assert_eq!(echo_call(&v6_source), Err(Error::Ipv6Unsupported));
}

#[test]
fn a_reply_names_who_answered() {
    let elapsed = Duration::from_micros(400);
    let raw = u32::from_le_bytes([203, 0, 113, 9]);
    assert_eq!(
        echo_outcome(1, 0, IP_SUCCESS, raw, elapsed),
        Ok(EchoOutcome::Replied { from: IpAddr::v4(203, 0, 113, 9), rtt: elapsed })
    );
    assert_eq!(
        echo_outcome(1, 0, IP_TTL_EXPIRED_TRANSIT, raw, elapsed),
        Ok(EchoOutcome::TtlExpired { from: Some(IpAddr::v4(203, 0, 113, 9)), rtt: elapsed })
    );
    assert_eq!(
        echo_outcome(1, 0, IP_DEST_HOST_UNREACHABLE, raw, elapsed),
        Ok(EchoOutcome::Unreachable { from: Some(IpAddr::v4(203, 0, 113, 9)) })
    );
    assert_eq!(echo_outcome(1, 0, IP_NO_RESOURCES, raw, elapsed), Err(Error::Icmp { code: IP_NO_RESOURCES }));
}

#[test]
fn no_reply_reports_through_the_last_error_without_an_address() {
    let elapsed = Duration::from_millis(1_000);
    assert_eq!(echo_outcome(0, IP_REQ_TIMED_OUT, 0, 0, elapsed), Ok(EchoOutcome::TimedOut));
    assert_eq!(
        echo_outcome(0, IP_TTL_EXPIRED_TRANSIT, 0, 0, elapsed),
        Ok(EchoOutcome::TtlExpired { from: None, rtt: elapsed })
    );
    assert_eq!(
        echo_outcome(0, IP_DEST_NET_UNREACHABLE, 0, 0, elapsed),
        Ok(EchoOutcome::Unreachable { from: None })
    );
    // Success with zero replies is a contradiction, not a measurement.
    assert_eq!(echo_outcome(0, IP_SUCCESS, 0, 0, elapsed), Err(Error::Icmp { code: IP_SUCCESS }));
}

#[test]
fn a_filled_table_reports_the_bytes_used_within_the_buffer() {
    assert_eq!(query_step(NO_ERROR, 100, 64), QueryStep::Filled(100));
    assert_eq!(query_step(NO_ERROR, 1_000, 64), QueryStep::Filled(256));
}

#[test]
fn a_short_buffer_grows_with_slack_and_never_shrinks() {
    // 4 000 bytes plus a quarter is 5 000 bytes, 1 250 words, and one more.
    assert_eq!(query_step(ERROR_INSUFFICIENT_BUFFER, 4_000, 16), QueryStep::Grow(1_251));
    // Asked for less than the buffer already holds: double it instead.
    assert_eq!(query_step(ERROR_INSUFFICIENT_BUFFER, 40, 16_384), QueryStep::Grow(32_768));
    assert_eq!(query_step(5, 0, 16), QueryStep::Failed(5));
}

#[test]
fn process_query_failures_that_are_facts_are_not_errors() {
    assert!(unobservable(5));
    assert!(unobservable(87));
    assert!(unobservable(31));
    assert!(!unobservable(6));
}

#[test]
fn a_walk_ends_only_at_the_end_of_the_list() {
    assert_eq!(walk_end("Process32NextW", ERROR_NO_MORE_FILES), Ok(()));
    assert_eq!(
        walk_end("Process32NextW", 6),
        Err(Error::Os { api: "Process32NextW", code: 6 })
    );
}

#[test]
fn a_path_buffer_grows_to_the_ceiling_and_no_further() {
    assert_eq!(path_step(ERROR_INSUFFICIENT_BUFFER, 260), PathStep::Grow(520));
    assert_eq!(path_step(ERROR_INSUFFICIENT_BUFFER, 20_000), PathStep::Grow(MAX_PATH_CAPACITY));
    assert_eq!(path_step(ERROR_INSUFFICIENT_BUFFER, MAX_PATH_CAPACITY), PathStep::Failed(122));
    assert_eq!(path_step(87, 260), PathStep::Gone);
    assert_eq!(path_step(31, 260), PathStep::Gone);
    assert_eq!(path_step(5, 260), PathStep::Failed(5));
    assert_eq!(written_units(12, 260), 12);
    assert_eq!(written_units(900, 260), 260);
}

#[test]
fn the_adapter_list_grows_in_whole_words_with_slack() {
    assert_eq!(adapters_step(ERROR_SUCCESS, 0), AdapterStep::Walk);
    assert_eq!(adapters_step(ERROR_NO_DATA, 0), AdapterStep::NoAdapters);
    assert_eq!(adapters_step(ERROR_BUFFER_OVERFLOW, 20_001), AdapterStep::Grow(2_501 + 64));
    assert_eq!(
        adapters_step(ERROR_BUFFER_OVERFLOW, 2 * 1024 * 1024),
        AdapterStep::Failed(ERROR_BUFFER_OVERFLOW)
    );
    assert_eq!(adapters_step(8, 0), AdapterStep::Failed(8));
}

fn wide(text: &str) -> Vec<u16> {
    let mut units: Vec<u16> = text.encode_utf16().collect();
    units.push(0);
    units.push(b'x' as u16);
    units
}

fn sockaddr_in(port: u16, octets: [u8; 4]) -> Vec<u8> {
    let mut blob = vec![2, 0];
    blob.extend_from_slice(&port.to_be_bytes());
    blob.extend_from_slice(&octets);
    blob.extend_from_slice(&[0; 8]);
    blob
}

#[test]
fn an_adapter_keeps_the_addresses_that_decode() {
    let blobs = vec![sockaddr_in(0, [192, 168, 1, 10]), vec![9, 9], sockaddr_in(0, [10, 8, 0, 2])];
    let found = adapter(&wide("Ethernet"), &blobs).unwrap();
    assert_eq!(found.name, "Ethernet");
    assert_eq!(found.addresses, vec![IpAddr::v4(192, 168, 1, 10), IpAddr::v4(10, 8, 0, 2)]);
}

#[test]
fn a_nameless_or_addressless_adapter_is_left_out() {
    assert!(adapter(&wide(""), &vec![sockaddr_in(0, [192, 168, 1, 10])]).is_none());
    assert!(adapter(&wide("Wi-Fi"), &vec![vec![1, 2, 3]]).is_none());
    assert!(adapter(&wide("Wi-Fi"), &Vec::new()).is_none());
}

#[test]
fn an_adapter_that_cannot_be_described_is_of_unknown_kind() {
    assert_eq!(interface_kind(1168, 0, 6), EgressKind::Unknown);
    assert_eq!(interface_kind(0, NDIS_MEDIUM_TUNNEL, 6), EgressKind::LocalTunnel);
    assert_eq!(interface_kind(0, 0, 6), EgressKind::Ordinary);
}

#[test]
fn only_udp_send_and_receive_events_carry_a_direction() {
    assert_eq!(udp_direction(EVENT_UDP_SENT), Some(FlowDirection::Sent));
    assert_eq!(udp_direction(EVENT_UDP_RECEIVED), Some(FlowDirection::Received));
    assert_eq!(udp_direction(EVENT_TCP_SUMMARY), None);
    assert_eq!(udp_direction(1), None);
}

#[test]
fn an_unwatched_process_is_not_read_further() {
    let watched = [Pid::new(10), Pid::new(20)];
    assert!(is_watched(Pid::new(20), &watched));
    assert!(!is_watched(Pid::new(30), &watched));
    assert!(!is_watched(Pid::new(10), &[]));
}

#[test]
fn a_udp_event_becomes_a_flow_only_when_both_ends_decode() {
    let local = sockaddr_in(50_000, [192, 168, 1, 10]);
    let remote = sockaddr_in(27_015, [203, 0, 113, 5]);
    let flow = udp_flow(Pid::new(7), FlowDirection::Received, &local, &remote, 1_200).unwrap();
    assert_eq!(flow.pid, Pid::new(7));
    assert_eq!(flow.protocol, Protocol::Udp);
    assert_eq!(flow.local, SocketAddr::new(IpAddr::v4(192, 168, 1, 10), 50_000));
    assert_eq!(flow.remote, SocketAddr::new(IpAddr::v4(203, 0, 113, 5), 27_015));
    assert_eq!(flow.direction, FlowDirection::Received);
    assert_eq!(flow.bytes, 1_200);
    assert!(udp_flow(Pid::new(7), FlowDirection::Sent, &local, &[2, 0], 1).is_none());
}

#[test]
fn a_connection_summary_is_reported_only_for_a_watched_port() {
    let mut watch = TcpPortWatch::new();
    watch.replace(&[50_000]);
    // The field holds the port in network order.
    let raw_port = u32::from(50_000u16.swap_bytes());
    assert_eq!(watched_port(&watch, raw_port), Some(50_000));
    assert_eq!(watched_port(&watch, u32::from(443u16.swap_bytes())), None);
    assert_eq!(watched_port(&watch, 0x1_0000), None);

    let local = sockaddr_in(0, [192, 168, 1, 10]);
    let remote = sockaddr_in(443, [203, 0, 113, 5]);
    let event = summary_event(&watch, raw_port, &local, &remote, 25_000, 20_000, 40_000).unwrap();
    // The unported local blob takes the port from the separate field.
    assert_eq!(event.local, SocketAddr::new(IpAddr::v4(192, 168, 1, 10), 50_000));
    assert_eq!(event.remote, SocketAddr::new(IpAddr::v4(203, 0, 113, 5), 443));
    assert_eq!(event.rtt, Duration::from_micros(25_000));
    assert_eq!(event.min_rtt, Duration::from_micros(20_000));
    assert_eq!(event.max_rtt, Duration::from_micros(40_000));

    assert!(summary_event(&TcpPortWatch::new(), raw_port, &local, &remote, 1, 1, 1).is_none());
    assert!(summary_event(&watch, raw_port, &local, &[2, 0], 1, 1, 1).is_none());
}

#[test]
fn ipv6_table_rows_carry_the_local_scope() {
    let link_local: [u8; 16] = [0xfe, 0x80, 0, 0, 0, 0, 0, 0, 0, 0, 0, 0, 0, 0, 0, 1];
    let mut row = Vec::new();
    row.extend_from_slice(&link_local);
    row.extend_from_slice(&word(12));
    row.extend_from_slice(&[0x01, 0xbb, 0, 0]);
    row.extend_from_slice(&link_local);
    row.extend_from_slice(&word(13));
    row.extend_from_slice(&[0x69, 0x87, 0, 0]);
    row.extend_from_slice(&word(TCP_STATE_ESTAB));
    row.extend_from_slice(&word(99));
    let rows = decode_tcp6_table(&table(1, &[row]));
    let address = IpAddr::V6(0xfe80_0000_0000_0000_0000_0000_0000_0001);
    assert_eq!(rows[0].local, SocketAddr::scoped(address, 443, 12));
    // The peer is named by its address and port alone.
    assert_eq!(rows[0].remote, Some(SocketAddr::new(address, 27_015)));

    let mut v6 = Vec::new();
    v6.extend_from_slice(&link_local);
    v6.extend_from_slice(&word(4));
    v6.extend_from_slice(&[0x0d, 0x05, 0, 0]);
    v6.extend_from_slice(&word(6));
    let rows = decode_udp6_table(&table(1, &[v6]));
    assert_eq!(rows[0].local, SocketAddr::scoped(address, 3333, 4));
    assert_eq!(rows[0].local.scope_id(), 4);
}
