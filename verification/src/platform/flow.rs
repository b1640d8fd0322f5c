//! Per-process flow events: who an application is actually talking to.
//!
//! Discovery, not capture: a flow event carries the endpoints and a byte count, never a
//! payload. The operating system hands the endpoints over as raw socket-address blobs,
//! and decoding them is the part worth proving.

use crate::address::{IpAddr, SocketAddr};
use crate::platform::address::{unmap_socket, unmapped};
use crate::platform::connection::Protocol;
use crate::platform::process::Pid;
use crate::platform::Error;
use crate::time::Duration;
use ferrisetw::native::EvntraceNativeError;
use ferrisetw::trace::TraceError;
use vstd::prelude::*;

verus! {

/// Which way the bytes travelled.
#[derive(Debug, Clone, Copy, PartialEq, Eq, Structural, Hash)]
pub enum FlowDirection {
    /// The application sent them.
    Sent,
    /// The application received them.
    Received,
}

/// One observation of an application exchanging data with a remote endpoint.
#[derive(Debug, Clone, Copy, PartialEq, Eq, Structural)]
pub struct FlowEvent {
    /// The process the flow belongs to.
    pub pid: Pid,
    /// Transport protocol.
    pub protocol: Protocol,
    /// The local socket the application used, which a probe binds to in order to follow
    /// the same route.
    pub local: SocketAddr,
    /// The endpoint the application was talking to.
    pub remote: SocketAddr,
    /// Which way this observation went.
    pub direction: FlowDirection,
    /// How many bytes this observation accounts for.
    pub bytes: u64,
}

/// `AF_INET` as it appears in a socket-address blob.
pub const AF_INET: u16 = 2;
/// `AF_INET6` as it appears in a socket-address blob.
pub const AF_INET6: u16 = 23;

/// The bytes read as one big-endian number.
pub open spec fn big_endian(bytes: Seq<u8>) -> nat
    decreases bytes.len(),
{
    if bytes.len() == 0 {
        0
    } else {
        (big_endian(bytes.drop_last()) * 256 + bytes.last()) as nat
    }
}

/// 256 to the `n`.
pub open spec fn pow256(n: nat) -> nat
    decreases n,
{
    if n == 0 {
        1
    } else {
        pow256((n - 1) as nat) * 256
    }
}

proof fn lemma_big_endian_bound(bytes: Seq<u8>)
    ensures
        big_endian(bytes) < pow256(bytes.len()),
    decreases bytes.len(),
{
    if bytes.len() > 0 {
        lemma_big_endian_bound(bytes.drop_last());
        let rest = big_endian(bytes.drop_last());
        let p = pow256((bytes.len() - 1) as nat);
        assert(rest * 256 + bytes.last() < p * 256) by (nonlinear_arith)
            requires
                rest < p,
                bytes.last() < 256,
        ;
    }
}

proof fn lemma_pow256_16()
    ensures
        pow256(16) == 0x1_0000_0000_0000_0000_0000_0000_0000_0000,
{
    reveal_with_fuel(pow256, 17);
}

/// What a socket-address blob holds: the family in host order, the port in network order,
/// then the address.
///
/// Nothing for a blob too short for its family or for a family this build does not
/// understand: an endpoint that cannot be named must not be probed. Lengths are lower
/// bounds, since a blob may be longer than the structure it holds.
pub open spec fn raw_socket_of(bytes: Seq<u8>) -> Option<SocketAddr> {
    if bytes.len() < 4 {
        None
    } else {
        let family = bytes[0] + bytes[1] * 256;
        let port = (bytes[2] * 256 + bytes[3]) as u16;
        if family == AF_INET && bytes.len() >= 8 {
            Some(
                SocketAddr {
                    ip: IpAddr::V4(big_endian(bytes.subrange(4, 8)) as u32),
                    port,
                    scope_id: 0,
                },
            )
        } else if family == AF_INET6 && bytes.len() >= 24 {
            Some(
                SocketAddr {
                    ip: IpAddr::V6(big_endian(bytes.subrange(8, 24)) as u128),
                    port,
                    scope_id: if bytes.len() >= 28 {
                        (bytes[24] + bytes[25] * 0x100 + bytes[26] * 0x1_0000 + bytes[27]
                            * 0x100_0000) as u32
                    } else {
                        0
                    },
                },
            )
        } else {
            None
        }
    }
}

/// The number the bytes `from..to` spell, most significant first.
pub(crate) fn read_big_endian(bytes: &[u8], from: usize, to: usize) -> (n: u128)
    requires
        from <= to <= bytes@.len(),
        to - from <= 16,
    ensures
        n == big_endian(bytes@.subrange(from as int, to as int)),
{
    let mut n: u128 = 0;
    let mut i: usize = from;
    proof {
        assert(bytes@.subrange(from as int, from as int) =~= Seq::<u8>::empty());
    }
    while i < to
        invariant
            from <= i <= to <= bytes@.len(),
            to - from <= 16,
            n == big_endian(bytes@.subrange(from as int, i as int)),
        decreases to - i,
    {
        proof {
            let s = bytes@.subrange(from as int, i + 1);
            assert(s.drop_last() =~= bytes@.subrange(from as int, i as int));
            lemma_big_endian_bound(bytes@.subrange(from as int, i as int));
            lemma_pow256_16();
            lemma_pow256_monotone((i - from) as nat, 15);
            assert(n * 256 + bytes@[i as int] < 0x1_0000_0000_0000_0000_0000_0000_0000_0000) by (
            nonlinear_arith)
                requires
                    n < pow256((i - from) as nat),
                    pow256((i - from) as nat) <= pow256(15),
                    pow256(15) * 256 == 0x1_0000_0000_0000_0000_0000_0000_0000_0000,
                    bytes@[i as int] < 256,
            ;
        }
        n = n * 256 + bytes[i] as u128;
        i = i + 1;
    }
    n
}

proof fn lemma_pow256_monotone(a: nat, b: nat)
    requires
        a <= b,
    ensures
        pow256(a) <= pow256(b),
        pow256(b) * 256 == pow256(b + 1),
    decreases b,
{
    if a < b {
        lemma_pow256_monotone(a, (b - 1) as nat);
    }
}

/// Decodes a socket-address blob as it was written, before any IPv4-mapped address is
/// folded.
pub fn decode_raw_sockaddr(bytes: &[u8]) -> (r: Option<SocketAddr>)
    ensures
        r == raw_socket_of(bytes@),
{
    if bytes.len() < 4 {
        return None;
    }
    let family: u16 = bytes[0] as u16 + bytes[1] as u16 * 256;
    let port: u16 = bytes[2] as u16 * 256 + bytes[3] as u16;
    if family == AF_INET && bytes.len() >= 8 {
        let bits = read_big_endian(bytes, 4, 8);
        proof {
            lemma_big_endian_bound(bytes@.subrange(4, 8));
            reveal_with_fuel(pow256, 5);
        }
        return Some(SocketAddr { ip: IpAddr::V4(bits as u32), port, scope_id: 0 });
    }
    if family == AF_INET6 && bytes.len() >= 24 {
        let bits = read_big_endian(bytes, 8, 24);
        let scope_id: u32 = if bytes.len() >= 28 {
            bytes[24] as u32 + bytes[25] as u32 * 0x100 + bytes[26] as u32 * 0x1_0000
                + bytes[27] as u32 * 0x100_0000
        } else {
            0
        };
        return Some(SocketAddr { ip: IpAddr::V6(bits), port, scope_id });
    }
    None
}

/// The blob decoded, with an IPv4-mapped result handed back in its IPv4 form and no scope.
pub open spec fn socket_of(bytes: Seq<u8>) -> Option<SocketAddr> {
    match raw_socket_of(bytes) {
        None => None,
        Some(d) => Some(
            if unmapped(d.ip) != d.ip {
                SocketAddr { ip: unmapped(d.ip), port: d.port, scope_id: 0 }
            } else {
                d
            },
        ),
    }
}

/// Decodes a socket-address blob into the one form used everywhere above it.
///
/// A dual-stack socket reports every IPv4 peer as `::ffff:a.b.c.d`; that form is folded to
/// the IPv4 address here, so the same host is never two endpoints.
pub fn decode_sockaddr(bytes: &[u8]) -> (r: Option<SocketAddr>)
    ensures
        r == socket_of(bytes@),
{
    match decode_raw_sockaddr(bytes) {
        None => None,
        Some(d) => Some(unmap_socket(d)),
    }
}

/// Reads the local port of a connection summary: the field holds a 16-bit port in network
/// order, so the bytes are swapped; a value too wide for a port means the field changed
/// meaning and yields nothing.
pub fn summary_port(raw: u32) -> (port: Option<u16>)
    ensures
        raw > u16::MAX ==> port is None,
        raw <= u16::MAX ==> port == Some(((raw % 0x100) * 0x100 + raw / 0x100) as u16),
{
    if raw > u16::MAX as u32 {
        return None;
    }
    Some(((raw % 0x100) * 0x100 + raw / 0x100) as u16)
}

/// Fills in a socket address's port where the decoded blob carried none; the address is
/// then rebuilt from its IP and the port alone, so it carries no scope.
pub fn with_port(address: SocketAddr, port: u16) -> (r: SocketAddr)
    ensures
        r == if address.port == 0 {
            SocketAddr { ip: address.ip, port, scope_id: 0 }
        } else {
            address
        },
{
    if address.port == 0 {
        SocketAddr::new(address.ip, port)
    } else {
        address
    }
}

/// The local ports whose connection summaries are wanted.
///
/// The summary event names no process, so this set is the only filter it can have: an
/// empty or unrelated set must match nothing rather than everything.
#[derive(Debug, Clone)]
pub struct TcpPortWatch {
    ports: Vec<u16>,
}

impl TcpPortWatch {
    /// The watched ports.
    pub closed spec fn view(self) -> Set<u16> {
        self.ports@.to_set()
    }

    /// Watches nothing.
    pub fn new() -> (w: TcpPortWatch)
        ensures
            w@ == Set::<u16>::empty(),
    {
        let w = TcpPortWatch { ports: Vec::new() };
        assert(w@ =~= Set::<u16>::empty());
        w
    }

    /// Replaces the watched ports: a connection that closed stops being watched.
    pub fn replace(&mut self, ports: &[u16])
        ensures
            final(self)@ == ports@.to_set(),
    {
        self.ports = vstd::slice::slice_to_vec(ports);
    }

    /// Whether a port is watched.
    pub fn contains(&self, port: u16) -> (b: bool)
        ensures
            b == self@.contains(port),
    {
        let mut i: usize = 0;
        while i < self.ports.len()
            invariant
                i <= self.ports@.len(),
                forall|k: int| 0 <= k < i ==> self.ports@[k] != port,
            decreases self.ports@.len() - i,
        {
            if self.ports[i] == port {
                assert(self.ports@.contains(port));
                return true;
            }
            i = i + 1;
        }
        false
    }
}


/// `ERROR_ACCESS_DENIED`: this account may not do what was asked.
pub const ERROR_ACCESS_DENIED: u32 = 5;
/// `ERROR_INVALID_HANDLE`.
pub const ERROR_INVALID_HANDLE: u32 = 6;
/// `ERROR_INVALID_NAME`.
pub const ERROR_INVALID_NAME: u32 = 123;
/// `ERROR_ALREADY_EXISTS`.
pub const ERROR_ALREADY_EXISTS: u32 = 183;

/// ferrisetw's `TraceError`, the failure of starting a tracing session, carried through
/// without looking inside.
#[verifier::external_type_specification]
#[verifier::external_body]
pub struct ExTraceError(TraceError);

/// How starting a tracing session failed, as the tracing library reports it.
#[derive(Debug, Clone, Copy, PartialEq, Eq, Structural)]
pub enum TraceFailure {
    /// The session name was refused.
    InvalidTraceName,
    /// A session of that name already exists.
    AlreadyExist,
    /// A handle was invalid.
    InvalidHandle,
    /// An operating-system error, with the raw code it carried where it carried one.
    Io(Option<i32>),
}

/// The failure a ferrisetw `TraceError` holds: its variant, and the raw operating-system
/// code of an I/O failure.
pub uninterp spec fn trace_failure_of(error: TraceError) -> TraceFailure;

/// Tells apart the variants of ferrisetw's `TraceError`, keeping the raw operating-system
/// code that `std::io::Error::raw_os_error` reads from an I/O failure.
///
/// The error value is opaque here: the contract claims only that the answer is a function
/// of the error alone, named `trace_failure_of`, which the match below is.
#[verifier::external_body]
fn trace_failure(error: TraceError) -> (f: TraceFailure)
    ensures
        f == trace_failure_of(error),
{
    match error {
        TraceError::InvalidTraceName => TraceFailure::InvalidTraceName,
        TraceError::EtwNativeError(EvntraceNativeError::AlreadyExist) => TraceFailure::AlreadyExist,
        TraceError::EtwNativeError(EvntraceNativeError::InvalidHandle) => TraceFailure::InvalidHandle,
        TraceError::EtwNativeError(EvntraceNativeError::IoError(io)) => TraceFailure::Io(io.raw_os_error()),
    }
}

/// The error a failure to start tracing is: "this account may not trace" apart from
/// everything else, which is a fault of `StartTrace` with its code.
pub open spec fn trace_error_of(failure: TraceFailure) -> Error {
    match failure {
        TraceFailure::InvalidTraceName => Error::Os { api: "StartTrace", code: ERROR_INVALID_NAME },
        TraceFailure::AlreadyExist => Error::Os { api: "StartTrace", code: ERROR_ALREADY_EXISTS },
        TraceFailure::InvalidHandle => Error::Os { api: "StartTrace", code: ERROR_INVALID_HANDLE },
        TraceFailure::Io(raw) => {
            let code: u32 = match raw {
                Some(raw) => if raw >= 0 {
                    raw as u32
                } else {
                    0
                },
                None => 0,
            };
            if code == ERROR_ACCESS_DENIED {
                Error::TracingNotPermitted
            } else {
                Error::Os { api: "StartTrace", code }
            }
        },
    }
}

/// Maps how tracing failed onto this layer's error.
///
/// The distinction that matters is "this account may not trace" against everything else:
/// the first is the normal state of a machine that has not been set up, which the user
/// interface has to explain, and the rest are faults. A negative or missing code reads
/// as zero.
pub fn map_trace_failure(failure: TraceFailure) -> (e: Error)
    ensures
        e == trace_error_of(failure),
{
    match failure {
        TraceFailure::InvalidTraceName => Error::Os { api: "StartTrace", code: ERROR_INVALID_NAME },
        TraceFailure::AlreadyExist => Error::Os { api: "StartTrace", code: ERROR_ALREADY_EXISTS },
        TraceFailure::InvalidHandle => Error::Os { api: "StartTrace", code: ERROR_INVALID_HANDLE },
        TraceFailure::Io(raw) => {
            let code: u32 = match raw {
                Some(raw) => if raw >= 0 {
                    raw as u32
                } else {
                    0
                },
                None => 0,
            };
            if code == ERROR_ACCESS_DENIED {
                Error::TracingNotPermitted
            } else {
                Error::Os { api: "StartTrace", code }
            }
        },
    }
}

/// Maps the tracing library's failure onto this layer's error, by `map_trace_failure`.
pub fn map_trace_error(error: TraceError) -> (e: Error)
    ensures
        e == trace_error_of(trace_failure_of(error)),
{
    map_trace_failure(trace_failure(error))
}


/// `UdpEndpointSendMessages`.
pub const EVENT_UDP_SENT: u16 = 1169;
/// `UdpEndpointReceiveMessages`.
pub const EVENT_UDP_RECEIVED: u16 = 1170;
/// `TcpConnectionSummary`: the stack's own round-trip estimate for a connection.
pub const EVENT_TCP_SUMMARY: u16 = 1477;

/// Which way a UDP event's bytes went, or `None` for an event number that is not a UDP
/// send or receive.
pub fn udp_direction(id: u16) -> (d: Option<FlowDirection>)
    ensures
        d == if id == EVENT_UDP_SENT {
            Some(FlowDirection::Sent)
        } else if id == EVENT_UDP_RECEIVED {
            Some(FlowDirection::Received)
        } else {
            None::<FlowDirection>
        },
{
    if id == EVENT_UDP_SENT {
        Some(FlowDirection::Sent)
    } else if id == EVENT_UDP_RECEIVED {
        Some(FlowDirection::Received)
    } else {
        None
    }
}

/// Whether a process is among those whose flows are reported.
///
/// Checked before any address of an event is decoded: flows of applications the user did
/// not select must not enter this program's memory at all.
pub fn is_watched(pid: Pid, watched: &[Pid]) -> (b: bool)
    ensures
        b == watched@.contains(pid),
{
    let mut i: usize = 0;
    while i < watched.len()
        invariant
            i <= watched@.len(),
            forall|k: int| 0 <= k < i ==> watched@[k] != pid,
        decreases watched@.len() - i,
    {
        if watched[i] == pid {
            assert(watched@[i as int] == pid);
            return true;
        }
        i = i + 1;
    }
    false
}

/// The flow a UDP event reports, from its process, direction, the two socket-address
/// blobs and its byte count; nothing where either blob does not decode, since discovery
/// that invents an endpoint would send probes to it.
pub fn udp_flow(pid: Pid, direction: FlowDirection, local: &[u8], remote: &[u8], bytes: u32) -> (r:
    Option<FlowEvent>)
    ensures
        r == match (socket_of(local@), socket_of(remote@)) {
            (Some(l), Some(m)) => Some(
                FlowEvent {
                    pid,
                    protocol: Protocol::Udp,
                    local: l,
                    remote: m,
                    direction,
                    bytes: bytes as u64,
                },
            ),
            _ => None,
        },
{
    match (decode_sockaddr(local), decode_sockaddr(remote)) {
        (Some(l), Some(m)) => Some(
            FlowEvent {
                pid,
                protocol: Protocol::Udp,
                local: l,
                remote: m,
                direction,
                bytes: bytes as u64,
            },
        ),
        _ => None,
    }
}


/// The stack's own round-trip estimate for one TCP connection, from its connection
/// summary.
#[derive(Debug, Clone, Copy, PartialEq, Eq, Structural)]
pub struct TcpRttEvent {
    /// The local socket of the connection.
    pub local: SocketAddr,
    /// The endpoint it was connected to.
    pub remote: SocketAddr,
    /// The smoothed round-trip time.
    pub rtt: Duration,
    /// The fastest round trip seen.
    pub min_rtt: Duration,
    /// The slowest round trip seen.
    pub max_rtt: Duration,
}

/// The local port a connection summary names, when it reads as a port and is watched.
pub open spec fn watched_port_of(watch: Set<u16>, raw: u32) -> Option<u16> {
    if raw <= u16::MAX && watch.contains(((raw % 0x100) * 0x100 + raw / 0x100) as u16) {
        Some(((raw % 0x100) * 0x100 + raw / 0x100) as u16)
    } else {
        None
    }
}

/// Reads a connection summary's `LocalPort` field and tells whether it is watched.
///
/// Read first and alone: the summary names no process, so nothing else of a connection
/// closing anywhere on the machine is touched until its port matches.
pub fn watched_port(watch: &TcpPortWatch, raw: u32) -> (port: Option<u16>)
    ensures
        port == watched_port_of(watch@, raw),
{
    match summary_port(raw) {
        Some(port) => if watch.contains(port) {
            Some(port)
        } else {
            None
        },
        None => None,
    }
}

/// The round-trip event a TCP connection summary reports: from the raw local-port field,
/// the two socket-address blobs and the three round trips in microseconds. Nothing unless
/// the port is watched and both blobs decode. The local blob's own port is what the
/// connection used; where the blob carries none, the separate field stands in.
pub fn summary_event(
    watch: &TcpPortWatch,
    local_port: u32,
    local: &[u8],
    remote: &[u8],
    rtt_us: u32,
    min_rtt_us: u32,
    max_rtt_us: u32,
) -> (r: Option<TcpRttEvent>)
    ensures
        r is Some == (watched_port_of(watch@, local_port) is Some && socket_of(local@) is Some
            && socket_of(remote@) is Some),
        r matches Some(e) ==> {
            let port = watched_port_of(watch@, local_port)->0;
            let l = socket_of(local@)->0;
            &&& e.local == if l.port == 0 {
                SocketAddr { ip: l.ip, port, scope_id: 0 }
            } else {
                l
            }
            &&& e.remote == socket_of(remote@)->0
            &&& e.rtt@ == rtt_us * 1_000
            &&& e.min_rtt@ == min_rtt_us * 1_000
            &&& e.max_rtt@ == max_rtt_us * 1_000
        },
{
    let port = match watched_port(watch, local_port) {
        Some(port) => port,
        None => return None,
    };
    match (decode_sockaddr(local), decode_sockaddr(remote)) {
        (Some(l), Some(m)) => Some(
            TcpRttEvent {
                local: with_port(l, port),
                remote: m,
                rtt: Duration::from_micros(rtt_us as u64),
                min_rtt: Duration::from_micros(min_rtt_us as u64),
                max_rtt: Duration::from_micros(max_rtt_us as u64),
            },
        ),
        _ => None,
    }
}

} // verus!
