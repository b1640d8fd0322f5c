//! ICMP echo requests, and how the operating system's answers map onto measurements.
//!
//! The `IP_STATUS` classification and the byte-order conversions are the parts most likely
//! to be subtly wrong, so they live here, away from any system call.

use crate::address::IpAddr;
use crate::platform::connection::mib_v4;
use crate::platform::Error;
use crate::time::Duration;
use vstd::prelude::*;

verus! {

/// Payload size a plain `ping` uses.
pub const DEFAULT_PAYLOAD_LEN: u16 = 32;

/// One ICMP echo request.
#[derive(Debug, Clone, Copy, PartialEq, Eq, Structural)]
pub struct EchoRequest {
    /// Address to probe.
    pub target: IpAddr,
    /// Local address the request must leave from, so the probe follows the same route as
    /// the flow it measures; `None` lets the operating system choose.
    pub source: Option<IpAddr>,
    /// Time-to-live to set; a small one makes this a path probe. `None` uses the default.
    pub ttl: Option<u8>,
    /// Payload size in bytes.
    pub payload_len: u16,
    /// How long to wait for a reply.
    pub timeout: Duration,
}

impl EchoRequest {
    /// A plain echo to `target` with the default payload and no routing constraints.
    pub fn to(target: IpAddr, timeout: Duration) -> (r: EchoRequest)
        ensures
            r == (EchoRequest {
                target,
                source: None,
                ttl: None,
                payload_len: DEFAULT_PAYLOAD_LEN,
                timeout,
            }),
    {
        EchoRequest { target, source: None, ttl: None, payload_len: DEFAULT_PAYLOAD_LEN, timeout }
    }

    /// The same request, pinned to a local egress address.
    pub fn from_source(self, source: IpAddr) -> (r: EchoRequest)
        ensures
            r == (EchoRequest { source: Some(source), ..self }),
    {
        EchoRequest { source: Some(source), ..self }
    }

    /// The same request, limited to `ttl` hops.
    pub fn with_ttl(self, ttl: u8) -> (r: EchoRequest)
        ensures
            r == (EchoRequest { ttl: Some(ttl), ..self }),
    {
        EchoRequest { ttl: Some(ttl), ..self }
    }
}

/// What an echo request produced.
///
/// The responding address is optional where the operating system reports an outcome
/// without naming who answered: saying so is honest, inventing an address would not be.
#[derive(Debug, Clone, Copy, PartialEq, Eq, Structural)]
pub enum EchoOutcome {
    /// The target itself replied.
    Replied {
        /// Address that answered.
        from: IpAddr,
        /// Measured round-trip time.
        rtt: Duration,
    },
    /// A router on the path discarded the packet because its time-to-live ran out: for a
    /// path probe, the successful case.
    TtlExpired {
        /// The hop that answered, when it is known.
        from: Option<IpAddr>,
        /// Round-trip time to that hop.
        rtt: Duration,
    },
    /// Something on the path reported the destination cannot be reached.
    Unreachable {
        /// The router that answered, when it is known.
        from: Option<IpAddr>,
    },
    /// Nothing answered before the deadline.
    TimedOut,
}

/// `IP_STATUS`: the echo reply arrived.
pub const IP_SUCCESS: u32 = 0;
/// `IP_STATUS`: the reply buffer was too small.
pub const IP_BUF_TOO_SMALL: u32 = 11_001;
/// `IP_STATUS`: no route to the destination network.
pub const IP_DEST_NET_UNREACHABLE: u32 = 11_002;
/// `IP_STATUS`: the destination host did not respond to address resolution.
pub const IP_DEST_HOST_UNREACHABLE: u32 = 11_003;
/// `IP_STATUS`: the destination does not speak the requested protocol.
pub const IP_DEST_PROT_UNREACHABLE: u32 = 11_004;
/// `IP_STATUS`: the destination port is closed.
pub const IP_DEST_PORT_UNREACHABLE: u32 = 11_005;
/// `IP_STATUS`: the local stack ran out of resources.
pub const IP_NO_RESOURCES: u32 = 11_006;
/// `IP_STATUS`: an IP option was malformed.
pub const IP_BAD_OPTION: u32 = 11_007;
/// `IP_STATUS`: a hardware error occurred.
pub const IP_HW_ERROR: u32 = 11_008;
/// `IP_STATUS`: the packet exceeded the path MTU and could not be fragmented.
pub const IP_PACKET_TOO_BIG: u32 = 11_009;
/// `IP_STATUS`: no reply arrived before the timeout.
pub const IP_REQ_TIMED_OUT: u32 = 11_010;
/// `IP_STATUS`: the request itself was malformed.
pub const IP_BAD_REQ: u32 = 11_011;
/// `IP_STATUS`: no route to the destination.
pub const IP_BAD_ROUTE: u32 = 11_012;
/// `IP_STATUS`: a router discarded the packet because its time-to-live reached zero.
pub const IP_TTL_EXPIRED_TRANSIT: u32 = 11_013;
/// `IP_STATUS`: fragment reassembly timed out.
pub const IP_TTL_EXPIRED_REASSEM: u32 = 11_014;
/// `IP_STATUS`: a router reported a problem with a header field.
pub const IP_PARAM_PROBLEM: u32 = 11_015;
/// `IP_STATUS`: a router asked the sender to slow down.
pub const IP_SOURCE_QUENCH: u32 = 11_016;
/// `IP_STATUS`: the IP options were too large.
pub const IP_OPTION_TOO_BIG: u32 = 11_017;
/// `IP_STATUS`: the destination address was rejected as invalid.
pub const IP_BAD_DESTINATION: u32 = 11_018;
/// `IP_STATUS`: an unspecified failure.
pub const IP_GENERAL_FAILURE: u32 = 11_050;

/// How an `IP_STATUS` maps onto a measurement.
#[derive(Debug, Clone, Copy, PartialEq, Eq, Structural)]
pub enum StatusKind {
    /// The target answered.
    Replied,
    /// A hop answered that the time-to-live expired.
    TtlExpired,
    /// The destination was reported unreachable.
    Unreachable,
    /// Nothing answered in time.
    TimedOut,
    /// The attempt failed locally and measured nothing about the target.
    Unusable,
}

/// The measurement an `IP_STATUS` value stands for.
///
/// Statuses about the path are measurements; statuses about this machine (a local resource
/// failure, a malformed request) are not evidence that anything remote is down.
pub open spec fn status_kind(status: u32) -> StatusKind {
    if status == IP_SUCCESS {
        StatusKind::Replied
    } else if status == IP_TTL_EXPIRED_TRANSIT || status == IP_TTL_EXPIRED_REASSEM {
        StatusKind::TtlExpired
    } else if status == IP_DEST_NET_UNREACHABLE || status == IP_DEST_HOST_UNREACHABLE || status
        == IP_DEST_PROT_UNREACHABLE || status == IP_DEST_PORT_UNREACHABLE || status
        == IP_BAD_ROUTE || status == IP_BAD_DESTINATION {
        StatusKind::Unreachable
    } else if status == IP_REQ_TIMED_OUT {
        StatusKind::TimedOut
    } else {
        StatusKind::Unusable
    }
}

/// Classifies an `IP_STATUS` value.
pub fn classify_status(status: u32) -> (k: StatusKind)
    ensures
        k == status_kind(status),
{
    if status == IP_SUCCESS {
        StatusKind::Replied
    } else if status == IP_TTL_EXPIRED_TRANSIT || status == IP_TTL_EXPIRED_REASSEM {
        StatusKind::TtlExpired
    } else if status == IP_DEST_NET_UNREACHABLE || status == IP_DEST_HOST_UNREACHABLE || status
        == IP_DEST_PROT_UNREACHABLE || status == IP_DEST_PORT_UNREACHABLE || status
        == IP_BAD_ROUTE || status == IP_BAD_DESTINATION {
        StatusKind::Unreachable
    } else if status == IP_REQ_TIMED_OUT {
        StatusKind::TimedOut
    } else {
        StatusKind::Unusable
    }
}

/// `x` with its four bytes in the opposite order.
pub open spec fn swapped_bytes(x: u32) -> nat {
    ((x % 0x100) * 0x100_0000 + (x / 0x100 % 0x100) * 0x1_0000 + (x / 0x1_0000 % 0x100) * 0x100
        + x / 0x100_0000) as nat
}

fn swap_bytes(x: u32) -> (r: u32)
    ensures
        r == swapped_bytes(x),
{
    let b0 = x % 0x100;
    let b1 = x / 0x100 % 0x100;
    let b2 = x / 0x1_0000 % 0x100;
    let b3 = x / 0x100_0000;
    b0 * 0x100_0000 + b1 * 0x1_0000 + b2 * 0x100 + b3
}

/// Packs the bits of an IPv4 address into the IP Helper API's `IPAddr`, which holds the
/// four octets in network order inside a machine word: the first octet lowest.
pub fn to_in_addr(bits: u32) -> (raw: u32)
    ensures
        raw == swapped_bytes(bits),
{
    swap_bytes(bits)
}

/// Unpacks an `IPAddr` returned by the IP Helper API into the bits of an IPv4 address.
pub fn from_in_addr(raw: u32) -> (bits: u32)
    ensures
        bits == swapped_bytes(raw),
{
    swap_bytes(raw)
}

/// Packing and unpacking an address undo each other.
#[verifier::spinoff_prover]
#[verifier::rlimit(40)]
pub proof fn lemma_in_addr_round_trip(bits: u32)
    ensures
        swapped_bytes(swapped_bytes(bits) as u32) == bits,
{
    let b0 = bits % 0x100;
    let b1 = bits / 0x100 % 0x100;
    let b2 = bits / 0x1_0000 % 0x100;
    let b3 = bits / 0x100_0000;
    assert(bits == b3 * 0x100_0000 + b2 * 0x1_0000 + b1 * 0x100 + b0);
    let s = b0 * 0x100_0000 + b1 * 0x1_0000 + b2 * 0x100 + b3;
    assert(s % 0x100 == b3);
    assert(s / 0x100 % 0x100 == b2);
    assert(s / 0x1_0000 % 0x100 == b1);
    assert(s / 0x100_0000 == b0);
}


/// Largest echo payload sent: well under any path MTU, so a probe never becomes the thing
/// that gets fragmented or dropped.
pub const MAX_PAYLOAD_LEN: u16 = 512;

/// What an echo request asks of `IcmpSendEcho2Ex`, in the API's own terms.
#[derive(Debug, Clone, Copy, PartialEq, Eq, Structural)]
pub struct EchoCall {
    /// The source address as an `IPAddr`; zero lets the system choose.
    pub source: u32,
    /// The target address as an `IPAddr`.
    pub target: u32,
    /// Payload bytes to send.
    pub payload_len: u16,
    /// The time-to-live to set, where the request limits one; otherwise the system default.
    pub ttl: Option<u8>,
    /// How long to wait, in milliseconds.
    pub timeout_ms: u32,
}

/// The call an IPv4 request makes: both addresses packed for the API, the payload capped
/// at `MAX_PAYLOAD_LEN`, and the timeout in whole milliseconds, capped at what the API
/// takes.
pub open spec fn call_of(target: u32, source: u32, request: EchoRequest) -> EchoCall {
    EchoCall {
        source: swapped_bytes(source) as u32,
        target: swapped_bytes(target) as u32,
        payload_len: if request.payload_len < MAX_PAYLOAD_LEN {
            request.payload_len
        } else {
            MAX_PAYLOAD_LEN
        },
        ttl: request.ttl,
        timeout_ms: if request.timeout@ / 1_000_000 <= u32::MAX {
            (request.timeout@ / 1_000_000) as u32
        } else {
            u32::MAX
        },
    }
}

/// Prepares the system call for an echo request.
///
/// Only IPv4 is implemented: an IPv6 target or source fails with `Error::Ipv6Unsupported`
/// rather than being reported as unreachable.
pub fn echo_call(request: &EchoRequest) -> (r: Result<EchoCall, Error>)
    ensures
        match (request.target, request.source) {
            (IpAddr::V4(target), None) => r == Ok::<EchoCall, Error>(call_of(target, 0, *request)),
            (IpAddr::V4(target), Some(IpAddr::V4(source))) => r == Ok::<EchoCall, Error>(
                call_of(target, source, *request),
            ),
            _ => r == Err::<EchoCall, Error>(Error::Ipv6Unsupported),
        },
{
    let target = match request.target {
        IpAddr::V4(target) => target,
        IpAddr::V6(_) => return Err(Error::Ipv6Unsupported),
    };
    let source = match request.source {
        None => 0,
        Some(IpAddr::V4(source)) => source,
        Some(IpAddr::V6(_)) => return Err(Error::Ipv6Unsupported),
    };
    let payload_len = if request.payload_len < MAX_PAYLOAD_LEN {
        request.payload_len
    } else {
        MAX_PAYLOAD_LEN
    };
    let millis = request.timeout.as_millis();
    let timeout_ms = if millis <= 0xFFFF_FFFF {
        millis as u32
    } else {
        0xFFFF_FFFF
    };
    Ok(
        EchoCall {
            source: to_in_addr(source),
            target: to_in_addr(target),
            payload_len,
            ttl: request.ttl,
            timeout_ms,
        },
    )
}

/// The outcome a status reports, the responding address where one is known.
pub open spec fn outcome_of(status: u32, from: Option<IpAddr>, elapsed: Duration) -> Result<
    EchoOutcome,
    Error,
> {
    match status_kind(status) {
        StatusKind::Replied => match from {
            Some(from) => Ok(EchoOutcome::Replied { from, rtt: elapsed }),
            None => Err(Error::Icmp { code: status }),
        },
        StatusKind::TtlExpired => Ok(EchoOutcome::TtlExpired { from, rtt: elapsed }),
        StatusKind::Unreachable => Ok(EchoOutcome::Unreachable { from }),
        StatusKind::TimedOut => Ok(EchoOutcome::TimedOut),
        StatusKind::Unusable => Err(Error::Icmp { code: status }),
    }
}

/// Reads what `IcmpSendEcho2Ex` reported: how many replies it wrote, the thread's last
/// error when it wrote none, the status and responding address of the first reply when it
/// wrote one, and the time measured around the call.
///
/// With no reply the responding address is not available, and "success with zero
/// replies" is a contradiction, treated as the local failure it must be rather than
/// invented into a measurement. A status about this machine measures nothing about the
/// target and is an error.
pub fn echo_outcome(replies: u32, last_error: u32, status: u32, address: u32, elapsed: Duration) -> (r:
    Result<EchoOutcome, Error>)
    ensures
        r == if replies == 0 {
            outcome_of(last_error, None, elapsed)
        } else {
            outcome_of(status, Some(mib_v4(address)), elapsed)
        },
{
    let (code, from) = if replies == 0 {
        (last_error, None)
    } else {
        (status, Some(IpAddr::V4(from_in_addr(address))))
    };
    match classify_status(code) {
        StatusKind::Replied => match from {
            Some(from) => Ok(EchoOutcome::Replied { from, rtt: elapsed }),
            None => Err(Error::Icmp { code }),
        },
        StatusKind::TtlExpired => Ok(EchoOutcome::TtlExpired { from, rtt: elapsed }),
        StatusKind::Unreachable => Ok(EchoOutcome::Unreachable { from }),
        StatusKind::TimedOut => Ok(EchoOutcome::TimedOut),
        StatusKind::Unusable => Err(Error::Icmp { code }),
    }
}

} // verus!
