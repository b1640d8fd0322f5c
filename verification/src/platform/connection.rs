//! The kernel's connection tables, attributed to the process that owns each socket.
//!
//! Passive discovery only: the tables say which endpoints a process has sockets for, never
//! what it sent to them. A TCP row carries both ends; a UDP row carries only the local
//! socket, because UDP is connectionless and the kernel has no peer to report. Reporting a
//! UDP row with no remote is the honest form of that gap.

use crate::address::{IpAddr, SocketAddr};
use crate::platform::flow::{big_endian, read_big_endian};
use crate::platform::icmp::{from_in_addr, swapped_bytes};
use crate::platform::process::Pid;
use vstd::arithmetic::div_mod::{lemma_fundamental_div_mod, lemma_mod_pos_bound};
use vstd::prelude::*;

verus! {

/// Transport protocol of a connection-table row.
#[derive(Debug, Clone, Copy, PartialEq, Eq, Structural, Hash)]
pub enum Protocol {
    /// TCP: the row names both ends of the connection.
    Tcp,
    /// UDP: the row names only the local socket.
    Udp,
}

/// TCP connection state, as the operating system reports it.
///
/// Kept whole rather than reduced to "established or not": a socket stuck in `SynSent` is
/// an attempt getting no answer, and `TimeWait` rows must not be probed as live endpoints.
#[derive(Debug, Clone, Copy, PartialEq, Eq, Structural, Hash)]
pub enum TcpState {
    /// No connection.
    Closed,
    /// Waiting for an inbound connection.
    Listen,
    /// A connection request was sent and is unanswered so far.
    SynSent,
    /// A connection request arrived and was answered.
    SynReceived,
    /// The connection is open and carrying data.
    Established,
    /// The local end closed and is waiting for the peer to acknowledge.
    FinWait1,
    /// The local close is acknowledged; waiting for the peer to close.
    FinWait2,
    /// The peer closed; the local end has not yet.
    CloseWait,
    /// Both ends closed simultaneously.
    Closing,
    /// Waiting for the final acknowledgement.
    LastAck,
    /// Holding the tuple aside so late packets cannot join a new connection.
    TimeWait,
    /// The kernel is tearing the control block down.
    DeleteTcb,
    /// A value this build does not know; carried through rather than guessed at.
    Unknown(u32),
}

impl TcpState {
    /// Whether the row describes a connection that currently has a live peer.
    pub open spec fn spec_is_active(self) -> bool {
        self is SynSent || self is SynReceived || self is Established || self is CloseWait
    }

    /// Whether the row describes a connection that currently has a live peer: the filter
    /// for "is this an endpoint worth probing".
    pub fn is_active(self) -> (b: bool)
        ensures
            b == self.spec_is_active(),
    {
        match self {
            TcpState::SynSent | TcpState::SynReceived | TcpState::Established
            | TcpState::CloseWait => true,
            _ => false,
        }
    }
}

/// One row of a connection table.
#[derive(Debug, Clone, Copy, PartialEq, Eq, Structural)]
pub struct Connection {
    /// Transport protocol.
    pub protocol: Protocol,
    /// The local socket address.
    pub local: SocketAddr,
    /// The peer, when the row has one: never for UDP, nor for a listening TCP socket.
    pub remote: Option<SocketAddr>,
    /// TCP state; `None` for UDP, which has none.
    pub state: Option<TcpState>,
    /// The process that owns the socket.
    pub pid: Pid,
}

impl Connection {
    /// The peer address if this row describes a flow worth measuring: the row must name a
    /// peer and, for TCP, the connection must still be live.
    pub fn active_peer(&self) -> (r: Option<SocketAddr>)
        ensures
            r == match self.state {
                Some(state) => if state.spec_is_active() {
                    self.remote
                } else {
                    None
                },
                None => self.remote,
            },
    {
        match self.state {
            Some(state) => if state.is_active() {
                self.remote
            } else {
                None
            },
            None => self.remote,
        }
    }
}

/// `MIB_TCP_STATE`: no connection.
pub const TCP_STATE_CLOSED: u32 = 1;
/// `MIB_TCP_STATE`: listening for inbound connections.
pub const TCP_STATE_LISTEN: u32 = 2;
/// `MIB_TCP_STATE`: a connection request has been sent.
pub const TCP_STATE_SYN_SENT: u32 = 3;
/// `MIB_TCP_STATE`: a connection request has been received.
pub const TCP_STATE_SYN_RCVD: u32 = 4;
/// `MIB_TCP_STATE`: the connection is open.
pub const TCP_STATE_ESTAB: u32 = 5;
/// `MIB_TCP_STATE`: the local end has closed.
pub const TCP_STATE_FIN_WAIT1: u32 = 6;
/// `MIB_TCP_STATE`: the local close has been acknowledged.
pub const TCP_STATE_FIN_WAIT2: u32 = 7;
/// `MIB_TCP_STATE`: the remote end has closed.
pub const TCP_STATE_CLOSE_WAIT: u32 = 8;
/// `MIB_TCP_STATE`: both ends closed at once.
pub const TCP_STATE_CLOSING: u32 = 9;
/// `MIB_TCP_STATE`: waiting for the final acknowledgement.
pub const TCP_STATE_LAST_ACK: u32 = 10;
/// `MIB_TCP_STATE`: holding the tuple aside after close.
pub const TCP_STATE_TIME_WAIT: u32 = 11;
/// `MIB_TCP_STATE`: the control block is being deleted.
pub const TCP_STATE_DELETE_TCB: u32 = 12;

/// The state a raw `MIB_TCP_STATE` value names.
pub open spec fn tcp_state_of(raw: u32) -> TcpState {
    if raw == TCP_STATE_CLOSED {
        TcpState::Closed
    } else if raw == TCP_STATE_LISTEN {
        TcpState::Listen
    } else if raw == TCP_STATE_SYN_SENT {
        TcpState::SynSent
    } else if raw == TCP_STATE_SYN_RCVD {
        TcpState::SynReceived
    } else if raw == TCP_STATE_ESTAB {
        TcpState::Established
    } else if raw == TCP_STATE_FIN_WAIT1 {
        TcpState::FinWait1
    } else if raw == TCP_STATE_FIN_WAIT2 {
        TcpState::FinWait2
    } else if raw == TCP_STATE_CLOSE_WAIT {
        TcpState::CloseWait
    } else if raw == TCP_STATE_CLOSING {
        TcpState::Closing
    } else if raw == TCP_STATE_LAST_ACK {
        TcpState::LastAck
    } else if raw == TCP_STATE_TIME_WAIT {
        TcpState::TimeWait
    } else if raw == TCP_STATE_DELETE_TCB {
        TcpState::DeleteTcb
    } else {
        TcpState::Unknown(raw)
    }
}

/// Maps a raw `MIB_TCP_STATE` onto `TcpState`, keeping any value this build does not know.
pub fn classify_tcp_state(raw: u32) -> (s: TcpState)
    ensures
        s == tcp_state_of(raw),
{
    if raw == TCP_STATE_CLOSED {
        TcpState::Closed
    } else if raw == TCP_STATE_LISTEN {
        TcpState::Listen
    } else if raw == TCP_STATE_SYN_SENT {
        TcpState::SynSent
    } else if raw == TCP_STATE_SYN_RCVD {
        TcpState::SynReceived
    } else if raw == TCP_STATE_ESTAB {
        TcpState::Established
    } else if raw == TCP_STATE_FIN_WAIT1 {
        TcpState::FinWait1
    } else if raw == TCP_STATE_FIN_WAIT2 {
        TcpState::FinWait2
    } else if raw == TCP_STATE_CLOSE_WAIT {
        TcpState::CloseWait
    } else if raw == TCP_STATE_CLOSING {
        TcpState::Closing
    } else if raw == TCP_STATE_LAST_ACK {
        TcpState::LastAck
    } else if raw == TCP_STATE_TIME_WAIT {
        TcpState::TimeWait
    } else if raw == TCP_STATE_DELETE_TCB {
        TcpState::DeleteTcb
    } else {
        TcpState::Unknown(raw)
    }
}

/// Extracts a port from an IP Helper table field.
///
/// The field holds the port in network byte order in its low-order two bytes, so 0x5000 is
/// port 80: the lowest byte is the high byte of the port, the next byte its low byte, and
/// the upper half of the field is ignored.
pub fn port_from_mib(raw: u32) -> (port: u16)
    ensures
        port == (raw % 0x100) * 0x100 + (raw / 0x100) % 0x100,
{
    let low_order = raw % 0x100;
    let next = (raw / 0x100) % 0x100;
    (low_order * 0x100 + next) as u16
}

/// The peer of a table row, or `None` when the row does not name one: the wildcard
/// address, and port zero, which nothing can be sent to.
pub fn peer(address: IpAddr, port: u16) -> (r: Option<SocketAddr>)
    ensures
        r == named_peer(address, port),
{
    if port == 0 || address.is_unspecified() {
        return None;
    }
    Some(SocketAddr::new(address, port))
}


/// The peer a row names: none for the wildcard address, nor for port zero, which nothing
/// can be sent to.
pub open spec fn named_peer(address: IpAddr, port: u16) -> Option<SocketAddr> {
    if port == 0 || match address {
        IpAddr::V4(bits) => bits == 0,
        IpAddr::V6(bits) => bits == 0,
    } {
        None
    } else {
        Some(SocketAddr { ip: address, port, scope_id: 0 })
    }
}

/// The peer of a TCP row: none in a state where the remote fields mean nothing.
pub open spec fn tcp_peer_of(state: TcpState, address: IpAddr, port: u16) -> Option<SocketAddr> {
    if state is Listen || state is Closed {
        None
    } else {
        named_peer(address, port)
    }
}

/// The peer of a TCP row, or `None` when the state means the fields are meaningless.
///
/// A listening socket's remote fields are not merely zero: on some Windows versions they
/// hold leftovers. Gating on the state as well as on the address is what stops a stale
/// tuple from being handed to the probe engine as a live endpoint.
pub fn tcp_peer(state: TcpState, address: IpAddr, port: u16) -> (r: Option<SocketAddr>)
    ensures
        r == tcp_peer_of(state, address, port),
{
    match state {
        TcpState::Listen | TcpState::Closed => None,
        _ => peer(address, port),
    }
}

/// Where the rows of an owner-PID table start: after its four-byte row count.
pub const TABLE_HEADER_BYTES: usize = 4;
/// Bytes of one `MIB_TCPROW_OWNER_PID`: state, local address and port, remote address
/// and port, owning process.
pub const TCP4_ROW_BYTES: usize = 24;
/// Bytes of one `MIB_TCP6ROW_OWNER_PID`: local address, scope and port, remote address,
/// scope and port, state, owning process.
pub const TCP6_ROW_BYTES: usize = 56;
/// Bytes of one `MIB_UDPROW_OWNER_PID`: local address and port, owning process.
pub const UDP4_ROW_BYTES: usize = 12;
/// Bytes of one `MIB_UDP6ROW_OWNER_PID`: local address, scope and port, owning process.
pub const UDP6_ROW_BYTES: usize = 28;

/// The 32-bit field at `at`, least significant byte first, as the tables are written.
pub open spec fn field(b: Seq<u8>, at: int) -> u32 {
    (b[at] + b[at + 1] * 0x100 + b[at + 2] * 0x1_0000 + b[at + 3] * 0x100_0000) as u32
}

/// The port a table field holds.
pub open spec fn mib_port(raw: u32) -> u16 {
    ((raw % 0x100) * 0x100 + (raw / 0x100) % 0x100) as u16
}

/// The IPv4 address a table field holds.
pub open spec fn mib_v4(raw: u32) -> IpAddr {
    IpAddr::V4(swapped_bytes(raw) as u32)
}

/// The IPv6 address the sixteen bytes at `at` hold, most significant first.
pub open spec fn mib_v6(b: Seq<u8>, at: int) -> IpAddr {
    IpAddr::V6(big_endian(b.subrange(at, at + 16)) as u128)
}

/// How many whole rows of `width` bytes a reply of `len` bytes holds after its header,
/// at most the `count` the header declares.
pub open spec fn rows_held(len: int, count: int, width: int) -> int {
    let room = if len > TABLE_HEADER_BYTES {
        (len - TABLE_HEADER_BYTES) / width
    } else {
        0
    };
    if count < room {
        count
    } else {
        room
    }
}

/// The rows a reply holds fit in its bytes.
proof fn lemma_rows_fit(len: int, count: int, width: int)
    requires
        width > 0,
        count >= 0,
    ensures
        0 <= rows_held(len, count, width),
        rows_held(len, count, width) == 0 || TABLE_HEADER_BYTES + width * rows_held(len, count, width) <= len,
{
    let n = rows_held(len, count, width);
    if len > TABLE_HEADER_BYTES {
        let room = (len - TABLE_HEADER_BYTES) / width;
        lemma_fundamental_div_mod(len - TABLE_HEADER_BYTES, width);
        lemma_mod_pos_bound(len - TABLE_HEADER_BYTES, width);
        assert(0 <= room) by (nonlinear_arith)
            requires
                width > 0,
                len - TABLE_HEADER_BYTES > 0,
                room == (len - TABLE_HEADER_BYTES) / width,
        ;
        assert(width * n <= width * room) by (nonlinear_arith)
            requires
                width > 0,
                0 <= n <= room,
        ;
    }
}

/// A row before the last one held ends by where the last one ends.
proof fn lemma_row_within(i: int, n: int, width: int)
    requires
        0 <= i < n,
        width > 0,
    ensures
        width * i + width <= width * n,
{
    assert(width * i + width <= width * n) by (nonlinear_arith)
        requires
            0 <= i < n,
            width > 0,
    ;
}

/// Reads a 32-bit field.
fn read_field(b: &[u8], at: usize) -> (n: u32)
    requires
        at + 4 <= b@.len(),
    ensures
        n == field(b@, at as int),
{
    b[at] as u32 + b[at + 1] as u32 * 0x100 + b[at + 2] as u32 * 0x1_0000 + b[at + 3] as u32 * 0x100_0000
}

/// The row count a table reply declares in its header, or zero for a reply too short to
/// hold one.
pub fn row_count(bytes: &[u8]) -> (n: usize)
    ensures
        n == if bytes@.len() < TABLE_HEADER_BYTES {
            0
        } else {
            field(bytes@, 0) as int
        },
{
    if bytes.len() < TABLE_HEADER_BYTES {
        return 0;
    }
    read_field(bytes, 0) as usize
}

/// How many rows of `width` bytes to read from a reply: the count its header declares,
/// clamped to what the bytes actually hold, so a reply shorter than its own header claims
/// yields fewer rows instead of a read past its end.
pub fn table_rows(bytes: &[u8], width: usize) -> (n: usize)
    requires
        width > 0,
    ensures
        n == rows_held(bytes@.len() as int, if bytes@.len() < TABLE_HEADER_BYTES { 0 } else { field(bytes@, 0) as int }, width as int),
{
    let count = row_count(bytes);
    let room = if bytes.len() > TABLE_HEADER_BYTES {
        (bytes.len() - TABLE_HEADER_BYTES) / width
    } else {
        0
    };
    if count < room {
        count
    } else {
        room
    }
}

/// Whether `c` is the IPv4 TCP row at `at`.
pub open spec fn tcp4_row(c: Connection, b: Seq<u8>, at: int) -> bool {
    let state = tcp_state_of(field(b, at));
    &&& c.protocol == Protocol::Tcp
    &&& c.local == (SocketAddr {
        ip: mib_v4(field(b, at + 4)),
        port: mib_port(field(b, at + 8)),
        scope_id: 0,
    })
    &&& c.remote == tcp_peer_of(state, mib_v4(field(b, at + 12)), mib_port(field(b, at + 16)))
    &&& c.state == Some(state)
    &&& c.pid.raw() == field(b, at + 20)
}

/// Whether `c` is the IPv6 TCP row at `at`; the local socket carries the row's scope.
pub open spec fn tcp6_row(c: Connection, b: Seq<u8>, at: int) -> bool {
    let state = tcp_state_of(field(b, at + 48));
    &&& c.protocol == Protocol::Tcp
    &&& c.local == (SocketAddr {
        ip: mib_v6(b, at),
        port: mib_port(field(b, at + 20)),
        scope_id: field(b, at + 16),
    })
    &&& c.remote == tcp_peer_of(state, mib_v6(b, at + 24), mib_port(field(b, at + 44)))
    &&& c.state == Some(state)
    &&& c.pid.raw() == field(b, at + 52)
}

/// Whether `c` is the IPv4 UDP row at `at`: a local socket and its owner, and no peer,
/// since the kernel knows of none for a datagram socket.
pub open spec fn udp4_row(c: Connection, b: Seq<u8>, at: int) -> bool {
    &&& c.protocol == Protocol::Udp
    &&& c.local == (SocketAddr {
        ip: mib_v4(field(b, at)),
        port: mib_port(field(b, at + 4)),
        scope_id: 0,
    })
    &&& c.remote is None
    &&& c.state is None
    &&& c.pid.raw() == field(b, at + 8)
}

/// Whether `c` is the IPv6 UDP row at `at`; the local socket carries the row's scope.
pub open spec fn udp6_row(c: Connection, b: Seq<u8>, at: int) -> bool {
    &&& c.protocol == Protocol::Udp
    &&& c.local == (SocketAddr {
        ip: mib_v6(b, at),
        port: mib_port(field(b, at + 20)),
        scope_id: field(b, at + 16),
    })
    &&& c.remote is None
    &&& c.state is None
    &&& c.pid.raw() == field(b, at + 24)
}

/// The rows of a `GetExtendedTcpTable` reply for IPv4.
pub fn decode_tcp4_table(bytes: &[u8]) -> (rows: Vec<Connection>)
    ensures
        rows@.len() == rows_held(bytes@.len() as int, if bytes@.len() < TABLE_HEADER_BYTES { 0 } else { field(bytes@, 0) as int }, TCP4_ROW_BYTES as int),
        forall|i: int| 0 <= i < rows@.len() ==> tcp4_row(#[trigger] rows@[i], bytes@, TABLE_HEADER_BYTES + TCP4_ROW_BYTES * i),
{
    let n = table_rows(bytes, TCP4_ROW_BYTES);
    let len = bytes.len();
    proof {
        lemma_rows_fit(bytes@.len() as int, if bytes@.len() < TABLE_HEADER_BYTES { 0 } else { field(bytes@, 0) as int }, TCP4_ROW_BYTES as int);
    }
    let mut rows: Vec<Connection> = Vec::new();
    let mut i: usize = 0;
    while i < n
        invariant
            i <= n,
            n == 0 || TABLE_HEADER_BYTES + TCP4_ROW_BYTES * n <= bytes@.len(),
            bytes@.len() == len,
            rows@.len() == i,
            forall|k: int| 0 <= k < i ==> tcp4_row(#[trigger] rows@[k], bytes@, TABLE_HEADER_BYTES + TCP4_ROW_BYTES * k),
        decreases n - i,
    {
        proof {
            lemma_row_within(i as int, n as int, TCP4_ROW_BYTES as int);
        }
        let at = TABLE_HEADER_BYTES + TCP4_ROW_BYTES * i;
        let state = classify_tcp_state(read_field(bytes, at));
        let local = SocketAddr::new(IpAddr::V4(from_in_addr(read_field(bytes, at + 4))), port_from_mib(read_field(bytes, at + 8)));
        let remote = tcp_peer(state, IpAddr::V4(from_in_addr(read_field(bytes, at + 12))), port_from_mib(read_field(bytes, at + 16)));
        let pid = Pid::new(read_field(bytes, at + 20));
        rows.push(Connection { protocol: Protocol::Tcp, local, remote, state: Some(state), pid });
        i = i + 1;
    }
    rows
}

/// The rows of a `GetExtendedTcpTable` reply for IPv6.
pub fn decode_tcp6_table(bytes: &[u8]) -> (rows: Vec<Connection>)
    ensures
        rows@.len() == rows_held(bytes@.len() as int, if bytes@.len() < TABLE_HEADER_BYTES { 0 } else { field(bytes@, 0) as int }, TCP6_ROW_BYTES as int),
        forall|i: int| 0 <= i < rows@.len() ==> tcp6_row(#[trigger] rows@[i], bytes@, TABLE_HEADER_BYTES + TCP6_ROW_BYTES * i),
{
    let n = table_rows(bytes, TCP6_ROW_BYTES);
    let len = bytes.len();
    proof {
        lemma_rows_fit(bytes@.len() as int, if bytes@.len() < TABLE_HEADER_BYTES { 0 } else { field(bytes@, 0) as int }, TCP6_ROW_BYTES as int);
    }
    let mut rows: Vec<Connection> = Vec::new();
    let mut i: usize = 0;
    while i < n
        invariant
            i <= n,
            n == 0 || TABLE_HEADER_BYTES + TCP6_ROW_BYTES * n <= bytes@.len(),
            bytes@.len() == len,
            rows@.len() == i,
            forall|k: int| 0 <= k < i ==> tcp6_row(#[trigger] rows@[k], bytes@, TABLE_HEADER_BYTES + TCP6_ROW_BYTES * k),
        decreases n - i,
    {
        proof {
            lemma_row_within(i as int, n as int, TCP6_ROW_BYTES as int);
        }
        let at = TABLE_HEADER_BYTES + TCP6_ROW_BYTES * i;
        let state = classify_tcp_state(read_field(bytes, at + 48));
        let local = SocketAddr {
            ip: IpAddr::V6(read_big_endian(bytes, at, at + 16)),
            port: port_from_mib(read_field(bytes, at + 20)),
            scope_id: read_field(bytes, at + 16),
        };
        let remote = tcp_peer(state, IpAddr::V6(read_big_endian(bytes, at + 24, at + 40)), port_from_mib(read_field(bytes, at + 44)));
        let pid = Pid::new(read_field(bytes, at + 52));
        rows.push(Connection { protocol: Protocol::Tcp, local, remote, state: Some(state), pid });
        i = i + 1;
    }
    rows
}

/// The rows of a `GetExtendedUdpTable` reply for IPv4.
pub fn decode_udp4_table(bytes: &[u8]) -> (rows: Vec<Connection>)
    ensures
        rows@.len() == rows_held(bytes@.len() as int, if bytes@.len() < TABLE_HEADER_BYTES { 0 } else { field(bytes@, 0) as int }, UDP4_ROW_BYTES as int),
        forall|i: int| 0 <= i < rows@.len() ==> udp4_row(#[trigger] rows@[i], bytes@, TABLE_HEADER_BYTES + UDP4_ROW_BYTES * i),
{
    let n = table_rows(bytes, UDP4_ROW_BYTES);
    let len = bytes.len();
    proof {
        lemma_rows_fit(bytes@.len() as int, if bytes@.len() < TABLE_HEADER_BYTES { 0 } else { field(bytes@, 0) as int }, UDP4_ROW_BYTES as int);
    }
    let mut rows: Vec<Connection> = Vec::new();
    let mut i: usize = 0;
    while i < n
        invariant
            i <= n,
            n == 0 || TABLE_HEADER_BYTES + UDP4_ROW_BYTES * n <= bytes@.len(),
            bytes@.len() == len,
            rows@.len() == i,
            forall|k: int| 0 <= k < i ==> udp4_row(#[trigger] rows@[k], bytes@, TABLE_HEADER_BYTES + UDP4_ROW_BYTES * k),
        decreases n - i,
    {
        proof {
            lemma_row_within(i as int, n as int, UDP4_ROW_BYTES as int);
        }
        let at = TABLE_HEADER_BYTES + UDP4_ROW_BYTES * i;
        let local = SocketAddr::new(IpAddr::V4(from_in_addr(read_field(bytes, at))), port_from_mib(read_field(bytes, at + 4)));
        let pid = Pid::new(read_field(bytes, at + 8));
        rows.push(Connection { protocol: Protocol::Udp, local, remote: None, state: None, pid });
        i = i + 1;
    }
    rows
}

/// The rows of a `GetExtendedUdpTable` reply for IPv6.
pub fn decode_udp6_table(bytes: &[u8]) -> (rows: Vec<Connection>)
    ensures
        rows@.len() == rows_held(bytes@.len() as int, if bytes@.len() < TABLE_HEADER_BYTES { 0 } else { field(bytes@, 0) as int }, UDP6_ROW_BYTES as int),
        forall|i: int| 0 <= i < rows@.len() ==> udp6_row(#[trigger] rows@[i], bytes@, TABLE_HEADER_BYTES + UDP6_ROW_BYTES * i),
{
    let n = table_rows(bytes, UDP6_ROW_BYTES);
    let len = bytes.len();
    proof {
        lemma_rows_fit(bytes@.len() as int, if bytes@.len() < TABLE_HEADER_BYTES { 0 } else { field(bytes@, 0) as int }, UDP6_ROW_BYTES as int);
    }
    let mut rows: Vec<Connection> = Vec::new();
    let mut i: usize = 0;
    while i < n
        invariant
            i <= n,
            n == 0 || TABLE_HEADER_BYTES + UDP6_ROW_BYTES * n <= bytes@.len(),
            bytes@.len() == len,
            rows@.len() == i,
            forall|k: int| 0 <= k < i ==> udp6_row(#[trigger] rows@[k], bytes@, TABLE_HEADER_BYTES + UDP6_ROW_BYTES * k),
        decreases n - i,
    {
        proof {
            lemma_row_within(i as int, n as int, UDP6_ROW_BYTES as int);
        }
        let at = TABLE_HEADER_BYTES + UDP6_ROW_BYTES * i;
        let local = SocketAddr {
            ip: IpAddr::V6(read_big_endian(bytes, at, at + 16)),
            port: port_from_mib(read_field(bytes, at + 20)),
            scope_id: read_field(bytes, at + 16),
        };
        let pid = Pid::new(read_field(bytes, at + 24));
        rows.push(Connection { protocol: Protocol::Udp, local, remote: None, state: None, pid });
        i = i + 1;
    }
    rows
}


/// `NO_ERROR`: the call succeeded.
pub const NO_ERROR: u32 = 0;
/// `ERROR_INSUFFICIENT_BUFFER`: the buffer is too small for the answer.
pub const ERROR_INSUFFICIENT_BUFFER: u32 = 122;
/// How many times a table query is tried before a table growing faster than the buffer
/// is reported as a failure: a machine opening sockets fast enough could otherwise keep
/// the query looping forever.
pub const MAX_QUERY_ATTEMPTS: u32 = 6;
/// Extra room added on each retry, as a percentage of the size the API asked for: the
/// size describes the table as it was a moment ago.
pub const GROWTH_SLACK_PERCENT: u32 = 25;

/// What to do after one call that fills a table into a buffer of `words` 32-bit words.
#[derive(Debug, Clone, Copy, PartialEq, Eq, Structural)]
pub enum QueryStep {
    /// The table is in the buffer; this many bytes of it are filled.
    Filled(usize),
    /// The buffer is too small; grow it to this many words and ask again.
    Grow(usize),
    /// The call failed with this code.
    Failed(u32),
}

/// The words to grow a buffer of `words` to when the API asked for `size` bytes: the size
/// with the slack added, in whole words and one more; and where that is no larger than
/// the buffer already is, double the buffer, so it never shrinks.
pub open spec fn grown_words(size: u32, words: usize) -> usize {
    let padded = size + size / 100 * GROWTH_SLACK_PERCENT;
    let wanted = if padded > u32::MAX { u32::MAX as int } else { padded };
    let asked = wanted / 4 + 1;
    if asked > words {
        asked as usize
    } else if words * 2 <= usize::MAX {
        (words * 2) as usize
    } else {
        usize::MAX
    }
}

/// Reads what a `GetExtendedTcpTable` or `GetExtendedUdpTable` call reported: its status,
/// and the size it wrote back — the bytes used on success, the bytes needed when the
/// buffer was too small.
pub fn query_step(status: u32, size: u32, words: usize) -> (step: QueryStep)
    ensures
        step == if status == NO_ERROR {
            QueryStep::Filled(
                if size <= words * 4 {
                    size as usize
                } else if words * 4 <= usize::MAX {
                    (words * 4) as usize
                } else {
                    usize::MAX
                },
            )
        } else if status == ERROR_INSUFFICIENT_BUFFER {
            QueryStep::Grow(grown_words(size, words))
        } else {
            QueryStep::Failed(status)
        },
{
    if status == NO_ERROR {
        let capacity = words.checked_mul(4);
        let used = match capacity {
            Some(capacity) => if (size as usize) <= capacity {
                size as usize
            } else {
                capacity
            },
            None => size as usize,
        };
        return QueryStep::Filled(used);
    }
    if status != ERROR_INSUFFICIENT_BUFFER {
        return QueryStep::Failed(status);
    }
    let wanted = size.saturating_add(size / 100 * GROWTH_SLACK_PERCENT);
    let asked = wanted as usize / 4 + 1;
    if asked > words {
        QueryStep::Grow(asked)
    } else {
        match words.checked_mul(2) {
            Some(doubled) => QueryStep::Grow(doubled),
            None => QueryStep::Grow(usize::MAX),
        }
    }
}

} // verus!
