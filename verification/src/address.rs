//! Deciding what an address *is*, before deciding how to measure it.
//!
//! A router running a fake-IP tunnel answers DNS with synthetic addresses out of a
//! reserved range and completes handshakes locally, so probing such an address with a
//! bare transport probe reports the tunnel's own latency: a fake-good number. Classification
//! therefore happens first, and it decides which probe kinds may be believed.

use crate::error::Error;
use crate::spelling::{cidr_spelling, spell_cidr};
use crate::text::{ip_text, parse_ip, parse_unsigned, segment, unsigned_text};
use vstd::prelude::*;
use vstd::string::StringSliceAdditionalSpecFns;

verus! {

/// An IP address, as the integer its bits spell.
#[derive(Debug, Clone, Copy, PartialEq, Eq, Structural, PartialOrd, Ord, Hash)]
pub enum IpAddr {
    /// An IPv4 address.
    V4(u32),
    /// An IPv6 address.
    V6(u128),
}

impl IpAddr {
    /// The IPv4 address `a.b.c.d`.
    pub fn v4(a: u8, b: u8, c: u8, d: u8) -> (ip: IpAddr)
        ensures
            ip == IpAddr::V4((a * 0x100_0000 + b * 0x1_0000 + c * 0x100 + d) as u32),
    {
        IpAddr::V4((a as u32) * 0x100_0000 + (b as u32) * 0x1_0000 + (c as u32) * 0x100 + d as u32)
    }

    /// The IPv6 address written as eight 16-bit groups.
    pub fn v6(groups: [u16; 8]) -> (ip: IpAddr)
        ensures
            ip matches IpAddr::V6(bits) && bits == groups_value(groups@, 8),
    {
        let mut bits: u128 = 0;
        let mut i: usize = 0;
        while i < 8
            invariant
                i <= 8,
                groups@.len() == 8,
                bits == groups_value(groups@, i as nat),
                bits < pow65536(i as nat),
            decreases 8 - i,
        {
            proof {
                lemma_pow65536_bound(i as nat);
                assert(bits * 0x1_0000 + groups@[i as int] < pow65536(i as nat + 1)) by (
                nonlinear_arith)
                    requires
                        bits < pow65536(i as nat),
                        groups@[i as int] < 0x1_0000,
                        pow65536(i as nat + 1) == pow65536(i as nat) * 0x1_0000,
                ;
            }
            bits = bits * 0x1_0000 + groups[i] as u128;
            i = i + 1;
        }
        IpAddr::V6(bits)
    }

    /// Whether this is a loopback address: `127.0.0.0/8` or `::1`.
    pub fn is_loopback(&self) -> (b: bool)
        ensures
            b == match *self {
                IpAddr::V4(bits) => bits / 0x100_0000 == 127,
                IpAddr::V6(bits) => bits == 1,
            },
    {
        match *self {
            IpAddr::V4(bits) => bits / 0x100_0000 == 127,
            IpAddr::V6(bits) => bits == 1,
        }
    }

    /// Whether this is the unspecified address of its family.
    pub fn is_unspecified(&self) -> (b: bool)
        ensures
            b == match *self {
                IpAddr::V4(bits) => bits == 0,
                IpAddr::V6(bits) => bits == 0,
            },
    {
        match *self {
            IpAddr::V4(bits) => bits == 0,
            IpAddr::V6(bits) => bits == 0,
        }
    }

    /// The IPv4 address an IPv4-mapped IPv6 address (`::ffff:a.b.c.d`) stands for.
    pub fn to_ipv4_mapped(&self) -> (r: Option<IpAddr>)
        ensures
            r == match *self {
                IpAddr::V6(bits) => if bits / 0x1_0000_0000 == 0xffff {
                    Some(IpAddr::V4((bits % 0x1_0000_0000) as u32))
                } else {
                    None
                },
                IpAddr::V4(_) => None,
            },
    {
        match *self {
            IpAddr::V6(bits) => if bits / 0x1_0000_0000 == 0xffff {
                Some(IpAddr::V4((bits % 0x1_0000_0000) as u32))
            } else {
                None
            },
            IpAddr::V4(_) => None,
        }
    }

    /// How many bits the address family has.
    pub open spec fn width(self) -> nat {
        match self {
            IpAddr::V4(_) => 32,
            IpAddr::V6(_) => 128,
        }
    }
}

/// An IP address together with a port, and for IPv6 the scope that link-local addresses
/// need to be unambiguous.
#[derive(Debug, Clone, Copy, PartialEq, Eq, Structural, PartialOrd, Ord, Hash)]
pub struct SocketAddr {
    /// The address.
    pub ip: IpAddr,
    /// The port.
    pub port: u16,
    /// The IPv6 scope identifier; zero for IPv4 and wherever none is known.
    pub scope_id: u32,
}

/// Whether two socket addresses name the same place: the same address and port, whatever
/// scope each carries. This is the sense in which sorted collections tell them apart.
pub open spec fn same_place(a: SocketAddr, b: SocketAddr) -> bool {
    a.ip == b.ip && a.port == b.port
}

impl SocketAddr {
    /// The socket address `ip:port`, with no scope.
    pub fn new(ip: IpAddr, port: u16) -> (s: SocketAddr)
        ensures
            s == (SocketAddr { ip, port, scope_id: 0 }),
    {
        SocketAddr { ip, port, scope_id: 0 }
    }

    /// The socket address `ip:port` in scope `scope_id`; an IPv4 address has no scope, so
    /// there the scope is zero.
    pub fn scoped(ip: IpAddr, port: u16, scope_id: u32) -> (s: SocketAddr)
        ensures
            s == (SocketAddr {
                ip,
                port,
                scope_id: match ip {
                    IpAddr::V4(_) => 0,
                    IpAddr::V6(_) => scope_id,
                },
            }),
    {
        match ip {
            IpAddr::V4(_) => SocketAddr { ip, port, scope_id: 0 },
            IpAddr::V6(_) => SocketAddr { ip, port, scope_id },
        }
    }

    /// The address.
    pub fn ip(&self) -> (ip: IpAddr)
        ensures
            ip == self.ip,
    {
        self.ip
    }

    /// The port.
    pub fn port(&self) -> (port: u16)
        ensures
            port == self.port,
    {
        self.port
    }

    /// The IPv6 scope identifier, zero where there is none.
    pub fn scope_id(&self) -> (scope_id: u32)
        ensures
            scope_id == self.scope_id,
    {
        self.scope_id
    }
}

/// Whether `a` sorts before `b`: every IPv4 address before every IPv6 one, and within a
/// family by the address's bits.
pub open spec fn ip_before(a: IpAddr, b: IpAddr) -> bool {
    match (a, b) {
        (IpAddr::V4(x), IpAddr::V4(y)) => x < y,
        (IpAddr::V4(_), IpAddr::V6(_)) => true,
        (IpAddr::V6(_), IpAddr::V4(_)) => false,
        (IpAddr::V6(x), IpAddr::V6(y)) => x < y,
    }
}

/// Whether `a` sorts before `b`: by address, then by port; the scope plays no part.
pub open spec fn socket_before(a: SocketAddr, b: SocketAddr) -> bool {
    ip_before(a.ip, b.ip) || (a.ip == b.ip && a.port < b.port)
}

/// Compares two addresses in the order `ip_before` describes.
pub fn ip_precedes(a: &IpAddr, b: &IpAddr) -> (r: bool)
    ensures
        r == ip_before(*a, *b),
{
    match (a, b) {
        (IpAddr::V4(x), IpAddr::V4(y)) => *x < *y,
        (IpAddr::V4(_), IpAddr::V6(_)) => true,
        (IpAddr::V6(_), IpAddr::V4(_)) => false,
        (IpAddr::V6(x), IpAddr::V6(y)) => *x < *y,
    }
}

/// Whether two socket addresses name the same place, in the sense of `same_place`.
pub fn same_place_as(a: &SocketAddr, b: &SocketAddr) -> (r: bool)
    ensures
        r == same_place(*a, *b),
{
    a.ip == b.ip && a.port == b.port
}

/// Compares two socket addresses in the order `socket_before` describes.
pub fn socket_precedes(a: &SocketAddr, b: &SocketAddr) -> (r: bool)
    ensures
        r == socket_before(*a, *b),
{
    ip_precedes(&a.ip, &b.ip) || (a.ip == b.ip && a.port < b.port)
}

/// 65536 to the `n`.
pub open spec fn pow65536(n: nat) -> nat
    decreases n,
{
    if n == 0 {
        1
    } else {
        pow65536((n - 1) as nat) * 0x1_0000
    }
}

proof fn lemma_pow65536_bound(n: nat)
    requires
        n < 8,
    ensures
        pow65536(n + 1) <= 0x1_0000_0000_0000_0000_0000_0000_0000_0000,
        pow65536(n + 1) == pow65536(n) * 0x1_0000,
{
    reveal_with_fuel(pow65536, 9);
}

/// The number the first `n` of `groups` spell, most significant first.
pub open spec fn groups_value(groups: Seq<u16>, n: nat) -> nat
    decreases n,
{
    if n == 0 {
        0
    } else {
        groups_value(groups, (n - 1) as nat) * 0x1_0000 + groups[n - 1] as nat
    }
}

/// The first `prefix_len` bits of `a` and `b` agree.
///
/// Written separately for each width, because the bits are counted from the top.
pub open spec fn same_prefix_v4(a: u32, b: u32, prefix_len: u8) -> bool {
    prefix_len == 0 || a >> ((32 - prefix_len) as u32) == b >> ((32 - prefix_len) as u32)
}

/// The first `prefix_len` bits of `a` and `b` agree.
pub open spec fn same_prefix_v6(a: u128, b: u128, prefix_len: u8) -> bool {
    prefix_len == 0 || a >> ((128 - prefix_len) as u128) == b >> ((128 - prefix_len) as u128)
}

/// `a` with every bit below the first `prefix_len` cleared.
pub open spec fn cleared_v4(a: u32, prefix_len: u8) -> u32 {
    if prefix_len == 0 {
        0
    } else {
        (a >> ((32 - prefix_len) as u32)) << ((32 - prefix_len) as u32)
    }
}

/// `a` with every bit below the first `prefix_len` cleared.
pub open spec fn cleared_v6(a: u128, prefix_len: u8) -> u128 {
    if prefix_len == 0 {
        0
    } else {
        (a >> ((128 - prefix_len) as u128)) << ((128 - prefix_len) as u128)
    }
}

/// The address with every bit below `prefix_len` cleared.
pub open spec fn spec_mask(address: IpAddr, prefix_len: u8) -> IpAddr {
    match address {
        IpAddr::V4(a) => IpAddr::V4(cleared_v4(a, prefix_len)),
        IpAddr::V6(a) => IpAddr::V6(cleared_v6(a, prefix_len)),
    }
}

/// Whether `address` lies in the block of `network` and `prefix_len`: same family, and
/// the first `prefix_len` bits agree.
pub open spec fn in_block(network: IpAddr, prefix_len: u8, address: IpAddr) -> bool {
    match (network, address) {
        (IpAddr::V4(n), IpAddr::V4(a)) => same_prefix_v4(n, a, prefix_len),
        (IpAddr::V6(n), IpAddr::V6(a)) => same_prefix_v6(n, a, prefix_len),
        _ => false,
    }
}

/// Clears every bit below `prefix_len`.
fn mask(address: IpAddr, prefix_len: u8) -> (r: IpAddr)
    requires
        prefix_len <= address.width(),
    ensures
        r == spec_mask(address, prefix_len),
{
    match address {
        IpAddr::V4(a) => {
            if prefix_len == 0 {
                return IpAddr::V4(0);
            }
            let shift = 32 - prefix_len as u32;
            IpAddr::V4((a >> shift) << shift)
        },
        IpAddr::V6(a) => {
            if prefix_len == 0 {
                return IpAddr::V6(0);
            }
            let shift = 128 - prefix_len as u128;
            IpAddr::V6((a >> shift) << shift)
        },
    }
}

/// A block of addresses, written `network/prefix`.
///
/// Host bits below the prefix are cleared on construction, so `10.1.2.3/8` and `10.0.0.0/8`
/// are the same block.
#[derive(Debug, Clone, Copy, PartialEq, Eq, Structural, Hash)]
pub struct IpCidr {
    network: IpAddr,
    prefix_len: u8,
}

impl IpCidr {
    /// The canonical network address.
    pub closed spec fn spec_network(self) -> IpAddr {
        self.network
    }

    /// How many leading bits the block fixes.
    pub closed spec fn spec_prefix_len(self) -> u8 {
        self.prefix_len
    }

    /// The block of `network` and `prefix_len`, host bits cleared.
    pub closed spec fn block(network: IpAddr, prefix_len: u8) -> IpCidr {
        IpCidr { network: spec_mask(network, prefix_len), prefix_len }
    }

    /// The block is canonical: its prefix fits its family and no host bit is set.
    pub closed spec fn wf(self) -> bool {
        &&& self.prefix_len <= self.network.width()
        &&& spec_mask(self.network, self.prefix_len) == self.network
    }

    /// Builds a block, clearing any host bits in `network`.
    ///
    /// Refuses a prefix wider than the address family (32 for IPv4, 128 for IPv6).
    pub fn new(network: IpAddr, prefix_len: u8) -> (r: Result<IpCidr, Error>)
        ensures
            prefix_len > network.width() ==> (r matches Err(Error::InvalidCidr { raw }) && raw@
                == cidr_spelling(network, prefix_len)),
            prefix_len <= network.width() ==> (r matches Ok(c) && c.wf() && c.spec_network()
                == spec_mask(network, prefix_len) && c.spec_prefix_len() == prefix_len && c
                == IpCidr::block(network, prefix_len)),
    {
        let width: u8 = match network {
            IpAddr::V4(_) => 32,
            IpAddr::V6(_) => 128,
        };
        if prefix_len > width {
            return Err(Error::InvalidCidr { raw: spell_cidr(network, prefix_len) });
        }
        let masked = mask(network, prefix_len);
        proof {
            match network {
                IpAddr::V4(a) => {
                    if prefix_len > 0 {
                        let s = (32 - prefix_len) as u32;
                        assert(((((a >> s) << s) >> s) << s) == ((a >> s) << s)) by (bit_vector)
                            requires
                                s < 32,
                        ;
                    }
                },
                IpAddr::V6(a) => {
                    if prefix_len > 0 {
                        let s = (128 - prefix_len) as u128;
                        assert(((((a >> s) << s) >> s) << s) == ((a >> s) << s)) by (bit_vector)
                            requires
                                s < 128,
                        ;
                    }
                },
            }
        }
        Ok(IpCidr { network: masked, prefix_len })
    }

    /// The block written `network/prefix`, as the standard library spells the address.
    pub fn to_text(&self) -> (s: String)
        ensures
            s@ == cidr_spelling(self.spec_network(), self.spec_prefix_len()),
    {
        spell_cidr(self.network, self.prefix_len)
    }

    /// The canonical network address, with host bits cleared.
    pub fn network(&self) -> (n: IpAddr)
        ensures
            n == self.spec_network(),
    {
        self.network
    }

    /// How many leading bits the block fixes.
    pub fn prefix_len(&self) -> (p: u8)
        ensures
            p == self.spec_prefix_len(),
    {
        self.prefix_len
    }

    /// Whether `address` falls inside the block.
    ///
    /// Addresses of a different family never match, however the bits line up.
    pub fn contains(&self, address: IpAddr) -> (b: bool)
        requires
            self.wf(),
        ensures
            b == in_block(self.spec_network(), self.spec_prefix_len(), address),
    {
        match (self.network, address) {
            (IpAddr::V4(n), IpAddr::V4(a)) => {
                if self.prefix_len == 0 {
                    return true;
                }
                let s = 32 - self.prefix_len as u32;
                proof {
                    assert(n == (n >> s) << s);
                    assert((((a >> s) << s) == n) == ((a >> s) == (n >> s))) by (bit_vector)
                        requires
                            s < 32,
                            n == (n >> s) << s,
                    ;
                }
                (a >> s) << s == n
            },
            (IpAddr::V6(n), IpAddr::V6(a)) => {
                if self.prefix_len == 0 {
                    return true;
                }
                let s = 128 - self.prefix_len as u128;
                proof {
                    assert(n == (n >> s) << s);
                    assert(((a >> s) << s) >> s == a >> s) by (bit_vector)
                        requires
                            s < 128,
                    ;
                    if (a >> s) << s == n {
                        assert(a >> s == n >> s);
                    }
                }
                (a >> s) << s == n
            },
            _ => false,
        }
    }
}

/// What an address is, as far as measurement is concerned.
#[derive(Debug, Clone, Copy, PartialEq, Eq, Structural, Hash)]
pub enum AddressClass {
    /// An ordinary public address. Every probe kind means what it says.
    Routable,
    /// A synthetic address a local tunnel will remap when the connection is made.
    ///
    /// A bare transport probe reports the tunnel's own latency; only a probe that exchanges
    /// data end to end travels the real path.
    TunnelSentinel,
    /// A public address whose traffic leaves by a local tunnel.
    ///
    /// Like a sentinel, a bare transport probe is answered on this machine.
    TunnelledEgress,
    /// A private address: a LAN peer or a router.
    Private,
    /// A carrier-shared address: a hop inside the access network.
    CarrierGrade,
    /// This machine.
    Loopback,
    /// Reserved, multicast, link-local or documentation space. Nothing to measure.
    Unusable,
}

impl AddressClass {
    /// Whether a round-trip time measured by ICMP or a bare TCP connect can be trusted:
    /// for real addresses whose traffic does not leave by a local tunnel.
    pub open spec fn spec_trusts_transport_rtt(self) -> bool {
        self is Routable || self is Private || self is CarrierGrade || self is Loopback
    }

    /// Whether probing tells us anything about reaching the internet.
    pub open spec fn spec_worth_probing(self) -> bool {
        self is Routable || self is TunnelSentinel || self is TunnelledEgress
    }

    /// Whether a round-trip time measured by ICMP or a bare TCP connect can be trusted.
    pub fn trusts_transport_rtt(self) -> (b: bool)
        ensures
            b == self.spec_trusts_transport_rtt(),
    {
        match self {
            AddressClass::Routable | AddressClass::Private | AddressClass::CarrierGrade
            | AddressClass::Loopback => true,
            _ => false,
        }
    }

    /// Whether probing this address tells us anything about reaching the internet.
    pub fn worth_probing(self) -> (b: bool)
        ensures
            b == self.spec_worth_probing(),
    {
        match self {
            AddressClass::Routable | AddressClass::TunnelSentinel
            | AddressClass::TunnelledEgress => true,
            _ => false,
        }
    }
}

/// Whether any of `blocks` holds `address`.
pub open spec fn any_holds(blocks: Seq<IpCidr>, address: IpAddr) -> bool {
    exists|i: int|
        0 <= i < blocks.len() && in_block(
            #[trigger] blocks[i].spec_network(),
            blocks[i].spec_prefix_len(),
            address,
        )
}

/// Whether `address` lies in the carrier-grade shared space, `100.64.0.0/10`: a hop
/// inside the provider's access network.
pub open spec fn is_carrier_grade(address: IpAddr) -> bool {
    match address {
        IpAddr::V4(bits) => bits / 0x40_0000 == 0x191,
        IpAddr::V6(_) => false,
    }
}

/// The class an address gets from the given ranges.
///
/// Loopback first; then sentinels, which are tested before the private ranges on purpose:
/// the usual IPv6 sentinel range sits inside unique-local space, so the more specific
/// meaning has to win; then unusable space; then the carrier-grade shared space, which is
/// the provider's and not the user's; then private space.
pub open spec fn class_of(
    sentinels: Seq<IpCidr>,
    unusable: Seq<IpCidr>,
    private: Seq<IpCidr>,
    address: IpAddr,
) -> AddressClass {
    let loopback = match address {
        IpAddr::V4(bits) => bits / 0x100_0000 == 127,
        IpAddr::V6(bits) => bits == 1,
    };
    if loopback {
        AddressClass::Loopback
    } else if any_holds(sentinels, address) {
        AddressClass::TunnelSentinel
    } else if any_holds(unusable, address) {
        AddressClass::Unusable
    } else if is_carrier_grade(address) {
        AddressClass::CarrierGrade
    } else if any_holds(private, address) {
        AddressClass::Private
    } else {
        AddressClass::Routable
    }
}

fn contains_any(blocks: &Vec<IpCidr>, address: IpAddr) -> (b: bool)
    requires
        forall|i: int| 0 <= i < blocks@.len() ==> #[trigger] blocks@[i].wf(),
    ensures
        b == any_holds(blocks@, address),
{
    let mut i: usize = 0;
    while i < blocks.len()
        invariant
            i <= blocks@.len(),
            forall|k: int| 0 <= k < blocks@.len() ==> #[trigger] blocks@[k].wf(),
            forall|k: int|
                0 <= k < i ==> !in_block(
                    #[trigger] blocks@[k].spec_network(),
                    blocks@[k].spec_prefix_len(),
                    address,
                ),
        decreases blocks@.len() - i,
    {
        if blocks[i].contains(address) {
            return true;
        }
        i = i + 1;
    }
    false
}

/// How addresses are classified, including which ranges a local tunnel uses.
///
/// The sentinel ranges are configurable because a tunnel's defaults are only defaults.
#[derive(Debug, Clone)]
pub struct AddressPolicy {
    tunnel_sentinels: Vec<IpCidr>,
    private: Vec<IpCidr>,
    unusable: Vec<IpCidr>,
}

impl AddressPolicy {
    /// Every range the policy holds is canonical.
    pub closed spec fn wf(self) -> bool {
        &&& forall|i: int|
            0 <= i < self.tunnel_sentinels@.len() ==> #[trigger] self.tunnel_sentinels@[i].wf()
        &&& forall|i: int| 0 <= i < self.private@.len() ==> #[trigger] self.private@[i].wf()
        &&& forall|i: int| 0 <= i < self.unusable@.len() ==> #[trigger] self.unusable@[i].wf()
    }

    /// The ranges treated as tunnel sentinels.
    pub closed spec fn spec_sentinels(self) -> Seq<IpCidr> {
        self.tunnel_sentinels@
    }

    /// The ranges treated as private.
    pub closed spec fn spec_private(self) -> Seq<IpCidr> {
        self.private@
    }

    /// The ranges treated as unusable.
    pub closed spec fn spec_unusable(self) -> Seq<IpCidr> {
        self.unusable@
    }

    /// Builds a policy from already parsed ranges.
    pub fn from_ranges(sentinels: Vec<IpCidr>, private: Vec<IpCidr>, unusable: Vec<IpCidr>) -> (p:
        AddressPolicy)
        requires
            forall|i: int| 0 <= i < sentinels@.len() ==> #[trigger] sentinels@[i].wf(),
            forall|i: int| 0 <= i < private@.len() ==> #[trigger] private@[i].wf(),
            forall|i: int| 0 <= i < unusable@.len() ==> #[trigger] unusable@[i].wf(),
        ensures
            p.wf(),
            p.spec_sentinels() == sentinels@,
            p.spec_private() == private@,
            p.spec_unusable() == unusable@,
    {
        AddressPolicy { tunnel_sentinels: sentinels, private, unusable }
    }

    /// The ranges currently treated as tunnel sentinels.
    pub fn sentinels(&self) -> (s: &Vec<IpCidr>)
        ensures
            s@ == self.spec_sentinels(),
    {
        &self.tunnel_sentinels
    }

    /// Classifies an address.
    pub fn classify(&self, address: IpAddr) -> (c: AddressClass)
        requires
            self.wf(),
        ensures
            c == class_of(
                self.spec_sentinels(),
                self.spec_unusable(),
                self.spec_private(),
                address,
            ),
    {
        if address.is_loopback() {
            return AddressClass::Loopback;
        }
        if contains_any(&self.tunnel_sentinels, address) {
            return AddressClass::TunnelSentinel;
        }
        if contains_any(&self.unusable, address) {
            return AddressClass::Unusable;
        }
        if let IpAddr::V4(bits) = address {
            if bits / 0x40_0000 == 0x191 {
                return AddressClass::CarrierGrade;
            }
        }
        if contains_any(&self.private, address) {
            return AddressClass::Private;
        }
        AddressClass::Routable
    }
}


/// The tunnel sentinel ranges of an unmodified installation: `198.18.0.0/15`, which is
/// reserved for benchmarking and so safe for a tunnel to borrow, and `fc00::/18`.
pub open spec fn default_sentinels() -> Seq<IpCidr> {
    seq![
        IpCidr::block(IpAddr::V4(0xC612_0000), 15),
        IpCidr::block(IpAddr::V6(0xfc00_0000_0000_0000_0000_0000_0000_0000), 18),
    ]
}

/// Ranges that are real but local to the site: the three private blocks, carrier-grade
/// NAT, and unique-local IPv6.
pub open spec fn private_ranges() -> Seq<IpCidr> {
    seq![
        IpCidr::block(IpAddr::V4(0x0A00_0000), 8),
        IpCidr::block(IpAddr::V4(0xAC10_0000), 12),
        IpCidr::block(IpAddr::V4(0xC0A8_0000), 16),
        IpCidr::block(IpAddr::V4(0x6440_0000), 10),
        IpCidr::block(IpAddr::V6(0xfc00_0000_0000_0000_0000_0000_0000_0000), 7),
    ]
}

/// Ranges never worth probing: "this network", link-local, the three documentation
/// blocks, multicast, reserved space, the unspecified IPv6 address, IPv6 documentation,
/// link-local and multicast.
pub open spec fn unusable_ranges() -> Seq<IpCidr> {
    seq![
        IpCidr::block(IpAddr::V4(0x0000_0000), 8),
        IpCidr::block(IpAddr::V4(0xA9FE_0000), 16),
        IpCidr::block(IpAddr::V4(0xC000_0200), 24),
        IpCidr::block(IpAddr::V4(0xC633_6400), 24),
        IpCidr::block(IpAddr::V4(0xCB00_7100), 24),
        IpCidr::block(IpAddr::V4(0xE000_0000), 4),
        IpCidr::block(IpAddr::V4(0xF000_0000), 4),
        IpCidr::block(IpAddr::V6(0), 128),
        IpCidr::block(IpAddr::V6(0x2001_0db8_0000_0000_0000_0000_0000_0000), 32),
        IpCidr::block(IpAddr::V6(0xfe80_0000_0000_0000_0000_0000_0000_0000), 10),
        IpCidr::block(IpAddr::V6(0xff00_0000_0000_0000_0000_0000_0000_0000), 8),
    ]
}

/// Appends the block of `network` and `prefix_len`.
fn push_block(blocks: &mut Vec<IpCidr>, network: IpAddr, prefix_len: u8)
    requires
        prefix_len <= network.width(),
        forall|i: int| 0 <= i < old(blocks)@.len() ==> #[trigger] old(blocks)@[i].wf(),
    ensures
        final(blocks)@ == old(blocks)@.push(IpCidr::block(network, prefix_len)),
        forall|i: int| 0 <= i < final(blocks)@.len() ==> #[trigger] final(blocks)@[i].wf(),
{
    match IpCidr::new(network, prefix_len) {
        Ok(block) => blocks.push(block),
        Err(_) => {},
    }
}

impl Default for AddressPolicy {
    /// The defaults, matching an unmodified tunnel installation.
    fn default() -> (p: AddressPolicy)
        ensures
            p.wf(),
            p.spec_sentinels() == default_sentinels(),
            p.spec_private() == private_ranges(),
            p.spec_unusable() == unusable_ranges(),
    {
        let mut sentinels: Vec<IpCidr> = Vec::new();
        push_block(&mut sentinels, IpAddr::V4(0xC612_0000), 15);
        push_block(&mut sentinels, IpAddr::V6(0xfc00_0000_0000_0000_0000_0000_0000_0000), 18);
        let mut private: Vec<IpCidr> = Vec::new();
        push_block(&mut private, IpAddr::V4(0x0A00_0000), 8);
        push_block(&mut private, IpAddr::V4(0xAC10_0000), 12);
        push_block(&mut private, IpAddr::V4(0xC0A8_0000), 16);
        push_block(&mut private, IpAddr::V4(0x6440_0000), 10);
        push_block(&mut private, IpAddr::V6(0xfc00_0000_0000_0000_0000_0000_0000_0000), 7);
        let mut unusable: Vec<IpCidr> = Vec::new();
        push_block(&mut unusable, IpAddr::V4(0x0000_0000), 8);
        push_block(&mut unusable, IpAddr::V4(0xA9FE_0000), 16);
        push_block(&mut unusable, IpAddr::V4(0xC000_0200), 24);
        push_block(&mut unusable, IpAddr::V4(0xC633_6400), 24);
        push_block(&mut unusable, IpAddr::V4(0xCB00_7100), 24);
        push_block(&mut unusable, IpAddr::V4(0xE000_0000), 4);
        push_block(&mut unusable, IpAddr::V4(0xF000_0000), 4);
        push_block(&mut unusable, IpAddr::V6(0), 128);
        push_block(&mut unusable, IpAddr::V6(0x2001_0db8_0000_0000_0000_0000_0000_0000), 32);
        push_block(&mut unusable, IpAddr::V6(0xfe80_0000_0000_0000_0000_0000_0000_0000), 10);
        push_block(&mut unusable, IpAddr::V6(0xff00_0000_0000_0000_0000_0000_0000_0000), 8);
        proof {
            assert(sentinels@ =~= default_sentinels());
            assert(private@ =~= private_ranges());
            assert(unusable@ =~= unusable_ranges());
        }
        AddressPolicy::from_ranges(sentinels, private, unusable)
    }
}

/// Where the first `/` of `s` is.
pub open spec fn first_slash(s: Seq<u8>) -> Option<int> {
    if exists|i: int| 0 <= i < s.len() && s[i] == 47 {
        Some(choose|i: int| 0 <= i < s.len() && s[i] == 47 && forall|j: int| 0 <= j < i ==> s[j] != 47)
    } else {
        None
    }
}

/// The address and prefix length a block spelled `address/prefix` holds: an address
/// spelling, the first `/`, and an unsigned number.
pub open spec fn cidr_text(s: Seq<u8>) -> Option<(IpAddr, nat)> {
    match first_slash(s) {
        None => None,
        Some(i) => match (ip_text(s.take(i)), unsigned_text(s.skip(i + 1))) {
            (Some(a), Some(p)) => Some((a, p)),
            _ => None,
        },
    }
}

/// Whether `s` spells a block: an address and a prefix no wider than its family.
pub open spec fn valid_cidr_text(s: Seq<u8>) -> bool {
    cidr_text(s) matches Some((a, p)) && p <= a.width()
}

/// The block a valid spelling holds.
pub open spec fn block_of_text(s: Seq<u8>) -> IpCidr {
    match cidr_text(s) {
        Some((network, prefix_len)) => IpCidr::block(network, prefix_len as u8),
        None => IpCidr::block(IpAddr::V4(0), 0),
    }
}

impl IpCidr {
    /// Reads a block written `network/prefix`, as a person writes one in a config file.
    ///
    /// Host bits below the prefix are cleared, so `10.1.2.3/8` is `10.0.0.0/8`. Anything
    /// else is `Error::InvalidCidr`: carrying the rejected text where there is no slash or
    /// an address or prefix does not read as an address and a byte, and the address and
    /// prefix as read, respelled, where the prefix is wider than the family.
    #[verifier::spinoff_prover]
    #[verifier::rlimit(60)]
    pub fn parse(raw: &str) -> (r: Result<IpCidr, Error>)
        ensures
            valid_cidr_text(raw.spec_bytes()) ==> r == Ok::<IpCidr, Error>(
                block_of_text(raw.spec_bytes()),
            ),
            cidr_text(raw.spec_bytes()) is None ==> (r matches Err(Error::InvalidCidr { raw: text })
                && text@ == raw@),
            match cidr_text(raw.spec_bytes()) {
                Some((a, p)) => {
                    &&& p > a.width() && p <= u8::MAX ==> (r matches Err(Error::InvalidCidr { raw: text })
                        && text@ == cidr_spelling(a, p as u8))
                    &&& p > u8::MAX ==> (r matches Err(Error::InvalidCidr { raw: text }) && text@ == raw@)
                },
                None => true,
            },
            r matches Ok(c) ==> c.wf(),
    {
        let bytes = raw.as_bytes();
        let n = bytes.len();
        let mut i: usize = 0;
        while i < n && bytes[i] != 47
            invariant
                i <= n == bytes@.len(),
                forall|j: int| 0 <= j < i ==> bytes@[j] != 47,
            decreases n - i,
        {
            i = i + 1;
        }
        if i == n {
            proof {
                assert(first_slash(bytes@) is None);
            }
            return Err(Error::InvalidCidr { raw: raw.to_owned() });
        }
        proof {
            let c = choose|c: int| 0 <= c < bytes@.len() && bytes@[c] == 47 && forall|j: int| 0 <= j < c ==> bytes@[j] != 47;
            assert(bytes@[i as int] == 47);
            if c < i {
            } else if c > i {
                assert(bytes@[i as int] != 47);
            }
            assert(first_slash(bytes@) == Some(i as int));
        }
        let head = segment(bytes, 0, i);
        let tail = segment(bytes, i + 1, n);
        proof {
            assert(head@ =~= bytes@.take(i as int));
            assert(tail@ =~= bytes@.skip(i + 1));
        }
        let address = match parse_ip(head.as_slice()) {
            Some(address) => address,
            None => {
                return Err(Error::InvalidCidr { raw: raw.to_owned() });
            },
        };
        let prefix = match parse_unsigned(tail.as_slice(), 255) {
            Some(prefix) => prefix as u8,
            None => {
                return Err(Error::InvalidCidr { raw: raw.to_owned() });
            },
        };
        IpCidr::new(address, prefix)
    }
}

/// What reading `raw` as a block gives: the block it spells, host bits cleared; the
/// rejected text where it has no slash or its address or prefix does not read as an
/// address and a byte; and the address and prefix as read, respelled, where the prefix is
/// wider than the family.
pub open spec fn cidr_reading(raw: &str, r: Result<IpCidr, Error>) -> bool {
    &&& valid_cidr_text(raw.spec_bytes()) ==> r == Ok::<IpCidr, Error>(block_of_text(raw.spec_bytes()))
    &&& cidr_text(raw.spec_bytes()) is None ==> (r matches Err(Error::InvalidCidr { raw: text })
        && text@ == raw@)
    &&& match cidr_text(raw.spec_bytes()) {
        Some((a, p)) => {
            &&& p > a.width() && p <= u8::MAX ==> (r matches Err(Error::InvalidCidr { raw: text })
                && text@ == cidr_spelling(a, p as u8))
            &&& p > u8::MAX ==> (r matches Err(Error::InvalidCidr { raw: text }) && text@ == raw@)
        },
        None => true,
    }
    &&& r matches Ok(c) ==> c.wf()
}

impl std::str::FromStr for IpCidr {
    type Err = Error;

    /// Reads a block as `IpCidr::parse` does.
    fn from_str(raw: &str) -> (r: Result<IpCidr, Error>)
        ensures
            cidr_reading(raw, r),
    {
        IpCidr::parse(raw)
    }
}

/// Whether every one of `entries` spells a block.
pub open spec fn all_valid_cidrs(entries: Seq<&str>) -> bool {
    forall|k: int| 0 <= k < entries.len() ==> valid_cidr_text((#[trigger] entries[k]).spec_bytes())
}

impl AddressPolicy {
    /// A policy whose tunnel sentinel ranges replace the defaults.
    ///
    /// The defaults are only defaults: a user who moved the tunnel's synthetic range would
    /// otherwise have their endpoints measured with probes that lie. An empty list turns
    /// tunnel detection off. Returns `Error::InvalidCidr` if any range does not read.
    pub fn with_sentinels(sentinels: &[&str]) -> (r: Result<AddressPolicy, Error>)
        ensures
            all_valid_cidrs(sentinels@) ==> (r matches Ok(p) && p.wf() && p.spec_private()
                == private_ranges() && p.spec_unusable() == unusable_ranges()
                && p.spec_sentinels() == sentinels@.map_values(|e: &str| block_of_text(e.spec_bytes()))),
            !all_valid_cidrs(sentinels@) ==> r matches Err(Error::InvalidCidr { .. }),
    {
        let mut blocks: Vec<IpCidr> = Vec::new();
        let mut k: usize = 0;
        while k < sentinels.len()
            invariant
                k <= sentinels@.len(),
                all_valid_cidrs(sentinels@.take(k as int)),
                blocks@ == sentinels@.take(k as int).map_values(|e: &str| block_of_text(e.spec_bytes())),
                forall|i: int| 0 <= i < blocks@.len() ==> #[trigger] blocks@[i].wf(),
            decreases sentinels@.len() - k,
        {
            let entry: &str = sentinels[k];
            match IpCidr::parse(entry) {
                Ok(block) => {
                    proof {
                        if !valid_cidr_text(entry.spec_bytes()) {
                            assert(false);
                        }
                    }
                    blocks.push(block);
                    proof {
                        assert(sentinels@.take(k + 1) =~= sentinels@.take(k as int).push(entry));
                        assert(blocks@ =~= sentinels@.take(k + 1).map_values(|e: &str| block_of_text(e.spec_bytes())));
                        assert forall|i: int| 0 <= i < k + 1 implies valid_cidr_text((#[trigger] sentinels@.take(k + 1)[i]).spec_bytes()) by {
                            if i < k {
                                assert(sentinels@.take(k + 1)[i] == sentinels@.take(k as int)[i]);
                            }
                        }
                    }
                },
                Err(e) => {
                    proof {
                        assert(!valid_cidr_text(sentinels@[k as int].spec_bytes()));
                    }
                    return Err(e);
                },
            }
            k = k + 1;
        }
        proof {
            assert(sentinels@.take(sentinels@.len() as int) =~= sentinels@);
        }
        let defaults = AddressPolicy::default();
        Ok(AddressPolicy::from_ranges(blocks, defaults.private, defaults.unusable))
    }
}

} // verus!
