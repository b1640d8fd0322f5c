//! Which kind of adapter the packets to an address would leave by.
//!
//! A tunnel client takes traffic by installing routes rather than by changing any address
//! a user sees, and its own stack then completes handshakes and answers echoes without a
//! packet leaving the machine. Asking which adapter a route uses is what exposes it.

use crate::address::IpAddr;
use vstd::prelude::*;

verus! {

/// What kind of adapter a route leaves the machine by.
#[derive(Debug, Clone, Copy, PartialEq, Eq, Structural, Hash)]
pub enum EgressKind {
    /// An ordinary adapter carrying frames to a real network.
    Ordinary,
    /// An adapter belonging to a tunnel running on this machine.
    LocalTunnel,
    /// The adapter could not be identified.
    Unknown,
}

impl Default for EgressKind {
    /// Nothing known: a route that could not be looked up must not read as either answer.
    fn default() -> (k: EgressKind)
        ensures
            k == EgressKind::Unknown,
    {
        EgressKind::Unknown
    }
}

/// The route to one destination, as far as deciding what may be measured needs it.
#[derive(Debug, Clone, Copy, PartialEq, Eq, Structural)]
pub struct Route {
    /// Index of the adapter the packets would leave by.
    pub interface_index: u32,
    /// What that adapter is.
    pub kind: EgressKind,
    /// The local address the operating system would send from.
    pub source_address: Option<IpAddr>,
}

/// `NdisMediumTunnel`: an adapter the operating system itself calls a tunnel.
pub const NDIS_MEDIUM_TUNNEL: i32 = 15;

/// `NdisMediumIP`: an adapter that carries bare IP rather than frames, which is what a TUN
/// device is.
pub const NDIS_MEDIUM_IP: i32 = 19;

/// `IF_TYPE_TUNNEL` from the IANA interface-type registry.
pub const IF_TYPE_TUNNEL: u32 = 131;

/// Whether an adapter of this media type and interface type belongs to a local tunnel.
///
/// It identifies adapters that carry IP rather than frames, which is every TUN-shaped
/// client. A layer-2 TAP adapter looks like ordinary Ethernet here; such a tunnel is caught
/// at measurement time instead, from the hop limit of its replies.
pub fn kind_of_adapter(media_type: i32, if_type: u32) -> (k: EgressKind)
    ensures
        k == if media_type == NDIS_MEDIUM_TUNNEL || media_type == NDIS_MEDIUM_IP || if_type
            == IF_TYPE_TUNNEL {
            EgressKind::LocalTunnel
        } else {
            EgressKind::Ordinary
        },
{
    if media_type == NDIS_MEDIUM_TUNNEL || media_type == NDIS_MEDIUM_IP {
        return EgressKind::LocalTunnel;
    }
    if if_type == IF_TYPE_TUNNEL {
        return EgressKind::LocalTunnel;
    }
    EgressKind::Ordinary
}

/// What one adapter is, from the status of the call that describes it and, when that
/// succeeded, its medium and interface type.
///
/// Never a failure: an adapter that cannot be described, such as a tunnel going down
/// between the route lookup and this one, is `EgressKind::Unknown`, a real answer here.
/// The route itself was found, and refusing the whole lookup because its adapter could not
/// be named would throw away the part that worked.
pub fn interface_kind(status: u32, media_type: i32, if_type: u32) -> (k: EgressKind)
    ensures
        k == if status != 0 {
            EgressKind::Unknown
        } else if media_type == NDIS_MEDIUM_TUNNEL || media_type == NDIS_MEDIUM_IP || if_type
            == IF_TYPE_TUNNEL {
            EgressKind::LocalTunnel
        } else {
            EgressKind::Ordinary
        },
{
    if status != 0 {
        return EgressKind::Unknown;
    }
    kind_of_adapter(media_type, if_type)
}

} // verus!
