//! One form per address, decided where addresses come in.
//!
//! A dual-stack socket reports an IPv4 peer as an IPv4-mapped IPv6 address,
//! `::ffff:a.b.c.d`. Left alone that one difference makes the host unprobeable,
//! misclassified and counted twice, so the mapping is undone here, once.

use crate::address::{IpAddr, SocketAddr};
use vstd::prelude::*;

verus! {

/// The address an IPv4-mapped IPv6 address stands for; any other address unchanged.
pub open spec fn unmapped(address: IpAddr) -> IpAddr {
    match address {
        IpAddr::V6(bits) => if bits / 0x1_0000_0000 == 0xffff {
            IpAddr::V4((bits % 0x1_0000_0000) as u32)
        } else {
            address
        },
        IpAddr::V4(_) => address,
    }
}

/// Rewrites an IPv4-mapped IPv6 address as the IPv4 address it stands for.
///
/// Only the `::ffff:0:0/96` mapping. The deprecated IPv4-compatible form is left alone:
/// `::1` sits inside it, and folding it would turn loopback into `0.0.0.1`.
pub fn unmap_ip(address: IpAddr) -> (r: IpAddr)
    ensures
        r == unmapped(address),
{
    match address.to_ipv4_mapped() {
        Some(v4) => v4,
        None => address,
    }
}

/// The same, for a socket address; the port is kept. A folded address is IPv4 and has no
/// scope; any other keeps the one it had.
pub fn unmap_socket(address: SocketAddr) -> (r: SocketAddr)
    ensures
        r == if unmapped(address.ip) != address.ip {
            SocketAddr { ip: unmapped(address.ip), port: address.port, scope_id: 0 }
        } else {
            address
        },
{
    let ip = unmap_ip(address.ip);
    if ip != address.ip {
        SocketAddr { ip, port: address.port, scope_id: 0 }
    } else {
        address
    }
}

} // verus!
