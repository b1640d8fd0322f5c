//! Proving, from the reply itself, that nothing on the internet sent it.
//!
//! Every IP packet carries a hop limit that each router decrements, and senders start it at
//! one of a handful of well-known values. A reply arriving with that initial value
//! untouched crossed no router at all: for a public address that is not a suspicious
//! number, it is an impossible one, and it is what a local tunnel answering on behalf of
//! the whole internet produces.

use crate::address::AddressClass;
use vstd::prelude::*;

verus! {

/// The initial hop limit a reply arriving with `arrived_with` was sent with: the smallest of
/// 32, 64, 128 and 255 that is not below it.
pub open spec fn initial_limit(arrived_with: u8) -> nat {
    if arrived_with <= 32 {
        32
    } else if arrived_with <= 64 {
        64
    } else if arrived_with <= 128 {
        128
    } else {
        255
    }
}

/// The hop limits senders start a packet with: network equipment, Windows, Linux and
/// macOS, and some older stacks.
pub const INITIAL_HOP_LIMITS: [u8; 4] = [255, 128, 64, 32];

/// How many routers a packet crossed, given the hop limit it arrived with.
///
/// The arriving value is read against the smallest initial limit that is not below it,
/// which is the standard way of reading a hop limit without knowing who sent it. The list
/// contains 255, so there is always an answer.
pub fn hops_travelled(arrived_with: u8) -> (hops: Option<u8>)
    ensures
        hops == Some((initial_limit(arrived_with) - arrived_with) as u8),
{
    let limits = INITIAL_HOP_LIMITS;
    assert(limits@ == seq![255u8, 128u8, 64u8, 32u8]);
    let mut best: u8 = 255;
    let mut i: usize = 0;
    while i < 4
        invariant
            0 <= i <= 4,
            limits@ == seq![255u8, 128u8, 64u8, 32u8],
            best >= arrived_with,
            best as nat == if i <= 1 {
                255nat
            } else if i == 2 {
                if arrived_with <= 128 {
                    128nat
                } else {
                    255nat
                }
            } else if i == 3 {
                if arrived_with <= 64 {
                    64nat
                } else if arrived_with <= 128 {
                    128nat
                } else {
                    255nat
                }
            } else {
                initial_limit(arrived_with)
            },
        decreases 4 - i,
    {
        let limit = limits[i];
        if limit >= arrived_with && limit < best {
            best = limit;
        }
        i = i + 1;
    }
    Some(best - arrived_with)
}

/// Whether a reply from an endpoint of `class` proves it was answered on this machine:
/// only for a public address whose reply crossed no router.
///
/// A machine genuinely sharing a segment with a public address would be called tunnelled
/// here; being wrong that way only moves the endpoint onto the end-to-end probe.
pub fn reply_was_answered_locally(class: AddressClass, arrived_with: u8) -> (local: bool)
    ensures
        local == (class is Routable && initial_limit(arrived_with) == arrived_with),
{
    let routable = match class {
        AddressClass::Routable => true,
        _ => false,
    };
    routable && hops_travelled(arrived_with) == Some(0u8)
}

} // verus!
