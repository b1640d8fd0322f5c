//! Which adapter carries a local address.
//!
//! A probe bound to the address an application's flow uses leaves by the same adapter, and
//! naming that adapter is what tells a user that a tunnel is in the way.

use crate::address::IpAddr;
use crate::platform::flow::{decode_sockaddr, socket_of};
use crate::platform::process::{name_from_wide, text_ends_at, utf16_lossy};
use vstd::prelude::*;

verus! {

/// One network adapter and the local addresses assigned to it.
#[derive(Debug, Clone)]
pub struct NetworkInterface {
    /// The adapter's name as the user sees it.
    pub name: String,
    /// Its addresses.
    pub addresses: Vec<IpAddr>,
}

/// The name of the first adapter among `interfaces` that carries `address`.
pub open spec fn claimant(interfaces: Seq<NetworkInterface>, address: IpAddr) -> Option<Seq<char>>
    decreases interfaces.len(),
{
    if interfaces.len() == 0 {
        None
    } else {
        match claimant(interfaces.drop_last(), address) {
            Some(name) => Some(name),
            None => if interfaces.last().addresses@.contains(address) {
                Some(interfaces.last().name@)
            } else {
                None
            },
        }
    }
}

/// The first name a list of claims gives `address`.
pub open spec fn first_claim(claims: Seq<(IpAddr, String)>, address: IpAddr) -> Option<Seq<char>>
    decreases claims.len(),
{
    if claims.len() == 0 {
        None
    } else {
        match first_claim(claims.drop_last(), address) {
            Some(name) => Some(name),
            None => if claims.last().0 == address {
                Some(claims.last().1@)
            } else {
                None
            },
        }
    }
}

/// Local addresses mapped to the adapter that carries them.
#[derive(Debug, Clone)]
pub struct InterfaceNames {
    claims: Vec<(IpAddr, String)>,
}

impl Default for InterfaceNames {
    /// Names nothing.
    fn default() -> (names: InterfaceNames)
        ensures
            forall|address: IpAddr| names.spec_name_of(address) is None,
            names.spec_is_empty(),
    {
        InterfaceNames { claims: Vec::new() }
    }
}

impl InterfaceNames {
    /// The name the map gives `address`.
    pub closed spec fn spec_name_of(self, address: IpAddr) -> Option<Seq<char>> {
        first_claim(self.claims@, address)
    }

    /// Whether the map names nothing at all.
    pub closed spec fn spec_is_empty(self) -> bool {
        self.claims@.len() == 0
    }

    /// Indexes a snapshot of the adapters.
    ///
    /// An address claimed by two adapters takes the first: a stable answer is worth more
    /// than a guess at which is right.
    pub fn of(interfaces: &[NetworkInterface]) -> (names: InterfaceNames)
        ensures
            forall|address: IpAddr| #[trigger] names.spec_name_of(address) == claimant(interfaces@, address),
            names.spec_is_empty() <==> forall|i: int|
                0 <= i < interfaces@.len() ==> (#[trigger] interfaces@[i]).addresses@.len() == 0,
    {
        let mut claims: Vec<(IpAddr, String)> = Vec::new();
        let mut i: usize = 0;
        while i < interfaces.len()
            invariant
                i <= interfaces@.len(),
                forall|address: IpAddr|
                    #[trigger] first_claim(claims@, address) == claimant(
                        interfaces@.take(i as int),
                        address,
                    ),
                claims@.len() == 0 <==> forall|k: int|
                    0 <= k < i ==> (#[trigger] interfaces@[k]).addresses@.len() == 0,
            decreases interfaces@.len() - i,
        {
            let interface = &interfaces[i];
            let ghost before = claims@;
            proof {
                assert(interfaces@.take(i + 1).drop_last() =~= interfaces@.take(i as int));
            }
            let mut j: usize = 0;
            while j < interface.addresses.len()
                invariant
                    j <= interface.addresses@.len(),
                    i < interfaces@.len(),
                    *interface == interfaces@[i as int],
                    claims@.len() == before.len() + j,
                    forall|k: int| 0 <= k < before.len() ==> claims@[k] == before[k],
                    forall|address: IpAddr|
                        #[trigger] first_claim(claims@, address) == match first_claim(before, address) {
                            Some(name) => Some(name),
                            None => if interface.addresses@.take(j as int).contains(address) {
                                Some(interface.name@)
                            } else {
                                None
                            },
                        },
                decreases interface.addresses@.len() - j,
            {
                let address = interface.addresses[j];
                let ghost previous = claims@;
                claims.push((address, interface.name.clone()));
                proof {
                    assert(claims@.drop_last() =~= previous);
                    assert forall|a: IpAddr| #[trigger] first_claim(claims@, a) == match first_claim(
                        before,
                        a,
                    ) {
                        Some(name) => Some(name),
                        None => if interface.addresses@.take(j + 1).contains(a) {
                            Some(interface.name@)
                        } else {
                            None
                        },
                    } by {
                        assert(interface.addresses@.take(j + 1) =~= interface.addresses@.take(
                            j as int,
                        ).push(address));
                        lemma_contains_push(interface.addresses@.take(j as int), address, a);
                        assert(claims@.last() == (address, claims@.last().1));
                        assert(claims@.last().1@ == interface.name@);
                        assert(first_claim(claims@, a) == match first_claim(previous, a) {
                            Some(name) => Some(name),
                            None => if claims@.last().0 == a {
                                Some(claims@.last().1@)
                            } else {
                                None
                            },
                        });
                    }
                }
                j = j + 1;
            }
            proof {
                assert(interface.addresses@.take(j as int) =~= interface.addresses@);
                assert forall|k: int| 0 <= k < i + 1 implies (#[trigger] interfaces@[k]).addresses@.len()
                    == 0 || claims@.len() > 0 by {
                    if k == i && interfaces@[k].addresses@.len() > 0 {
                        assert(claims@.len() == before.len() + j);
                    }
                }
            }
            i = i + 1;
        }
        proof {
            assert(interfaces@.take(interfaces@.len() as int) =~= interfaces@);
        }
        InterfaceNames { claims }
    }

    /// The adapter carrying `address`, or `None` when no adapter claims it.
    pub fn name_of(&self, address: IpAddr) -> (name: Option<&str>)
        ensures
            match (name, self.spec_name_of(address)) {
                (None, None) => true,
                (Some(n), Some(m)) => n@ == m,
                _ => false,
            },
    {
        let mut i: usize = 0;
        while i < self.claims.len()
            invariant
                i <= self.claims@.len(),
                first_claim(self.claims@.take(i as int), address) is None,
            decreases self.claims@.len() - i,
        {
            proof {
                assert(self.claims@.take(i + 1).drop_last() =~= self.claims@.take(i as int));
            }
            if self.claims[i].0 == address {
                proof {
                    lemma_first_claim_prefix(self.claims@, i + 1, address);
                }
                return Some(self.claims[i].1.as_str());
            }
            i = i + 1;
        }
        proof {
            assert(self.claims@.take(i as int) =~= self.claims@);
        }
        None
    }

    /// Whether the map names nothing.
    pub fn is_empty(&self) -> (b: bool)
        ensures
            b == self.spec_is_empty(),
    {
        self.claims.len() == 0
    }
}

proof fn lemma_contains_push<A>(s: Seq<A>, x: A, a: A)
    ensures
        s.push(x).contains(a) == (s.contains(a) || a == x),
{
    if s.contains(a) {
        let w = choose|w: int| 0 <= w < s.len() && #[trigger] s[w] == a;
        assert(s.push(x)[w] == a);
    }
    if a == x {
        assert(s.push(x)[s.len() as int] == x);
    }
    if s.push(x).contains(a) {
        let w = choose|w: int| 0 <= w < s.len() + 1 && #[trigger] s.push(x)[w] == a;
        if w < s.len() {
            assert(s[w] == a);
        }
    }
}

/// Once a prefix of the claims names an address, the whole list names it the same way.
proof fn lemma_first_claim_prefix(claims: Seq<(IpAddr, String)>, n: int, address: IpAddr)
    requires
        0 <= n <= claims.len(),
        first_claim(claims.take(n), address) is Some,
    ensures
        first_claim(claims, address) == first_claim(claims.take(n), address),
    decreases claims.len() - n,
{
    if n < claims.len() {
        assert(claims.take(n + 1).drop_last() =~= claims.take(n));
        lemma_first_claim_prefix(claims, n + 1, address);
    } else {
        assert(claims.take(n) =~= claims);
    }
}


/// `ERROR_SUCCESS`.
pub const ERROR_SUCCESS: u32 = 0;
/// `ERROR_BUFFER_OVERFLOW`: the buffer is too small for the adapter list.
pub const ERROR_BUFFER_OVERFLOW: u32 = 111;
/// `ERROR_NO_DATA`: the machine has no adapters at all.
pub const ERROR_NO_DATA: u32 = 232;
/// Starting buffer for the adapter list, in bytes: the documented recommendation covers a
/// normal machine in one call.
pub const INITIAL_BUFFER_BYTES: usize = 16 * 1024;
/// Ceiling for the adapter-list buffer, in bytes: more than this to describe a machine's
/// adapters is not a machine but a bug, so growing stops.
pub const MAX_BUFFER_BYTES: usize = 1024 * 1024;
/// Longest adapter name read, in UTF-16 code units: a guard on a NUL-terminated string
/// whose length the API does not report.
pub const MAX_NAME_UNITS: usize = 512;

/// What to do after one call that fills the adapter list into a buffer.
#[derive(Debug, Clone, Copy, PartialEq, Eq, Structural)]
pub enum AdapterStep {
    /// The list is in the buffer: walk it.
    Walk,
    /// The machine has no adapters: an empty list, not an error.
    NoAdapters,
    /// The buffer is too small; grow it to this many eight-byte words and ask again.
    Grow(usize),
    /// The call failed with this code.
    Failed(u32),
}

/// Reads what a `GetAdaptersAddresses` call reported: its status, and the size it wrote
/// back, the bytes needed when the buffer was too small.
///
/// A growth is rounded up to whole words with a little slack, since an adapter can appear
/// between the call that reported the size and the call that uses it.
pub fn adapters_step(status: u32, size: u32) -> (step: AdapterStep)
    ensures
        step == if status == ERROR_SUCCESS {
            AdapterStep::Walk
        } else if status == ERROR_NO_DATA {
            AdapterStep::NoAdapters
        } else if status == ERROR_BUFFER_OVERFLOW {
            if size > MAX_BUFFER_BYTES {
                AdapterStep::Failed(ERROR_BUFFER_OVERFLOW)
            } else {
                AdapterStep::Grow(((size + 7) / 8 + 64) as usize)
            }
        } else {
            AdapterStep::Failed(status)
        },
{
    if status == ERROR_SUCCESS {
        AdapterStep::Walk
    } else if status == ERROR_NO_DATA {
        AdapterStep::NoAdapters
    } else if status == ERROR_BUFFER_OVERFLOW {
        if size as usize > MAX_BUFFER_BYTES {
            AdapterStep::Failed(ERROR_BUFFER_OVERFLOW)
        } else {
            AdapterStep::Grow((size as usize + 7) / 8 + 64)
        }
    } else {
        AdapterStep::Failed(status)
    }
}

/// The addresses the socket-address blobs name, in order, leaving out those that do not
/// decode.
pub open spec fn blob_addresses(blobs: Seq<Vec<u8>>) -> Seq<IpAddr>
    decreases blobs.len(),
{
    if blobs.len() == 0 {
        Seq::empty()
    } else {
        blob_addresses(blobs.drop_last()) + match socket_of(blobs.last()@) {
            Some(d) => seq![d.ip],
            None => Seq::empty(),
        }
    }
}

/// One adapter of the list, from its name as the API wrote it and the socket-address
/// blobs of its unicast addresses.
///
/// An adapter with no address cannot name anything, and a nameless one names nothing a
/// user would recognise: neither is an error, both are simply left out.
pub fn adapter(name: &[u16], blobs: &Vec<Vec<u8>>) -> (r: Option<NetworkInterface>)
    ensures
        ({
            let addresses = blob_addresses(blobs@);
            match r {
                Some(i) => {
                    &&& i.addresses@ == addresses
                    &&& addresses.len() > 0
                    &&& i.name@.len() > 0
                    &&& exists|end: int| text_ends_at(name@, end) && i.name@ == utf16_lossy(name@.take(end))
                },
                None => addresses.len() == 0 || exists|end: int|
                    text_ends_at(name@, end) && utf16_lossy(name@.take(end)).len() == 0,
            }
        }),
{
    let text = name_from_wide(name);
    let mut addresses: Vec<IpAddr> = Vec::new();
    let mut i: usize = 0;
    proof {
        assert(blobs@.take(0) =~= Seq::<Vec<u8>>::empty());
    }
    while i < blobs.len()
        invariant
            i <= blobs@.len(),
            addresses@ == blob_addresses(blobs@.take(i as int)),
        decreases blobs@.len() - i,
    {
        proof {
            assert(blobs@.take(i + 1).drop_last() =~= blobs@.take(i as int));
        }
        match decode_sockaddr(blobs[i].as_slice()) {
            Some(socket) => {
                addresses.push(socket.ip);
                proof {
                    assert(addresses@ =~= blob_addresses(blobs@.take(i as int)) + seq![socket.ip]);
                }
            },
            None => {
                proof {
                    assert(addresses@ =~= blob_addresses(blobs@.take(i as int)) + Seq::<IpAddr>::empty());
                }
            },
        }
        i = i + 1;
    }
    proof {
        assert(blobs@.take(blobs@.len() as int) =~= blobs@);
    }
    if text.as_str().is_empty() || addresses.len() == 0 {
        None
    } else {
        Some(NetworkInterface { name: text, addresses })
    }
}

} // verus!
