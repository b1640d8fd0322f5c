//! Registry of everything the app probes.
//!
//! A target is an address the probe engine may send to. The same address can be reached
//! for more than one reason, so a target carries a set of tags rather than a single role:
//! one address is probed once, and its results feed every feature that asked for it.

use crate::address::IpAddr;
use crate::error::Error;
use vstd::prelude::*;

verus! {

/// A stable handle for one probe target.
///
/// Handles are allocated in increasing order and never reused within a session, so a
/// stale handle resolves to nothing instead of silently pointing at a different host.
#[derive(Debug, Clone, Copy, PartialEq, Eq, Structural, PartialOrd, Ord, Hash)]
pub struct TargetId(u32);

impl TargetId {
    /// The raw number behind the handle.
    pub closed spec fn raw(self) -> u32 {
        self.0
    }

    /// The raw number behind the handle, for logging and debugging.
    pub fn get(self) -> (raw: u32)
        ensures
            raw == self.raw(),
    {
        self.0
    }

    /// Rebuilds a handle from its raw number, so sibling modules can be exercised without
    /// a registry.
    pub fn from_raw(raw: u32) -> (id: TargetId)
        ensures
            id.raw() == raw,
    {
        TargetId(raw)
    }

    /// Two handles are the same exactly when their raw numbers are.
    pub proof fn lemma_raw_injective(a: TargetId, b: TargetId)
        ensures
            (a.raw() == b.raw()) == (a == b),
    {
    }
}

/// Why a target is being probed.
///
/// Tags keep features from needing their own probe pipelines: a new consumer of the probe
/// engine adds a tag, not a code path.
#[derive(Debug, Clone, Copy, PartialEq, Eq, Structural, PartialOrd, Ord, Hash)]
#[non_exhaustive]
pub enum TargetTag {
    /// An endpoint discovered belonging to an application the user monitors.
    AppEndpoint,
    /// A router on the way to an endpoint that answers nothing, probed as its stand-in.
    PathEdgeHop,
    /// A service known to be reachable inside the user's country.
    DomesticBaseline,
    /// A service typically degraded or blocked at the country's border.
    ForeignBaseline,
    /// An entry on the service status page.
    StatusService,
    /// A reference target of a monitored game's pool.
    GameReferencePool,
}

/// Where a target lives on the network.
///
/// `port` is absent for targets only ever reached with ICMP, which has no concept of one.
#[derive(Debug, Clone, Copy, PartialEq, Eq, Structural, PartialOrd, Ord, Hash)]
pub struct TargetAddress {
    /// Remote address.
    pub ip: IpAddr,
    /// Remote port, when the probe kind has one.
    pub port: Option<u16>,
}

impl TargetAddress {
    /// An address reached without a port, as ICMP is.
    pub fn icmp(ip: IpAddr) -> (a: TargetAddress)
        ensures
            a == (TargetAddress { ip, port: None }),
    {
        TargetAddress { ip, port: None }
    }

    /// An address reached on a specific port.
    pub fn with_port(ip: IpAddr, port: u16) -> (a: TargetAddress)
        ensures
            a == (TargetAddress { ip, port: Some(port) }),
    {
        TargetAddress { ip, port: Some(port) }
    }
}

/// The reasons a target is probed: one flag per tag.
#[derive(Debug, Clone, Copy, PartialEq, Eq, Structural)]
struct TagSet {
    app_endpoint: bool,
    path_edge_hop: bool,
    domestic_baseline: bool,
    foreign_baseline: bool,
    status_service: bool,
    game_reference_pool: bool,
}

impl TagSet {
    spec fn holds(self, tag: TargetTag) -> bool {
        match tag {
            TargetTag::AppEndpoint => self.app_endpoint,
            TargetTag::PathEdgeHop => self.path_edge_hop,
            TargetTag::DomesticBaseline => self.domestic_baseline,
            TargetTag::ForeignBaseline => self.foreign_baseline,
            TargetTag::StatusService => self.status_service,
            TargetTag::GameReferencePool => self.game_reference_pool,
        }
    }

    spec fn view(self) -> Set<TargetTag> {
        Set::new(|tag: TargetTag| self.holds(tag))
    }

    fn empty() -> (s: TagSet)
        ensures
            s@ == Set::<TargetTag>::empty(),
    {
        let s = TagSet {
            app_endpoint: false,
            path_edge_hop: false,
            domestic_baseline: false,
            foreign_baseline: false,
            status_service: false,
            game_reference_pool: false,
        };
        assert(s@ =~= Set::<TargetTag>::empty());
        s
    }

    fn contains(&self, tag: TargetTag) -> (b: bool)
        ensures
            b == self@.contains(tag),
    {
        match tag {
            TargetTag::AppEndpoint => self.app_endpoint,
            TargetTag::PathEdgeHop => self.path_edge_hop,
            TargetTag::DomesticBaseline => self.domestic_baseline,
            TargetTag::ForeignBaseline => self.foreign_baseline,
            TargetTag::StatusService => self.status_service,
            TargetTag::GameReferencePool => self.game_reference_pool,
        }
    }

    fn set(&mut self, tag: TargetTag, on: bool)
        ensures
            final(self)@ == if on {
                old(self)@.insert(tag)
            } else {
                old(self)@.remove(tag)
            },
    {
        match tag {
            TargetTag::AppEndpoint => self.app_endpoint = on,
            TargetTag::PathEdgeHop => self.path_edge_hop = on,
            TargetTag::DomesticBaseline => self.domestic_baseline = on,
            TargetTag::ForeignBaseline => self.foreign_baseline = on,
            TargetTag::StatusService => self.status_service = on,
            TargetTag::GameReferencePool => self.game_reference_pool = on,
        }
        assert(self@ =~= if on {
            old(self)@.insert(tag)
        } else {
            old(self)@.remove(tag)
        });
    }

    fn is_empty(&self) -> (b: bool)
        ensures
            b == (self@ == Set::<TargetTag>::empty()),
    {
        let b = !(self.app_endpoint || self.path_edge_hop || self.domestic_baseline
            || self.foreign_baseline || self.status_service || self.game_reference_pool);
        proof {
            if b {
                assert(self@ =~= Set::<TargetTag>::empty());
            } else {
                if self.app_endpoint {
                    assert(self@.contains(TargetTag::AppEndpoint));
                } else if self.path_edge_hop {
                    assert(self@.contains(TargetTag::PathEdgeHop));
                } else if self.domestic_baseline {
                    assert(self@.contains(TargetTag::DomesticBaseline));
                } else if self.foreign_baseline {
                    assert(self@.contains(TargetTag::ForeignBaseline));
                } else if self.status_service {
                    assert(self@.contains(TargetTag::StatusService));
                } else {
                    assert(self@.contains(TargetTag::GameReferencePool));
                }
            }
        }
        b
    }
}

/// The tags of `tags`, in declaration order.
pub open spec fn in_tag_order(tags: Set<TargetTag>) -> Seq<TargetTag> {
    let one = |tag: TargetTag|
        if tags.contains(tag) {
            seq![tag]
        } else {
            Seq::<TargetTag>::empty()
        };
    one(TargetTag::AppEndpoint) + one(TargetTag::PathEdgeHop) + one(TargetTag::DomesticBaseline)
        + one(TargetTag::ForeignBaseline) + one(TargetTag::StatusService) + one(
        TargetTag::GameReferencePool,
    )
}

/// A registered target and the reasons it is probed.
#[derive(Debug, Clone, PartialEq, Eq, Structural)]
pub struct Target {
    id: TargetId,
    address: TargetAddress,
    tags: TagSet,
}

impl Target {
    /// This target's handle.
    pub closed spec fn spec_id(self) -> TargetId {
        self.id
    }

    /// Where the target lives.
    pub closed spec fn spec_address(self) -> TargetAddress {
        self.address
    }

    /// Why the target is probed.
    pub closed spec fn spec_tags(self) -> Set<TargetTag> {
        self.tags@
    }

    /// This target's handle.
    pub fn id(&self) -> (id: TargetId)
        ensures
            id == self.spec_id(),
    {
        self.id
    }

    /// Where the target lives.
    pub fn address(&self) -> (a: TargetAddress)
        ensures
            a == self.spec_address(),
    {
        self.address
    }

    /// Whether the target is probed for this reason.
    pub fn has_tag(&self, tag: TargetTag) -> (b: bool)
        ensures
            b == self.spec_tags().contains(tag),
    {
        self.tags.contains(tag)
    }

    /// Every reason this target is probed, in a stable order.
    pub fn tags(&self) -> (v: Vec<TargetTag>)
        ensures
            v@ == in_tag_order(self.spec_tags()),
    {
        let mut v: Vec<TargetTag> = Vec::new();
        if self.tags.app_endpoint {
            v.push(TargetTag::AppEndpoint);
        }
        if self.tags.path_edge_hop {
            v.push(TargetTag::PathEdgeHop);
        }
        if self.tags.domestic_baseline {
            v.push(TargetTag::DomesticBaseline);
        }
        if self.tags.foreign_baseline {
            v.push(TargetTag::ForeignBaseline);
        }
        if self.tags.status_service {
            v.push(TargetTag::StatusService);
        }
        if self.tags.game_reference_pool {
            v.push(TargetTag::GameReferencePool);
        }
        proof {
            assert(self.tags@.contains(TargetTag::AppEndpoint) == self.tags.app_endpoint);
            assert(self.tags@.contains(TargetTag::PathEdgeHop) == self.tags.path_edge_hop);
            assert(self.tags@.contains(TargetTag::DomesticBaseline) == self.tags.domestic_baseline);
            assert(self.tags@.contains(TargetTag::ForeignBaseline) == self.tags.foreign_baseline);
            assert(self.tags@.contains(TargetTag::StatusService) == self.tags.status_service);
            assert(self.tags@.contains(TargetTag::GameReferencePool)
                == self.tags.game_reference_pool);
            assert(v@ =~= in_tag_order(self.spec_tags()));
        }
        v
    }
}

/// A position of `targets` holding `address`, where there is one.
pub open spec fn slot_of_address(targets: Seq<Target>, address: TargetAddress) -> int {
    choose|k: int| 0 <= k < targets.len() && (#[trigger] targets[k]).spec_address() == address
}

/// The position in `targets` of the one at `address`, where there is one.
pub open spec fn at_address(targets: Seq<Target>, address: TargetAddress) -> Option<int> {
    if exists|k: int| 0 <= k < targets.len() && (#[trigger] targets[k]).spec_address() == address {
        Some(slot_of_address(targets, address))
    } else {
        None
    }
}

/// A position of `targets` holding handle `id`, where there is one.
pub open spec fn slot_of_id(targets: Seq<Target>, id: TargetId) -> int {
    choose|k: int| 0 <= k < targets.len() && (#[trigger] targets[k]).spec_id() == id
}

/// The position in `targets` of the one with handle `id`, where there is one.
pub open spec fn with_id(targets: Seq<Target>, id: TargetId) -> Option<int> {
    if exists|k: int| 0 <= k < targets.len() && (#[trigger] targets[k]).spec_id() == id {
        Some(slot_of_id(targets, id))
    } else {
        None
    }
}

/// The targets of `targets` probed for `tag`, in order.
pub open spec fn tagged_in(targets: Seq<Target>, tag: TargetTag) -> Seq<Target>
    decreases targets.len(),
{
    if targets.len() == 0 {
        Seq::empty()
    } else {
        let earlier = tagged_in(targets.drop_last(), tag);
        if targets.last().spec_tags().contains(tag) {
            earlier.push(targets.last())
        } else {
            earlier
        }
    }
}

/// The set of targets the probe engine may address, in handle order.
#[derive(Debug, Clone)]
pub struct TargetRegistry {
    targets: Vec<Target>,
    next_id: u32,
}

impl TargetRegistry {
    /// The registered targets, in handle order.
    pub closed spec fn view(self) -> Seq<Target> {
        self.targets@
    }

    /// The handle the next new address will get.
    pub closed spec fn spec_next_id(self) -> u32 {
        self.next_id
    }

    /// Handles strictly increase and are all below the next one; no address is held
    /// twice; every target has a reason to be probed.
    pub closed spec fn wf(self) -> bool {
        &&& forall|i: int, j: int|
            0 <= i < j < self.targets@.len() ==> (#[trigger] self.targets@[i]).id.0
                < (#[trigger] self.targets@[j]).id.0
        &&& forall|i: int| 0 <= i < self.targets@.len() ==> (#[trigger] self.targets@[i]).id.0 < self.next_id
        &&& forall|i: int, j: int|
            0 <= i < self.targets@.len() && 0 <= j < self.targets@.len() && i != j ==> (
            #[trigger] self.targets@[i]).address != (#[trigger] self.targets@[j]).address
        &&& forall|i: int|
            0 <= i < self.targets@.len() ==> (#[trigger] self.targets@[i]).tags@ != Set::<
                TargetTag,
            >::empty()
    }

    /// What every well-formed registry keeps: handles in increasing order and below the
    /// next one, one target per address, and none without a reason to be probed.
    pub proof fn lemma_wf(self)
        requires
            self.wf(),
        ensures
            forall|i: int, j: int|
                0 <= i < j < self@.len() ==> (#[trigger] self@[i]).spec_id().raw() < (
                #[trigger] self@[j]).spec_id().raw(),
            forall|i: int|
                0 <= i < self@.len() ==> (#[trigger] self@[i]).spec_id().raw()
                    < self.spec_next_id(),
            forall|i: int, j: int|
                0 <= i < self@.len() && 0 <= j < self@.len() && i != j ==> (
                #[trigger] self@[i]).spec_address() != (#[trigger] self@[j]).spec_address(),
            forall|i: int|
                0 <= i < self@.len() ==> (#[trigger] self@[i]).spec_tags() != Set::<
                    TargetTag,
                >::empty(),
    {
    }

    /// Creates an empty registry.
    pub fn new() -> (r: TargetRegistry)
        ensures
            r.wf(),
            r@ == Seq::<Target>::empty(),
            r.spec_next_id() == 0,
    {
        TargetRegistry { targets: Vec::new(), next_id: 0 }
    }

    /// An empty registry whose first handle will be `first_id`, so a session can resume
    /// numbering where an earlier one stopped.
    pub fn starting_at(first_id: u32) -> (r: TargetRegistry)
        ensures
            r.wf(),
            r@ == Seq::<Target>::empty(),
            r.spec_next_id() == first_id,
    {
        TargetRegistry { targets: Vec::new(), next_id: first_id }
    }

    /// Where the target at `address` is held.
    fn position_of_address(&self, address: TargetAddress) -> (r: Option<usize>)
        requires
            self.wf(),
        ensures
            r matches Some(k) ==> k < self@.len() && at_address(self@, address) == Some(k as int),
            r is None ==> at_address(self@, address) is None,
    {
        let mut k: usize = 0;
        while k < self.targets.len()
            invariant
                k <= self.targets@.len(),
                self.wf(),
                forall|m: int| 0 <= m < k ==> (#[trigger] self.targets@[m]).address != address,
            decreases self.targets@.len() - k,
        {
            if self.targets[k].address == address {
                proof {
                    assert(self@[k as int].spec_address() == address);
                    let c = slot_of_address(self@, address);
                    assert(0 <= c < self@.len() && self@[c].spec_address() == address);
                    assert(self.targets@[c].address == self.targets@[k as int].address);
                    assert(c == k as int);
                }
                return Some(k);
            }
            k = k + 1;
        }
        None
    }

    /// Where the target with handle `id` is held.
    fn position_of_id(&self, id: TargetId) -> (r: Option<usize>)
        requires
            self.wf(),
        ensures
            r matches Some(k) ==> k < self@.len() && with_id(self@, id) == Some(k as int),
            r is None ==> with_id(self@, id) is None,
    {
        let mut k: usize = 0;
        while k < self.targets.len()
            invariant
                k <= self.targets@.len(),
                self.wf(),
                forall|m: int| 0 <= m < k ==> (#[trigger] self.targets@[m]).id != id,
            decreases self.targets@.len() - k,
        {
            if self.targets[k].id == id {
                proof {
                    assert(self@[k as int].spec_id() == id);
                    let c = slot_of_id(self@, id);
                    assert(0 <= c < self@.len() && self@[c].spec_id() == id);
                    if c != k as int {
                        if c < k {
                            assert(self.targets@[c].id.0 < self.targets@[k as int].id.0);
                        } else {
                            assert(self.targets@[k as int].id.0 < self.targets@[c].id.0);
                        }
                    }
                }
                return Some(k);
            }
            k = k + 1;
        }
        None
    }

    /// Registers `address` as probed for `tag`, returning its handle.
    ///
    /// An address already registered keeps its handle and gains the tag: an address is
    /// never probed twice because two features want it. A new address gets the next
    /// handle, which no target ever held. Returns `Error::TargetIdExhausted`, changing
    /// nothing, once every handle has been handed out.
    pub fn insert(&mut self, address: TargetAddress, tag: TargetTag) -> (r: Result<
        TargetId,
        Error,
    >)
        requires
            old(self).wf(),
        ensures
            final(self).wf(),
            final(self).spec_next_id() >= old(self).spec_next_id(),
            match at_address(old(self)@, address) {
                Some(k) => {
                    &&& r == Ok::<TargetId, Error>(old(self)@[k].spec_id())
                    &&& final(self).spec_next_id() == old(self).spec_next_id()
                    &&& final(self)@.len() == old(self)@.len()
                    &&& final(self)@[k].spec_id() == old(self)@[k].spec_id()
                    &&& final(self)@[k].spec_address() == address
                    &&& final(self)@[k].spec_tags() == old(self)@[k].spec_tags().insert(tag)
                    &&& forall|j: int|
                        0 <= j < old(self)@.len() && j != k ==> #[trigger] final(self)@[j]
                            == old(self)@[j]
                },
                None => if old(self).spec_next_id() == u32::MAX {
                    &&& r == Err::<TargetId, Error>(Error::TargetIdExhausted)
                    &&& *final(self) == *old(self)
                } else {
                    &&& r matches Ok(id) && id.raw() == old(self).spec_next_id()
                    &&& forall|j: int|
                        0 <= j < old(self)@.len() ==> (#[trigger] old(self)@[j]).spec_id()
                            != r->Ok_0
                    &&& final(self).spec_next_id() == old(self).spec_next_id() + 1
                    &&& final(self)@.len() == old(self)@.len() + 1
                    &&& final(self)@.take(old(self)@.len() as int) == old(self)@
                    &&& final(self)@.last().spec_id() == r->Ok_0
                    &&& final(self)@.last().spec_address() == address
                    &&& final(self)@.last().spec_tags() == set![tag]
                },
            },
    {
        match self.position_of_address(address) {
            Some(k) => {
                let ghost before = self.targets@;
                let mut target = self.targets.remove(k);
                target.tags.set(tag, true);
                let id = target.id;
                self.targets.insert(k, target);
                proof {
                    assert(self.targets@ =~= before.update(k as int, target));
                    assert(target.tags@ != Set::<TargetTag>::empty()) by {
                        assert(target.tags@.contains(tag));
                    }
                }
                Ok(id)
            },
            None => {
                if self.next_id == u32::MAX {
                    return Err(Error::TargetIdExhausted);
                }
                let id = TargetId(self.next_id);
                let mut tags = TagSet::empty();
                tags.set(tag, true);
                let ghost before = self.targets@;
                self.targets.push(Target { id, address, tags });
                self.next_id = self.next_id + 1;
                proof {
                    assert(tags@ =~= set![tag]);
                    assert(tags@.contains(tag));
                    assert(self.targets@.last() == Target { id, address, tags });
                    assert(self.targets@.take(before.len() as int) =~= before);
                    assert forall|i: int| 0 <= i < before.len() implies (#[trigger] before[i]).address
                        != address by {
                        if before[i].address == address {
                            assert(self@[i].spec_address() == address);
                        }
                    }
                }
                Ok(id)
            },
        }
    }

    /// Removes a target outright, whatever it was tagged with. Returns `true` if it was
    /// registered.
    pub fn remove(&mut self, id: TargetId) -> (b: bool)
        requires
            old(self).wf(),
        ensures
            final(self).wf(),
            final(self).spec_next_id() == old(self).spec_next_id(),
            match with_id(old(self)@, id) {
                None => !b && *final(self) == *old(self),
                Some(k) => b && final(self)@ == old(self)@.remove(k),
            },
    {
        match self.position_of_id(id) {
            None => false,
            Some(k) => {
                let ghost before = self.targets@;
                self.targets.remove(k);
                proof {
                    assert(self.targets@ =~= before.remove(k as int));
                }
                true
            },
        }
    }

    /// Removes one reason for probing a target.
    ///
    /// When the last tag goes the target itself is removed, so a feature switching off
    /// cannot leave an orphan probed forever. Returns `true` if the target is gone.
    pub fn untag(&mut self, id: TargetId, tag: TargetTag) -> (b: bool)
        requires
            old(self).wf(),
        ensures
            final(self).wf(),
            final(self).spec_next_id() == old(self).spec_next_id(),
            match with_id(old(self)@, id) {
                None => !b && *final(self) == *old(self),
                Some(k) => {
                    let rest = old(self)@[k].spec_tags().remove(tag);
                    &&& b == (rest == Set::<TargetTag>::empty())
                    &&& b ==> final(self)@ == old(self)@.remove(k)
                    &&& !b ==> {
                        &&& final(self)@.len() == old(self)@.len()
                        &&& final(self)@[k].spec_id() == id
                        &&& final(self)@[k].spec_address() == old(self)@[k].spec_address()
                        &&& final(self)@[k].spec_tags() == rest
                        &&& forall|j: int|
                            0 <= j < old(self)@.len() && j != k ==> #[trigger] final(self)@[j]
                                == old(self)@[j]
                    }
                },
            },
    {
        let k = match self.position_of_id(id) {
            None => {
                return false;
            },
            Some(k) => k,
        };
        let ghost before = self.targets@;
        let mut target = self.targets.remove(k);
        target.tags.set(tag, false);
        if target.tags.is_empty() {
            proof {
                assert(self.targets@ =~= before.remove(k as int));
            }
            return true;
        }
        self.targets.insert(k, target);
        proof {
            assert(self.targets@ =~= before.update(k as int, target));
        }
        false
    }

    /// Looks up a target by handle.
    pub fn get(&self, id: TargetId) -> (r: Option<&Target>)
        requires
            self.wf(),
        ensures
            match with_id(self@, id) {
                None => r is None,
                Some(k) => r == Some(&self@[k]),
            },
    {
        match self.position_of_id(id) {
            None => None,
            Some(k) => Some(&self.targets[k]),
        }
    }

    /// Looks up the handle registered for an address.
    pub fn find(&self, address: TargetAddress) -> (r: Option<TargetId>)
        requires
            self.wf(),
        ensures
            match at_address(self@, address) {
                None => r is None,
                Some(k) => r == Some(self@[k].spec_id()),
            },
    {
        match self.position_of_address(address) {
            None => None,
            Some(k) => Some(self.targets[k].id),
        }
    }

    /// Every registered target, ordered by handle.
    pub fn iter(&self) -> (s: &[Target])
        ensures
            s@ == self@,
    {
        self.targets.as_slice()
    }

    /// Every target probed for a given reason, ordered by handle.
    pub fn tagged(&self, tag: TargetTag) -> (v: Vec<&Target>)
        ensures
            v@.len() == tagged_in(self@, tag).len(),
            forall|i: int| 0 <= i < v@.len() ==> *(#[trigger] v@[i]) == tagged_in(self@, tag)[i],
    {
        let mut v: Vec<&Target> = Vec::new();
        let mut k: usize = 0;
        while k < self.targets.len()
            invariant
                k <= self.targets@.len(),
                v@.len() == tagged_in(self@.take(k as int), tag).len(),
                forall|i: int|
                    0 <= i < v@.len() ==> *(#[trigger] v@[i]) == tagged_in(self@.take(k as int), tag)[i],
            decreases self.targets@.len() - k,
        {
            proof {
                assert(self@.take(k + 1).drop_last() =~= self@.take(k as int));
            }
            if self.targets[k].has_tag(tag) {
                v.push(&self.targets[k]);
            }
            k = k + 1;
        }
        proof {
            assert(self@.take(self@.len() as int) =~= self@);
        }
        v
    }

    /// How many targets are registered.
    pub fn len(&self) -> (n: usize)
        ensures
            n == self@.len(),
    {
        self.targets.len()
    }

    /// Whether nothing is registered.
    pub fn is_empty(&self) -> (b: bool)
        ensures
            b == (self@.len() == 0),
    {
        self.targets.len() == 0
    }
}

} // verus!
