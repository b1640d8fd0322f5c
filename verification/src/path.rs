//! Where a path to a silent target stops working.
//!
//! When a destination answers nothing, a probe can still walk outward hop by hop with a
//! limited time-to-live and see how far packets get. This turns that walk into a statement
//! about position: the user's own network, their provider's, or somewhere past a
//! long-distance link.
//!
//! It does not say whose fault a failure is, and it does not claim to have found a border:
//! naming one needs the corroboration of the domestic and foreign baselines, which this
//! walk cannot supply on its own.

use crate::address::{class_of, AddressClass, AddressPolicy, IpAddr};
use crate::sample::Rtt;
use vstd::prelude::*;

verus! {

/// A round-trip increase, in microseconds, large enough to mean a long-distance link was
/// crossed: well above ordinary domestic variation, well below any intercontinental hop.
pub const LONG_HAUL_STEP_US: u32 = 30_000;

/// One step of a path walk.
#[derive(Debug, Clone, Copy, PartialEq, Eq, Structural)]
pub struct Hop {
    /// Time-to-live the probe carried: this hop's distance in routers.
    pub ttl: u8,
    /// Which router answered, when one did. A silent hop in the middle of a walk means
    /// nothing at all, which is why a walk steps over gaps.
    pub address: Option<IpAddr>,
    /// Round trip to that router, when it answered.
    pub rtt: Option<Rtt>,
}

impl Hop {
    /// A hop that answered.
    pub fn answered(ttl: u8, address: IpAddr, rtt: Rtt) -> (h: Hop)
        ensures
            h == (Hop { ttl, address: Some(address), rtt: Some(rtt) }),
    {
        Hop { ttl, address: Some(address), rtt: Some(rtt) }
    }

    /// A hop that stayed silent.
    pub fn silent(ttl: u8) -> (h: Hop)
        ensures
            h == (Hop { ttl, address: None, rtt: None }),
    {
        Hop { ttl, address: None, rtt: None }
    }
}

/// The result of walking outward towards a target.
#[derive(Debug, Clone, PartialEq, Eq)]
pub struct PathTrace {
    hops: Vec<Hop>,
    reached_target: bool,
}

/// The position of the furthest hop of `hops` that answered.
pub open spec fn last_answering_index(hops: Seq<Hop>) -> Option<int>
    decreases hops.len(),
{
    if hops.len() == 0 {
        None
    } else if hops.last().address is Some {
        Some(hops.len() - 1)
    } else {
        last_answering_index(hops.drop_last())
    }
}

impl PathTrace {
    /// Every hop attempted, in increasing distance.
    pub closed spec fn spec_hops(self) -> Seq<Hop> {
        self.hops@
    }

    /// Whether the target itself answered.
    pub closed spec fn spec_reached_target(self) -> bool {
        self.reached_target
    }

    /// Records a completed walk.
    pub fn new(hops: Vec<Hop>, reached_target: bool) -> (t: PathTrace)
        ensures
            t.spec_hops() == hops@,
            t.spec_reached_target() == reached_target,
    {
        PathTrace { hops, reached_target }
    }

    /// Every hop attempted, in increasing distance.
    pub fn hops(&self) -> (h: &[Hop])
        ensures
            h@ == self.spec_hops(),
    {
        self.hops.as_slice()
    }

    /// Whether the target itself answered.
    pub fn reached_target(&self) -> (b: bool)
        ensures
            b == self.spec_reached_target(),
    {
        self.reached_target
    }

    /// The furthest hop that answered.
    pub fn last_answering(&self) -> (h: Option<&Hop>)
        ensures
            match last_answering_index(self.spec_hops()) {
                None => h is None,
                Some(i) => h matches Some(hop) && *hop == self.spec_hops()[i],
            },
    {
        let mut i: usize = self.hops.len();
        proof {
            assert(self.hops@.take(i as int) =~= self.hops@);
        }
        while i > 0 && self.hops[i - 1].address.is_none()
            invariant
                i <= self.hops@.len(),
                last_answering_index(self.hops@) == last_answering_index(self.hops@.take(i as int)),
            decreases i,
        {
            proof {
                assert(self.hops@.take(i as int).drop_last() =~= self.hops@.take(i - 1));
            }
            i = i - 1;
        }
        proof {
            assert(self.hops@.take(self.hops@.len() as int) =~= self.hops@);
        }
        if i == 0 {
            proof {
                assert(self.hops@.take(0) =~= Seq::<Hop>::empty());
            }
            None
        } else {
            Some(&self.hops[i - 1])
        }
    }
}

/// How far a path got before it stopped working.
#[derive(Debug, Clone, Copy, PartialEq, Eq, Structural)]
pub enum PathEnd {
    /// The target answered. Nothing is wrong with the path.
    Reached,
    /// Not one hop answered: usually expiry messages filtered locally, a walk that
    /// measured nothing and must not be presented as a failure.
    NothingAnswered,
    /// The furthest answering hop was inside the user's own network.
    InsideThisNetwork {
        /// Distance in routers of that hop.
        last_hop: u8,
    },
    /// The furthest answering hop was the provider's carrier-NAT equipment.
    InsideTheAccessNetwork {
        /// Distance in routers of that hop.
        last_hop: u8,
    },
    /// The path died on public infrastructure, with no long-haul link crossed first.
    BeforeAnyLongHaulLink {
        /// Distance in routers of the furthest answering hop.
        last_hop: u8,
    },
    /// The path died after crossing a link long enough to be intercontinental.
    BeyondALongHaulLink {
        /// Distance in routers of the furthest answering hop.
        last_hop: u8,
        /// Distance in routers of the hop where the long jump appeared.
        long_haul_at: u8,
    },
}

/// The hops that reported a round trip, as distance and microseconds, in order.
pub open spec fn timed_hops(hops: Seq<Hop>) -> Seq<(u8, u32)>
    decreases hops.len(),
{
    if hops.len() == 0 {
        Seq::empty()
    } else {
        let earlier = timed_hops(hops.drop_last());
        match hops.last().rtt {
            Some(rtt) => earlier.push((hops.last().ttl, rtt.0)),
            None => earlier,
        }
    }
}

/// Whether every timed hop from `from` on stays at or above `floor`.
pub open spec fn stays_high(timed: Seq<(u8, u32)>, from: int, floor: int) -> bool {
    forall|j: int| from <= j < timed.len() ==> (#[trigger] timed[j]).1 >= floor
}

/// The first long-haul crossing among `timed`, scanning from `k` with `highest` the largest
/// round trip seen so far.
///
/// A jump of `LONG_HAUL_STEP_US` over everything before it is a candidate, and counts when
/// every hop beyond it stays that high: distance does not come back. A spike that comes back
/// down is a busy control plane, and is left out of the running maximum too, so it cannot
/// hide a genuine crossing later.
pub open spec fn long_haul_from(timed: Seq<(u8, u32)>, k: int, highest: Option<u32>) -> Option<u8>
    decreases timed.len() - k,
{
    if k < 0 || k >= timed.len() {
        None
    } else {
        let (ttl, us) = timed[k];
        match highest {
            Some(h) => if us >= h + LONG_HAUL_STEP_US {
                if stays_high(timed, k + 1, h + LONG_HAUL_STEP_US) {
                    Some(ttl)
                } else {
                    long_haul_from(timed, k + 1, highest)
                }
            } else {
                long_haul_from(timed, k + 1, Some(if us > h { us } else { h }))
            },
            None => long_haul_from(timed, k + 1, Some(us)),
        }
    }
}

/// The scan beyond a hop never looks back at it: scanning `timed` from any later place
/// gives what scanning it with that hop taken out gives.
proof fn lemma_scan_skips_removed(timed: Seq<(u8, u32)>, k: int, j: int, highest: Option<u32>)
    requires
        0 <= k < j,
        k < timed.len(),
    ensures
        long_haul_from(timed, j, highest) == long_haul_from(timed.remove(k), j - 1, highest),
    decreases timed.len() - j,
{
    let rest = timed.remove(k);
    if j < timed.len() {
        assert(rest[j - 1] == timed[j]);
        assert forall|f: int| stays_high(timed, j + 1, f) == stays_high(rest, j, f) by {
            if stays_high(timed, j + 1, f) {
                assert forall|m: int| j <= m < rest.len() implies (#[trigger] rest[m]).1 >= f by {
                    assert(rest[m] == timed[m + 1]);
                }
            }
            if stays_high(rest, j, f) {
                assert forall|m: int| j + 1 <= m < timed.len() implies (#[trigger] timed[m]).1
                    >= f by {
                    assert(rest[m - 1] == timed[m]);
                }
            }
        }
        let (ttl, us) = timed[j];
        match highest {
            Some(h) => {
                lemma_scan_skips_removed(timed, k, j + 1, highest);
                lemma_scan_skips_removed(timed, k, j + 1, Some(if us > h { us } else { h }));
            },
            None => {
                lemma_scan_skips_removed(timed, k, j + 1, Some(us));
            },
        }
    }
}

/// A spike changes nothing: a hop whose round trip jumps the long-haul step over the highest
/// before it but does not stay that high is a busy control plane, not distance, so the scan
/// finds exactly what it finds with that hop taken out of the path. In particular it does
/// not raise the baseline against which a later, genuine crossing is measured.
pub proof fn lemma_spike_changes_nothing(timed: Seq<(u8, u32)>, k: int, highest: u32)
    requires
        0 <= k < timed.len(),
        timed[k].1 >= highest + LONG_HAUL_STEP_US,
        !stays_high(timed, k + 1, highest + LONG_HAUL_STEP_US),
    ensures
        long_haul_from(timed, k, Some(highest)) == long_haul_from(
            timed.remove(k),
            k,
            Some(highest),
        ),
{
    lemma_scan_skips_removed(timed, k, k + 1, Some(highest));
}

/// A crossing that stays up is found where it appears: a hop whose round trip jumps the
/// long-haul step over the highest before it, with every hop beyond staying that high, is
/// the long-haul link.
pub proof fn lemma_sustained_jump_is_the_crossing(timed: Seq<(u8, u32)>, k: int, highest: u32)
    requires
        0 <= k < timed.len(),
        timed[k].1 >= highest + LONG_HAUL_STEP_US,
        forall|j: int| k < j < timed.len() ==> (#[trigger] timed[j]).1 >= highest
            + LONG_HAUL_STEP_US,
    ensures
        long_haul_from(timed, k, Some(highest)) == Some(timed[k].0),
{
}

/// Hops that never jump by the long-haul step report no crossing: while every round trip
/// stays below the highest so far plus the step, there is no long-haul link.
pub proof fn lemma_no_jump_no_crossing(timed: Seq<(u8, u32)>, k: int, highest: u32)
    requires
        0 <= k,
        forall|j: int| k <= j < timed.len() ==> (#[trigger] timed[j]).1 < highest
            + LONG_HAUL_STEP_US,
    ensures
        long_haul_from(timed, k, Some(highest)) is None,
    decreases timed.len() - k,
{
    if k < timed.len() {
        let us = timed[k].1;
        let next = if us > highest { us } else { highest };
        assert forall|j: int| k + 1 <= j < timed.len() implies (#[trigger] timed[j]).1 < next
            + LONG_HAUL_STEP_US by {}
        lemma_no_jump_no_crossing(timed, k + 1, next);
    }
}

/// Where a walk stopped working, classifying the furthest answering hop by `classes`.
pub open spec fn path_end_of(hops: Seq<Hop>, reached: bool, policy: AddressPolicy) -> PathEnd {
    if reached {
        PathEnd::Reached
    } else {
        match last_answering_index(hops) {
            None => PathEnd::NothingAnswered,
            Some(i) => {
                let last = hops[i];
                let class = class_of(
                    policy.spec_sentinels(),
                    policy.spec_unusable(),
                    policy.spec_private(),
                    last.address->0,
                );
                match class {
                    AddressClass::Private | AddressClass::Loopback => PathEnd::InsideThisNetwork {
                        last_hop: last.ttl,
                    },
                    AddressClass::CarrierGrade => PathEnd::InsideTheAccessNetwork {
                        last_hop: last.ttl,
                    },
                    _ => match long_haul_from(timed_hops(hops), 0, None) {
                        None => PathEnd::BeforeAnyLongHaulLink { last_hop: last.ttl },
                        Some(at) => PathEnd::BeyondALongHaulLink {
                            last_hop: last.ttl,
                            long_haul_at: at,
                        },
                    },
                }
            },
        }
    }
}

proof fn lemma_last_answering(hops: Seq<Hop>)
    ensures
        last_answering_index(hops) matches Some(i) ==> 0 <= i < hops.len() && hops[i].address is Some,
    decreases hops.len(),
{
    if hops.len() > 0 && hops.last().address is None {
        lemma_last_answering(hops.drop_last());
    }
}

/// The timed hops of a walk, in order.
fn timed_of(hops: &[Hop]) -> (timed: Vec<(u8, u32)>)
    ensures
        timed@ == timed_hops(hops@),
{
    let mut timed: Vec<(u8, u32)> = Vec::new();
    let mut i: usize = 0;
    while i < hops.len()
        invariant
            i <= hops@.len(),
            timed@ == timed_hops(hops@.take(i as int)),
        decreases hops@.len() - i,
    {
        proof {
            assert(hops@.take(i + 1).drop_last() =~= hops@.take(i as int));
        }
        let hop = hops[i];
        match hop.rtt {
            Some(rtt) => timed.push((hop.ttl, rtt.as_micros())),
            None => {},
        }
        i = i + 1;
    }
    proof {
        assert(hops@.take(hops@.len() as int) =~= hops@);
    }
    timed
}

/// Finds the first hop where the path crosses a long-distance link.
fn long_haul_hop(trace: &PathTrace) -> (r: Option<u8>)
    ensures
        r == long_haul_from(timed_hops(trace.spec_hops()), 0, None),
{
    let timed = timed_of(trace.hops());
    let mut highest: Option<u32> = None;
    let mut k: usize = 0;
    while k < timed.len()
        invariant
            k <= timed@.len(),
            timed@ == timed_hops(trace.spec_hops()),
            long_haul_from(timed@, 0, None) == long_haul_from(timed@, k as int, highest),
        decreases timed@.len() - k,
    {
        let (ttl, us) = timed[k];
        match highest {
            Some(h) => {
                if us as u64 >= h as u64 + LONG_HAUL_STEP_US as u64 {
                    let floor: u64 = h as u64 + LONG_HAUL_STEP_US as u64;
                    let mut j: usize = k + 1;
                    while j < timed.len() && timed[j].1 as u64 >= floor
                        invariant
                            k + 1 <= j <= timed@.len(),
                            floor == h + LONG_HAUL_STEP_US,
                            forall|m: int| k + 1 <= m < j ==> (#[trigger] timed@[m]).1 >= floor,
                        decreases timed@.len() - j,
                    {
                        j = j + 1;
                    }
                    if j == timed.len() {
                        proof {
                            assert(stays_high(timed@, k + 1, h + LONG_HAUL_STEP_US));
                            assert(timed@[k as int] == (ttl, us));
                            assert(long_haul_from(timed@, k as int, highest) == Some(ttl));
                        }
                        return Some(ttl);
                    }
                    proof {
                        assert(!stays_high(timed@, k + 1, h + LONG_HAUL_STEP_US));
                    }
                } else {
                    highest = Some(if us > h { us } else { h });
                }
            },
            None => {
                highest = Some(us);
            },
        }
        k = k + 1;
    }
    None
}

/// Decides where a walk stopped working.
pub fn classify(trace: &PathTrace, policy: &AddressPolicy) -> (end: PathEnd)
    requires
        policy.wf(),
    ensures
        end == path_end_of(trace.spec_hops(), trace.spec_reached_target(), *policy),
{
    if trace.reached_target() {
        return PathEnd::Reached;
    }
    proof {
        lemma_last_answering(trace.spec_hops());
    }
    let last = match trace.last_answering() {
        None => {
            return PathEnd::NothingAnswered;
        },
        Some(last) => *last,
    };
    let address = match last.address {
        None => {
            return PathEnd::NothingAnswered;
        },
        Some(address) => address,
    };
    match policy.classify(address) {
        AddressClass::Private | AddressClass::Loopback => {
            return PathEnd::InsideThisNetwork { last_hop: last.ttl };
        },
        AddressClass::CarrierGrade => {
            return PathEnd::InsideTheAccessNetwork { last_hop: last.ttl };
        },
        _ => {},
    }
    match long_haul_hop(trace) {
        None => PathEnd::BeforeAnyLongHaulLink { last_hop: last.ttl },
        Some(long_haul_at) => PathEnd::BeyondALongHaulLink { last_hop: last.ttl, long_haul_at },
    }
}

} // verus!
