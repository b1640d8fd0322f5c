//! Measuring the path to an endpoint that answers nothing.
//!
//! A game's match server replies to no echo and accepts no connection. A walk outward can
//! still find the deepest routers that answer; this module keeps a history for a few of
//! them and decides what their figures together say about the path.
//!
//! One hop is not evidence: routers rate-limit echoes addressed to themselves while
//! forwarding transit traffic perfectly. Degradation is attributed to the path only when
//! the answering hops before the deepest one show it too.
//!
//! The figure is never a round trip to the server: the deepest answering hop sits short of
//! it by an unknown distance. What is carried is the hop's own distance and where the walk
//! said the path stops.

use crate::address::{class_of, ip_before, ip_precedes, AddressPolicy, IpAddr};
use crate::error::Error;
use crate::health::{judged, Health, HealthThresholds};
use crate::history::{taken_since, SampleHistory};
use crate::path::{classify, path_end_of, Hop, PathEnd, PathTrace};
use crate::sample::{ProbeOutcome, ProbeSample};
use crate::stats::{describes, WindowStats};
use crate::time::{Duration, Instant};
use vstd::prelude::*;

verus! {

/// How many of the deepest answering hops stand in for a silent target: one figure to
/// report and two to corroborate it.
pub const EDGE_HOPS: usize = 3;

/// How many samples each edge hop retains: two minutes at the active cadence.
pub const EDGE_HISTORY_CAPACITY: usize = 120;

/// When the route to a silent target is walked again, and how deep the edge is.
#[derive(Debug, Clone, Copy, PartialEq, Eq, Structural)]
pub struct EdgePolicy {
    /// How many of the deepest answering hops to probe.
    pub hops: usize,
    /// How many samples each hop retains.
    pub history_capacity: usize,
    /// How long a route is trusted before it is walked again.
    pub rewalk_after: Duration,
    /// How long the deepest hop may stay silent before the route is walked again.
    pub rewalk_after_silence: Duration,
    /// The shortest gap between two walks, whatever prompts them.
    pub min_rewalk_gap: Duration,
}

impl Default for EdgePolicy {
    /// Three hops of two minutes' history; a walk every five minutes, after twenty seconds
    /// of silence at the deepest hop, and never twice within a minute.
    fn default() -> (p: EdgePolicy)
        ensures
            p.hops == EDGE_HOPS,
            p.history_capacity == EDGE_HISTORY_CAPACITY,
            p.rewalk_after@ == 300 * 1_000_000_000,
            p.rewalk_after_silence@ == 20 * 1_000_000_000,
            p.min_rewalk_gap@ == 60 * 1_000_000_000,
    {
        EdgePolicy {
            hops: EDGE_HOPS,
            history_capacity: EDGE_HISTORY_CAPACITY,
            rewalk_after: Duration::from_secs(300),
            rewalk_after_silence: Duration::from_secs(20),
            min_rewalk_gap: Duration::from_secs(60),
        }
    }
}

impl EdgePolicy {
    /// The policy with a hop count of zero raised to one: an edge of no hops would report
    /// silence forever, which looks exactly like a dead path.
    pub open spec fn spec_sanitised(self) -> EdgePolicy {
        if self.hops == 0 {
            EdgePolicy { hops: 1, ..self }
        } else {
            self
        }
    }

    fn sanitised(self) -> (p: EdgePolicy)
        ensures
            p == self.spec_sanitised(),
    {
        if self.hops == 0 {
            EdgePolicy { hops: 1, ..self }
        } else {
            self
        }
    }
}

/// One probed hop as the contracts see it: distance, address, retained samples, and when
/// it last replied.
pub type HopState = (u8, IpAddr, Seq<ProbeSample>, Option<Instant>);

/// One hop being probed as a stand-in for a target that answers nothing.
#[derive(Debug, Clone)]
struct EdgeHop {
    ttl: u8,
    address: IpAddr,
    history: SampleHistory,
    /// When this hop last replied, which is what the silence rule measures.
    last_answer: Option<Instant>,
}

spec fn hop_state(hop: EdgeHop) -> HopState {
    (hop.ttl, hop.address, hop.history@, hop.last_answer)
}

/// The addresses of `hops`, in order.
pub open spec fn addresses_of(hops: Seq<HopState>) -> Seq<IpAddr> {
    hops.map_values(|h: HopState| h.1)
}

/// The addresses of `picks`, in order.
pub open spec fn picked_addresses(picks: Seq<(u8, IpAddr)>) -> Seq<IpAddr> {
    picks.map_values(|p: (u8, IpAddr)| p.1)
}

/// The elements of `s` that `base` does not hold, in their order in `s`.
pub open spec fn absent_from(base: Seq<IpAddr>, s: Seq<IpAddr>) -> Seq<IpAddr>
    decreases s.len(),
{
    if s.len() == 0 {
        Seq::empty()
    } else {
        let earlier = absent_from(base, s.drop_last());
        if base.contains(s.last()) {
            earlier
        } else {
            earlier.push(s.last())
        }
    }
}

/// Whether a walk's hop answered from an address worth spending a probe on: a public
/// address whose echo round trip means what it says.
pub open spec fn worth_a_slot(hop: Hop, policy: AddressPolicy) -> bool {
    hop.address matches Some(a) && {
        let class = class_of(policy.spec_sentinels(), policy.spec_unusable(), policy.spec_private(), a);
        class.spec_worth_probing() && class.spec_trusts_transport_rtt()
    }
}

/// Scanning `hops` from the deepest, the picks made after `picks`: a hop worth a slot
/// whose router is not already picked, until `limit` are held.
pub open spec fn picks_back(
    hops: Seq<Hop>,
    policy: AddressPolicy,
    limit: nat,
    picks: Seq<(u8, IpAddr)>,
) -> Seq<(u8, IpAddr)>
    decreases hops.len(),
{
    if hops.len() == 0 || picks.len() >= limit {
        picks
    } else {
        let hop = hops.last();
        let next = if worth_a_slot(hop, policy) && !picked_addresses(picks).contains(
            hop.address->0,
        ) {
            picks.push((hop.ttl, hop.address->0))
        } else {
            picks
        };
        picks_back(hops.drop_last(), policy, limit, next)
    }
}

/// The hops of a walk that an edge of `limit` hops probes, shallowest first: none when the
/// target itself answered.
pub open spec fn chosen_hops(trace: PathTrace, policy: AddressPolicy, limit: nat) -> Seq<
    (u8, IpAddr),
> {
    if trace.spec_reached_target() {
        Seq::empty()
    } else {
        picks_back(trace.spec_hops(), policy, limit, Seq::empty()).reverse()
    }
}

/// The hop an edge holds for `pick` after adopting it: the measurements of the hop already
/// at that address under the new distance, or a fresh hop with nothing measured.
pub open spec fn adopted_hop(olds: Seq<HopState>, pick: (u8, IpAddr)) -> HopState {
    if addresses_of(olds).contains(pick.1) {
        let j = held_at(olds, pick.1);
        (pick.0, pick.1, olds[j].2, olds[j].3)
    } else {
        (pick.0, pick.1, Seq::empty(), None)
    }
}

/// A position of `olds` holding `address`, where there is one.
pub open spec fn held_at(olds: Seq<HopState>, address: IpAddr) -> int {
    choose|j: int| 0 <= j < olds.len() && olds[j].1 == address
}

/// The hops an edge holds after adopting `picks`.
pub open spec fn adopted(olds: Seq<HopState>, picks: Seq<(u8, IpAddr)>) -> Seq<HopState> {
    picks.map_values(|p: (u8, IpAddr)| adopted_hop(olds, p))
}

/// Whether `s` is in strictly increasing address order.
pub open spec fn ascending_ips(s: Seq<IpAddr>) -> bool {
    forall|i: int, j: int| 0 <= i < j < s.len() ==> ip_before(#[trigger] s[i], #[trigger] s[j])
}

/// `samples` after one more is recorded under a cap of `capacity`.
pub open spec fn kept_after(samples: Seq<ProbeSample>, sample: ProbeSample, capacity: nat) -> Seq<
    ProbeSample,
> {
    if samples.len() < capacity {
        samples.push(sample)
    } else {
        samples.drop_first().push(sample)
    }
}

/// How long after `earlier` the moment `now` is, or zero when it is not later.
pub open spec fn elapsed(now: Instant, earlier: Instant) -> nat {
    if now@ < earlier@ {
        0
    } else {
        (now@ - earlier@) as nat
    }
}

/// Whether an edge in this state should have its route walked at `now`.
///
/// Never walked: yes. Otherwise never within the minimum gap; then yes when nothing is
/// held or the route has been trusted long enough; else when the deepest hop has been
/// silent, since its last reply or since the walk, for long enough.
pub open spec fn rewalk_due(
    policy: EdgePolicy,
    hops: Seq<HopState>,
    walked_at: Option<Instant>,
    now: Instant,
) -> bool {
    match walked_at {
        None => true,
        Some(w) => {
            let since = elapsed(now, w);
            if since < policy.min_rewalk_gap@ {
                false
            } else if hops.len() == 0 || since >= policy.rewalk_after@ {
                true
            } else {
                let silent_for = match hops.last().3 {
                    Some(at) => elapsed(now, at),
                    None => since,
                };
                silent_for >= policy.rewalk_after_silence@
            }
        },
    }
}

/// The samples of `samples` that fall inside `window` ending at `now`; all of them when the
/// window reaches back past the clock's origin.
pub open spec fn in_window(samples: Seq<ProbeSample>, now: Instant, window: Duration) -> Seq<
    ProbeSample,
> {
    if now@ < window@ {
        samples
    } else {
        taken_since(samples, (now@ - window@) as nat)
    }
}

/// The position of the deepest answering verdict.
pub open spec fn deepest_answering(healths: Seq<Health>) -> Option<int>
    decreases healths.len(),
{
    if healths.len() == 0 {
        None
    } else if healths.last().spec_is_answering() {
        Some(healths.len() - 1)
    } else {
        deepest_answering(healths.drop_last())
    }
}

/// What the edge's verdicts, shallowest first, say about the path.
///
/// Nothing known: not measured yet. Known but none answering: lost. The deepest answering
/// hop clean: healthy. Degraded there: degraded only when some shallower hop answers and
/// every shallower answering hop is degraded too, else uncorroborated.
pub open spec fn quality_from(healths: Seq<Health>) -> PathQuality {
    if forall|i: int| 0 <= i < healths.len() ==> !(#[trigger] healths[i]).spec_is_known() {
        PathQuality::NotMeasuredYet
    } else {
        match deepest_answering(healths) {
            None => PathQuality::Lost,
            Some(r) => if healths[r] != Health::Degraded {
                PathQuality::Healthy
            } else if forall|j: int|
                0 <= j < r ==> !(#[trigger] healths[j]).spec_is_answering() {
                PathQuality::Uncorroborated
            } else if forall|j: int|
                0 <= j < r && (#[trigger] healths[j]).spec_is_answering() ==> healths[j]
                    == Health::Degraded {
                PathQuality::Degraded
            } else {
                PathQuality::Uncorroborated
            },
        }
    }
}

/// Which hops a walk added to the edge and which it took away.
///
/// Returned rather than applied: the caller registers the new hops with the probe engine
/// and releases the old ones.
#[derive(Debug, Clone, PartialEq, Eq, Default)]
pub struct EdgeChange {
    /// Hops that must start being probed, shallowest first.
    pub added: Vec<IpAddr>,
    /// Hops no longer part of the edge, in address order.
    pub removed: Vec<IpAddr>,
}

impl EdgeChange {
    /// Whether the walk changed nothing.
    pub fn is_empty(&self) -> (b: bool)
        ensures
            b == (self.added@.len() == 0 && self.removed@.len() == 0),
    {
        self.added.len() == 0 && self.removed.len() == 0
    }
}

/// The deepest hops that answer on the way to a target that does not.
#[derive(Debug, Clone)]
pub struct PathEdge {
    policy: EdgePolicy,
    /// Shallowest first, so the deepest — the one whose figure is reported — is last.
    hops: Vec<EdgeHop>,
    /// `None` until the first walk lands, which is what makes a new edge ask for one.
    walked_at: Option<Instant>,
    end: PathEnd,
}

impl PathEdge {
    /// The hops, shallowest first.
    pub closed spec fn view(self) -> Seq<HopState> {
        self.hops@.map_values(|h: EdgeHop| hop_state(h))
    }

    /// The policy in force.
    pub closed spec fn spec_policy(self) -> EdgePolicy {
        self.policy
    }

    /// When the route was last walked.
    pub closed spec fn spec_walked_at(self) -> Option<Instant> {
        self.walked_at
    }

    /// Where the last walk said the path stops.
    pub closed spec fn spec_end(self) -> PathEnd {
        self.end
    }

    /// At least one hop is allowed, no more are held than allowed, every history is sound
    /// and capped by the policy, and no router is held twice.
    pub closed spec fn wf(self) -> bool {
        &&& self.policy.hops >= 1
        &&& self.hops@.len() <= self.policy.hops
        &&& forall|i: int|
            0 <= i < self.hops@.len() ==> (#[trigger] self.hops@[i]).history.wf()
                && self.hops@[i].history.spec_capacity() == self.policy.history_capacity
        &&& addresses_of(self@).no_duplicates()
    }

    /// What every well-formed edge keeps.
    pub proof fn lemma_wf(self)
        requires
            self.wf(),
        ensures
            self.spec_policy().hops >= 1,
            self@.len() <= self.spec_policy().hops,
            addresses_of(self@).no_duplicates(),
            forall|i: int|
                0 <= i < self@.len() ==> (#[trigger] self@[i]).2.len()
                    <= self.spec_policy().history_capacity,
    {
        assert forall|i: int| 0 <= i < self@.len() implies (#[trigger] self@[i]).2.len()
            <= self.spec_policy().history_capacity by {
            self.hops@[i].history.lemma_within_capacity();
        }
    }

    /// An edge with no hops yet, which asks to be walked at once.
    pub fn new(policy: EdgePolicy) -> (e: PathEdge)
        ensures
            e.wf(),
            e@ == Seq::<HopState>::empty(),
            e.spec_policy() == policy.spec_sanitised(),
            e.spec_walked_at() is None,
            e.spec_end() == PathEnd::NothingAnswered,
    {
        let e = PathEdge {
            policy: policy.sanitised(),
            hops: Vec::new(),
            walked_at: None,
            end: PathEnd::NothingAnswered,
        };
        assert(e@ =~= Seq::<HopState>::empty());
        e
    }

    /// Where `address` is held, if it is.
    fn position_of(&self, address: IpAddr) -> (r: Option<usize>)
        ensures
            r matches Some(j) ==> j < self@.len() && self@[j as int].1 == address,
            r is None ==> !addresses_of(self@).contains(address),
    {
        let mut j: usize = 0;
        while j < self.hops.len()
            invariant
                j <= self.hops@.len(),
                forall|k: int| 0 <= k < j ==> self.hops@[k].address != address,
            decreases self.hops@.len() - j,
        {
            if self.hops[j].address == address {
                return Some(j);
            }
            j = j + 1;
        }
        proof {
            if addresses_of(self@).contains(address) {
                let k = choose|k: int|
                    0 <= k < addresses_of(self@).len() && addresses_of(self@)[k] == address;
                assert(self.hops@[k].address == address);
            }
        }
        None
    }

    /// Whether an address is part of the edge.
    pub fn contains(&self, address: IpAddr) -> (b: bool)
        ensures
            b == addresses_of(self@).contains(address),
    {
        match self.position_of(address) {
            Some(j) => {
                assert(addresses_of(self@)[j as int] == address);
                true
            },
            None => false,
        }
    }

    /// How many hops are being probed.
    pub fn len(&self) -> (n: usize)
        ensures
            n == self@.len(),
    {
        self.hops.len()
    }

    /// Whether the edge probes nothing: before the first walk, or after one that found no
    /// hop worth probing.
    pub fn is_empty(&self) -> (b: bool)
        ensures
            b == (self@.len() == 0),
    {
        self.hops.len() == 0
    }

    /// The addresses being probed, shallowest first.
    pub fn addresses(&self) -> (v: Vec<IpAddr>)
        ensures
            v@ == addresses_of(self@),
    {
        let mut v: Vec<IpAddr> = Vec::new();
        let mut j: usize = 0;
        while j < self.hops.len()
            invariant
                j <= self.hops@.len(),
                v@ == addresses_of(self@).take(j as int),
            decreases self.hops@.len() - j,
        {
            v.push(self.hops[j].address);
            j = j + 1;
            assert(v@ =~= addresses_of(self@).take(j as int));
        }
        assert(v@ =~= addresses_of(self@));
        v
    }

    /// When the route was last walked, or `None` if it never has been.
    pub fn walked_at(&self) -> (w: Option<Instant>)
        ensures
            w == self.spec_walked_at(),
    {
        self.walked_at
    }

    /// Where the last walk said the path stops.
    pub fn end(&self) -> (e: PathEnd)
        ensures
            e == self.spec_end(),
    {
        self.end
    }
}

/// What an edge of hops says about the path to a target that answers nothing.
#[derive(Debug, Clone, Copy, PartialEq, Eq, Structural)]
#[non_exhaustive]
pub enum PathQuality {
    /// No hop has been measured enough to say anything yet.
    NotMeasuredYet,
    /// The deepest hop that answers is within every threshold.
    Healthy,
    /// Degradation shows at every answering hop, so it belongs to the path.
    Degraded,
    /// The deepest hop's figure moved while the hops before it stayed clean, or no hop
    /// before it answers to say either way.
    ///
    /// Not a path fault: it is at least as likely to be that one router's control plane.
    Uncorroborated,
    /// Nothing on the edge answers any more: the route moved, or the path broke short of
    /// the hops. A re-walk tells the two apart.
    Lost,
}

/// One hop of the edge, measured.
#[derive(Debug, Clone, Copy, PartialEq, Eq, Structural)]
pub struct EdgeHopReading {
    /// The hop's own distance in routers, never the distance to the target.
    pub ttl: u8,
    /// Which router this is.
    pub address: IpAddr,
    /// What its own samples say.
    pub health: Health,
    /// Those samples.
    pub stats: WindowStats,
}

/// The verdicts of `hops`, in order.
pub open spec fn healths_of(hops: Seq<EdgeHopReading>) -> Seq<Health> {
    hops.map_values(|h: EdgeHopReading| h.health)
}

/// The edge's measurement of a path whose destination answers nothing.
#[derive(Debug, Clone, PartialEq)]
pub struct EdgeReading {
    /// The hops, shallowest first.
    pub hops: Vec<EdgeHopReading>,
    /// Index into `hops` of the deepest one that is answering, whose figures are shown;
    /// `None` when none of them is.
    pub reported: Option<usize>,
    /// What the hops say together.
    pub quality: PathQuality,
    /// Where the last walk said the path stops.
    pub end: PathEnd,
}

impl EdgeReading {
    /// The hop whose figures are reported.
    pub fn reported_hop(&self) -> (h: Option<&EdgeHopReading>)
        ensures
            match self.reported {
                Some(i) if i < self.hops@.len() => h == Some(&self.hops@[i as int]),
                _ => h is None,
            },
    {
        match self.reported {
            Some(i) => if i < self.hops.len() {
                Some(&self.hops[i])
            } else {
                None
            },
            None => None,
        }
    }
}

/// The deepest answering verdict among `hops`, as `reading` reports it.
fn deepest_answering_of(hops: &Vec<EdgeHopReading>) -> (r: Option<usize>)
    ensures
        match deepest_answering(healths_of(hops@)) {
            None => r is None,
            Some(i) => r == Some(i as usize),
        },
{
    let mut k: usize = hops.len();
    proof {
        assert(healths_of(hops@).take(k as int) =~= healths_of(hops@));
    }
    while k > 0 && !hops[k - 1].health.is_answering()
        invariant
            k <= hops@.len(),
            deepest_answering(healths_of(hops@)) == deepest_answering(
                healths_of(hops@).take(k as int),
            ),
        decreases k,
    {
        proof {
            assert(healths_of(hops@).take(k as int).drop_last() =~= healths_of(hops@).take(
                k - 1,
            ));
        }
        k = k - 1;
    }
    if k == 0 {
        proof {
            assert(healths_of(hops@).take(0) =~= Seq::<Health>::empty());
        }
        None
    } else {
        Some(k - 1)
    }
}

/// What the hops together say about the path.
fn quality_of(hops: &Vec<EdgeHopReading>, reported: Option<usize>) -> (q: PathQuality)
    requires
        match deepest_answering(healths_of(hops@)) {
            None => reported is None,
            Some(i) => reported == Some(i as usize),
        },
    ensures
        q == quality_from(healths_of(hops@)),
{
    let ghost healths = healths_of(hops@);
    let mut any_known = false;
    let mut i: usize = 0;
    while i < hops.len()
        invariant
            i <= hops@.len(),
            healths == healths_of(hops@),
            any_known == exists|k: int| 0 <= k < i && (#[trigger] healths[k]).spec_is_known(),
        decreases hops@.len() - i,
    {
        assert(healths[i as int] == hops@[i as int].health);
        if hops[i].health.is_known() {
            any_known = true;
        }
        i = i + 1;
    }
    if !any_known {
        return PathQuality::NotMeasuredYet;
    }
    proof {
        lemma_deepest_answering(healths);
    }
    let reported = match reported {
        None => {
            return PathQuality::Lost;
        },
        Some(r) => r,
    };
    if hops[reported].health != Health::Degraded {
        return PathQuality::Healthy;
    }
    let mut answering = false;
    let mut all_degraded = true;
    let mut j: usize = 0;
    while j < reported
        invariant
            j <= reported < hops@.len(),
            healths == healths_of(hops@),
            answering == exists|k: int| 0 <= k < j && (#[trigger] healths[k]).spec_is_answering(),
            all_degraded == forall|k: int|
                0 <= k < j && (#[trigger] healths[k]).spec_is_answering() ==> healths[k]
                    == Health::Degraded,
        decreases reported - j,
    {
        let health = hops[j].health;
        assert(healths[j as int] == health);
        if health.is_answering() {
            answering = true;
            if health != Health::Degraded {
                all_degraded = false;
            }
        }
        j = j + 1;
    }
    if !answering {
        PathQuality::Uncorroborated
    } else if all_degraded {
        PathQuality::Degraded
    } else {
        PathQuality::Uncorroborated
    }
}

/// The deepest answering verdict is an answering one, and nothing deeper answers.
pub proof fn lemma_deepest_answering(healths: Seq<Health>)
    ensures
        deepest_answering(healths) matches Some(r) ==> 0 <= r < healths.len()
            && healths[r].spec_is_answering() && forall|k: int|
            r < k < healths.len() ==> !(#[trigger] healths[k]).spec_is_answering(),
        deepest_answering(healths) is None ==> forall|k: int|
            0 <= k < healths.len() ==> !(#[trigger] healths[k]).spec_is_answering(),
    decreases healths.len(),
{
    if healths.len() > 0 && !healths.last().spec_is_answering() {
        lemma_deepest_answering(healths.drop_last());
        assert forall|k: int| 0 <= k < healths.len() - 1 implies #[trigger] healths[k]
            == healths.drop_last()[k] by {}
    }
}

/// How the deepest answering hop and the hops before it decide the path's quality, stated
/// over the hops' verdicts alone. Let `r` be a hop that answers with nothing deeper
/// answering. When it is clean the path is healthy. When it is degraded, the path is
/// degraded only when some shallower hop answers and every shallower answering hop is
/// degraded too; a clean shallower hop, or no shallower hop answering at all, leaves the
/// degradation uncorroborated, since it may be that one router's control plane.
pub proof fn lemma_quality_needs_corroboration(healths: Seq<Health>, r: int)
    requires
        0 <= r < healths.len(),
        healths[r].spec_is_answering(),
        forall|k: int| r < k < healths.len() ==> !(#[trigger] healths[k]).spec_is_answering(),
    ensures
        healths[r] is Healthy ==> quality_from(healths) is Healthy,
        healths[r] is Degraded && (exists|j: int| 0 <= j < r && (#[trigger] healths[j]) is Healthy)
            ==> quality_from(healths) is Uncorroborated,
        healths[r] is Degraded && (forall|j: int|
            0 <= j < r ==> !(#[trigger] healths[j]).spec_is_answering()) ==> quality_from(
            healths,
        ) is Uncorroborated,
        healths[r] is Degraded && (exists|j: int| 0 <= j < r && (#[trigger] healths[j]) is Degraded)
            && (forall|j: int| 0 <= j < r ==> !((#[trigger] healths[j]) is Healthy))
            ==> quality_from(healths) is Degraded,
{
    lemma_deepest_answering(healths);
    assert(!(forall|i: int| 0 <= i < healths.len() ==> !(#[trigger] healths[i]).spec_is_known()))
        by {
        assert(healths[r].spec_is_known());
    }
    let d = deepest_answering(healths);
    assert(d == Some(r)) by {
        let q = d->0;
        if q < r {
            assert(!healths[r].spec_is_answering());
        }
        if q > r {
            assert(!healths[q].spec_is_answering());
        }
    }
}

/// A path with no verdict known is not measured yet, and one with verdicts known but no hop
/// answering is lost; a path with an answering hop is never either.
pub proof fn lemma_unanswered_paths(healths: Seq<Health>)
    ensures
        (forall|i: int| 0 <= i < healths.len() ==> (#[trigger] healths[i]) is Unknown)
            ==> quality_from(healths) is NotMeasuredYet,
        (exists|i: int| 0 <= i < healths.len() && !((#[trigger] healths[i]) is Unknown)) && (
        forall|i: int| 0 <= i < healths.len() ==> !(#[trigger] healths[i]).spec_is_answering())
            ==> quality_from(healths) is Lost,
        (exists|i: int| 0 <= i < healths.len() && (#[trigger] healths[i]).spec_is_answering())
            ==> !(quality_from(healths) is NotMeasuredYet) && !(quality_from(healths) is Lost),
{
    lemma_deepest_answering(healths);
    if exists|i: int| 0 <= i < healths.len() && (#[trigger] healths[i]).spec_is_answering() {
        let i = choose|i: int| 0 <= i < healths.len() && (#[trigger] healths[i]).spec_is_answering();
        assert(healths[i].spec_is_known());
    }
    if exists|i: int| 0 <= i < healths.len() && !((#[trigger] healths[i]) is Unknown) {
        let i = choose|i: int| 0 <= i < healths.len() && !((#[trigger] healths[i]) is Unknown);
        assert(healths[i].spec_is_known());
    }
}

/// A path reading is degraded only on corroborated evidence: the deepest answering hop is
/// degraded, and some shallower hop answers, every one of them degraded.
pub proof fn lemma_degraded_reading_is_corroborated(healths: Seq<Health>)
    requires
        quality_from(healths) is Degraded,
    ensures
        deepest_answering(healths) matches Some(r) && healths[r] is Degraded && (exists|j: int|
            0 <= j < r && (#[trigger] healths[j]) is Degraded) && (forall|j: int|
            0 <= j < r ==> !((#[trigger] healths[j]) is Healthy)),
{
    lemma_deepest_answering(healths);
    let r = deepest_answering(healths)->0;
    let j = choose|j: int| 0 <= j < r && (#[trigger] healths[j]).spec_is_answering();
    assert(healths[j] is Degraded);
    assert forall|k: int| 0 <= k < r implies !((#[trigger] healths[k]) is Healthy) by {
        if healths[k] is Healthy {
            assert(healths[k].spec_is_answering());
        }
    }
}

/// Whether `picks` already holds a pick at `address`.
fn picked(picks: &Vec<(u8, IpAddr)>, address: IpAddr) -> (b: bool)
    ensures
        b == picked_addresses(picks@).contains(address),
{
    let mut k: usize = 0;
    while k < picks.len()
        invariant
            k <= picks@.len(),
            forall|m: int| 0 <= m < k ==> picks@[m].1 != address,
        decreases picks@.len() - k,
    {
        if picks[k].1 == address {
            assert(picked_addresses(picks@)[k as int] == address);
            return true;
        }
        k = k + 1;
    }
    proof {
        if picked_addresses(picks@).contains(address) {
            let m = choose|m: int|
                0 <= m < picked_addresses(picks@).len() && picked_addresses(picks@)[m] == address;
            assert(picks@[m].1 == address);
        }
    }
    false
}

/// Scanning from the deepest keeps the picks distinct and within the limit.
pub proof fn lemma_picks_back(
    hops: Seq<Hop>,
    policy: AddressPolicy,
    limit: nat,
    picks: Seq<(u8, IpAddr)>,
)
    requires
        picks.len() <= limit,
        picked_addresses(picks).no_duplicates(),
    ensures
        picks_back(hops, policy, limit, picks).len() <= limit,
        picked_addresses(picks_back(hops, policy, limit, picks)).no_duplicates(),
    decreases hops.len(),
{
    if hops.len() == 0 || picks.len() >= limit {
    } else {
        let hop = hops.last();
        if worth_a_slot(hop, policy) && !picked_addresses(picks).contains(hop.address->0) {
            let next = picks.push((hop.ttl, hop.address->0));
            assert(picked_addresses(next) =~= picked_addresses(picks).push(hop.address->0));
            lemma_picks_back(hops.drop_last(), policy, limit, next);
        } else {
            lemma_picks_back(hops.drop_last(), policy, limit, picks);
        }
    }
}

/// The hops an edge of `limit` hops probes are distinct routers, no more than `limit`.
pub proof fn lemma_chosen_hops(trace: PathTrace, policy: AddressPolicy, limit: nat)
    ensures
        chosen_hops(trace, policy, limit).len() <= limit,
        picked_addresses(chosen_hops(trace, policy, limit)).no_duplicates(),
        trace.spec_reached_target() ==> chosen_hops(trace, policy, limit).len() == 0,
{
    if !trace.spec_reached_target() {
        let back = picks_back(trace.spec_hops(), policy, limit, Seq::empty());
        assert(picked_addresses(Seq::<(u8, IpAddr)>::empty()) =~= Seq::<IpAddr>::empty());
        lemma_picks_back(trace.spec_hops(), policy, limit, Seq::empty());
        let chosen = chosen_hops(trace, policy, limit);
        assert(chosen.len() == back.len());
        assert forall|i: int, j: int|
            0 <= i < picked_addresses(chosen).len() && 0 <= j < picked_addresses(chosen).len()
                && i != j implies picked_addresses(chosen)[i] != picked_addresses(chosen)[j] by {
            assert(picked_addresses(chosen)[i] == picked_addresses(back)[back.len() - 1 - i]);
            assert(picked_addresses(chosen)[j] == picked_addresses(back)[back.len() - 1 - j]);
        }
    }
}

/// What `absent_from` holds: the members of `s` that `base` lacks.
pub proof fn lemma_absent_from(base: Seq<IpAddr>, s: Seq<IpAddr>)
    ensures
        forall|a: IpAddr|
            #[trigger] absent_from(base, s).contains(a) <==> (s.contains(a) && !base.contains(a)),
        absent_from(base, s).len() <= s.len(),
    decreases s.len(),
{
    if s.len() > 0 {
        lemma_absent_from(base, s.drop_last());
        let earlier = absent_from(base, s.drop_last());
        assert forall|a: IpAddr| #[trigger] absent_from(base, s).contains(a) <==> (s.contains(a)
            && !base.contains(a)) by {
            if s.contains(a) && !base.contains(a) {
                let k = choose|k: int| 0 <= k < s.len() && s[k] == a;
                if k < s.len() - 1 {
                    assert(s.drop_last()[k] == a);
                    assert(earlier.contains(a));
                    let m = choose|m: int| 0 <= m < earlier.len() && earlier[m] == a;
                    assert(absent_from(base, s)[m] == a);
                } else {
                    assert(absent_from(base, s).last() == a);
                }
            }
            if absent_from(base, s).contains(a) {
                let m = choose|m: int|
                    0 <= m < absent_from(base, s).len() && absent_from(base, s)[m] == a;
                if m < earlier.len() {
                    assert(earlier[m] == a);
                    assert(earlier.contains(a));
                    assert(s.drop_last().contains(a));
                    let k = choose|k: int|
                        0 <= k < s.drop_last().len() && s.drop_last()[k] == a;
                    assert(s[k] == a);
                } else {
                    assert(s.last() == a);
                    assert(s[s.len() - 1] == a);
                }
            }
        }
    }
}

/// Distinct addresses are ordered one way or the other, and the order is transitive.
pub proof fn lemma_ip_order()
    ensures
        forall|a: IpAddr, b: IpAddr| a != b ==> ip_before(a, b) || ip_before(b, a),
        forall|a: IpAddr| !ip_before(a, a),
        forall|a: IpAddr, b: IpAddr, c: IpAddr|
            #[trigger] ip_before(a, b) && #[trigger] ip_before(b, c) ==> ip_before(a, c),
{
}

/// Inserts `a` into an ascending `v` where it belongs.
fn insert_ascending(v: &mut Vec<IpAddr>, a: IpAddr)
    requires
        ascending_ips(old(v)@),
        !old(v)@.contains(a),
    ensures
        ascending_ips(final(v)@),
        forall|x: IpAddr| #[trigger] final(v)@.contains(x) <==> (old(v)@.contains(x) || x == a),
{
    proof {
        lemma_ip_order();
    }
    let ghost before = v@;
    let mut p: usize = 0;
    while p < v.len() && ip_precedes(&v[p], &a)
        invariant
            v@ == before,
            p <= v@.len(),
            forall|k: int| 0 <= k < p ==> ip_before(#[trigger] v@[k], a),
        decreases v@.len() - p,
    {
        p = p + 1;
    }
    proof {
        if p < before.len() {
            assert(before[p as int] != a);
            assert(ip_before(a, before[p as int]));
            assert forall|k: int| p <= k < before.len() implies ip_before(a, #[trigger] before[k]) by {
                if k > p {
                    assert(ip_before(before[p as int], before[k]));
                }
            }
        }
    }
    v.insert(p, a);
    proof {
        let after = v@;
        assert(after =~= before.insert(p as int, a));
        assert forall|i: int, j: int| 0 <= i < j < after.len() implies ip_before(
            #[trigger] after[i],
            #[trigger] after[j],
        ) by {
            if j < p {
                assert(after[i] == before[i] && after[j] == before[j]);
            } else if j == p {
                assert(after[i] == before[i]);
            } else if i < p {
                assert(after[i] == before[i] && after[j] == before[j - 1]);
                assert(ip_before(before[i], a));
                assert(ip_before(a, before[j - 1]));
            } else if i == p {
                assert(after[j] == before[j - 1]);
            } else {
                assert(after[i] == before[i - 1] && after[j] == before[j - 1]);
            }
        }
        assert forall|x: IpAddr| #[trigger] after.contains(x) <==> (before.contains(x) || x == a) by {
            if after.contains(x) {
                let k = choose|k: int| 0 <= k < after.len() && after[k] == x;
                if k < p {
                    assert(before[k] == x);
                } else if k > p {
                    assert(before[k - 1] == x);
                }
            }
            if before.contains(x) {
                let k = choose|k: int| 0 <= k < before.len() && before[k] == x;
                if k < p {
                    assert(after[k] == x);
                } else {
                    assert(after[k + 1] == x);
                }
            }
            if x == a {
                assert(after[p as int] == a);
            }
        }
    }
}

impl PathEdge {
    /// The hops of a walk that are worth probing, shallowest first.
    fn pick_hops(&self, trace: &PathTrace, addresses: &AddressPolicy) -> (v: Vec<(u8, IpAddr)>)
        requires
            addresses.wf(),
        ensures
            v@ == chosen_hops(*trace, *addresses, self.policy.hops as nat),
    {
        if trace.reached_target() {
            // The target answers for itself: an edge would measure a router instead of the
            // destination while a real round trip was available.
            return Vec::new();
        }
        let hops = trace.hops();
        let limit = self.policy.hops;
        let ghost whole = picks_back(hops@, *addresses, limit as nat, Seq::empty());
        let mut picks: Vec<(u8, IpAddr)> = Vec::new();
        let mut i: usize = hops.len();
        proof {
            assert(hops@.take(i as int) =~= hops@);
        }
        while i > 0 && picks.len() < limit
            invariant
                i <= hops@.len(),
                addresses.wf(),
                whole == picks_back(hops@.take(i as int), *addresses, limit as nat, picks@),
            decreases i,
        {
            proof {
                assert(hops@.take(i as int).drop_last() =~= hops@.take(i - 1));
            }
            let hop = hops[i - 1];
            match hop.address {
                Some(address) => {
                    let class = addresses.classify(address);
                    // One router can answer at two distances across a load-balanced link;
                    // probing it twice would let it corroborate its own rate limiting.
                    if class.worth_probing() && class.trusts_transport_rtt() && !picked(
                        &picks,
                        address,
                    ) {
                        picks.push((hop.ttl, address));
                    }
                },
                None => {},
            }
            i = i - 1;
        }
        proof {
            if i == 0 {
                assert(hops@.take(0) =~= Seq::<Hop>::empty());
            }
        }
        let n = picks.len();
        let mut v: Vec<(u8, IpAddr)> = Vec::new();
        let mut k: usize = n;
        while k > 0
            invariant
                k <= n == picks@.len(),
                v@ =~= Seq::new((n - k) as nat, |j: int| picks@[n - 1 - j]),
            decreases k,
        {
            v.push(picks[k - 1]);
            k = k - 1;
        }
        proof {
            if n == 0 {
                assert(v@ =~= picks@.reverse());
            } else {
                assert(v@ =~= picks@.reverse());
            }
        }
        v
    }

    /// Takes the hops of a completed walk, keeping the history of any hop still on the
    /// route.
    ///
    /// A route that has not changed keeps every sample and hands back an empty change. A
    /// walk that reached the target leaves no edge. Hops the address policy says are not
    /// worth probing are passed over. A router already held keeps its measurements under
    /// its new distance.
    ///
    /// Returns `Error::ZeroCapacity` when a new hop would need a history that can hold
    /// nothing; the edge is then left exactly as it was.
    pub fn adopt(&mut self, trace: &PathTrace, addresses: &AddressPolicy, now: Instant) -> (r:
        Result<EdgeChange, Error>)
        requires
            old(self).wf(),
            addresses.wf(),
        ensures
            final(self).wf(),
            ({
                let chosen = chosen_hops(*trace, *addresses, old(self).spec_policy().hops as nat);
                let fresh = absent_from(addresses_of(old(self)@), picked_addresses(chosen));
                &&& r is Err <==> (fresh.len() > 0 && old(self).spec_policy().history_capacity
                    == 0)
                &&& r is Err ==> r == Err::<EdgeChange, Error>(Error::ZeroCapacity)
                    && *final(self) == *old(self)
                &&& r matches Ok(change) ==> {
                    &&& final(self)@ == adopted(old(self)@, chosen)
                    &&& final(self).spec_policy() == old(self).spec_policy()
                    &&& final(self).spec_walked_at() == Some(now)
                    &&& final(self).spec_end() == path_end_of(
                        trace.spec_hops(),
                        trace.spec_reached_target(),
                        *addresses,
                    )
                    &&& change.added@ == fresh
                    &&& ascending_ips(change.removed@)
                    &&& forall|a: IpAddr| #[trigger]
                        change.removed@.contains(a) <==> (addresses_of(old(self)@).contains(a)
                            && !picked_addresses(chosen).contains(a))
                }
            }),
    {
        let chosen = self.pick_hops(trace, addresses);
        let ghost olds = self@;
        let ghost picks = picked_addresses(chosen@);
        proof {
            lemma_chosen_hops(*trace, *addresses, self.policy.hops as nat);
            lemma_absent_from(addresses_of(olds), picks);
        }
        let capacity = self.policy.history_capacity;
        let mut added: Vec<IpAddr> = Vec::new();
        let mut kept: Vec<EdgeHop> = Vec::new();
        let mut i: usize = 0;
        while i < chosen.len()
            invariant
                i <= chosen@.len(),
                chosen@ == chosen_hops(*trace, *addresses, self.policy.hops as nat),
                *self == *old(self),
                self@ == olds,
                self.wf(),
                picks == picked_addresses(chosen@),
                capacity == self.policy.history_capacity,
                added@ == absent_from(addresses_of(olds), picks.take(i as int)),
                capacity == 0 ==> added@.len() == 0,
                kept@.len() == i,
                forall|k: int|
                    0 <= k < i ==> hop_state(#[trigger] kept@[k]) == adopted_hop(olds, chosen@[k]),
                forall|k: int|
                    0 <= k < i ==> (#[trigger] kept@[k]).history.wf()
                        && kept@[k].history.spec_capacity() == capacity,
            decreases chosen@.len() - i,
        {
            proof {
                assert(picks.take(i + 1).drop_last() =~= picks.take(i as int));
                assert(picks.take(i + 1).last() == chosen@[i as int].1);
            }
            let (ttl, address) = chosen[i];
            match self.position_of(address) {
                Some(j) => {
                    let history = self.hops[j].history.copied();
                    kept.push(
                        EdgeHop { ttl, address, history, last_answer: self.hops[j].last_answer },
                    );
                    proof {
                        assert(olds[j as int] == hop_state(self.hops@[j as int]));
                        assert(addresses_of(olds)[j as int] == address);
                        assert(addresses_of(olds).contains(address));
                        assert(0 <= j < olds.len() && olds[j as int].1 == address);
                        let jj = held_at(olds, address);
                        assert(addresses_of(olds)[jj] == address);
                        assert(jj == j as int);
                        assert(chosen@[i as int] == (ttl, address));
                        assert(hop_state(kept@[i as int]) == adopted_hop(olds, chosen@[i as int]));
                    }
                },
                None => {
                    let history = match SampleHistory::new(capacity) {
                        Ok(history) => history,
                        Err(e) => {
                            proof {
                                lemma_absent_from(addresses_of(olds), picks);
                                assert(picks[i as int] == address);
                                assert(picks.contains(address));
                                assert(absent_from(addresses_of(olds), picks).contains(address));
                            }
                            return Err(e);
                        },
                    };
                    added.push(address);
                    kept.push(EdgeHop { ttl, address, history, last_answer: None });
                    proof {
                        assert(chosen@[i as int] == (ttl, address));
                        assert(hop_state(kept@[i as int]) == adopted_hop(olds, chosen@[i as int]));
                    }
                },
            }
            i = i + 1;
        }
        proof {
            assert(picks.take(chosen@.len() as int) =~= picks);
        }
        let mut removed: Vec<IpAddr> = Vec::new();
        let mut k: usize = 0;
        while k < self.hops.len()
            invariant
                k <= self.hops@.len(),
                self@ == olds,
                self.wf(),
                picks == picked_addresses(chosen@),
                ascending_ips(removed@),
                forall|a: IpAddr| #[trigger]
                    removed@.contains(a) <==> (addresses_of(olds).take(k as int).contains(a)
                        && !picks.contains(a)),
            decreases self.hops@.len() - k,
        {
            let address = self.hops[k].address;
            proof {
                let prefix = addresses_of(olds).take(k as int);
                let longer = addresses_of(olds).take(k + 1);
                assert(longer[k as int] == address);
                assert forall|a: IpAddr| longer.contains(a) <==> (prefix.contains(a) || a == address) by {
                    if longer.contains(a) {
                        let m = choose|m: int| 0 <= m < longer.len() && longer[m] == a;
                        if m < k {
                            assert(prefix[m] == a);
                        }
                    }
                    if prefix.contains(a) {
                        let m = choose|m: int| 0 <= m < prefix.len() && prefix[m] == a;
                        assert(longer[m] == a);
                    }
                }
                if prefix.contains(address) {
                    let m = choose|m: int| 0 <= m < prefix.len() && prefix[m] == address;
                    assert(addresses_of(olds)[m] == addresses_of(olds)[k as int]);
                }
            }
            if !picked(&chosen, address) {
                insert_ascending(&mut removed, address);
            }
            k = k + 1;
        }
        proof {
            assert(addresses_of(olds).take(self.hops@.len() as int) =~= addresses_of(olds));
        }
        let end = classify(trace, addresses);
        self.hops = kept;
        self.walked_at = Some(now);
        self.end = end;
        proof {
            assert(self@ =~= adopted(olds, chosen@));
            assert(addresses_of(self@) =~= picks);
        }
        Ok(EdgeChange { added, removed })
    }
}

impl PathEdge {
    /// Records a probe result against one of the hops.
    ///
    /// Returns `false`, changing nothing, for an address not part of the edge: a result
    /// that arrived after a re-walk moved on. A reply also stamps when the hop last
    /// answered.
    pub fn record(&mut self, address: IpAddr, sample: ProbeSample) -> (b: bool)
        requires
            old(self).wf(),
        ensures
            final(self).wf(),
            b == addresses_of(old(self)@).contains(address),
            !b ==> *final(self) == *old(self),
            b ==> {
                let j = held_at(old(self)@, address);
                let hop = old(self)@[j];
                &&& 0 <= j < old(self)@.len()
                &&& final(self)@ == old(self)@.update(
                    j,
                    (
                        hop.0,
                        hop.1,
                        kept_after(hop.2, sample, old(self).spec_policy().history_capacity as nat),
                        if sample.outcome is Success {
                            Some(sample.at)
                        } else {
                            hop.3
                        },
                    ),
                )
                &&& final(self).spec_policy() == old(self).spec_policy()
                &&& final(self).spec_walked_at() == old(self).spec_walked_at()
                &&& final(self).spec_end() == old(self).spec_end()
            },
    {
        let ghost olds = self@;
        let j = match self.position_of(address) {
            None => {
                return false;
            },
            Some(j) => j,
        };
        proof {
            assert(addresses_of(olds)[j as int] == address);
            assert(0 <= j < olds.len() && olds[j as int].1 == address);
            let jj = held_at(olds, address);
            assert(addresses_of(olds)[jj] == address);
            assert(jj == j as int);
            self.hops@[j as int].history.lemma_within_capacity();
        }
        let mut hop = self.hops.remove(j);
        if sample.outcome.rtt().is_some() {
            hop.last_answer = Some(sample.at);
        }
        hop.history.record(sample);
        self.hops.insert(j, hop);
        proof {
            assert(self@ =~= olds.update(j as int, hop_state(hop)));
            assert(addresses_of(self@) =~= addresses_of(olds));
        }
        true
    }

    /// Drops a hop nothing can measure, so its slot is not spent on silence.
    ///
    /// Answering a time-to-live expiry does not oblige a router to answer an echo addressed
    /// to it. Returns `true` if the hop was part of the edge.
    pub fn drop_hop(&mut self, address: IpAddr) -> (b: bool)
        requires
            old(self).wf(),
        ensures
            final(self).wf(),
            b == addresses_of(old(self)@).contains(address),
            !b ==> *final(self) == *old(self),
            b ==> final(self)@ == old(self)@.remove(held_at(old(self)@, address)),
            final(self).spec_policy() == old(self).spec_policy(),
            final(self).spec_walked_at() == old(self).spec_walked_at(),
            final(self).spec_end() == old(self).spec_end(),
    {
        let ghost olds = self@;
        let j = match self.position_of(address) {
            None => {
                return false;
            },
            Some(j) => j,
        };
        proof {
            assert(addresses_of(olds)[j as int] == address);
            assert(0 <= j < olds.len() && olds[j as int].1 == address);
            let jj = held_at(olds, address);
            assert(addresses_of(olds)[jj] == address);
            assert(jj == j as int);
        }
        self.hops.remove(j);
        proof {
            assert(self@ =~= olds.remove(j as int));
            assert(addresses_of(self@) =~= addresses_of(olds).remove(j as int));
        }
        true
    }

    /// Whether the route should be walked at `now`.
    ///
    /// A never-walked edge says yes at once. Afterwards: never within the minimum gap of
    /// the last walk; yes when the walk found nothing worth probing or the route has been
    /// trusted long enough; otherwise yes once the deepest hop has been silent long enough,
    /// which is what a route change looks like from here.
    pub fn needs_rewalk(&self, now: Instant) -> (b: bool)
        ensures
            b == rewalk_due(self.spec_policy(), self@, self.spec_walked_at(), now),
    {
        let walked_at = match self.walked_at {
            None => {
                return true;
            },
            Some(walked_at) => walked_at,
        };
        let since_walk = now.saturating_duration_since(walked_at);
        if since_walk.lt(&self.policy.min_rewalk_gap) {
            return false;
        }
        if self.hops.len() == 0 || self.policy.rewalk_after.le(&since_walk) {
            return true;
        }
        let last = self.hops.len() - 1;
        let silent_for = match self.hops[last].last_answer {
            Some(at) => now.saturating_duration_since(at),
            None => since_walk,
        };
        proof {
            assert(self@.last() == hop_state(self.hops@[last as int]));
        }
        self.policy.rewalk_after_silence.le(&silent_for)
    }

    /// What the edge's hops say, taken together, over the `window` ending at `now`.
    pub fn reading(&self, now: Instant, window: Duration, thresholds: &HealthThresholds) -> (r:
        EdgeReading)
        requires
            self.wf(),
        ensures
            r.hops@.len() == self@.len(),
            forall|i: int|
                0 <= i < self@.len() ==> {
                    let hop = #[trigger] r.hops@[i];
                    &&& hop.ttl == self@[i].0
                    &&& hop.address == self@[i].1
                    &&& describes(hop.stats, in_window(self@[i].2, now, window))
                    &&& hop.health == judged(*thresholds, hop.stats)
                },
            match deepest_answering(healths_of(r.hops@)) {
                None => r.reported is None,
                Some(i) => r.reported == Some(i as usize),
            },
            r.quality == quality_from(healths_of(r.hops@)),
            r.end == self.spec_end(),
    {
        let mut hops: Vec<EdgeHopReading> = Vec::new();
        let mut i: usize = 0;
        while i < self.hops.len()
            invariant
                i <= self.hops@.len(),
                self.wf(),
                hops@.len() == i,
                forall|k: int|
                    0 <= k < i ==> {
                        let hop = #[trigger] hops@[k];
                        &&& hop.ttl == self@[k].0
                        &&& hop.address == self@[k].1
                        &&& describes(hop.stats, in_window(self@[k].2, now, window))
                        &&& hop.health == judged(*thresholds, hop.stats)
                    },
            decreases self.hops@.len() - i,
        {
            let stats = self.hops[i].history.stats_for_window(now, window);
            let health = thresholds.health_of(&stats);
            hops.push(
                EdgeHopReading { ttl: self.hops[i].ttl, address: self.hops[i].address, health, stats },
            );
            i = i + 1;
        }
        let reported = deepest_answering_of(&hops);
        let quality = quality_of(&hops, reported);
        EdgeReading { hops, reported, quality, end: self.end }
    }
}

/// Whether `pick` names a hop of `hops` worth a slot, at the distance that hop answered.
pub open spec fn from_walk(hops: Seq<Hop>, policy: AddressPolicy, pick: (u8, IpAddr)) -> bool {
    exists|k: int|
        0 <= k < hops.len() && (#[trigger] hops[k]).address == Some(pick.1) && hops[k].ttl
            == pick.0 && worth_a_slot(hops[k], policy)
}

proof fn lemma_picks_from_walk(
    all: Seq<Hop>,
    hops: Seq<Hop>,
    policy: AddressPolicy,
    limit: nat,
    picks: Seq<(u8, IpAddr)>,
)
    requires
        hops.len() <= all.len(),
        hops == all.take(hops.len() as int),
        forall|i: int| 0 <= i < picks.len() ==> from_walk(all, policy, #[trigger] picks[i]),
    ensures
        forall|i: int|
            0 <= i < picks_back(hops, policy, limit, picks).len() ==> from_walk(
                all,
                policy,
                #[trigger] picks_back(hops, policy, limit, picks)[i],
            ),
    decreases hops.len(),
{
    if hops.len() == 0 || picks.len() >= limit {
    } else {
        let hop = hops.last();
        let k = hops.len() - 1;
        assert(all[k] == hop);
        assert(hops.drop_last() =~= all.take(k));
        if worth_a_slot(hop, policy) && !picked_addresses(picks).contains(hop.address->0) {
            let next = picks.push((hop.ttl, hop.address->0));
            assert(from_walk(all, policy, next[picks.len() as int]));
            assert forall|i: int| 0 <= i < next.len() implies from_walk(all, policy, #[trigger] next[i]) by {
                if i < picks.len() {
                    assert(next[i] == picks[i]);
                }
            }
            lemma_picks_from_walk(all, hops.drop_last(), policy, limit, next);
            assert(picks_back(hops, policy, limit, picks) == picks_back(
                hops.drop_last(),
                policy,
                limit,
                next,
            ));
        } else {
            lemma_picks_from_walk(all, hops.drop_last(), policy, limit, picks);
            assert(picks_back(hops, policy, limit, picks) == picks_back(
                hops.drop_last(),
                policy,
                limit,
                picks,
            ));
        }
    }
}

/// Every hop an edge is given to probe is one the walk found answering from an address
/// worth a slot, at the distance it answered; no router is given twice; no more than the
/// limit are given; and a walk that reached the target gives none.
pub proof fn lemma_chosen_hops_come_from_the_walk(
    trace: PathTrace,
    policy: AddressPolicy,
    limit: nat,
)
    ensures
        forall|i: int|
            0 <= i < chosen_hops(trace, policy, limit).len() ==> from_walk(
                trace.spec_hops(),
                policy,
                #[trigger] chosen_hops(trace, policy, limit)[i],
            ),
        picked_addresses(chosen_hops(trace, policy, limit)).no_duplicates(),
        chosen_hops(trace, policy, limit).len() <= limit,
        trace.spec_reached_target() ==> chosen_hops(trace, policy, limit).len() == 0,
{
    lemma_chosen_hops(trace, policy, limit);
    if !trace.spec_reached_target() {
        let hops = trace.spec_hops();
        assert(hops =~= hops.take(hops.len() as int));
        lemma_picks_from_walk(hops, hops, policy, limit, Seq::empty());
        let back = picks_back(hops, policy, limit, Seq::empty());
        let chosen = chosen_hops(trace, policy, limit);
        assert forall|i: int| 0 <= i < chosen.len() implies from_walk(hops, policy, #[trigger] chosen[i]) by {
            assert(chosen[i] == back[back.len() - 1 - i]);
        }
    }
}

/// A re-walk that finds the same route asks for nothing: no hop is added, none removed,
/// and every hop keeps its samples and its last reply.
pub proof fn lemma_same_route_changes_nothing(olds: Seq<HopState>, chosen: Seq<(u8, IpAddr)>)
    requires
        addresses_of(olds).no_duplicates(),
        picked_addresses(chosen) == addresses_of(olds),
    ensures
        absent_from(addresses_of(olds), picked_addresses(chosen)).len() == 0,
        forall|a: IpAddr|
            !(#[trigger] addresses_of(olds).contains(a) && !picked_addresses(chosen).contains(a)),
        adopted(olds, chosen).len() == olds.len(),
        forall|i: int|
            0 <= i < olds.len() ==> (#[trigger] adopted(olds, chosen)[i]).2 == olds[i].2
                && adopted(olds, chosen)[i].3 == olds[i].3 && adopted(olds, chosen)[i].1
                == olds[i].1,
{
    let picks = picked_addresses(chosen);
    lemma_absent_from(addresses_of(olds), picks);
    let fresh = absent_from(addresses_of(olds), picks);
    if fresh.len() > 0 {
        assert(fresh.contains(fresh[0]));
    }
    assert(chosen.len() == olds.len()) by {
        assert(picks.len() == addresses_of(olds).len());
    }
    assert forall|i: int| 0 <= i < olds.len() implies (#[trigger] adopted(olds, chosen)[i]).2
        == olds[i].2 && adopted(olds, chosen)[i].3 == olds[i].3 && adopted(olds, chosen)[i].1
        == olds[i].1 by {
        assert(picks[i] == addresses_of(olds)[i]);
        assert(chosen[i].1 == olds[i].1);
        assert(addresses_of(olds).contains(chosen[i].1));
        let j = held_at(olds, chosen[i].1);
        assert(0 <= i < olds.len() && olds[i].1 == chosen[i].1);
        assert(addresses_of(olds)[j] == addresses_of(olds)[i]);
    }
}

} // verus!
