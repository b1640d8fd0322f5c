//! A game's reference pool: the targets that say whether its servers are the problem.
//!
//! No measurement of one endpoint can tell a game whose servers are down from a game the
//! user cannot reach. A pool separates them: several targets belonging to the same game's
//! infrastructure, in different places. If one is silent, that is a path; if all of them
//! are silent while the baselines are clean, that is the game.
//!
//! A member only counts once it has shown it can answer: a learned member is often a UDP
//! match server that answers nothing we can send while the match runs perfectly, and
//! counting its silence would report a working game as down.

use crate::health::{count_judged, judged, total_successes, total_timeouts, GroupHealth, Health, HealthCounts, HealthThresholds};
use crate::stats::WindowStats;
use crate::address::{ip_before, ip_precedes};
use crate::target::TargetAddress;
use crate::time::{Duration, WallTime};
use vstd::prelude::*;

verus! {

/// Where a pool entry came from.
#[derive(Debug, Clone, Copy, PartialEq, Eq, Structural, PartialOrd, Ord, Hash)]
pub enum PoolSource {
    /// Published by the operator and shipped with the app.
    Bundled,
    /// An endpoint this machine's own game connected to.
    Learned,
}

/// How large a pool may grow and how long an unseen entry survives.
#[derive(Debug, Clone, Copy, PartialEq, Eq, Structural)]
pub struct PoolPolicy {
    /// How many learned entries one game may keep. Seeds are never evicted.
    pub max_learned: usize,
    /// How long a learned entry survives without being seen again.
    pub expire_after: Duration,
}

impl Default for PoolPolicy {
    /// Thirty-two learned entries, expiring after a fortnight unseen.
    fn default() -> (p: PoolPolicy)
        ensures
            p.max_learned == 32,
            p.expire_after@ == 14 * 24 * 60 * 60 * 1_000_000_000,
    {
        PoolPolicy { max_learned: 32, expire_after: Duration::from_secs(14 * 24 * 60 * 60) }
    }
}

/// One pool member as the reading reads it.
#[derive(Debug, Clone, Copy, PartialEq, Eq, Structural)]
pub struct PoolMember {
    /// Whether this member has ever answered a probe since it joined the pool.
    ///
    /// Silence only means something once the member has shown it can answer.
    pub answered_before: bool,
    /// Its window of probe results.
    pub stats: WindowStats,
}

/// The windows of the members that have answered before, in order.
pub open spec fn proven_windows(members: Seq<PoolMember>) -> Seq<WindowStats>
    decreases members.len(),
{
    if members.len() == 0 {
        Seq::empty()
    } else {
        let earlier = proven_windows(members.drop_last());
        if members.last().answered_before {
            earlier.push(members.last().stats)
        } else {
            earlier
        }
    }
}

/// How many members have never answered.
pub open spec fn unproven_count(members: Seq<PoolMember>) -> nat
    decreases members.len(),
{
    if members.len() == 0 {
        0
    } else {
        unproven_count(members.drop_last()) + if members.last().answered_before {
            0nat
        } else {
            1nat
        }
    }
}

proof fn lemma_member_counts(members: Seq<PoolMember>)
    ensures
        proven_windows(members).len() + unproven_count(members) == members.len(),
    decreases members.len(),
{
    if members.len() > 0 {
        lemma_member_counts(members.drop_last());
    }
}

/// What a pool says about the game's own infrastructure.
///
/// Deliberately not a verdict about the game: it reports how much of the pool answers and
/// how much could not be judged at all, and leaves the conclusion to the diagnosis.
#[derive(Debug, Clone, Copy, PartialEq, Eq, Structural)]
pub struct PoolReading {
    /// The distribution across the members that have proven they answer.
    pub counts: HealthCounts,
    /// How many members have never answered a probe at all, held out of every figure.
    pub unproven: usize,
    /// Every timeout across the proven members.
    pub timeouts: u128,
    /// Every answered probe across the proven members.
    pub successes: u128,
}

impl PoolReading {
    /// Members judged at all: known, and not merely filtered.
    pub open spec fn spec_judged(self) -> nat {
        (self.counts.spec_known() - self.counts.blocked) as nat
    }

    /// Judges a pool from its members.
    ///
    /// Members that have never answered are counted apart and left out of every ratio: an
    /// address with no baseline cannot say that something changed.
    pub fn of(members: &[PoolMember], thresholds: &HealthThresholds) -> (r: PoolReading)
        ensures
            r.counts == count_judged(
                proven_windows(members@).map_values(|m: WindowStats| judged(*thresholds, m)),
            ),
            r.unproven == unproven_count(members@),
            r.timeouts == total_timeouts(proven_windows(members@)),
            r.successes == total_successes(proven_windows(members@)),
    {
        let mut proven: Vec<WindowStats> = Vec::new();
        let mut unproven: usize = 0;
        let mut i: usize = 0;
        while i < members.len()
            invariant
                i <= members@.len(),
                proven@ == proven_windows(members@.take(i as int)),
                unproven == unproven_count(members@.take(i as int)),
            decreases members@.len() - i,
        {
            proof {
                let t = members@.take(i + 1);
                assert(t.drop_last() =~= members@.take(i as int));
                lemma_member_counts(members@.take(i as int));
            }
            let member = members[i];
            if member.answered_before {
                proven.push(member.stats);
            } else {
                unproven = unproven + 1;
            }
            i = i + 1;
        }
        proof {
            assert(members@.take(members@.len() as int) =~= members@);
        }
        let health = GroupHealth::of(proven.as_slice(), thresholds);
        PoolReading {
            counts: health.counts,
            unproven,
            timeouts: health.timeouts,
            successes: health.successes,
        }
    }

    /// How many members were judged at all: the denominator of every ratio, and never
    /// assumed.
    pub fn judged(self) -> (n: usize)
        requires
            self.counts.spec_total() <= usize::MAX,
        ensures
            n == self.spec_judged(),
    {
        self.counts.known() - self.counts.blocked
    }

    /// The share of judged members that answer, as answering over judged; `None` when
    /// nothing was judged, which is an absence of knowledge rather than a ratio of zero.
    pub fn answering_ratio(self) -> (r: Option<(usize, usize)>)
        requires
            self.counts.spec_total() <= usize::MAX,
        ensures
            self.spec_judged() == 0 ==> r is None,
            self.spec_judged() > 0 ==> r == Some(
                (self.counts.spec_answering() as usize, self.spec_judged() as usize),
            ),
    {
        let judged = self.judged();
        if judged == 0 {
            return None;
        }
        Some((self.counts.answering(), judged))
    }

    /// The pool's headline state: `Unknown` with nothing probed, `Blocked` (or `Unknown`)
    /// with nothing judged, `Unreachable` with nothing answering, `Healthy` for a clean
    /// sweep and `Degraded` for anything mixed.
    pub fn health(self) -> (h: Health)
        requires
            self.counts.spec_total() <= usize::MAX,
        ensures
            h == if self.counts.spec_total() == 0 {
                Health::Unknown
            } else if self.spec_judged() == 0 {
                if self.counts.blocked > 0 {
                    Health::Blocked
                } else {
                    Health::Unknown
                }
            } else if self.counts.spec_answering() == 0 {
                Health::Unreachable
            } else if self.counts.spec_answering() == self.spec_judged() {
                Health::Healthy
            } else {
                Health::Degraded
            },
    {
        if self.counts.total() == 0 {
            return Health::Unknown;
        }
        if self.judged() == 0 {
            return if self.counts.blocked > 0 {
                Health::Blocked
            } else {
                Health::Unknown
            };
        }
        if self.counts.answering() == 0 {
            return Health::Unreachable;
        }
        if self.counts.answering() == self.judged() {
            Health::Healthy
        } else {
            Health::Degraded
        }
    }
}

/// One reference target of a pool.
#[derive(Debug, Clone, PartialEq, Eq)]
pub struct PoolEntry {
    /// Where it lives.
    pub address: TargetAddress,
    /// The operator's name for the place it sits, when the seed carried one; `None` for a
    /// learned entry, of which nothing is known but the address.
    pub label: Option<String>,
    /// Where it came from.
    pub source: PoolSource,
    /// When this machine last saw the game use it, for a learned entry; `None` for a
    /// bundled seed, which never expires and is never evicted.
    pub last_seen: Option<WallTime>,
}

impl PoolEntry {
    /// A separate entry equal to this one.
    fn duplicate(&self) -> (e: PoolEntry)
        ensures
            e == *self,
    {
        let label = match &self.label {
            Some(label) => Some(label.clone()),
            None => None,
        };
        PoolEntry { address: self.address, label, source: self.source, last_seen: self.last_seen }
    }
}

/// A learned entry: an address and when the game last used it.
pub type Sighting = (TargetAddress, WallTime);

/// Whether `a` sorts before `b` as target addresses do: by address, then no port before
/// any port, then by port.
pub open spec fn address_before(a: TargetAddress, b: TargetAddress) -> bool {
    ip_before(a.ip, b.ip) || (a.ip == b.ip && match (a.port, b.port) {
        (None, Some(_)) => true,
        (Some(x), Some(y)) => x < y,
        _ => false,
    })
}

/// Compares two target addresses in the order `address_before` describes.
fn address_precedes(a: &TargetAddress, b: &TargetAddress) -> (r: bool)
    ensures
        r == address_before(*a, *b),
{
    if ip_precedes(&a.ip, &b.ip) {
        return true;
    }
    if a.ip != b.ip {
        return false;
    }
    match (a.port, b.port) {
        (None, Some(_)) => true,
        (Some(x), Some(y)) => x < y,
        _ => false,
    }
}

/// Distinct target addresses are ordered one way or the other, and the order is
/// transitive and irreflexive.
pub proof fn lemma_address_order()
    ensures
        forall|a: TargetAddress, b: TargetAddress|
            a != b ==> address_before(a, b) || address_before(b, a),
        forall|a: TargetAddress| !address_before(a, a),
        forall|a: TargetAddress, b: TargetAddress, c: TargetAddress|
            #[trigger] address_before(a, b) && #[trigger] address_before(b, c) ==> address_before(
                a,
                c,
            ),
{
}

/// Whether `s` is in strictly increasing address order.
pub open spec fn by_address(s: Seq<Sighting>) -> bool {
    forall|i: int, j: int| 0 <= i < j < s.len() ==> address_before(#[trigger] s[i].0, #[trigger] s[j].0)
}

/// Whether `a` is evicted before `b`: least recently seen first, then by address.
pub open spec fn evicted_before(a: Sighting, b: Sighting) -> bool {
    a.1@ < b.1@ || (a.1@ == b.1@ && address_before(a.0, b.0))
}

/// Whether `a` is listed before `b`: most recently seen first, then by address.
pub open spec fn listed_before(a: Sighting, b: Sighting) -> bool {
    a.1@ > b.1@ || (a.1@ == b.1@ && address_before(a.0, b.0))
}

/// A position of `s` holding the entry evicted first.
pub open spec fn oldest_slot(s: Seq<Sighting>) -> int {
    choose|k: int|
        0 <= k < s.len() && forall|j: int|
            0 <= j < s.len() && j != k ==> evicted_before(#[trigger] s[k], #[trigger] s[j])
}

/// A position of `s` holding `address`.
pub open spec fn sighting_slot(s: Seq<Sighting>, address: TargetAddress) -> int {
    choose|k: int| 0 <= k < s.len() && (#[trigger] s[k]).0 == address
}

/// The addresses of `s`.
pub open spec fn sighted(s: Seq<Sighting>) -> Seq<TargetAddress> {
    s.map_values(|e: Sighting| e.0)
}

/// Whether a learned entry last seen at `seen` survives expiry at `now`: a stamp in the
/// future is a clock that moved, and is kept; otherwise it survives up to and including
/// `limit` unseen.
pub open spec fn survives(seen: WallTime, now: WallTime, limit: Duration) -> bool {
    now@ < seen@ || now@ - seen@ <= limit@
}

/// The entries of `s` that survive expiry at `now`, in order.
pub open spec fn surviving(s: Seq<Sighting>, now: WallTime, limit: Duration) -> Seq<Sighting>
    decreases s.len(),
{
    if s.len() == 0 {
        Seq::empty()
    } else {
        let earlier = surviving(s.drop_last(), now, limit);
        if survives(s.last().1, now, limit) {
            earlier.push(s.last())
        } else {
            earlier
        }
    }
}

/// The addresses of `entries`.
pub open spec fn entry_addresses(entries: Seq<PoolEntry>) -> Seq<TargetAddress> {
    entries.map_values(|e: PoolEntry| e.address)
}

/// One game's reference targets: what was bundled, and what this machine has learned.
#[derive(Debug, Clone)]
pub struct ReferencePool {
    policy: PoolPolicy,
    bundled: Vec<PoolEntry>,
    /// Learned entries in address order, so seeing one again is a touch rather than a
    /// duplicate.
    learned: Vec<Sighting>,
}

impl ReferencePool {
    /// The policy in force.
    pub closed spec fn spec_policy(self) -> PoolPolicy {
        self.policy
    }

    /// The bundled seeds, as given.
    pub closed spec fn spec_bundled(self) -> Seq<PoolEntry> {
        self.bundled@
    }

    /// The learned entries, in address order.
    pub closed spec fn spec_learned(self) -> Seq<Sighting> {
        self.learned@
    }

    /// Learned entries are in strictly increasing address order, within the cap, and
    /// none is also a seed.
    pub closed spec fn wf(self) -> bool {
        &&& by_address(self.learned@)
        &&& self.learned@.len() <= self.policy.max_learned
        &&& forall|k: int|
            0 <= k < self.learned@.len() ==> !entry_addresses(self.bundled@).contains(
                (#[trigger] self.learned@[k]).0,
            )
    }

    /// What every well-formed pool keeps.
    pub proof fn lemma_wf(self)
        requires
            self.wf(),
        ensures
            by_address(self.spec_learned()),
            self.spec_learned().len() <= self.spec_policy().max_learned,
            forall|k: int|
                0 <= k < self.spec_learned().len() ==> !entry_addresses(
                    self.spec_bundled(),
                ).contains((#[trigger] self.spec_learned()[k]).0),
    {
    }

    /// Creates a pool from its bundled seeds, with nothing learned.
    pub fn new(policy: PoolPolicy, seeds: Vec<PoolEntry>) -> (p: ReferencePool)
        ensures
            p.wf(),
            p.spec_policy() == policy,
            p.spec_bundled() == seeds@,
            p.spec_learned() == Seq::<Sighting>::empty(),
    {
        ReferencePool { policy, bundled: seeds, learned: Vec::new() }
    }

    /// Whether `address` is one of the seeds.
    fn is_seed(&self, address: TargetAddress) -> (b: bool)
        ensures
            b == entry_addresses(self.bundled@).contains(address),
    {
        let mut k: usize = 0;
        while k < self.bundled.len()
            invariant
                k <= self.bundled@.len(),
                forall|m: int| 0 <= m < k ==> (#[trigger] self.bundled@[m]).address != address,
            decreases self.bundled@.len() - k,
        {
            if self.bundled[k].address == address {
                assert(entry_addresses(self.bundled@)[k as int] == address);
                return true;
            }
            k = k + 1;
        }
        proof {
            if entry_addresses(self.bundled@).contains(address) {
                let m = choose|m: int|
                    0 <= m < entry_addresses(self.bundled@).len() && entry_addresses(
                        self.bundled@,
                    )[m] == address;
                assert(self.bundled@[m].address == address);
            }
        }
        false
    }

    /// How many targets the pool holds.
    pub fn len(&self) -> (n: usize)
        requires
            self.spec_bundled().len() + self.spec_learned().len() <= usize::MAX,
        ensures
            n == self.spec_bundled().len() + self.spec_learned().len(),
    {
        self.bundled.len() + self.learned.len()
    }

    /// Whether the pool has nothing to probe.
    ///
    /// A real state for a title whose operator publishes nothing and whose servers this
    /// machine has never seen: such a pool can neither report an outage nor rule one out.
    pub fn is_empty(&self) -> (b: bool)
        ensures
            b == (self.spec_bundled().len() == 0 && self.spec_learned().len() == 0),
    {
        self.bundled.len() == 0 && self.learned.len() == 0
    }

    /// The learned entries in address order, for persisting them.
    pub fn learned(&self) -> (v: Vec<Sighting>)
        ensures
            v@ == self.spec_learned(),
    {
        let mut v: Vec<Sighting> = Vec::new();
        let mut k: usize = 0;
        while k < self.learned.len()
            invariant
                k <= self.learned@.len(),
                v@ == self.learned@.take(k as int),
            decreases self.learned@.len() - k,
        {
            v.push(self.learned[k]);
            k = k + 1;
            assert(v@ =~= self.learned@.take(k as int));
        }
        assert(v@ =~= self.learned@);
        v
    }

    /// Drops learned entries not seen for longer than the policy allows.
    ///
    /// Bundled seeds are untouched: a release is what changes them. A stamp in the future
    /// is a wall clock that moved, not an entry to throw away.
    pub fn expire(&mut self, now: WallTime)
        requires
            old(self).wf(),
        ensures
            final(self).wf(),
            final(self).spec_policy() == old(self).spec_policy(),
            final(self).spec_bundled() == old(self).spec_bundled(),
            final(self).spec_learned() == surviving(
                old(self).spec_learned(),
                now,
                old(self).spec_policy().expire_after,
            ),
    {
        let limit = self.policy.expire_after;
        let ghost olds = self.learned@;
        let mut kept: Vec<Sighting> = Vec::new();
        let mut k: usize = 0;
        while k < self.learned.len()
            invariant
                k <= self.learned@.len(),
                self.learned@ == olds,
                limit == self.policy.expire_after,
                kept@ == surviving(olds.take(k as int), now, limit),
            decreases self.learned@.len() - k,
        {
            proof {
                assert(olds.take(k + 1).drop_last() =~= olds.take(k as int));
            }
            let entry = self.learned[k];
            let keep = match now.duration_since(entry.1) {
                None => true,
                Some(unseen) => unseen.le(&limit),
            };
            if keep {
                kept.push(entry);
            }
            k = k + 1;
        }
        proof {
            assert(olds.take(olds.len() as int) =~= olds);
            lemma_surviving(olds, now, limit);
        }
        self.learned = kept;
    }
}

/// What survives expiry is a part of what was there, in the same order.
pub proof fn lemma_surviving(s: Seq<Sighting>, now: WallTime, limit: Duration)
    ensures
        surviving(s, now, limit).len() <= s.len(),
        forall|i: int|
            0 <= i < surviving(s, now, limit).len() ==> exists|k: int|
                0 <= k < s.len() && s[k] == #[trigger] surviving(s, now, limit)[i],
        by_address(s) ==> by_address(surviving(s, now, limit)),
    decreases s.len(),
{
    if s.len() > 0 {
        lemma_surviving(s.drop_last(), now, limit);
        let earlier = surviving(s.drop_last(), now, limit);
        assert forall|i: int| 0 <= i < surviving(s, now, limit).len() implies exists|k: int|
            0 <= k < s.len() && s[k] == #[trigger] surviving(s, now, limit)[i] by {
            if i < earlier.len() {
                let k = choose|k: int| 0 <= k < s.drop_last().len() && s.drop_last()[k] == earlier[i];
                assert(s[k] == surviving(s, now, limit)[i]);
            } else {
                assert(s[s.len() - 1] == surviving(s, now, limit)[i]);
            }
        }
        if by_address(s) {
            assert(by_address(s.drop_last()));
            let out = surviving(s, now, limit);
            assert forall|i: int, j: int| 0 <= i < j < out.len() implies address_before(
                #[trigger] out[i].0,
                #[trigger] out[j].0,
            ) by {
                if j < earlier.len() {
                    assert(out[i] == earlier[i] && out[j] == earlier[j]);
                } else {
                    assert(out[j] == s.last());
                    assert(out[i] == earlier[i]);
                    let k = choose|k: int| 0 <= k < s.drop_last().len() && s.drop_last()[k] == earlier[i];
                    assert(s[k] == out[i]);
                    assert(k < s.len() - 1);
                }
            }
        }
    }
}

/// How many entries of `s` sort before `address`: where it belongs in an address-ordered
/// `s`.
pub open spec fn count_before(s: Seq<Sighting>, address: TargetAddress) -> nat
    decreases s.len(),
{
    if s.len() == 0 {
        0
    } else {
        count_before(s.drop_last(), address) + if address_before(s.last().0, address) {
            1nat
        } else {
            0nat
        }
    }
}

/// The learned entries `s` after the game is seen using `address` at `at`.
///
/// An address already held is touched: its stamp becomes `at` unless that would make it
/// older, since a wall clock really does step backwards. A new address joins in address
/// order.
pub open spec fn sighted_at(s: Seq<Sighting>, address: TargetAddress, at: WallTime) -> Seq<
    Sighting,
> {
    if sighted(s).contains(address) {
        let k = sighting_slot(s, address);
        s.update(
            k,
            (
                address,
                if at@ < s[k].1@ {
                    s[k].1
                } else {
                    at
                },
            ),
        )
    } else {
        s.insert(count_before(s, address) as int, (address, at))
    }
}

/// `s` with its least recently seen entry evicted when it holds more than `max`.
pub open spec fn capped(s: Seq<Sighting>, max: nat) -> Seq<Sighting> {
    if s.len() > max {
        s.remove(oldest_slot(s))
    } else {
        s
    }
}

/// The entry listed for a learned sighting: no label, since nothing is known of it but
/// the address.
pub open spec fn learned_entry(x: Sighting) -> PoolEntry {
    PoolEntry { address: x.0, label: None, source: PoolSource::Learned, last_seen: Some(x.1) }
}

proof fn lemma_count_before(s: Seq<Sighting>, address: TargetAddress, p: int)
    requires
        0 <= p <= s.len(),
        forall|k: int| 0 <= k < p ==> address_before((#[trigger] s[k]).0, address),
        forall|k: int| p <= k < s.len() ==> !address_before((#[trigger] s[k]).0, address),
    ensures
        count_before(s, address) == p,
    decreases s.len(),
{
    if s.len() > 0 {
        if p == s.len() {
            lemma_count_before(s.drop_last(), address, p - 1);
        } else {
            lemma_count_before(s.drop_last(), address, p);
        }
    }
}

/// An entry of `s` evicted before every other one is the one `oldest_slot` names.
proof fn lemma_oldest_slot(s: Seq<Sighting>, k: int)
    requires
        0 <= k < s.len(),
        forall|j: int| 0 <= j < s.len() && j != k ==> evicted_before(#[trigger] s[k], #[trigger] s[j]),
    ensures
        oldest_slot(s) == k,
{
    lemma_address_order();
    let c = oldest_slot(s);
    if c != k {
        assert(evicted_before(s[c], s[k]));
        assert(evicted_before(s[k], s[c]));
    }
}

/// Inserts `x` into a strictly listed-ordered `v` where it belongs.
fn insert_listed(v: &mut Vec<Sighting>, x: Sighting)
    requires
        forall|i: int, j: int| 0 <= i < j < old(v)@.len() ==> listed_before(#[trigger] old(v)@[i], #[trigger] old(v)@[j]),
        forall|j: int| 0 <= j < old(v)@.len() ==> (#[trigger] old(v)@[j]).0 != x.0,
    ensures
        forall|i: int, j: int| 0 <= i < j < final(v)@.len() ==> listed_before(#[trigger] final(v)@[i], #[trigger] final(v)@[j]),
        forall|y: Sighting| #[trigger] final(v)@.contains(y) <==> (old(v)@.contains(y) || y == x),
        final(v)@.len() == old(v)@.len() + 1,
{
    proof {
        lemma_address_order();
    }
    let ghost before = v@;
    let mut p: usize = 0;
    while p < v.len() && !v[p].1.lt(&x.1) && (v[p].1 != x.1 || address_precedes(&v[p].0, &x.0))
        invariant
            v@ == before,
            p <= v@.len(),
            forall|k: int| 0 <= k < p ==> listed_before(#[trigger] v@[k], x),
        decreases v@.len() - p,
    {
        proof {
            WallTime::lemma_view_injective(v@[p as int].1, x.1);
        }
        p = p + 1;
    }
    proof {
        if p < before.len() {
            WallTime::lemma_view_injective(before[p as int].1, x.1);
            assert(before[p as int].0 != x.0);
            assert(listed_before(x, before[p as int]));
            assert forall|k: int| p <= k < before.len() implies listed_before(x, #[trigger] before[k]) by {
                if k > p {
                    assert(listed_before(before[p as int], before[k]));
                }
            }
        }
    }
    v.insert(p, x);
    proof {
        let after = v@;
        assert(after =~= before.insert(p as int, x));
        assert forall|i: int, j: int| 0 <= i < j < after.len() implies listed_before(
            #[trigger] after[i],
            #[trigger] after[j],
        ) by {
            if j < p {
                assert(after[i] == before[i] && after[j] == before[j]);
            } else if j == p {
                assert(after[i] == before[i]);
            } else if i < p {
                assert(after[i] == before[i] && after[j] == before[j - 1]);
                assert(listed_before(before[i], x));
                assert(listed_before(x, before[j - 1]));
            } else if i == p {
                assert(after[j] == before[j - 1]);
            } else {
                assert(after[i] == before[i - 1] && after[j] == before[j - 1]);
            }
        }
        assert forall|y: Sighting| #[trigger] after.contains(y) <==> (before.contains(y) || y == x) by {
            if after.contains(y) {
                let k = choose|k: int| 0 <= k < after.len() && after[k] == y;
                if k < p {
                    assert(before[k] == y);
                } else if k > p {
                    assert(before[k - 1] == y);
                }
            }
            if before.contains(y) {
                let k = choose|k: int| 0 <= k < before.len() && before[k] == y;
                if k < p {
                    assert(after[k] == y);
                } else {
                    assert(after[k + 1] == y);
                }
            }
            if y == x {
                assert(after[p as int] == x);
            }
        }
    }
}

impl ReferencePool {
    /// Where `address` is held among the learned entries.
    fn learned_slot(&self, address: TargetAddress) -> (r: Option<usize>)
        requires
            self.wf(),
        ensures
            r matches Some(k) ==> k < self.learned@.len() && self.learned@[k as int].0 == address
                && sighting_slot(self.learned@, address) == k as int,
            r is None ==> !sighted(self.learned@).contains(address),
    {
        let mut k: usize = 0;
        while k < self.learned.len()
            invariant
                k <= self.learned@.len(),
                self.wf(),
                forall|m: int| 0 <= m < k ==> (#[trigger] self.learned@[m]).0 != address,
            decreases self.learned@.len() - k,
        {
            if self.learned[k].0 == address {
                proof {
                    lemma_address_order();
                    let c = sighting_slot(self.learned@, address);
                    assert(0 <= c < self.learned@.len() && self.learned@[c].0 == address);
                    if c < k {
                        assert(address_before(self.learned@[c].0, self.learned@[k as int].0));
                    } else if c > k {
                        assert(address_before(self.learned@[k as int].0, self.learned@[c].0));
                    }
                }
                return Some(k);
            }
            k = k + 1;
        }
        proof {
            if sighted(self.learned@).contains(address) {
                let m = choose|m: int|
                    0 <= m < sighted(self.learned@).len() && sighted(self.learned@)[m] == address;
                assert(self.learned@[m].0 == address);
            }
        }
        None
    }

    /// Where the entry evicted first is held.
    fn oldest(&self) -> (k: usize)
        requires
            by_address(self.learned@),
            self.learned@.len() > 0,
        ensures
            k < self.learned@.len(),
            oldest_slot(self.learned@) == k as int,
    {
        proof {
            lemma_address_order();
        }
        let ghost s = self.learned@;
        let mut best: usize = 0;
        let mut i: usize = 1;
        while i < self.learned.len()
            invariant
                s == self.learned@,
                by_address(s),
                0 <= best < i <= s.len(),
                forall|j: int| 0 <= j < i && j != best ==> evicted_before(#[trigger] s[best as int], #[trigger] s[j]),
            decreases s.len() - i,
        {
            let candidate = self.learned[i];
            let held = self.learned[best];
            proof {
                WallTime::lemma_view_injective(candidate.1, held.1);
            }
            if candidate.1.lt(&held.1) || (candidate.1 == held.1 && address_precedes(
                &candidate.0,
                &held.0,
            )) {
                proof {
                    assert forall|j: int| 0 <= j < i + 1 && j != i implies evicted_before(
                        #[trigger] s[i as int],
                        #[trigger] s[j],
                    ) by {
                        if j != best {
                            assert(evicted_before(s[best as int], s[j]));
                        }
                    }
                }
                best = i;
            } else {
                proof {
                    assert(address_before(s[best as int].0, s[i as int].0));
                    assert(evicted_before(s[best as int], s[i as int]));
                }
            }
            i = i + 1;
        }
        proof {
            lemma_oldest_slot(s, best as int);
        }
        best
    }

    /// Records that the game used `address` at `at`.
    ///
    /// Seeing an entry again refreshes it rather than duplicating it, and never makes it
    /// older. Past the cap the least recently seen learned entry is evicted, which keeps
    /// the pool describing the servers this user is placed on now. An address that is
    /// already a seed is ignored: it is in the pool either way.
    pub fn observe(&mut self, address: TargetAddress, at: WallTime)
        requires
            old(self).wf(),
        ensures
            final(self).wf(),
            final(self).spec_policy() == old(self).spec_policy(),
            final(self).spec_bundled() == old(self).spec_bundled(),
            entry_addresses(old(self).spec_bundled()).contains(address)
                ==> final(self).spec_learned() == old(self).spec_learned(),
            !entry_addresses(old(self).spec_bundled()).contains(address)
                ==> final(self).spec_learned() == capped(
                sighted_at(old(self).spec_learned(), address, at),
                old(self).spec_policy().max_learned as nat,
            ),
    {
        if self.is_seed(address) {
            return;
        }
        proof {
            lemma_address_order();
        }
        let ghost olds = self.learned@;
        match self.learned_slot(address) {
            Some(k) => {
                let seen = self.learned[k].1;
                let stamp = if at.lt(&seen) {
                    seen
                } else {
                    at
                };
                self.learned.set(k, (address, stamp));
                proof {
                    assert(sighted(olds)[k as int] == address);
                    assert(self.learned@ =~= sighted_at(olds, address, at));
                    assert(by_address(self.learned@)) by {
                        assert forall|i: int, j: int| 0 <= i < j < self.learned@.len() implies address_before(
                            #[trigger] self.learned@[i].0,
                            #[trigger] self.learned@[j].0,
                        ) by {
                            assert(self.learned@[i].0 == olds[i].0);
                            assert(self.learned@[j].0 == olds[j].0);
                        }
                    }
                    assert forall|m: int| 0 <= m < self.learned@.len() implies !entry_addresses(self.bundled@).contains(
                        (#[trigger] self.learned@[m]).0,
                    ) by {
                        assert(self.learned@[m].0 == olds[m].0);
                    }
                }
            },
            None => {
                let mut p: usize = 0;
                while p < self.learned.len() && address_precedes(&self.learned[p].0, &address)
                    invariant
                        self.learned@ == olds,
                        self.wf(),
                        p <= olds.len(),
                        forall|m: int| 0 <= m < p ==> address_before((#[trigger] olds[m]).0, address),
                    decreases olds.len() - p,
                {
                    p = p + 1;
                }
                proof {
                    if p < olds.len() {
                        assert(sighted(olds)[p as int] == olds[p as int].0);
                        assert(olds[p as int].0 != address);
                        assert(address_before(address, olds[p as int].0));
                        assert forall|m: int| p <= m < olds.len() implies address_before(
                            address,
                            (#[trigger] olds[m]).0,
                        ) by {
                            if m > p {
                                assert(address_before(olds[p as int].0, olds[m].0));
                            }
                        }
                    }
                    lemma_count_before(olds, address, p as int);
                }
                self.learned.insert(p, (address, at));
                let ghost grown = self.learned@;
                proof {
                    assert(grown =~= olds.insert(p as int, (address, at)));
                    assert(grown == sighted_at(olds, address, at));
                    assert forall|i: int, j: int| 0 <= i < j < grown.len() implies address_before(
                        #[trigger] grown[i].0,
                        #[trigger] grown[j].0,
                    ) by {
                        if j < p {
                            assert(grown[i] == olds[i] && grown[j] == olds[j]);
                        } else if j == p {
                            assert(grown[i] == olds[i]);
                        } else if i < p {
                            assert(grown[i] == olds[i] && grown[j] == olds[j - 1]);
                            assert(address_before(olds[i].0, address));
                            assert(address_before(address, olds[j - 1].0));
                        } else if i == p {
                            assert(grown[j] == olds[j - 1]);
                        } else {
                            assert(grown[i] == olds[i - 1] && grown[j] == olds[j - 1]);
                        }
                    }
                    assert forall|m: int| 0 <= m < grown.len() implies !entry_addresses(self.bundled@).contains(
                        (#[trigger] grown[m]).0,
                    ) by {
                        if m < p {
                            assert(grown[m] == olds[m]);
                        } else if m > p {
                            assert(grown[m] == olds[m - 1]);
                        }
                    }
                }
                if self.learned.len() > self.policy.max_learned {
                    let k = self.oldest();
                    self.learned.remove(k);
                    proof {
                        let shrunk = self.learned@;
                        assert(shrunk =~= grown.remove(k as int));
                        assert forall|i: int, j: int| 0 <= i < j < shrunk.len() implies address_before(
                            #[trigger] shrunk[i].0,
                            #[trigger] shrunk[j].0,
                        ) by {
                            let gi = if i < k { i } else { i + 1 };
                            let gj = if j < k { j } else { j + 1 };
                            assert(shrunk[i] == grown[gi] && shrunk[j] == grown[gj]);
                        }
                        assert forall|m: int| 0 <= m < shrunk.len() implies !entry_addresses(self.bundled@).contains(
                            (#[trigger] shrunk[m]).0,
                        ) by {
                            let gm = if m < k { m } else { m + 1 };
                            assert(shrunk[m] == grown[gm]);
                        }
                    }
                }
            },
        }
    }

    /// Every target the pool would probe: seeds first, as given, then the learned entries,
    /// most recently seen first so the trickle reaches the servers this user is placed on
    /// now before the ones touched a week ago.
    pub fn entries(&self) -> (v: Vec<PoolEntry>)
        requires
            self.wf(),
        ensures
            v@.len() == self.spec_bundled().len() + self.spec_learned().len(),
            forall|i: int| 0 <= i < self.spec_bundled().len() ==> #[trigger] v@[i] == self.spec_bundled()[i],
            ({
                let b = self.spec_bundled().len() as int;
                let listed = v@.subrange(b, v@.len() as int);
                &&& forall|i: int|
                    0 <= i < listed.len() ==> #[trigger] listed[i] == learned_entry(
                        (listed[i].address, listed[i].last_seen->0),
                    )
                &&& forall|i: int, j: int|
                    0 <= i < j < listed.len() ==> listed_before(
                        (#[trigger] listed[i].address, listed[i].last_seen->0),
                        (#[trigger] listed[j].address, listed[j].last_seen->0),
                    )
                &&& forall|x: Sighting|
                    self.spec_learned().contains(x) <==> exists|i: int|
                        0 <= i < listed.len() && #[trigger] listed[i] == learned_entry(x)
            }),
    {
        proof {
            lemma_address_order();
        }
        let mut ordered: Vec<Sighting> = Vec::new();
        let mut k: usize = 0;
        while k < self.learned.len()
            invariant
                k <= self.learned@.len(),
                self.wf(),
                ordered@.len() == k,
                forall|i: int, j: int| 0 <= i < j < ordered@.len() ==> listed_before(#[trigger] ordered@[i], #[trigger] ordered@[j]),
                forall|y: Sighting| #[trigger] ordered@.contains(y) <==> self.learned@.take(k as int).contains(y),
            decreases self.learned@.len() - k,
        {
            let x = self.learned[k];
            proof {
                assert forall|j: int| 0 <= j < ordered@.len() implies (#[trigger] ordered@[j]).0 != x.0 by {
                    assert(ordered@.contains(ordered@[j]));
                    let m = choose|m: int| 0 <= m < k && self.learned@.take(k as int)[m] == ordered@[j];
                    assert(self.learned@[m] == ordered@[j]);
                    assert(address_before(self.learned@[m].0, self.learned@[k as int].0));
                }
            }
            insert_listed(&mut ordered, x);
            proof {
                let prefix = self.learned@.take(k as int);
                let longer = self.learned@.take(k + 1);
                assert forall|y: Sighting| longer.contains(y) <==> (prefix.contains(y) || y == x) by {
                    if longer.contains(y) {
                        let m = choose|m: int| 0 <= m < longer.len() && longer[m] == y;
                        if m < k {
                            assert(prefix[m] == y);
                        }
                    }
                    if prefix.contains(y) {
                        let m = choose|m: int| 0 <= m < prefix.len() && prefix[m] == y;
                        assert(longer[m] == y);
                    }
                    if y == x {
                        assert(longer[k as int] == x);
                    }
                }
            }
            k = k + 1;
        }
        proof {
            assert(self.learned@.take(self.learned@.len() as int) =~= self.learned@);
        }
        let mut v: Vec<PoolEntry> = Vec::new();
        let mut i: usize = 0;
        while i < self.bundled.len()
            invariant
                i <= self.bundled@.len(),
                v@ == self.bundled@.take(i as int),
            decreases self.bundled@.len() - i,
        {
            v.push(self.bundled[i].duplicate());
            i = i + 1;
            assert(v@ =~= self.bundled@.take(i as int));
        }
        let b = self.bundled.len();
        let mut j: usize = 0;
        while j < ordered.len()
            invariant
                j <= ordered@.len(),
                b == self.bundled@.len(),
                v@.len() == b + j,
                forall|m: int| 0 <= m < b ==> #[trigger] v@[m] == self.bundled@[m],
                forall|m: int| 0 <= m < j ==> #[trigger] v@[b + m] == learned_entry(ordered@[m]),
            decreases ordered@.len() - j,
        {
            let (address, seen) = ordered[j];
            v.push(PoolEntry { address, label: None, source: PoolSource::Learned, last_seen: Some(seen) });
            j = j + 1;
        }
        proof {
            let listed = v@.subrange(b as int, v@.len() as int);
            assert forall|m: int| 0 <= m < listed.len() implies (listed[m].address, listed[m].last_seen->0) == ordered@[m] by {
                assert(listed[m] == v@[b + m]);
            }
            assert forall|m: int| 0 <= m < listed.len() implies #[trigger] listed[m] == learned_entry(
                (listed[m].address, listed[m].last_seen->0),
            ) by {
                assert(listed[m] == v@[b + m]);
            }
            assert forall|m: int, n: int| 0 <= m < n < listed.len() implies listed_before(
                (#[trigger] listed[m].address, listed[m].last_seen->0),
                (#[trigger] listed[n].address, listed[n].last_seen->0),
            ) by {
                assert(listed[m] == v@[b + m]);
                assert(listed[n] == v@[b + n]);
                assert(listed_before(ordered@[m], ordered@[n]));
            }
            assert forall|x: Sighting| self.learned@.contains(x) implies exists|m: int|
                0 <= m < listed.len() && #[trigger] listed[m] == learned_entry(x) by {
                assert(ordered@.contains(x));
                let m = choose|m: int| 0 <= m < ordered@.len() && ordered@[m] == x;
                assert(listed[m] == v@[b + m]);
            }
            assert forall|x: Sighting| (exists|m: int|
                0 <= m < listed.len() && #[trigger] listed[m] == learned_entry(x)) implies self.learned@.contains(x) by {
                let m = choose|m: int| 0 <= m < listed.len() && #[trigger] listed[m] == learned_entry(x);
                assert(listed[m] == v@[b + m]);
                assert(ordered@[m] == x);
                assert(ordered@.contains(x));
            }
        }
        v
    }
}

} // verus!
