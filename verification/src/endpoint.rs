//! Which endpoints each monitored application is talking to, and which of them to probe.
//!
//! Observations arrive from two sources of very different shape: a connection table poll,
//! which sees that a socket exists but not how busy it is, and flow events, which see
//! volume. This module turns that stream into a stable set of endpoints per application,
//! each with a state and a decision about how often it is worth probing.
//!
//! Three rules hold throughout:
//!
//! - **Nothing is ever silently dropped.** The per-application cap limits how many
//!   endpoints are probed at the normal interval, not how many are known. Past the cap an
//!   endpoint demotes to a longer interval and stays visible.
//! - **Absent knowledge stays absent.** A source that cannot count bytes yields
//!   `recent_bytes` of `None`, never `Some(0)`.
//! - **Silence is not death.** An endpoint that stops being observed goes idle before it
//!   is forgotten, and the gap between the two is generous.
//!
//! No type here reads a clock: callers pass `now`.

use crate::address::{same_place, same_place_as, socket_before, socket_precedes, SocketAddr};
use crate::error::Error;
use crate::time::{Duration, Instant, MAX_NANOS};
use vstd::prelude::*;

verus! {

/// Maximum number of applications the user may monitor at the same time.
pub const MAX_MONITORED_APPS: u32 = 5;

/// Maximum number of endpoints probed at the normal interval per application.
///
/// Endpoints past this count are not dropped: they demote to infrequent probing,
/// prioritized by recent traffic.
pub const MAX_ACTIVE_ENDPOINTS_PER_APP: u32 = 16;

/// Identifies one monitored application for the life of a session.
///
/// Deliberately not a process identifier: the layer above assigns these and decides for
/// itself whether a restarted game is the same application or a new one.
#[derive(Debug, Clone, Copy, PartialEq, Eq, Structural, PartialOrd, Ord, Hash)]
pub struct AppId(u32);

impl AppId {
    /// The raw identifier.
    pub closed spec fn raw(self) -> u32 {
        self.0
    }

    /// Wraps a raw identifier.
    pub fn new(raw: u32) -> (id: AppId)
        ensures
            id.raw() == raw,
    {
        AppId(raw)
    }

    /// The raw identifier, for logging and for crossing a process boundary.
    pub fn get(self) -> (raw: u32)
        ensures
            raw == self.raw(),
    {
        self.0
    }

    /// Two identifiers are the same exactly when their raw numbers are.
    pub proof fn lemma_raw_injective(a: AppId, b: AppId)
        ensures
            (a.raw() == b.raw()) == (a == b),
    {
    }
}

/// Transport an endpoint is reached over.
#[derive(Debug, Clone, Copy, PartialEq, Eq, Structural, PartialOrd, Ord, Hash)]
pub enum Transport {
    /// TCP.
    Tcp,
    /// UDP.
    Udp,
}

/// One remote endpoint of an application.
///
/// The transport is part of the identity: a server reached over TCP on one port and UDP on
/// another is two endpoints with two independent fates.
#[derive(Debug, Clone, Copy, PartialEq, Eq, Structural, PartialOrd, Ord, Hash)]
pub struct EndpointKey {
    /// Transport the application uses to reach it.
    pub transport: Transport,
    /// Where it is.
    pub address: SocketAddr,
}

impl EndpointKey {
    /// An endpoint reached over TCP.
    pub fn tcp(address: SocketAddr) -> (k: EndpointKey)
        ensures
            k == (EndpointKey { transport: Transport::Tcp, address }),
    {
        EndpointKey { transport: Transport::Tcp, address }
    }

    /// An endpoint reached over UDP.
    pub fn udp(address: SocketAddr) -> (k: EndpointKey)
        ensures
            k == (EndpointKey { transport: Transport::Udp, address }),
    {
        EndpointKey { transport: Transport::Udp, address }
    }
}

/// Whether `a` sorts before `b`: TCP before UDP, then by address and port.
pub open spec fn key_before(a: EndpointKey, b: EndpointKey) -> bool {
    (a.transport == Transport::Tcp && b.transport == Transport::Udp) || (a.transport
        == b.transport && socket_before(a.address, b.address))
}

/// Compares two keys in the order `key_before` describes.
pub fn key_precedes(a: &EndpointKey, b: &EndpointKey) -> (r: bool)
    ensures
        r == key_before(*a, *b),
{
    (a.transport == Transport::Tcp && b.transport == Transport::Udp) || (a.transport
        == b.transport && socket_precedes(&a.address, &b.address))
}

/// Whether two keys name the same endpoint: the same transport to the same place,
/// whatever scope each address carries. Keys that do are one entry, as in a sorted map.
pub open spec fn same_key(a: EndpointKey, b: EndpointKey) -> bool {
    a.transport == b.transport && same_place(a.address, b.address)
}

/// Whether two keys name the same endpoint, in the sense of `same_key`.
pub fn same_key_as(a: &EndpointKey, b: &EndpointKey) -> (r: bool)
    ensures
        r == same_key(*a, *b),
{
    a.transport == b.transport && same_place_as(&a.address, &b.address)
}

/// The key order is a strict order, total over keys that do not name the same endpoint,
/// and keys that do are interchangeable in it.
pub proof fn lemma_key_order(a: EndpointKey, b: EndpointKey, c: EndpointKey)
    ensures
        !key_before(a, a),
        key_before(a, b) ==> !key_before(b, a),
        key_before(a, b) && key_before(b, c) ==> key_before(a, c),
        !same_key(a, b) ==> key_before(a, b) || key_before(b, a),
        key_before(a, b) ==> !same_key(a, b),
        same_key(a, b) ==> (key_before(a, c) == key_before(b, c) && key_before(c, a)
            == key_before(c, b)),
{
}

/// Whether an application is currently using an endpoint.
#[derive(Debug, Clone, Copy, PartialEq, Eq, Structural, Hash)]
pub enum Liveness {
    /// Observed recently.
    Active,
    /// Not observed for a while, but still remembered.
    Idle,
}

/// How often an endpoint is worth probing.
#[derive(Debug, Clone, Copy, PartialEq, Eq, Structural, Hash)]
pub enum Probing {
    /// Probed at the normal interval.
    Active,
    /// Probed at the long interval: idle, or ranked past the per-application cap.
    /// Still tracked, still shown, never dropped.
    Demoted,
}

/// Whether an observation introduced an endpoint or matched a known one.
#[derive(Debug, Clone, Copy, PartialEq, Eq, Structural, Hash)]
pub enum Appearance {
    /// First time this application was seen talking to it; the caller should register a
    /// probe target.
    New,
    /// Already tracked; the observation only refreshed it.
    Known,
}

/// Timings and caps governing the endpoint lifecycle.
#[derive(Debug, Clone, Copy, PartialEq, Eq, Structural)]
pub struct LifecyclePolicy {
    /// Silence longer than this makes an endpoint idle.
    pub active_for: Duration,
    /// Silence longer than this forgets the endpoint entirely.
    pub retain_for: Duration,
    /// Span each traffic bucket covers when ranking by recent volume.
    pub traffic_window: Duration,
    /// Interval for endpoints inside the cap.
    pub active_interval: Duration,
    /// Interval for demoted endpoints.
    pub demoted_interval: Duration,
    /// How many endpoints per application are probed at the active interval.
    pub max_active_endpoints: u32,
}

/// What is wrong with a lifecycle policy, if anything, checked in this order.
pub open spec fn lifecycle_fault(p: LifecyclePolicy) -> Option<Error> {
    if p.active_interval@ == 0 || p.demoted_interval@ == 0 || p.traffic_window@ == 0 {
        Some(Error::ZeroInterval)
    } else if p.max_active_endpoints == 0 {
        Some(Error::ZeroEndpointCap)
    } else if p.retain_for@ < p.active_for@ {
        Some(Error::RetentionShorterThanActivity)
    } else {
        None
    }
}

impl Default for LifecyclePolicy {
    /// Idle after ten seconds of silence, forgotten after two minutes, traffic counted in
    /// thirty-second buckets, probed every second or every ten, sixteen fast slots.
    fn default() -> (p: LifecyclePolicy)
        ensures
            p.active_for@ == 10 * 1_000_000_000,
            p.retain_for@ == 120 * 1_000_000_000,
            p.traffic_window@ == 30 * 1_000_000_000,
            p.active_interval@ == 1_000_000_000,
            p.demoted_interval@ == 10 * 1_000_000_000,
            p.max_active_endpoints == MAX_ACTIVE_ENDPOINTS_PER_APP,
    {
        LifecyclePolicy {
            active_for: Duration::from_secs(10),
            retain_for: Duration::from_secs(120),
            traffic_window: Duration::from_secs(30),
            active_interval: Duration::from_secs(1),
            demoted_interval: Duration::from_secs(10),
            max_active_endpoints: MAX_ACTIVE_ENDPOINTS_PER_APP,
        }
    }
}

impl LifecyclePolicy {
    /// The probe interval a probing decision implies.
    pub fn interval_for(&self, probing: Probing) -> (d: Duration)
        ensures
            d == match probing {
                Probing::Active => self.active_interval,
                Probing::Demoted => self.demoted_interval,
            },
    {
        match probing {
            Probing::Active => self.active_interval,
            Probing::Demoted => self.demoted_interval,
        }
    }

    /// Rejects a policy whose parts contradict each other.
    pub(crate) fn validate(&self) -> (r: Result<(), Error>)
        ensures
            r matches Err(e) ==> lifecycle_fault(*self) == Some(e),
            r is Ok <==> lifecycle_fault(*self) is None,
    {
        if self.active_interval.is_zero() || self.demoted_interval.is_zero()
            || self.traffic_window.is_zero() {
            return Err(Error::ZeroInterval);
        }
        if self.max_active_endpoints == 0 {
            return Err(Error::ZeroEndpointCap);
        }
        if self.retain_for.lt(&self.active_for) {
            return Err(Error::RetentionShorterThanActivity);
        }
        Ok(())
    }
}

/// `a + b`, stopping at `u64::MAX`.
pub open spec fn saturating_sum(a: u64, b: u64) -> u64 {
    if a + b > u64::MAX {
        u64::MAX
    } else {
        (a + b) as u64
    }
}

/// One endpoint, with everything known about how the application uses it.
#[derive(Debug, Clone, Copy, PartialEq, Eq, Structural)]
pub struct TrackedEndpoint {
    key: EndpointKey,
    first_seen: Instant,
    last_seen: Instant,
    window_started: Instant,
    bytes_current: u64,
    bytes_previous: u64,
    counted: bool,
    liveness: Liveness,
    probing: Probing,
}

impl TrackedEndpoint {
    /// Which endpoint this is.
    pub closed spec fn spec_key(self) -> EndpointKey {
        self.key
    }

    /// When the application was first seen using it.
    pub closed spec fn spec_first_seen(self) -> Instant {
        self.first_seen
    }

    /// When it was last seen using it.
    pub closed spec fn spec_last_seen(self) -> Instant {
        self.last_seen
    }

    /// Whether the application is currently using it.
    pub closed spec fn spec_liveness(self) -> Liveness {
        self.liveness
    }

    /// How often it is worth probing.
    pub closed spec fn spec_probing(self) -> Probing {
        self.probing
    }

    /// Bytes counted in the current and the previous traffic bucket, or `None` when no
    /// source ever counted them.
    pub closed spec fn spec_recent_bytes(self) -> Option<u64> {
        if self.counted {
            Some(saturating_sum(self.bytes_current, self.bytes_previous))
        } else {
            None
        }
    }

    /// Volume used for ranking: unknown counts as nothing, which decides an ordering and is
    /// never shown.
    pub closed spec fn rank_bytes(self) -> u64 {
        match self.spec_recent_bytes() {
            Some(bytes) => bytes,
            None => 0,
        }
    }

    /// Which endpoint this is.
    pub fn key(&self) -> (k: EndpointKey)
        ensures
            k == self.spec_key(),
    {
        self.key
    }

    /// When the application was first seen using it.
    pub fn first_seen(&self) -> (t: Instant)
        ensures
            t == self.spec_first_seen(),
    {
        self.first_seen
    }

    /// When it was last seen using it.
    pub fn last_seen(&self) -> (t: Instant)
        ensures
            t == self.spec_last_seen(),
    {
        self.last_seen
    }

    /// Whether the application is currently using it.
    pub fn liveness(&self) -> (l: Liveness)
        ensures
            l == self.spec_liveness(),
    {
        self.liveness
    }

    /// How often it is worth probing, as of the last sweep.
    pub fn probing(&self) -> (p: Probing)
        ensures
            p == self.spec_probing(),
    {
        self.probing
    }

    /// Bytes observed recently, or `None` when no source counts them.
    ///
    /// `None` and `Some(0)` are different answers: the first says throughput is unknown
    /// here, the second says it was measured and was nothing.
    pub fn recent_bytes(&self) -> (b: Option<u64>)
        ensures
            b == self.spec_recent_bytes(),
    {
        if self.counted {
            Some(self.bytes_current.saturating_add(self.bytes_previous))
        } else {
            None
        }
    }

    fn rank_volume(&self) -> (b: u64)
        ensures
            b == self.rank_bytes(),
    {
        match self.recent_bytes() {
            Some(bytes) => bytes,
            None => 0,
        }
    }

    /// This endpoint with its traffic buckets advanced to `now`.
    fn rolled_to(self, window: Duration, now: Instant) -> (r: TrackedEndpoint)
        ensures
            r == rolled(self, window, now),
    {
        let elapsed = now.saturating_duration_since(self.window_started);
        if window.saturating_mul(2).le(&elapsed) {
            TrackedEndpoint { bytes_current: 0, bytes_previous: 0, window_started: now, ..self }
        } else if window.le(&elapsed) {
            let started = match self.window_started.checked_add(window) {
                Some(later) => later,
                None => now,
            };
            TrackedEndpoint {
                bytes_previous: self.bytes_current,
                bytes_current: 0,
                window_started: started,
                ..self
            }
        } else {
            self
        }
    }
}

/// `e` with its traffic buckets advanced to `now`: both emptied once two windows have
/// passed since the current one began, shifted by one window once one has.
pub closed spec fn rolled(e: TrackedEndpoint, window: Duration, now: Instant) -> TrackedEndpoint {
    let elapsed = if now@ < e.window_started@ {
        0
    } else {
        now@ - e.window_started@
    };
    let twice = if window@ * 2 > MAX_NANOS {
        MAX_NANOS as int
    } else {
        (window@ * 2) as int
    };
    if elapsed >= twice {
        TrackedEndpoint { bytes_current: 0, bytes_previous: 0, window_started: now, ..e }
    } else if elapsed >= window@ {
        TrackedEndpoint {
            bytes_previous: e.bytes_current,
            bytes_current: 0,
            window_started: if e.window_started@ + window@ > MAX_NANOS {
                now
            } else {
                e.window_started.later_by(window)
            },
            ..e
        }
    } else {
        e
    }
}

/// A known endpoint after one more sighting: buckets rolled, seen now, active, and the
/// bytes added to the current bucket when they were counted.
pub closed spec fn refreshed(
    e: TrackedEndpoint,
    window: Duration,
    bytes: Option<u64>,
    now: Instant,
) -> TrackedEndpoint {
    let r = rolled(e, window, now);
    TrackedEndpoint {
        last_seen: now,
        liveness: Liveness::Active,
        counted: r.counted || bytes is Some,
        bytes_current: match bytes {
            Some(b) => saturating_sum(r.bytes_current, b),
            None => r.bytes_current,
        },
        ..r
    }
}

/// An endpoint seen for the first time, demoted until a sweep ranks it.
pub closed spec fn discovered(key: EndpointKey, bytes: Option<u64>, now: Instant) -> TrackedEndpoint {
    TrackedEndpoint {
        key,
        first_seen: now,
        last_seen: now,
        window_started: now,
        bytes_current: match bytes {
            Some(b) => b,
            None => 0,
        },
        bytes_previous: 0,
        counted: bytes is Some,
        liveness: Liveness::Active,
        probing: Probing::Demoted,
    }
}

/// How long `e` has gone unseen as of `now`; no time at all when the clock went backwards.
pub open spec fn silence(e: TrackedEndpoint, now: Instant) -> nat {
    if now@ < e.spec_last_seen()@ {
        0
    } else {
        (now@ - e.spec_last_seen()@) as nat
    }
}

/// Whether a sweep at `now` forgets `e`.
pub open spec fn forgotten(e: TrackedEndpoint, policy: LifecyclePolicy, now: Instant) -> bool {
    silence(e, now) > policy.retain_for@
}

/// A surviving endpoint as a sweep at `now` leaves it before ranking: buckets rolled,
/// idle after enough silence, and demoted.
pub closed spec fn aged(e: TrackedEndpoint, policy: LifecyclePolicy, now: Instant) -> TrackedEndpoint {
    let r = rolled(e, policy.traffic_window, now);
    TrackedEndpoint {
        liveness: if silence(e, now) > policy.active_for@ {
            Liveness::Idle
        } else {
            Liveness::Active
        },
        probing: Probing::Demoted,
        ..r
    }
}

/// The endpoints a sweep at `now` keeps, aged, in their original order.
pub closed spec fn survivors(s: Seq<TrackedEndpoint>, policy: LifecyclePolicy, now: Instant) -> Seq<
    TrackedEndpoint,
>
    decreases s.len(),
{
    if s.len() == 0 {
        Seq::empty()
    } else {
        let rest = survivors(s.drop_last(), policy, now);
        if forgotten(s.last(), policy, now) {
            rest
        } else {
            rest.push(aged(s.last(), policy, now))
        }
    }
}

/// The endpoints of `app` that a sweep at `now` forgets, in their original order.
pub open spec fn released(
    app: AppId,
    s: Seq<TrackedEndpoint>,
    policy: LifecyclePolicy,
    now: Instant,
) -> Seq<(AppId, EndpointKey)>
    decreases s.len(),
{
    if s.len() == 0 {
        Seq::empty()
    } else {
        let rest = released(app, s.drop_last(), policy, now);
        if forgotten(s.last(), policy, now) {
            rest.push((app, s.last().spec_key()))
        } else {
            rest
        }
    }
}

/// Whether `a` deserves a fast probe slot ahead of `b`: busier first, then more recently
/// seen, then by key, so the order never depends on how the endpoints were stored.
pub open spec fn outranks(a: TrackedEndpoint, b: TrackedEndpoint) -> bool {
    a.rank_bytes() > b.rank_bytes() || (a.rank_bytes() == b.rank_bytes()
        && a.spec_last_seen()@ > b.spec_last_seen()@) || (a.rank_bytes() == b.rank_bytes()
        && a.spec_last_seen()@ == b.spec_last_seen()@ && key_before(a.spec_key(), b.spec_key()))
}

/// How many active endpoints of `s` outrank `e`.
pub open spec fn rivals(s: Seq<TrackedEndpoint>, e: TrackedEndpoint) -> nat
    decreases s.len(),
{
    if s.len() == 0 {
        0
    } else {
        rivals(s.drop_last(), e) + if s.last().spec_liveness() == Liveness::Active && outranks(
            s.last(),
            e,
        ) {
            1nat
        } else {
            0nat
        }
    }
}

/// `e` promoted to the fast interval when it is active and fewer than `cap` active
/// endpoints of `s` outrank it.
pub closed spec fn promoted(s: Seq<TrackedEndpoint>, e: TrackedEndpoint, cap: u32) -> TrackedEndpoint {
    if e.liveness == Liveness::Active && rivals(s, e) < cap {
        TrackedEndpoint { probing: Probing::Active, ..e }
    } else {
        e
    }
}

/// What a sweep at `now` makes of one application's endpoints.
pub closed spec fn swept(s: Seq<TrackedEndpoint>, policy: LifecyclePolicy, now: Instant) -> Seq<
    TrackedEndpoint,
> {
    let kept = survivors(s, policy, now);
    kept.map_values(|e: TrackedEndpoint| promoted(kept, e, policy.max_active_endpoints))
}

/// Everything a sweep at `now` forgets, application by application.
pub open spec fn released_all(
    apps: Seq<(AppId, Seq<TrackedEndpoint>)>,
    policy: LifecyclePolicy,
    now: Instant,
) -> Seq<(AppId, EndpointKey)>
    decreases apps.len(),
{
    if apps.len() == 0 {
        Seq::empty()
    } else {
        released_all(apps.drop_last(), policy, now) + released(
            apps.last().0,
            apps.last().1,
            policy,
            now,
        )
    }
}

/// Whether the endpoints are held in strictly ascending key order.
pub open spec fn keys_ascending(s: Seq<TrackedEndpoint>) -> bool {
    forall|i: int, j: int|
        0 <= i < j < s.len() ==> key_before(#[trigger] s[i].spec_key(), #[trigger] s[j].spec_key())
}

/// Whether the applications are held in strictly ascending identifier order.
pub open spec fn apps_ascending(apps: Seq<(AppId, Seq<TrackedEndpoint>)>) -> bool {
    forall|i: int, j: int| 0 <= i < j < apps.len() ==> #[trigger] apps[i].0.raw() < #[trigger] apps[j].0.raw()
}

/// Whether `app` has an entry.
pub open spec fn monitors(apps: Seq<(AppId, Seq<TrackedEndpoint>)>, app: AppId) -> bool {
    exists|i: int| 0 <= i < apps.len() && #[trigger] apps[i].0 == app
}

/// Whether `endpoint` is among `s`.
pub open spec fn tracks(s: Seq<TrackedEndpoint>, endpoint: EndpointKey) -> bool {
    exists|j: int| 0 <= j < s.len() && same_key(#[trigger] s[j].spec_key(), endpoint)
}

/// The endpoints of one application.
#[derive(Debug, Clone)]
struct AppEndpoints {
    app: AppId,
    endpoints: Vec<TrackedEndpoint>,
}

/// Tracks what every monitored application is talking to.
///
/// Its view lists the monitored applications in ascending identifier order, each with its
/// endpoints in ascending key order.
#[derive(Debug, Clone)]
pub struct EndpointTracker {
    policy: LifecyclePolicy,
    apps: Vec<AppEndpoints>,
}

impl EndpointTracker {
    /// The monitored applications and their endpoints.
    pub closed spec fn view(self) -> Seq<(AppId, Seq<TrackedEndpoint>)> {
        self.apps@.map_values(|a: AppEndpoints| (a.app, a.endpoints@))
    }

    /// The policy in force.
    pub closed spec fn spec_policy(self) -> LifecyclePolicy {
        self.policy
    }

    /// The bookkeeping is consistent: a satisfiable policy, at most the allowed number of
    /// applications, and both levels kept in ascending order.
    pub closed spec fn wf(self) -> bool {
        &&& lifecycle_fault(self.policy) is None
        &&& self.apps@.len() <= MAX_MONITORED_APPS
        &&& apps_ascending(self@)
        &&& forall|i: int| 0 <= i < self@.len() ==> keys_ascending(#[trigger] self@[i].1)
    }

    /// Creates a tracker.
    pub fn new(policy: LifecyclePolicy) -> (r: Result<EndpointTracker, Error>)
        ensures
            r matches Err(e) ==> lifecycle_fault(policy) == Some(e),
            r is Ok <==> lifecycle_fault(policy) is None,
            r matches Ok(t) ==> t.wf() && t@ == Seq::<(AppId, Seq<TrackedEndpoint>)>::empty()
                && t.spec_policy() == policy,
    {
        match policy.validate() {
            Err(e) => Err(e),
            Ok(()) => {
                let t = EndpointTracker { policy, apps: Vec::new() };
                assert(t@ =~= Seq::<(AppId, Seq<TrackedEndpoint>)>::empty());
                Ok(t)
            },
        }
    }

    /// The policy in force.
    pub fn policy(&self) -> (p: &LifecyclePolicy)
        ensures
            *p == self.spec_policy(),
    {
        &self.policy
    }

    /// Where `app` is held, if it is monitored.
    fn position_of(&self, app: AppId) -> (r: Option<usize>)
        requires
            self.wf(),
        ensures
            r matches Some(i) ==> i < self@.len() && self@[i as int].0 == app,
            r is None <==> !monitors(self@, app),
    {
        let mut i: usize = 0;
        while i < self.apps.len()
            invariant
                i <= self.apps@.len(),
                self@.len() == self.apps@.len(),
                forall|k: int| 0 <= k < i ==> self@[k].0 != app,
            decreases self.apps@.len() - i,
        {
            if self.apps[i].app == app {
                assert(self@[i as int].0 == app);
                return Some(i);
            }
            i = i + 1;
        }
        None
    }

    /// Whether an application is being tracked.
    pub fn is_monitored(&self, app: AppId) -> (b: bool)
        requires
            self.wf(),
        ensures
            b == monitors(self@, app),
    {
        self.position_of(app).is_some()
    }

    /// How many applications are tracked.
    pub fn app_count(&self) -> (n: usize)
        ensures
            n == self@.len(),
    {
        self.apps.len()
    }

    /// Starts tracking an application. Monitoring one already tracked changes nothing.
    ///
    /// Past the cap the request is refused rather than honoured by evicting somebody:
    /// which application to stop watching is the user's decision.
    pub fn monitor(&mut self, app: AppId) -> (r: Result<(), Error>)
        requires
            old(self).wf(),
        ensures
            final(self).wf(),
            final(self).spec_policy() == old(self).spec_policy(),
            monitors(old(self)@, app) ==> r is Ok && final(self)@ == old(self)@,
            !monitors(old(self)@, app) && old(self)@.len() >= MAX_MONITORED_APPS ==> r == Err::<
                (),
                Error,
            >(Error::TooManyApps { limit: MAX_MONITORED_APPS }) && final(self)@ == old(self)@,
            !monitors(old(self)@, app) && old(self)@.len() < MAX_MONITORED_APPS ==> r is Ok
                && exists|p: int|
                0 <= p <= old(self)@.len() && final(self)@ == old(self)@.insert(
                    p,
                    (app, Seq::<TrackedEndpoint>::empty()),
                ),
    {
        if self.position_of(app).is_some() {
            return Ok(());
        }
        if self.apps.len() >= MAX_MONITORED_APPS as usize {
            return Err(Error::TooManyApps { limit: MAX_MONITORED_APPS });
        }
        let ghost before = self@;
        let mut p: usize = 0;
        while p < self.apps.len() && self.apps[p].app.0 < app.0
            invariant
                p <= self.apps@.len(),
                self@ == before,
                self.wf(),
                forall|k: int| 0 <= k < p ==> (#[trigger] self@[k]).0.raw() < app.raw(),
            decreases self.apps@.len() - p,
        {
            p = p + 1;
        }
        proof {
            if p < self@.len() {
                assert(self@[p as int].0.raw() >= app.raw());
                assert(self@[p as int].0 != app);
                assert(self@[p as int].0.raw() != app.raw());
            }
        }
        self.apps.insert(p, AppEndpoints { app, endpoints: Vec::new() });
        proof {
            let entry = (app, Seq::<TrackedEndpoint>::empty());
            assert(self@ =~= before.insert(p as int, entry));
            assert forall|i: int, j: int| 0 <= i < j < self@.len() implies #[trigger] self@[i].0.raw()
                < #[trigger] self@[j].0.raw() by {
                if i < p && j > p {
                    assert(before[i].0.raw() < app.raw());
                    assert(before[j - 1].0.raw() > app.raw() || before[j - 1].0.raw() >= app.raw());
                }
            }
        }
        Ok(())
    }

    /// Each application is held once.
    proof fn lemma_apps_unique(self, i: int, k: int)
        requires
            self.wf(),
            0 <= i < self@.len(),
            0 <= k < self@.len(),
            self@[i].0 == self@[k].0,
        ensures
            i == k,
    {
        let apps = self@;
        assert(apps_ascending(apps));
        if i < k {
            assert(apps[i].0.raw() < apps[k].0.raw());
        } else if k < i {
            assert(apps[k].0.raw() < apps[i].0.raw());
        }
    }

    /// Stops tracking an application, returning its endpoints, which are now unreferenced.
    ///
    /// The caller needs that list to release the probe targets it registered. Forgetting an
    /// application that is not tracked returns nothing and changes nothing.
    pub fn forget(&mut self, app: AppId) -> (keys: Vec<EndpointKey>)
        requires
            old(self).wf(),
        ensures
            final(self).wf(),
            final(self).spec_policy() == old(self).spec_policy(),
            !monitors(old(self)@, app) ==> keys@ == Seq::<EndpointKey>::empty() && final(self)@
                == old(self)@,
            forall|i: int|
                0 <= i < old(self)@.len() && (#[trigger] old(self)@[i]).0 == app ==> keys@
                    == old(self)@[i].1.map_values(|e: TrackedEndpoint| e.spec_key())
                    && final(self)@ == old(self)@.remove(i),
    {
        match self.position_of(app) {
            None => Vec::new(),
            Some(i) => {
                let ghost before = *self;
                let entry = self.apps.remove(i);
                let mut keys: Vec<EndpointKey> = Vec::new();
                let mut j: usize = 0;
                while j < entry.endpoints.len()
                    invariant
                        j <= entry.endpoints@.len(),
                        keys@ == entry.endpoints@.take(j as int).map_values(
                            |e: TrackedEndpoint| e.spec_key(),
                        ),
                    decreases entry.endpoints@.len() - j,
                {
                    keys.push(entry.endpoints[j].key);
                    j = j + 1;
                    assert(keys@ =~= entry.endpoints@.take(j as int).map_values(
                        |e: TrackedEndpoint| e.spec_key(),
                    ));
                }
                proof {
                    assert(entry.endpoints@.take(j as int) =~= entry.endpoints@);
                    assert(self@ =~= before@.remove(i as int));
                    assert forall|k: int|
                        0 <= k < before@.len() && (#[trigger] before@[k]).0 == app implies k == i by {
                        before.lemma_apps_unique(k, i as int);
                    }
                }
                keys
            },
        }
    }

    /// Records that `app` exchanged data with `endpoint`.
    ///
    /// `bytes` is `None` when the source cannot count them; that is carried through rather
    /// than substituted with zero. An application that is not monitored is refused rather
    /// than registered, so discovery cannot walk past the cap on applications. An endpoint
    /// already tracked at the same place, under whatever scope, is that endpoint: it keeps
    /// the key it was first seen with.
    pub fn observe(&mut self, app: AppId, endpoint: EndpointKey, bytes: Option<u64>, now: Instant) -> (r:
        Result<Appearance, Error>)
        requires
            old(self).wf(),
        ensures
            final(self).wf(),
            final(self).spec_policy() == old(self).spec_policy(),
            !monitors(old(self)@, app) ==> r == Err::<Appearance, Error>(
                Error::UnknownApp { app: app.raw() },
            ) && final(self)@ == old(self)@,
            forall|i: int, j: int|
                #![trigger old(self)@[i].1[j]]
                0 <= i < old(self)@.len() && old(self)@[i].0 == app && 0 <= j < old(self)@[i].1.len()
                    && same_key(old(self)@[i].1[j].spec_key(), endpoint) ==> r == Ok::<Appearance, Error>(
                    Appearance::Known,
                ) && final(self)@ == old(self)@.update(
                    i,
                    (
                        app,
                        old(self)@[i].1.update(
                            j,
                            refreshed(
                                old(self)@[i].1[j],
                                old(self).spec_policy().traffic_window,
                                bytes,
                                now,
                            ),
                        ),
                    ),
                ),
            forall|i: int|
                0 <= i < old(self)@.len() && (#[trigger] old(self)@[i]).0 == app && !tracks(
                    old(self)@[i].1,
                    endpoint,
                ) ==> r == Ok::<Appearance, Error>(Appearance::New) && exists|p: int|
                    0 <= p <= old(self)@[i].1.len() && final(self)@ == old(self)@.update(
                        i,
                        (app, old(self)@[i].1.insert(p, discovered(endpoint, bytes, now))),
                    ),
    {
        let window = self.policy.traffic_window;
        let i = match self.position_of(app) {
            None => {
                return Err(Error::UnknownApp { app: app.get() });
            },
            Some(i) => i,
        };
        let ghost before = *self;
        let ghost eps = self@[i as int].1;
        let mut entry = self.apps.remove(i);
        assert(entry.endpoints@ == eps);
        let mut j: usize = 0;
        while j < entry.endpoints.len() && key_precedes(&entry.endpoints[j].key, &endpoint)
            invariant
                j <= entry.endpoints@.len(),
                entry.endpoints@ == eps,
                forall|k: int| 0 <= k < j ==> key_before((#[trigger] eps[k]).spec_key(), endpoint),
            decreases entry.endpoints@.len() - j,
        {
            j = j + 1;
        }
        proof {
            assert forall|k: int| 0 <= k < before@.len() && (#[trigger] before@[k]).0 == app implies k
                == i by {
                before.lemma_apps_unique(k, i as int);
            }
            assert(keys_ascending(eps));
        }
        if j < entry.endpoints.len() && same_key_as(&entry.endpoints[j].key, &endpoint) {
            let seen = entry.endpoints[j].rolled_to(window, now);
            let updated = TrackedEndpoint {
                last_seen: now,
                liveness: Liveness::Active,
                counted: seen.counted || bytes.is_some(),
                bytes_current: match bytes {
                    Some(b) => seen.bytes_current.saturating_add(b),
                    None => seen.bytes_current,
                },
                ..seen
            };
            entry.endpoints.set(j, updated);
            self.apps.insert(i, entry);
            proof {
                assert forall|k: int| 0 <= k < eps.len() && same_key(eps[k].spec_key(), endpoint) implies k
                    == j by {
                    lemma_key_order(eps[k].key, eps[j as int].key, endpoint);
                    if k < j {
                        assert(key_before(eps[k].key, endpoint));
                    } else if k > j {
                        assert(key_before(eps[j as int].key, eps[k].key));
                    }
                }
                assert(self@ =~= before@.update(i as int, (app, eps.update(j as int, updated))));
                assert(keys_ascending(eps.update(j as int, updated)));
                assert forall|a: int| 0 <= a < self@.len() implies keys_ascending(
                    #[trigger] self@[a].1,
                ) by {
                    if a != i {
                        assert(self@[a] == before@[a]);
                    }
                }
            }
            Ok(Appearance::Known)
        } else {
            let fresh = TrackedEndpoint {
                key: endpoint,
                first_seen: now,
                last_seen: now,
                window_started: now,
                bytes_current: match bytes {
                    Some(b) => b,
                    None => 0,
                },
                bytes_previous: 0,
                counted: bytes.is_some(),
                liveness: Liveness::Active,
                probing: Probing::Demoted,
            };
            entry.endpoints.insert(j, fresh);
            self.apps.insert(i, entry);
            proof {
                let grown = eps.insert(j as int, fresh);
                assert forall|k: int| j <= k < eps.len() implies key_before(
                    endpoint,
                    #[trigger] eps[k].spec_key(),
                ) by {
                    lemma_key_order(eps[j as int].key, endpoint, eps[k].key);
                    lemma_key_order(endpoint, eps[j as int].key, eps[k].key);
                }
                assert(!tracks(eps, endpoint)) by {
                    assert forall|k: int| 0 <= k < eps.len() implies !same_key(
                        #[trigger] eps[k].spec_key(),
                        endpoint,
                    ) by {
                        lemma_key_order(eps[k].key, endpoint, endpoint);
                    }
                }
                assert forall|a: int, b: int| 0 <= a < b < grown.len() implies key_before(
                    #[trigger] grown[a].spec_key(),
                    #[trigger] grown[b].spec_key(),
                ) by {
                    if b < j {
                    } else if a < j && b == j {
                    } else if a < j && b > j {
                        lemma_key_order(grown[a].key, endpoint, grown[b].key);
                    } else if a == j {
                    } else {
                    }
                }
                assert(self@ =~= before@.update(i as int, (app, grown)));
                assert forall|a: int| 0 <= a < self@.len() implies keys_ascending(
                    #[trigger] self@[a].1,
                ) by {
                    if a != i {
                        assert(self@[a] == before@[a]);
                    }
                }
            }
            Ok(Appearance::New)
        }
    }

    /// Ages every endpoint, forgets the long-silent ones, and re-ranks the rest.
    ///
    /// `gone` is cleared and filled with the endpoints that were forgotten, so the caller
    /// can release their probe targets. Of the survivors, an application's active
    /// endpoints compete for its fast probe slots; the rest, and every idle one, are
    /// demoted but kept.
    pub fn sweep(&mut self, now: Instant, gone: &mut Vec<(AppId, EndpointKey)>)
        requires
            old(self).wf(),
        ensures
            final(self).wf(),
            final(self).spec_policy() == old(self).spec_policy(),
            final(self)@.len() == old(self)@.len(),
            forall|i: int|
                0 <= i < old(self)@.len() ==> (#[trigger] final(self)@[i]) == (
                    old(self)@[i].0,
                    swept(old(self)@[i].1, old(self).spec_policy(), now),
                ),
            final(gone)@ == released_all(old(self)@, old(self).spec_policy(), now),
    {
        gone.clear();
        let policy = self.policy;
        let cap = policy.max_active_endpoints;
        let ghost before = self@;
        proof {
            assert(before.take(0) =~= Seq::<(AppId, Seq<TrackedEndpoint>)>::empty());
        }
        let mut refreshed_apps: Vec<AppEndpoints> = Vec::new();
        let mut i: usize = 0;
        while i < self.apps.len()
            invariant
                self@ == before,
                self.wf(),
                self.policy == policy,
                cap == policy.max_active_endpoints,
                i <= before.len(),
                refreshed_apps@.len() == i,
                forall|a: int|
                    0 <= a < i ==> (#[trigger] refreshed_apps@[a]).app == before[a].0
                        && refreshed_apps@[a].endpoints@ == swept(before[a].1, policy, now)
                        && keys_ascending(refreshed_apps@[a].endpoints@),
                gone@ == released_all(before.take(i as int), policy, now),
            decreases before.len() - i,
        {
            let app = self.apps[i].app;
            let eps = &self.apps[i].endpoints;
            let ghost base = gone@;
            proof {
                assert(eps@ == before[i as int].1);
                assert(keys_ascending(eps@));
                assert(eps@.take(0) =~= Seq::<TrackedEndpoint>::empty());
                assert(base + Seq::<(AppId, EndpointKey)>::empty() =~= base);
            }
            let mut kept: Vec<TrackedEndpoint> = Vec::new();
            let mut j: usize = 0;
            while j < eps.len()
                invariant
                    j <= eps@.len(),
                    keys_ascending(eps@),
                    kept@ == survivors(eps@.take(j as int), policy, now),
                    gone@ == base + released(app, eps@.take(j as int), policy, now),
                    forall|a: int, b: int|
                        0 <= a < b < kept@.len() ==> key_before(
                            #[trigger] kept@[a].spec_key(),
                            #[trigger] kept@[b].spec_key(),
                        ),
                    forall|a: int, k: int|
                        0 <= a < kept@.len() && j <= k < eps@.len() ==> key_before(
                            #[trigger] kept@[a].spec_key(),
                            #[trigger] eps@[k].spec_key(),
                        ),
                decreases eps@.len() - j,
            {
                let e = eps[j];
                let silent = now.saturating_duration_since(e.last_seen);
                proof {
                    assert(eps@.take(j + 1).drop_last() =~= eps@.take(j as int));
                    assert(eps@.take(j + 1).last() == e);
                }
                if policy.retain_for.lt(&silent) {
                    gone.push((app, e.key));
                    proof {
                        assert(gone@ =~= base + released(app, eps@.take(j + 1), policy, now));
                    }
                } else {
                    let r = e.rolled_to(policy.traffic_window, now);
                    let liveness = if policy.active_for.lt(&silent) {
                        Liveness::Idle
                    } else {
                        Liveness::Active
                    };
                    kept.push(TrackedEndpoint { liveness, probing: Probing::Demoted, ..r });
                    proof {
                        assert forall|a: int, k: int|
                            0 <= a < kept@.len() && j + 1 <= k < eps@.len() implies key_before(
                            #[trigger] kept@[a].spec_key(),
                            #[trigger] eps@[k].spec_key(),
                        ) by {
                            if a == kept@.len() - 1 {
                                assert(key_before(eps@[j as int].spec_key(), eps@[k].spec_key()));
                            }
                        }
                    }
                }
                j = j + 1;
            }
            proof {
                assert(eps@.take(j as int) =~= eps@);
            }
            let mut ranked: Vec<TrackedEndpoint> = Vec::new();
            let mut m: usize = 0;
            while m < kept.len()
                invariant
                    m <= kept@.len(),
                    ranked@.len() == m,
                    forall|a: int|
                        0 <= a < m ==> (#[trigger] ranked@[a]) == promoted(kept@, kept@[a], cap),
                decreases kept@.len() - m,
            {
                let e = kept[m];
                let mut better: usize = 0;
                let mut k: usize = 0;
                proof {
                    assert(kept@.take(0) =~= Seq::<TrackedEndpoint>::empty());
                }
                while k < kept.len()
                    invariant
                        k <= kept@.len(),
                        better <= k,
                        better == rivals(kept@.take(k as int), e),
                    decreases kept@.len() - k,
                {
                    let x = kept[k];
                    proof {
                        assert(kept@.take(k + 1).drop_last() =~= kept@.take(k as int));
                    }
                    if x.liveness == Liveness::Active && outranks_now(&x, &e) {
                        better = better + 1;
                    }
                    k = k + 1;
                }
                proof {
                    assert(kept@.take(k as int) =~= kept@);
                }
                if e.liveness == Liveness::Active && better < cap as usize {
                    ranked.push(TrackedEndpoint { probing: Probing::Active, ..e });
                } else {
                    ranked.push(e);
                }
                m = m + 1;
            }
            proof {
                assert(kept@ == survivors(before[i as int].1, policy, now));
                assert(ranked@ =~= swept(before[i as int].1, policy, now));
                assert forall|a: int, b: int| 0 <= a < b < ranked@.len() implies key_before(
                    #[trigger] ranked@[a].spec_key(),
                    #[trigger] ranked@[b].spec_key(),
                ) by {
                    assert(ranked@[a].spec_key() == kept@[a].spec_key());
                    assert(ranked@[b].spec_key() == kept@[b].spec_key());
                }
                assert(before.take(i + 1).drop_last() =~= before.take(i as int));
                assert(before.take(i + 1).last() == before[i as int]);
            }
            refreshed_apps.push(AppEndpoints { app, endpoints: ranked });
            i = i + 1;
        }
        self.apps = refreshed_apps;
        proof {
            assert(before.take(i as int) =~= before);
            assert forall|a: int, b: int| 0 <= a < b < self@.len() implies #[trigger] self@[a].0.raw()
                < #[trigger] self@[b].0.raw() by {
                assert(apps_ascending(before));
                assert(before[a].0.raw() < before[b].0.raw());
            }
        }
    }

    /// Every endpoint of an application, in ascending key order; nothing for an
    /// application that is not monitored.
    pub fn endpoints(&self, app: AppId) -> (v: Vec<TrackedEndpoint>)
        requires
            self.wf(),
        ensures
            !monitors(self@, app) ==> v@ == Seq::<TrackedEndpoint>::empty(),
            forall|i: int| 0 <= i < self@.len() && (#[trigger] self@[i]).0 == app ==> v@ == self@[i].1,
    {
        match self.position_of(app) {
            None => Vec::new(),
            Some(i) => {
                proof {
                    assert forall|k: int| 0 <= k < self@.len() && (#[trigger] self@[k]).0 == app implies k
                        == i by {
                        self.lemma_apps_unique(k, i as int);
                    }
                }
                self.apps[i].endpoints.clone()
            },
        }
    }

    /// How many endpoints an application has, probed or demoted.
    pub fn endpoint_count(&self, app: AppId) -> (n: usize)
        requires
            self.wf(),
        ensures
            !monitors(self@, app) ==> n == 0,
            forall|i: int| 0 <= i < self@.len() && (#[trigger] self@[i]).0 == app ==> n == self@[i].1.len(),
    {
        match self.position_of(app) {
            None => 0,
            Some(i) => {
                proof {
                    assert forall|k: int| 0 <= k < self@.len() && (#[trigger] self@[k]).0 == app implies k
                        == i by {
                        self.lemma_apps_unique(k, i as int);
                    }
                }
                self.apps[i].endpoints.len()
            },
        }
    }
}

/// Whether `a` outranks `b`, computed.
fn outranks_now(a: &TrackedEndpoint, b: &TrackedEndpoint) -> (r: bool)
    ensures
        r == outranks(*a, *b),
{
    let ab = a.rank_volume();
    let bb = b.rank_volume();
    ab > bb || (ab == bb && b.last_seen.lt(&a.last_seen)) || (ab == bb && a.last_seen.le(
        &b.last_seen,
    ) && b.last_seen.le(&a.last_seen) && key_precedes(&a.key, &b.key))
}

/// The positions of `s` probed at the fast interval.
pub open spec fn fast_slots(s: Seq<TrackedEndpoint>) -> Set<int> {
    Set::new(|i: int| 0 <= i < s.len() && s[i].spec_probing() == Probing::Active)
}

/// A sweep keeps the survivors in key order and leaves every one of them demoted until
/// the ranking promotes it; each survivor carries the key of an endpoint it was given.
proof fn lemma_survivors(s: Seq<TrackedEndpoint>, policy: LifecyclePolicy, now: Instant)
    requires
        keys_ascending(s),
    ensures
        keys_ascending(survivors(s, policy, now)),
        forall|i: int|
            0 <= i < survivors(s, policy, now).len() ==> (#[trigger] survivors(
                s,
                policy,
                now,
            )[i]).probing == Probing::Demoted,
        forall|i: int|
            0 <= i < survivors(s, policy, now).len() ==> exists|k: int|
                0 <= k < s.len() && s[k].key == (#[trigger] survivors(s, policy, now)[i]).key,
    decreases s.len(),
{
    if s.len() > 0 {
        let rest = s.drop_last();
        assert(keys_ascending(rest));
        lemma_survivors(rest, policy, now);
        let earlier = survivors(rest, policy, now);
        let out = survivors(s, policy, now);
        if !forgotten(s.last(), policy, now) {
            assert(out == earlier.push(aged(s.last(), policy, now)));
            assert forall|i: int| 0 <= i < out.len() implies exists|k: int|
                0 <= k < s.len() && s[k].key == (#[trigger] out[i]).key by {
                if i < earlier.len() {
                    let k = choose|k: int| 0 <= k < rest.len() && rest[k].key == earlier[i].key;
                    assert(s[k].key == out[i].key);
                } else {
                    assert(s[s.len() - 1].key == out[i].key);
                }
            }
            assert forall|i: int, j: int| 0 <= i < j < out.len() implies key_before(
                #[trigger] out[i].spec_key(),
                #[trigger] out[j].spec_key(),
            ) by {
                if j < earlier.len() {
                    assert(out[i] == earlier[i] && out[j] == earlier[j]);
                } else {
                    assert(out[i] == earlier[i]);
                    let k = choose|k: int| 0 <= k < rest.len() && rest[k].key == earlier[i].key;
                    assert(s[k] == rest[k]);
                    assert(key_before(s[k].spec_key(), s[s.len() - 1].spec_key()));
                }
            }
        }
    }
}

/// Outranking is a strict order, total over endpoints with different keys.
proof fn lemma_outranks(a: TrackedEndpoint, b: TrackedEndpoint, c: TrackedEndpoint)
    ensures
        !outranks(a, a),
        outranks(a, b) && outranks(b, c) ==> outranks(a, c),
        !same_key(a.key, b.key) ==> outranks(a, b) || outranks(b, a),
{
    lemma_key_order(a.key, b.key, c.key);
    lemma_key_order(a.key, a.key, a.key);
}

/// Whatever outranks `better` outranks `worse` too, and `better` itself does; so an
/// active `better` in `s` gives `worse` at least one rival more than it has.
proof fn lemma_rivals_grow(s: Seq<TrackedEndpoint>, better: TrackedEndpoint, worse: TrackedEndpoint)
    requires
        outranks(better, worse),
    ensures
        rivals(s, worse) >= rivals(s, better) + if exists|k: int|
            0 <= k < s.len() && s[k] == better && better.liveness == Liveness::Active {
            1nat
        } else {
            0nat
        },
    decreases s.len(),
{
    if s.len() > 0 {
        lemma_rivals_grow(s.drop_last(), better, worse);
        let x = s.last();
        lemma_outranks(x, better, worse);
        lemma_outranks(better, better, better);
        if exists|k: int| 0 <= k < s.drop_last().len() && s.drop_last()[k] == better
            && better.liveness == Liveness::Active {
            let k = choose|k: int|
                0 <= k < s.drop_last().len() && s.drop_last()[k] == better && better.liveness
                    == Liveness::Active;
            assert(s[k] == better);
        }
        if x == better && better.liveness == Liveness::Active {
            assert(s[s.len() - 1] == better);
        }
        if exists|k: int| 0 <= k < s.len() && s[k] == better && better.liveness == Liveness::Active {
            let k = choose|k: int| 0 <= k < s.len() && s[k] == better && better.liveness == Liveness::Active;
            if k < s.len() - 1 {
                assert(s.drop_last()[k] == better);
            }
        }
        if x.liveness == Liveness::Active && outranks(x, better) {
            assert(outranks(x, worse));
        }
    }
}

/// However many endpoints an application has, a sweep leaves at most the policy's cap of
/// them probed at the fast interval; the rest stay known, demoted.
pub proof fn lemma_sweep_respects_the_cap(
    s: Seq<TrackedEndpoint>,
    policy: LifecyclePolicy,
    now: Instant,
)
    requires
        keys_ascending(s),
    ensures
        fast_slots(swept(s, policy, now)).finite(),
        fast_slots(swept(s, policy, now)).len() <= policy.max_active_endpoints,
{
    let cap = policy.max_active_endpoints;
    let kept = survivors(s, policy, now);
    lemma_survivors(s, policy, now);
    let t = swept(s, policy, now);
    let fast = fast_slots(t);
    vstd::set_lib::lemma_int_range(0, t.len() as int);
    assert(fast.subset_of(vstd::set_lib::set_int_range(0, t.len() as int)));
    vstd::set_lib::lemma_len_subset(fast, vstd::set_lib::set_int_range(0, t.len() as int));
    assert forall|i: int| #[trigger] fast.contains(i) implies kept[i].liveness == Liveness::Active
        && rivals(kept, kept[i]) < cap by {
        assert(t[i] == promoted(kept, kept[i], cap));
        assert(kept[i].probing == Probing::Demoted);
    }
    let rank = |i: int| rivals(kept, kept[i]) as int;
    assert forall|i: int, j: int|
        fast.contains(i) && fast.contains(j) && #[trigger] rank(i) == #[trigger] rank(j) implies i
        == j by {
        if i != j {
            assert(key_before(kept[i].spec_key(), kept[j].spec_key()) || key_before(
                kept[j].spec_key(),
                kept[i].spec_key(),
            ));
            lemma_key_order(kept[i].key, kept[j].key, kept[j].key);
            lemma_outranks(kept[i], kept[j], kept[j]);
            if outranks(kept[i], kept[j]) {
                lemma_rivals_grow(kept, kept[i], kept[j]);
                assert(kept[i] == kept[i]);
            } else {
                lemma_rivals_grow(kept, kept[j], kept[i]);
                assert(kept[j] == kept[j]);
            }
        }
    }
    let image = fast.map(rank);
    vstd::set_lib::lemma_map_size(fast, image, rank);
    vstd::set_lib::lemma_int_range(0, cap as int);
    assert(image.subset_of(vstd::set_lib::set_int_range(0, cap as int)));
    vstd::set_lib::lemma_len_subset(image, vstd::set_lib::set_int_range(0, cap as int));
}

/// A sweep loses nothing silently: every endpoint it is given is either kept or handed
/// back as forgotten, and an idle endpoint is never probed at the fast interval.
pub proof fn lemma_sweep_accounts_for_everything(
    app: AppId,
    s: Seq<TrackedEndpoint>,
    policy: LifecyclePolicy,
    now: Instant,
)
    ensures
        swept(s, policy, now).len() + released(app, s, policy, now).len() == s.len(),
        forall|i: int|
            0 <= i < swept(s, policy, now).len() && (#[trigger] swept(s, policy, now)[i]).spec_liveness()
                == Liveness::Idle ==> swept(s, policy, now)[i].spec_probing() == Probing::Demoted,
    decreases s.len(),
{
    if s.len() > 0 {
        lemma_sweep_accounts_for_everything(app, s.drop_last(), policy, now);
    }
    let kept = survivors(s, policy, now);
    lemma_survivors_demoted(s, policy, now);
    assert forall|i: int|
        0 <= i < swept(s, policy, now).len() && (#[trigger] swept(s, policy, now)[i]).spec_liveness()
            == Liveness::Idle implies swept(s, policy, now)[i].spec_probing() == Probing::Demoted by {
        assert(swept(s, policy, now)[i] == promoted(kept, kept[i], policy.max_active_endpoints));
    }
}

/// What a sweep at `now` makes of `before` when it keeps it: the same endpoint, seen at the
/// same times, idle once its silence outlasts the policy's activity span.
pub open spec fn kept_as(
    after: TrackedEndpoint,
    before: TrackedEndpoint,
    policy: LifecyclePolicy,
    now: Instant,
) -> bool {
    &&& after.spec_key() == before.spec_key()
    &&& after.spec_first_seen() == before.spec_first_seen()
    &&& after.spec_last_seen() == before.spec_last_seen()
    &&& after.spec_liveness() == if silence(before, now) > policy.active_for@ {
        Liveness::Idle
    } else {
        Liveness::Active
    }
}

/// A sighting of a known endpoint keeps its identity and first sighting, marks it seen
/// at `now` and active, leaves its probing tier to the next sweep, and keeps its volume
/// known once any source has counted it.
pub proof fn lemma_refreshed(e: TrackedEndpoint, window: Duration, bytes: Option<u64>, now: Instant)
    ensures
        refreshed(e, window, bytes, now).spec_key() == e.spec_key(),
        refreshed(e, window, bytes, now).spec_first_seen() == e.spec_first_seen(),
        refreshed(e, window, bytes, now).spec_last_seen() == now,
        refreshed(e, window, bytes, now).spec_liveness() == Liveness::Active,
        refreshed(e, window, bytes, now).spec_probing() == e.spec_probing(),
        refreshed(e, window, bytes, now).spec_recent_bytes() is Some <==> (
        e.spec_recent_bytes() is Some || bytes is Some),
{
}

/// A newly discovered endpoint is first and last seen at `now`, active, demoted until a
/// sweep ranks it, and carries exactly the bytes of its first sighting.
pub proof fn lemma_discovered(key: EndpointKey, bytes: Option<u64>, now: Instant)
    ensures
        discovered(key, bytes, now).spec_key() == key,
        discovered(key, bytes, now).spec_first_seen() == now,
        discovered(key, bytes, now).spec_last_seen() == now,
        discovered(key, bytes, now).spec_liveness() == Liveness::Active,
        discovered(key, bytes, now).spec_probing() == Probing::Demoted,
        discovered(key, bytes, now).spec_recent_bytes() == bytes,
{
}

/// The survivor at `i` is an endpoint the sweep was given and did not forget, aged.
proof fn lemma_survivor_source(s: Seq<TrackedEndpoint>, policy: LifecyclePolicy, now: Instant, i: int)
    requires
        0 <= i < survivors(s, policy, now).len(),
    ensures
        exists|k: int|
            0 <= k < s.len() && !forgotten(s[k], policy, now) && survivors(s, policy, now)[i]
                == aged(s[k], policy, now),
    decreases s.len(),
{
    let rest = s.drop_last();
    let earlier = survivors(rest, policy, now);
    if i < earlier.len() {
        lemma_survivor_source(rest, policy, now, i);
        let k = choose|k: int|
            0 <= k < rest.len() && !forgotten(rest[k], policy, now) && earlier[i] == aged(
                rest[k],
                policy,
                now,
            );
        assert(s[k] == rest[k]);
    } else {
        assert(s[s.len() - 1] == s.last());
    }
}

/// An endpoint the sweep does not forget is among the survivors, aged.
proof fn lemma_survivor_kept(s: Seq<TrackedEndpoint>, policy: LifecyclePolicy, now: Instant, k: int)
    requires
        0 <= k < s.len(),
        !forgotten(s[k], policy, now),
    ensures
        exists|i: int|
            0 <= i < survivors(s, policy, now).len() && survivors(s, policy, now)[i] == aged(
                s[k],
                policy,
                now,
            ),
    decreases s.len(),
{
    let rest = s.drop_last();
    let earlier = survivors(rest, policy, now);
    let out = survivors(s, policy, now);
    if k < s.len() - 1 {
        assert(rest[k] == s[k]);
        lemma_survivor_kept(rest, policy, now, k);
        let i = choose|i: int| 0 <= i < earlier.len() && earlier[i] == aged(rest[k], policy, now);
        assert(out[i] == earlier[i]);
    } else {
        assert(out[out.len() - 1] == aged(s[k], policy, now));
    }
}

/// Two lists that agree, place by place, on what the ranking reads give every endpoint
/// the same rivals, and two endpoints that agree on it have the same rivals in a list.
proof fn lemma_rivals_same(a: Seq<TrackedEndpoint>, b: Seq<TrackedEndpoint>, x: TrackedEndpoint, y: TrackedEndpoint)
    requires
        a.len() == b.len(),
        forall|j: int|
            0 <= j < a.len() ==> (#[trigger] a[j]).spec_liveness() == b[j].spec_liveness()
                && a[j].rank_bytes() == b[j].rank_bytes() && a[j].spec_last_seen()
                == b[j].spec_last_seen() && a[j].spec_key() == b[j].spec_key(),
        x.rank_bytes() == y.rank_bytes(),
        x.spec_last_seen() == y.spec_last_seen(),
        x.spec_key() == y.spec_key(),
    ensures
        rivals(a, x) == rivals(b, y),
    decreases a.len(),
{
    if a.len() > 0 {
        assert forall|j: int| 0 <= j < a.drop_last().len() implies (#[trigger] a.drop_last()[j]).spec_liveness()
            == b.drop_last()[j].spec_liveness() && a.drop_last()[j].rank_bytes()
            == b.drop_last()[j].rank_bytes() && a.drop_last()[j].spec_last_seen()
            == b.drop_last()[j].spec_last_seen() && a.drop_last()[j].spec_key()
            == b.drop_last()[j].spec_key() by {
            assert(a.drop_last()[j] == a[j] && b.drop_last()[j] == b[j]);
        }
        lemma_rivals_same(a.drop_last(), b.drop_last(), x, y);
        assert(a.last() == a[a.len() - 1] && b.last() == b[b.len() - 1]);
    }
}

/// What a sweep keeps, and how it ranks it: the kept endpoints stay in key order; each is
/// one it was given and not forgotten, seen at the same times, idle exactly when its
/// silence outlasts the activity span; every endpoint not forgotten is kept; and a kept
/// endpoint is probed at the fast interval exactly when it is active and fewer than the
/// policy's cap of the active kept endpoints outrank it.
pub proof fn lemma_sweep_outcome(s: Seq<TrackedEndpoint>, policy: LifecyclePolicy, now: Instant)
    requires
        keys_ascending(s),
    ensures
        keys_ascending(swept(s, policy, now)),
        forall|i: int|
            0 <= i < swept(s, policy, now).len() ==> exists|k: int|
                0 <= k < s.len() && !forgotten(s[k], policy, now) && kept_as(
                    #[trigger] swept(s, policy, now)[i],
                    s[k],
                    policy,
                    now,
                ),
        forall|k: int|
            0 <= k < s.len() && !forgotten(#[trigger] s[k], policy, now) ==> exists|i: int|
                0 <= i < swept(s, policy, now).len() && kept_as(
                    swept(s, policy, now)[i],
                    s[k],
                    policy,
                    now,
                ),
        forall|i: int|
            0 <= i < swept(s, policy, now).len() ==> (#[trigger] swept(s, policy, now)[i]).spec_probing()
                == if swept(s, policy, now)[i].spec_liveness() == Liveness::Active && rivals(
                swept(s, policy, now),
                swept(s, policy, now)[i],
            ) < policy.max_active_endpoints {
                Probing::Active
            } else {
                Probing::Demoted
            },
{
    let t = swept(s, policy, now);
    assert forall|i: int, j: int| 0 <= i < j < t.len() implies key_before(
        #[trigger] t[i].spec_key(),
        #[trigger] t[j].spec_key(),
    ) by {
        lemma_survivors(s, policy, now);
        lemma_swept_at(s, policy, now, i);
        lemma_swept_at(s, policy, now, j);
    }
    assert forall|i: int| 0 <= i < t.len() implies exists|k: int|
        0 <= k < s.len() && !forgotten(s[k], policy, now) && kept_as(
            #[trigger] t[i],
            s[k],
            policy,
            now,
        ) by {
        lemma_swept_source(s, policy, now, i);
    }
    assert forall|k: int| 0 <= k < s.len() && !forgotten(#[trigger] s[k], policy, now) implies exists|i: int|
        0 <= i < t.len() && kept_as(t[i], s[k], policy, now) by {
        lemma_swept_kept(s, policy, now, k);
    }
    assert forall|i: int| 0 <= i < t.len() implies (#[trigger] t[i]).spec_probing() == if t[i].spec_liveness()
        == Liveness::Active && rivals(t, t[i]) < policy.max_active_endpoints {
        Probing::Active
    } else {
        Probing::Demoted
    } by {
        lemma_swept_probing(s, policy, now, i);
    }
}

/// The swept endpoint at `i` is the survivor at `i`, promoted or not.
proof fn lemma_swept_at(s: Seq<TrackedEndpoint>, policy: LifecyclePolicy, now: Instant, i: int)
    requires
        0 <= i < swept(s, policy, now).len(),
    ensures
        swept(s, policy, now).len() == survivors(s, policy, now).len(),
        swept(s, policy, now)[i] == promoted(
            survivors(s, policy, now),
            survivors(s, policy, now)[i],
            policy.max_active_endpoints,
        ),
{
}

proof fn lemma_swept_source(s: Seq<TrackedEndpoint>, policy: LifecyclePolicy, now: Instant, i: int)
    requires
        0 <= i < swept(s, policy, now).len(),
    ensures
        exists|k: int|
            0 <= k < s.len() && !forgotten(s[k], policy, now) && kept_as(
                swept(s, policy, now)[i],
                s[k],
                policy,
                now,
            ),
{
    lemma_swept_at(s, policy, now, i);
    lemma_survivor_source(s, policy, now, i);
    let k = choose|k: int|
        0 <= k < s.len() && !forgotten(s[k], policy, now) && survivors(s, policy, now)[i] == aged(
            s[k],
            policy,
            now,
        );
    assert(kept_as(swept(s, policy, now)[i], s[k], policy, now));
}

proof fn lemma_swept_kept(s: Seq<TrackedEndpoint>, policy: LifecyclePolicy, now: Instant, k: int)
    requires
        0 <= k < s.len(),
        !forgotten(s[k], policy, now),
    ensures
        exists|i: int|
            0 <= i < swept(s, policy, now).len() && kept_as(
                swept(s, policy, now)[i],
                s[k],
                policy,
                now,
            ),
{
    lemma_survivor_kept(s, policy, now, k);
    let i = choose|i: int|
        0 <= i < survivors(s, policy, now).len() && survivors(s, policy, now)[i] == aged(
            s[k],
            policy,
            now,
        );
    lemma_swept_at(s, policy, now, i);
    assert(kept_as(swept(s, policy, now)[i], s[k], policy, now));
}

proof fn lemma_swept_probing(s: Seq<TrackedEndpoint>, policy: LifecyclePolicy, now: Instant, i: int)
    requires
        0 <= i < swept(s, policy, now).len(),
    ensures
        swept(s, policy, now)[i].spec_probing() == if swept(s, policy, now)[i].spec_liveness()
            == Liveness::Active && rivals(swept(s, policy, now), swept(s, policy, now)[i])
            < policy.max_active_endpoints {
            Probing::Active
        } else {
            Probing::Demoted
        },
{
    let cap = policy.max_active_endpoints;
    let kept = survivors(s, policy, now);
    let t = swept(s, policy, now);
    lemma_swept_at(s, policy, now, i);
    lemma_survivors_demoted(s, policy, now);
    assert(kept[i].probing == Probing::Demoted);
    assert forall|j: int| 0 <= j < kept.len() implies (#[trigger] kept[j]).spec_liveness()
        == t[j].spec_liveness() && kept[j].rank_bytes() == t[j].rank_bytes()
        && kept[j].spec_last_seen() == t[j].spec_last_seen() && kept[j].spec_key()
        == t[j].spec_key() by {
        lemma_swept_at(s, policy, now, j);
    }
    lemma_rivals_same(kept, t, kept[i], t[i]);
}

/// Every survivor of a sweep starts demoted.
proof fn lemma_survivors_demoted(s: Seq<TrackedEndpoint>, policy: LifecyclePolicy, now: Instant)
    ensures
        forall|i: int|
            0 <= i < survivors(s, policy, now).len() ==> (#[trigger] survivors(
                s,
                policy,
                now,
            )[i]).probing == Probing::Demoted,
    decreases s.len(),
{
    if s.len() > 0 {
        lemma_survivors_demoted(s.drop_last(), policy, now);
    }
}

} // verus!
