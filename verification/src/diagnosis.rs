//! Turning every signal held into one actionable, network-level statement.
//!
//! Everything else measures; this concludes, and it states network-level facts and nothing
//! else. It never says a game is broken or a company's service is down: it says where the
//! evidence stops agreeing, because that is what tells a user whether to wait, to call
//! their provider, or to turn on a VPN.
//!
//! | domestic | foreign | app's endpoints | game's pool | reads as |
//! |---|---|---|---|---|
//! | bad | bad | — | — | the user's own line or provider |
//! | clean | bad | — | — | the path out of the country |
//! | clean | clean | bad | clean | the route to this application |
//! | clean | clean | bad | all silent | the game's servers |
//! | clean | clean | bad | partly silent | part of the game's servers |
//!
//! Absence of knowledge is never a finding: a network that filters every probe is
//! `NothingMeasurable`, never a confident verdict about a border.

use crate::health::HealthCounts;
use crate::pool::PoolReading;
use vstd::prelude::*;

verus! {

/// What the evidence adds up to, as a network-level statement.
#[derive(Debug, Clone, Copy, PartialEq, Eq, Structural, Hash)]
pub enum Verdict {
    /// Too little has been measured to say anything at all.
    NotEnoughEvidence,
    /// Probes are being filtered wherever they were sent, so nothing was measured.
    NothingMeasurable,
    /// Nothing measured points at a network-wide problem.
    ///
    /// Deliberately not "everything is fine": a single slow member is still shown with its
    /// own state.
    Clear,
    /// Services inside the user's own country are failing: the user's own line or provider.
    LocalNetworkOrProvider,
    /// Domestic services answer normally and foreign ones do not: the path out of the
    /// country, not a policy.
    CrossBorderPath,
    /// The general network is fine and this application's own endpoints are not.
    RouteToThisApplication,
    /// The game's own reference targets have all gone silent while the network is fine.
    GameServersUnreachable,
    /// Part of the game's reference pool is silent while the rest answers.
    GameServersPartlyUnreachable,
}

impl Verdict {
    /// Whether this verdict describes a problem the user can act on.
    pub open spec fn spec_is_actionable(self) -> bool {
        !(self is NotEnoughEvidence || self is NothingMeasurable || self is Clear)
    }

    /// Whether this verdict describes a problem the user can act on.
    pub fn is_actionable(self) -> (b: bool)
        ensures
            b == self.spec_is_actionable(),
    {
        match self {
            Verdict::NotEnoughEvidence | Verdict::NothingMeasurable | Verdict::Clear => false,
            _ => true,
        }
    }
}

/// Loss across a whole baseline group, in hundredths of a percent, that points at the path
/// rather than at bad luck: a tenth of every packet across unrelated operators at once.
pub const GROUP_LOSS_THAT_POINTS_AT_A_PATH_BP: u32 = 1_000;

/// What a monitored application contributes to a diagnosis.
#[derive(Debug, Clone, Copy, PartialEq, Eq, Structural)]
pub struct AppEvidence {
    /// How its endpoints are distributed across the health states.
    pub endpoints: HealthCounts,
    /// What its game's reference pool says, when it has one.
    pub pool: Option<PoolReading>,
}

/// What one baseline group contributes: its distribution, not its headline verdict.
///
/// Read as a headline, one slow member among three clean ones would become "services
/// abroad do not answer", a border claim built on a group that was answering everywhere.
#[derive(Debug, Clone, Copy, PartialEq, Eq, Structural, Default)]
pub struct BaselineEvidence {
    /// How the group's members are distributed across the health states.
    pub counts: HealthCounts,
    /// Loss across the whole group, weighted by probes, in hundredths of a percent.
    ///
    /// Throttling arrives as loss rather than as silence, so a rule reading only "does it
    /// answer" would miss the case the product mostly exists for.
    pub loss_bp: Option<u32>,
}

impl BaselineEvidence {
    /// Members that produced a usable answer: known, and not merely filtered.
    pub open spec fn spec_judged(self) -> nat {
        (self.counts.spec_known() - self.counts.blocked) as nat
    }

    /// Whether anything about the group is known at all.
    pub open spec fn spec_is_measured(self) -> bool {
        self.spec_judged() > 0
    }

    /// Whether the group is failing as a group: more than half its judged members answering
    /// nothing at all, or loss across the board at the path line.
    pub open spec fn spec_is_failing(self) -> bool {
        self.spec_is_measured() && (self.counts.spec_answering() * 2 < self.spec_judged() || (
        self.loss_bp matches Some(loss) && loss >= GROUP_LOSS_THAT_POINTS_AT_A_PATH_BP))
    }

    /// Whether every probe the group sent was filtered.
    pub open spec fn spec_is_entirely_filtered(self) -> bool {
        self.counts.blocked > 0 && self.spec_judged() == 0
    }

    /// A group whose members are distributed like this, with no loss figure.
    pub fn of(counts: HealthCounts) -> (b: BaselineEvidence)
        ensures
            b == (BaselineEvidence { counts, loss_bp: None }),
    {
        BaselineEvidence { counts, loss_bp: None }
    }

    /// The same group, with the loss its probes measured.
    pub fn losing(self, loss_bp: Option<u32>) -> (b: BaselineEvidence)
        ensures
            b == (BaselineEvidence { loss_bp, ..self }),
    {
        BaselineEvidence { loss_bp, ..self }
    }

    fn judged(self) -> (n: usize)
        requires
            self.counts.spec_total() <= usize::MAX,
        ensures
            n == self.spec_judged(),
    {
        self.counts.known() - self.counts.blocked
    }

    fn is_measured(self) -> (b: bool)
        requires
            self.counts.spec_total() <= usize::MAX,
        ensures
            b == self.spec_is_measured(),
    {
        self.judged() > 0
    }

    fn is_failing(self) -> (b: bool)
        requires
            self.counts.spec_total() <= usize::MAX,
        ensures
            b == self.spec_is_failing(),
    {
        if !self.is_measured() {
            return false;
        }
        let answering = self.counts.answering();
        let judged = self.judged();
        answering < judged - answering || match self.loss_bp {
            Some(loss) => loss >= GROUP_LOSS_THAT_POINTS_AT_A_PATH_BP,
            None => false,
        }
    }

    fn is_entirely_filtered(self) -> (b: bool)
        requires
            self.counts.spec_total() <= usize::MAX,
        ensures
            b == self.spec_is_entirely_filtered(),
    {
        self.counts.blocked > 0 && self.judged() == 0
    }
}

/// Everything the diagnosis reads.
#[derive(Debug, Clone, Copy, PartialEq, Eq, Structural)]
pub struct Evidence {
    /// The domestic baseline group.
    pub domestic: BaselineEvidence,
    /// The foreign baseline group.
    pub foreign: BaselineEvidence,
    /// The application being diagnosed, when the verdict is about one.
    pub app: Option<AppEvidence>,
}

impl Evidence {
    /// The evidence for the general network alone, with no application in view.
    pub fn baselines(domestic: HealthCounts, foreign: HealthCounts) -> (e: Evidence)
        ensures
            e == (Evidence {
                domestic: BaselineEvidence { counts: domestic, loss_bp: None },
                foreign: BaselineEvidence { counts: foreign, loss_bp: None },
                app: None,
            }),
    {
        Evidence {
            domestic: BaselineEvidence::of(domestic),
            foreign: BaselineEvidence::of(foreign),
            app: None,
        }
    }

    /// The same evidence with an application's endpoints and pool folded in.
    pub fn about(self, app: AppEvidence) -> (e: Evidence)
        ensures
            e == (Evidence { app: Some(app), ..self }),
    {
        Evidence { app: Some(app), ..self }
    }

    /// Every distribution in the evidence counts fewer members than `usize` can hold.
    pub open spec fn countable(self) -> bool {
        &&& self.domestic.counts.spec_total() <= usize::MAX
        &&& self.foreign.counts.spec_total() <= usize::MAX
        &&& self.app matches Some(app) ==> {
            &&& app.endpoints.spec_total() <= usize::MAX
            &&& app.pool matches Some(pool) ==> pool.counts.spec_total() <= usize::MAX
        }
    }
}

/// A verdict and the evidence it actually covers.
#[derive(Debug, Clone, Copy, PartialEq, Eq, Structural)]
pub struct Diagnosis {
    /// What the evidence says.
    pub verdict: Verdict,
    /// How many of the application's endpoints the verdict is about; zero for a verdict
    /// about the general network.
    pub endpoints_affected: usize,
    /// How many endpoints the application has in total.
    pub endpoints_total: usize,
}

/// A verdict about the general network, covering no particular endpoint.
pub open spec fn general(verdict: Verdict) -> Diagnosis {
    Diagnosis { verdict, endpoints_affected: 0, endpoints_total: 0 }
}

/// What the evidence about one application supports, once the network is settled.
///
/// The game's pool is asked before the route, because its servers not answering explains
/// this application's failing endpoints and the route does not explain the pool. An
/// endpoint proven alive by its traffic, or one whose probes were only filtered, is not
/// failing in a way a path explains.
pub open spec fn app_verdict(app: AppEvidence) -> Verdict {
    let counts = app.endpoints;
    let affected = counts.unreachable + counts.degraded;
    if counts.spec_total() == 0 || counts.spec_known() == 0 {
        Verdict::NotEnoughEvidence
    } else if app.pool matches Some(pool) && pool.spec_judged() > 0
        && pool.counts.spec_answering() == 0 {
        Verdict::GameServersUnreachable
    } else if app.pool matches Some(pool) && pool.spec_judged() > 0
        && pool.counts.spec_answering() < pool.spec_judged() {
        Verdict::GameServersPartlyUnreachable
    } else if affected > 0 {
        Verdict::RouteToThisApplication
    } else if counts.ok == 0 && counts.carrying_traffic == 0 {
        Verdict::NothingMeasurable
    } else {
        Verdict::Clear
    }
}

/// What the evidence supports. The rules run in order, and the order is the argument: the
/// general network is settled before anything is claimed about an application.
pub open spec fn spec_diagnose(evidence: Evidence) -> Diagnosis {
    let domestic = evidence.domestic;
    let foreign = evidence.foreign;
    if !domestic.spec_is_measured() && !foreign.spec_is_measured() {
        if domestic.spec_is_entirely_filtered() || foreign.spec_is_entirely_filtered() {
            general(Verdict::NothingMeasurable)
        } else {
            general(Verdict::NotEnoughEvidence)
        }
    } else if domestic.spec_is_failing() {
        general(Verdict::LocalNetworkOrProvider)
    } else if foreign.spec_is_failing() {
        general(Verdict::CrossBorderPath)
    } else if domestic.spec_is_measured() && foreign.spec_is_entirely_filtered() {
        general(Verdict::CrossBorderPath)
    } else {
        match evidence.app {
            None => general(Verdict::Clear),
            Some(app) => Diagnosis {
                verdict: app_verdict(app),
                endpoints_affected: (app.endpoints.unreachable + app.endpoints.degraded) as usize,
                endpoints_total: app.endpoints.spec_total() as usize,
            },
        }
    }
}

/// Reads the evidence and states what it supports.
pub fn diagnose(evidence: &Evidence) -> (d: Diagnosis)
    requires
        evidence.countable(),
    ensures
        d == spec_diagnose(*evidence),
{
    let domestic = evidence.domestic;
    let foreign = evidence.foreign;
    if !domestic.is_measured() && !foreign.is_measured() {
        let filtered = domestic.is_entirely_filtered() || foreign.is_entirely_filtered();
        return Diagnosis {
            verdict: if filtered {
                Verdict::NothingMeasurable
            } else {
                Verdict::NotEnoughEvidence
            },
            endpoints_affected: 0,
            endpoints_total: 0,
        };
    }
    if domestic.is_failing() {
        return Diagnosis {
            verdict: Verdict::LocalNetworkOrProvider,
            endpoints_affected: 0,
            endpoints_total: 0,
        };
    }
    if foreign.is_failing() || (domestic.is_measured() && foreign.is_entirely_filtered()) {
        return Diagnosis { verdict: Verdict::CrossBorderPath, endpoints_affected: 0, endpoints_total: 0 };
    }
    match evidence.app {
        None => Diagnosis { verdict: Verdict::Clear, endpoints_affected: 0, endpoints_total: 0 },
        Some(app) => diagnose_app(&app),
    }
}

/// The half of the rules that need an application in view.
fn diagnose_app(app: &AppEvidence) -> (d: Diagnosis)
    requires
        app.endpoints.spec_total() <= usize::MAX,
        app.pool matches Some(pool) ==> pool.counts.spec_total() <= usize::MAX,
    ensures
        d == (Diagnosis {
            verdict: app_verdict(*app),
            endpoints_affected: (app.endpoints.unreachable + app.endpoints.degraded) as usize,
            endpoints_total: app.endpoints.spec_total() as usize,
        }),
{
    let counts = app.endpoints;
    let total = counts.total();
    let affected = counts.unreachable + counts.degraded;
    let verdict = if total == 0 || counts.known() == 0 {
        Verdict::NotEnoughEvidence
    } else {
        let pool_verdict = match app.pool {
            Some(pool) => match pool.answering_ratio() {
                Some((answering, judged)) => if answering == 0 {
                    Some(Verdict::GameServersUnreachable)
                } else if answering < judged {
                    Some(Verdict::GameServersPartlyUnreachable)
                } else {
                    None
                },
                None => None,
            },
            None => None,
        };
        match pool_verdict {
            Some(v) => v,
            None => if affected > 0 {
                Verdict::RouteToThisApplication
            } else if counts.ok == 0 && counts.carrying_traffic == 0 {
                Verdict::NothingMeasurable
            } else {
                Verdict::Clear
            },
        }
    };
    Diagnosis { verdict, endpoints_affected: affected, endpoints_total: total }
}

/// Absence of knowledge is never a finding: with neither baseline measured, the verdict is
/// one that may never be shown as good news or as a problem.
pub proof fn lemma_nothing_measured_is_no_finding(evidence: Evidence)
    requires
        !evidence.domestic.spec_is_measured(),
        !evidence.foreign.spec_is_measured(),
    ensures
        !spec_diagnose(evidence).verdict.spec_is_actionable(),
        !(spec_diagnose(evidence).verdict is Clear),
{
}

/// The network is settled before any application is blamed: a failing domestic group is
/// always the user's own line, whatever the application's endpoints say, and a verdict
/// about the network covers no particular endpoint.
pub proof fn lemma_network_before_application(evidence: Evidence)
    requires
        evidence.domestic.spec_is_failing(),
    ensures
        spec_diagnose(evidence) == general(Verdict::LocalNetworkOrProvider),
{
}

/// A verdict about an application or its game is only ever reached with both baselines
/// measured clean of failure.
pub proof fn lemma_application_verdicts_need_a_clean_network(evidence: Evidence)
    requires
        spec_diagnose(evidence).verdict is RouteToThisApplication || spec_diagnose(
            evidence,
        ).verdict is GameServersUnreachable || spec_diagnose(
            evidence,
        ).verdict is GameServersPartlyUnreachable,
    ensures
        !evidence.domestic.spec_is_failing(),
        !evidence.foreign.spec_is_failing(),
        evidence.domestic.spec_is_measured() || evidence.foreign.spec_is_measured(),
        evidence.app is Some,
{
}

/// With the network settled clean, an application's failing endpoints blame the route to
/// it: when both baselines are measured and neither is failing, the application has known
/// endpoints, and its game's pool (if any) answers from every member it judged, an endpoint
/// that is unreachable or merely degraded makes the verdict the route to this application,
/// and the verdict covers exactly those endpoints. With none of them failing, the route is
/// never blamed.
pub proof fn lemma_failing_endpoints_blame_the_route(evidence: Evidence, app: AppEvidence)
    requires
        evidence.app == Some(app),
        evidence.domestic.spec_is_measured(),
        evidence.foreign.spec_is_measured(),
        !evidence.domestic.spec_is_failing(),
        !evidence.foreign.spec_is_failing(),
        app.endpoints.spec_total() <= usize::MAX,
        app.endpoints.spec_known() > 0,
        app.pool matches Some(pool) ==> pool.counts.spec_answering() == pool.spec_judged(),
    ensures
        app.endpoints.unreachable > 0 || app.endpoints.degraded > 0 ==> {
            &&& spec_diagnose(evidence).verdict is RouteToThisApplication
            &&& spec_diagnose(evidence).endpoints_affected == app.endpoints.unreachable
                + app.endpoints.degraded
            &&& spec_diagnose(evidence).endpoints_total == app.endpoints.spec_total()
        },
        app.endpoints.unreachable == 0 && app.endpoints.degraded == 0 ==> {
            &&& !(spec_diagnose(evidence).verdict is RouteToThisApplication)
            &&& spec_diagnose(evidence).endpoints_affected == 0
        },
{
}

/// A verdict that blames the route to an application always names failing endpoints: the
/// route is blamed only when some endpoint is unreachable or degraded, and then the
/// diagnosis says how many.
pub proof fn lemma_route_verdict_names_failing_endpoints(evidence: Evidence)
    requires
        evidence.countable(),
        spec_diagnose(evidence).verdict is RouteToThisApplication,
    ensures
        evidence.app matches Some(app) && (app.endpoints.unreachable > 0
            || app.endpoints.degraded > 0) && spec_diagnose(evidence).endpoints_affected
            == app.endpoints.unreachable + app.endpoints.degraded,
        spec_diagnose(evidence).endpoints_affected > 0,
{
}

/// With the network settled clean, the game's pool is asked before the route: when the
/// application has known endpoints and its pool judged some member, a pool where nothing
/// answers blames the game's servers, one where some but not all answer blames them in
/// part, and only a pool answering from every judged member leaves the verdict to the
/// application's own endpoints.
pub proof fn lemma_pool_is_asked_before_the_route(
    evidence: Evidence,
    app: AppEvidence,
    pool: PoolReading,
)
    requires
        evidence.app == Some(app),
        app.pool == Some(pool),
        evidence.domestic.spec_is_measured(),
        evidence.foreign.spec_is_measured(),
        !evidence.domestic.spec_is_failing(),
        !evidence.foreign.spec_is_failing(),
        app.endpoints.spec_known() > 0,
        pool.spec_judged() > 0,
    ensures
        pool.counts.ok + pool.counts.degraded == 0 ==> spec_diagnose(evidence).verdict
            is GameServersUnreachable,
        0 < pool.counts.ok + pool.counts.degraded < pool.spec_judged() ==> spec_diagnose(
            evidence,
        ).verdict is GameServersPartlyUnreachable,
        pool.counts.ok + pool.counts.degraded >= pool.spec_judged() ==> !(spec_diagnose(
            evidence,
        ).verdict is GameServersUnreachable) && !(spec_diagnose(
            evidence,
        ).verdict is GameServersPartlyUnreachable),
{
}

/// Which border a failing baseline blames: a failing domestic group is the user's own line
/// or provider; with the domestic group clean, a failing foreign group, or a measured
/// domestic group beside a foreign one whose every probe was filtered, is the path across
/// the border. Neither claims any endpoint.
pub proof fn lemma_baselines_place_the_fault(evidence: Evidence)
    requires
        evidence.domestic.spec_is_measured() || evidence.foreign.spec_is_measured(),
    ensures
        evidence.domestic.spec_is_failing() ==> spec_diagnose(evidence) == general(
            Verdict::LocalNetworkOrProvider,
        ),
        !evidence.domestic.spec_is_failing() && (evidence.foreign.spec_is_failing() || (
        evidence.domestic.spec_is_measured() && evidence.foreign.spec_is_entirely_filtered()))
            ==> spec_diagnose(evidence) == general(Verdict::CrossBorderPath),
        !evidence.domestic.spec_is_failing() && !evidence.foreign.spec_is_failing()
            && !evidence.foreign.spec_is_entirely_filtered() && evidence.app is None
            ==> spec_diagnose(evidence) == general(Verdict::Clear),
{
}

/// A baseline group fails as a group on either sign, and only on them: when fewer than
/// half of its judged members answer, or when its loss reaches the path line. A group with
/// at least half its judged members answering and its loss below the line, or unmeasured,
/// is not failing.
pub proof fn lemma_what_fails_a_group(group: BaselineEvidence)
    requires
        group.spec_judged() > 0,
    ensures
        (group.counts.ok + group.counts.degraded) * 2 < group.spec_judged() ==> group.spec_is_failing(),
        (group.loss_bp matches Some(loss) && loss >= GROUP_LOSS_THAT_POINTS_AT_A_PATH_BP)
            ==> group.spec_is_failing(),
        (group.counts.ok + group.counts.degraded) * 2 >= group.spec_judged() && !(
        group.loss_bp matches Some(loss) && loss >= GROUP_LOSS_THAT_POINTS_AT_A_PATH_BP)
            ==> !group.spec_is_failing(),
{
}

} // verus!
