//! The lifecycle orchestrator: the command surface that keeps the persisted
//! configuration, the advertisement statuses and the audit log mutually
//! consistent while driving the discovery daemon.
//!
//! Persisting the configuration is an external action.  For each mutating
//! command the caller first obtains the bytes the command will persist (the
//! `plan_*` functions), performs the atomic file write, and then hands the
//! write's outcome to the command itself.  A failed write aborts the command
//! with an I/O error and no state change; registration failures never abort a
//! command — they are recorded as an `Error` status and an audit entry.

use vstd::prelude::*;

use crate::audit::{spec_append, AuditLog, MAX_LOG_ENTRIES};
use crate::codec::{render_config, spec_dec, spec_render};
use crate::error::AppError;
use crate::mdns::{register_service, unregister_service, Daemon};
use crate::models::{
    clone_txt, AppConfig, ConfigModel, EntryModel, LogEntry, LogLevel, ServiceConfig,
    ServiceStatus, ServiceView, SvcModel, txt_view,
};
use crate::status::{stat_of, StatusTracker};
use crate::text::{strings_distinct, strings_unique};

verus! {

/// The mathematical state of the orchestrator: the configuration, the status
/// mapping, and the audit log, each as its spec-level view.
pub ghost struct StateModel {
    pub config: ConfigModel,
    pub statuses: Map<Seq<char>, ServiceStatus>,
    pub log: Seq<EntryModel>,
}

impl StateModel {
    /// The cross-component invariant: service identities are unique, only
    /// identities present in the configuration carry a status, and the log
    /// respects its cap.
    pub open spec fn wf(self) -> bool {
        &&& self.config.ids_unique()
        &&& self.log.len() <= MAX_LOG_ENTRIES
        &&& forall|k: Seq<char>| self.statuses.dom().contains(k) ==> self.config.has_id(k)
    }
}

/// An audit entry with the given fields.
pub open spec fn entry(now: i64, level: LogLevel, msg: Seq<char>, sid: Option<Seq<char>>) -> EntryModel {
    EntryModel { timestamp: now, level, message: msg, service_id: sid }
}

/// The audit message texts of the commands.
pub open spec fn msg_added(name: Seq<char>) -> Seq<char> {
    "Service '"@ + name + "' added"@
}

pub open spec fn msg_updated(name: Seq<char>) -> Seq<char> {
    "Service '"@ + name + "' updated"@
}

pub open spec fn msg_deleted(name: Seq<char>) -> Seq<char> {
    "Service '"@ + name + "' deleted"@
}

pub open spec fn msg_started(name: Seq<char>) -> Seq<char> {
    "Service '"@ + name + "' started"@
}

pub open spec fn msg_stopped(name: Seq<char>) -> Seq<char> {
    "Service '"@ + name + "' stopped"@
}

pub open spec fn msg_start_failed(name: Seq<char>, err: Seq<char>) -> Seq<char> {
    "Failed to start service '"@ + name + "': "@ + err
}

/// Recording the outcome of one registration attempt: a success records
/// `Running` and an info entry, a failure records `Error` and an error entry.
/// Either way the command itself goes on.
pub open spec fn record_start(
    m: StateModel,
    id: Seq<char>,
    name: Seq<char>,
    outcome: Result<(), Seq<char>>,
    now: i64,
) -> StateModel {
    match outcome {
        Result::Ok(_) => StateModel {
            config: m.config,
            statuses: m.statuses.insert(id, ServiceStatus::Running),
            log: spec_append(m.log, entry(now, LogLevel::Info, msg_started(name), Some(id))),
        },
        Result::Err(e) => StateModel {
            config: m.config,
            statuses: m.statuses.insert(id, ServiceStatus::Error),
            log: spec_append(
                m.log,
                entry(now, LogLevel::Error, msg_start_failed(name, e), Some(id)),
            ),
        },
    }
}

/// What adding a service does: the definition goes to the back of the list
/// and is logged; when it is enabled, the registration outcome is recorded.
pub open spec fn spec_add(
    m: StateModel,
    svc: SvcModel,
    outcome: Option<Result<(), Seq<char>>>,
    now: i64,
) -> StateModel {
    let m1 = StateModel {
        config: ConfigModel {
            version: m.config.version,
            hostname: m.config.hostname,
            services: m.config.services.push(svc),
        },
        statuses: m.statuses,
        log: spec_append(m.log, entry(now, LogLevel::Info, msg_added(svc.name), Some(svc.id))),
    };
    match outcome {
        Option::None => m1,
        Option::Some(o) => record_start(m1, svc.id, svc.name, o, now),
    }
}

/// What deleting a service does: the definition leaves the list, its status
/// record leaves the mapping, and the deletion is logged.
pub open spec fn spec_delete(m: StateModel, id: Seq<char>, now: i64) -> StateModel {
    let i = m.config.index_of(id);
    let name = m.config.services[i].name;
    StateModel {
        config: ConfigModel {
            version: m.config.version,
            hostname: m.config.hostname,
            services: m.config.services.remove(i),
        },
        statuses: m.statuses.remove(id),
        log: spec_append(m.log, entry(now, LogLevel::Info, msg_deleted(name), Some(id))),
    }
}

/// The same service definition with the desired-state flag replaced.
pub open spec fn svc_with_enabled(s: SvcModel, e: bool) -> SvcModel {
    SvcModel {
        id: s.id,
        name: s.name,
        service_type: s.service_type,
        port: s.port,
        txt: s.txt,
        enabled: e,
    }
}

/// The same configuration with one service definition replaced.
pub open spec fn cfg_with(c: ConfigModel, i: int, s: SvcModel) -> ConfigModel {
    ConfigModel { version: c.version, hostname: c.hostname, services: c.services.update(i, s) }
}

/// What toggling a service does.  A running service is stopped: status
/// `Stopped`, desired state off, a "stopped" entry.  Any other service is
/// started: the registration outcome is recorded, and the desired state is
/// forced on whether or not registration succeeded.
pub open spec fn spec_toggle(
    m: StateModel,
    id: Seq<char>,
    outcome: Result<(), Seq<char>>,
    now: i64,
) -> StateModel {
    let i = m.config.index_of(id);
    let svc = m.config.services[i];
    if stat_of(m.statuses, id) == ServiceStatus::Running {
        StateModel {
            config: cfg_with(m.config, i, svc_with_enabled(svc, false)),
            statuses: m.statuses.insert(id, ServiceStatus::Stopped),
            log: spec_append(m.log, entry(now, LogLevel::Info, msg_stopped(svc.name), Some(id))),
        }
    } else {
        let m1 = record_start(m, id, svc.name, outcome, now);
        StateModel {
            config: cfg_with(m.config, i, svc_with_enabled(svc, true)),
            statuses: m1.statuses,
            log: m1.log,
        }
    }
}

/// What updating a service does: a running instance is stopped first
/// (best-effort withdrawal, status `Stopped`), the stored definition is
/// replaced and logged, and — when the new definition is enabled — the
/// registration outcome is recorded.
pub open spec fn spec_update(
    m: StateModel,
    id: Seq<char>,
    new_svc: SvcModel,
    outcome: Option<Result<(), Seq<char>>>,
    now: i64,
) -> StateModel {
    let i = m.config.index_of(id);
    let st1 = if stat_of(m.statuses, id) == ServiceStatus::Running {
        m.statuses.insert(id, ServiceStatus::Stopped)
    } else {
        m.statuses
    };
    let m1 = StateModel {
        config: cfg_with(m.config, i, new_svc),
        statuses: st1,
        log: spec_append(m.log, entry(now, LogLevel::Info, msg_updated(new_svc.name), Some(id))),
    };
    match outcome {
        Option::None => m1,
        Option::Some(o) => record_start(m1, id, new_svc.name, o, now),
    }
}

/// Every service definition with the desired-state flag forced.
pub open spec fn all_enabled(svcs: Seq<SvcModel>, e: bool) -> Seq<SvcModel> {
    svcs.map(|i: int, s: SvcModel| svc_with_enabled(s, e))
}

/// The statuses after a start-all pass: a service already running keeps its
/// record; any other service gets `Running` or `Error` from its registration
/// outcome.
pub open spec fn start_statuses(
    m0: Map<Seq<char>, ServiceStatus>,
    svcs: Seq<SvcModel>,
    oks: Seq<bool>,
) -> Map<Seq<char>, ServiceStatus>
    decreases svcs.len(),
{
    if svcs.len() == 0 {
        m0
    } else {
        let prev = start_statuses(m0, svcs.drop_last(), oks.drop_last());
        let s = svcs.last();
        if stat_of(m0, s.id) == ServiceStatus::Running {
            prev
        } else {
            prev.insert(
                s.id,
                if 0 < oks.len() && oks.last() {
                    ServiceStatus::Running
                } else {
                    ServiceStatus::Error
                },
            )
        }
    }
}

/// What starting all services does: registration is attempted for every
/// service not already running, every desired-state flag is forced on, and
/// one summary entry is logged.
pub open spec fn spec_start_all(m: StateModel, oks: Seq<bool>, now: i64) -> StateModel {
    StateModel {
        config: ConfigModel {
            version: m.config.version,
            hostname: m.config.hostname,
            services: all_enabled(m.config.services, true),
        },
        statuses: start_statuses(m.statuses, m.config.services, oks),
        log: spec_append(m.log, entry(now, LogLevel::Info, "All services started"@, None)),
    }
}

/// What stopping all services does: every running advertisement is withdrawn
/// (best-effort), every status becomes `Stopped` (no registration is
/// attempted, so never `Error`), every desired-state flag is forced off, and
/// one summary entry is logged.
pub open spec fn spec_stop_all(m: StateModel, now: i64) -> StateModel {
    StateModel {
        config: ConfigModel {
            version: m.config.version,
            hostname: m.config.hostname,
            services: all_enabled(m.config.services, false),
        },
        statuses: Map::<Seq<char>, ServiceStatus>::empty(),
        log: spec_append(m.log, entry(now, LogLevel::Info, "All services stopped"@, None)),
    }
}

/// The character sequences of the given identifier vector.
pub open spec fn ids_view(v: Seq<String>) -> Seq<Seq<char>> {
    v.map(|i: int, s: String| s@)
}

/// The given identities substituted into the service definitions, position
/// for position.
pub open spec fn with_ids(svcs: Seq<SvcModel>, ids: Seq<Seq<char>>) -> Seq<SvcModel> {
    svcs.map(
        |i: int, s: SvcModel|
            SvcModel {
                id: ids[i],
                name: s.name,
                service_type: s.service_type,
                port: s.port,
                txt: s.txt,
                enabled: s.enabled,
            },
    )
}

pub open spec fn msg_import_failed(name: Seq<char>, err: Seq<char>) -> Seq<char> {
    "Failed to start imported service '"@ + name + "': "@ + err
}

pub open spec fn msg_imported(n: nat) -> Seq<char> {
    "Configuration imported ("@ + spec_dec(n) + if n == 1 {
        " service)"@
    } else {
        " services)"@
    }
}

/// Recording the registration outcomes of an import, service by service: a
/// disabled service is skipped; an enabled one gets `Running`, or `Error`
/// together with an error entry.
pub open spec fn import_reg(
    m: StateModel,
    svcs: Seq<SvcModel>,
    ocs: Seq<Result<(), Seq<char>>>,
    now: i64,
) -> StateModel
    decreases svcs.len(),
{
    if svcs.len() == 0 {
        m
    } else {
        let prev = import_reg(m, svcs.drop_last(), ocs.drop_last(), now);
        let s = svcs.last();
        if !s.enabled {
            prev
        } else {
            match (if 0 < ocs.len() {
                ocs.last()
            } else {
                Result::<(), Seq<char>>::Ok(())
            }) {
                Result::Ok(_) => StateModel {
                    config: prev.config,
                    statuses: prev.statuses.insert(s.id, ServiceStatus::Running),
                    log: prev.log,
                },
                Result::Err(e) => StateModel {
                    config: prev.config,
                    statuses: prev.statuses.insert(s.id, ServiceStatus::Error),
                    log: spec_append(
                        prev.log,
                        entry(now, LogLevel::Error, msg_import_failed(s.name, e), Some(s.id)),
                    ),
                },
            }
        }
    }
}

/// What importing a parsed configuration does: the incoming services replace
/// the configuration wholesale under the given fresh identities, the live
/// hostname is kept, every status record is dropped, each enabled service's
/// registration outcome is recorded, and one summary entry is logged.
pub open spec fn spec_import(
    m: StateModel,
    version: u32,
    svcs: Seq<SvcModel>,
    ocs: Seq<Result<(), Seq<char>>>,
    now: i64,
) -> StateModel {
    let base = StateModel {
        config: ConfigModel { version, hostname: m.config.hostname, services: svcs },
        statuses: Map::<Seq<char>, ServiceStatus>::empty(),
        log: m.log,
    };
    let m1 = import_reg(base, svcs, ocs, now);
    StateModel {
        config: m1.config,
        statuses: m1.statuses,
        log: spec_append(m1.log, entry(now, LogLevel::Info, msg_imported(svcs.len()), None)),
    }
}

/// Import registration never touches the configuration, respects the log cap,
/// and records statuses only under the services' identities.
pub proof fn lemma_import_reg_props(
    m: StateModel,
    svcs: Seq<SvcModel>,
    ocs: Seq<Result<(), Seq<char>>>,
    now: i64,
)
    ensures
        import_reg(m, svcs, ocs, now).config == m.config,
        m.log.len() <= MAX_LOG_ENTRIES ==> import_reg(m, svcs, ocs, now).log.len()
            <= MAX_LOG_ENTRIES,
        forall|k: Seq<char>|
            import_reg(m, svcs, ocs, now).statuses.dom().contains(k) ==> m.statuses.dom().contains(
                k,
            ) || exists|i: int| 0 <= i < svcs.len() && svcs[i].id == k,
    decreases svcs.len(),
{
    if svcs.len() > 0 {
        lemma_import_reg_props(m, svcs.drop_last(), ocs.drop_last(), now);
        assert forall|k: Seq<char>|
            import_reg(m, svcs, ocs, now).statuses.dom().contains(k) implies m
            .statuses.dom().contains(k) || exists|i: int|
            0 <= i < svcs.len() && svcs[i].id == k by {
            if svcs.last().enabled && k == svcs.last().id {
                assert(svcs[svcs.len() - 1].id == k);
            } else {
                if import_reg(m, svcs.drop_last(), ocs.drop_last(), now).statuses.dom().contains(
                    k,
                ) && !m.statuses.dom().contains(k) {
                    let i = choose|i: int|
                        0 <= i < svcs.len() - 1 && svcs.drop_last()[i].id == k;
                    assert(svcs[i].id == k);
                }
            }
        }
    }
}

/// The statuses after start-up registration of the enabled services.
pub open spec fn auto_statuses(
    m0: Map<Seq<char>, ServiceStatus>,
    svcs: Seq<SvcModel>,
    oks: Seq<bool>,
) -> Map<Seq<char>, ServiceStatus>
    decreases svcs.len(),
{
    if svcs.len() == 0 {
        m0
    } else {
        let prev = auto_statuses(m0, svcs.drop_last(), oks.drop_last());
        let s = svcs.last();
        if !s.enabled {
            prev
        } else {
            prev.insert(
                s.id,
                if 0 < oks.len() && oks.last() {
                    ServiceStatus::Running
                } else {
                    ServiceStatus::Error
                },
            )
        }
    }
}

/// How many enabled services started successfully.
pub open spec fn auto_count(svcs: Seq<SvcModel>, oks: Seq<bool>) -> nat
    decreases svcs.len(),
{
    if svcs.len() == 0 {
        0
    } else {
        auto_count(svcs.drop_last(), oks.drop_last()) + if svcs.last().enabled && 0 < oks.len()
            && oks.last() {
            1nat
        } else {
            0nat
        }
    }
}

/// A key of a start-up status mapping was a key before or is an identity of
/// one of the services.
pub proof fn lemma_auto_statuses_dom(
    m0: Map<Seq<char>, ServiceStatus>,
    svcs: Seq<SvcModel>,
    oks: Seq<bool>,
    k: Seq<char>,
)
    requires
        auto_statuses(m0, svcs, oks).dom().contains(k),
    ensures
        m0.dom().contains(k) || exists|i: int| 0 <= i < svcs.len() && svcs[i].id == k,
    decreases svcs.len(),
{
    if svcs.len() > 0 {
        let s = svcs.last();
        if !s.enabled || s.id != k {
            lemma_auto_statuses_dom(m0, svcs.drop_last(), oks.drop_last(), k);
            if !m0.dom().contains(k) {
                let i = choose|i: int| 0 <= i < svcs.len() - 1 && svcs.drop_last()[i].id == k;
                assert(svcs[i].id == k);
            }
        } else {
            assert(svcs[svcs.len() - 1].id == k);
        }
    }
}

/// A key of a start-all status mapping was a key before or is an identity of
/// one of the services.
pub proof fn lemma_start_statuses_dom(
    m0: Map<Seq<char>, ServiceStatus>,
    svcs: Seq<SvcModel>,
    oks: Seq<bool>,
    k: Seq<char>,
)
    requires
        start_statuses(m0, svcs, oks).dom().contains(k),
    ensures
        m0.dom().contains(k) || exists|i: int| 0 <= i < svcs.len() && svcs[i].id == k,
    decreases svcs.len(),
{
    if svcs.len() > 0 {
        let s = svcs.last();
        if stat_of(m0, s.id) == ServiceStatus::Running || s.id != k {
            lemma_start_statuses_dom(m0, svcs.drop_last(), oks.drop_last(), k);
            if !m0.dom().contains(k) {
                let i = choose|i: int| 0 <= i < svcs.len() - 1 && svcs.drop_last()[i].id == k;
                assert(svcs[i].id == k);
            }
        } else {
            assert(svcs[svcs.len() - 1].id == k);
        }
    }
}

/// The read-only views of a state: every configured service, in order, merged
/// with its current status.
pub open spec fn views_of(m: StateModel) -> Seq<crate::models::ViewModel> {
    m.config.services.map(
        |i: int, s: SvcModel|
            crate::models::ViewModel { svc: s, status: stat_of(m.statuses, s.id) },
    )
}

/// The returned view list matches the state.
pub open spec fn views_ok(v: Seq<ServiceView>, m: StateModel) -> bool {
    v.map(|i: int, x: ServiceView| x@) == views_of(m)
}

/// The index of the one service carrying the identity.
pub proof fn lemma_index_unique(c: ConfigModel, i: int, id: Seq<char>)
    requires
        c.ids_unique(),
        0 <= i < c.services.len(),
        c.services[i].id == id,
    ensures
        c.has_id(id),
        c.index_of(id) == i,
{
    assert(c.has_id(id));
    let j = c.index_of(id);
    if i < j {
        assert(c.services[i].id != c.services[j].id);
    } else if j < i {
        assert(c.services[j].id != c.services[i].id);
    }
}

/// Replacing one service with a definition carrying the same identity keeps
/// the identities unique and present.
pub proof fn lemma_ids_unique_update(c: ConfigModel, i: int, s: SvcModel)
    requires
        c.ids_unique(),
        0 <= i < c.services.len(),
        s.id == c.services[i].id,
    ensures
        cfg_with(c, i, s).ids_unique(),
        forall|k: Seq<char>| cfg_with(c, i, s).has_id(k) <==> c.has_id(k),
{
    let c2 = cfg_with(c, i, s);
    assert(forall|j: int| 0 <= j < c2.services.len() ==> c2.services[j].id == c.services[j].id);
    assert forall|k: Seq<char>| c2.has_id(k) implies c.has_id(k) by {
        let w = choose|w: int| 0 <= w < c2.services.len() && c2.services[w].id == k;
        assert(c.services[w].id == k);
    }
    assert forall|k: Seq<char>| c.has_id(k) implies c2.has_id(k) by {
        let w = choose|w: int| 0 <= w < c.services.len() && c.services[w].id == k;
        assert(c2.services[w].id == k);
    }
}

/// Joins a prefix, a dynamic middle part, and a suffix.
fn msg2(pre: &str, mid: &String, post: &str) -> (r: String)
    ensures
        r@ == pre@ + mid@ + post@,
{
    let mut r = String::from_str(pre);
    r.append(mid.as_str());
    r.append(post);
    proof {
        assert(r@ =~= pre@ + mid@ + post@);
    }
    r
}

/// Joins a prefix, a name, a separator, and an error text.
fn msg4(pre: &str, a: &String, mid: &str, b: &String) -> (r: String)
    ensures
        r@ == pre@ + a@ + mid@ + b@,
{
    let mut r = String::from_str(pre);
    r.append(a.as_str());
    r.append(mid);
    r.append(b.as_str());
    proof {
        assert(r@ =~= pre@ + a@ + mid@ + b@);
    }
    r
}

/// The shared state every command operates on: the configuration, the status
/// tracker, the audit log, and the daemon handle.
pub struct Orchestrator {
    pub config: AppConfig,
    pub statuses: StatusTracker,
    pub log: AuditLog,
    pub daemon: Daemon,
}

impl View for Orchestrator {
    type V = StateModel;

    open spec fn view(&self) -> StateModel {
        StateModel { config: self.config@, statuses: self.statuses@, log: self.log@ }
    }
}

/// Whether the identities in a service list are pairwise distinct.
pub fn services_ids_unique(services: &Vec<ServiceConfig>) -> (r: bool)
    ensures
        r == (forall|i: int, j: int|
            0 <= i < j < services@.len() ==> services@[i].id@ != services@[j].id@),
{
    let n = services.len();
    let mut i: usize = 0;
    while i < n
        invariant
            n == services@.len(),
            i <= n,
            forall|a: int, b: int| 0 <= a < b < i ==> services@[a].id@ != services@[b].id@,
            forall|a: int, b: int|
                0 <= a < i && a < b < n ==> services@[a].id@ != services@[b].id@,
        decreases n - i,
    {
        let mut j: usize = i + 1;
        while j < n
            invariant
                n == services@.len(),
                i < j <= n,
                forall|b: int| i < b < j ==> services@[i as int].id@ != services@[b].id@,
            decreases n - j,
        {
            if services[i].id == services[j].id {
                return false;
            }
            j += 1;
        }
        i += 1;
    }
    true
}

impl Orchestrator {
    /// The representation invariant: the state model invariant, plus the
    /// status tracker's own key uniqueness.
    pub open spec fn wf(self) -> bool {
        &&& self@.wf()
        &&& self.statuses.wf()
    }

    /// A fresh orchestrator over a loaded configuration: no recorded
    /// statuses, an empty log.
    pub fn new(config: AppConfig, daemon: Daemon) -> (r: Orchestrator)
        requires
            config@.ids_unique(),
        ensures
            r.wf(),
            r@.config == config@,
            r@.statuses == Map::<Seq<char>, ServiceStatus>::empty(),
            r@.log == Seq::<EntryModel>::empty(),
            r.daemon == daemon,
    {
        Orchestrator { config, statuses: StatusTracker::new(), log: AuditLog::new(), daemon }
    }

    /// Whether some configured service carries the identity.
    fn has_service(&self, id: &String) -> (r: bool)
        ensures
            r == self@.config.has_id(id@),
    {
        let n = self.config.services.len();
        let mut i: usize = 0;
        while i < n
            invariant
                n == self.config.services@.len(),
                i <= n,
                forall|j: int| 0 <= j < i ==> self.config.services@[j].id@ != id@,
            decreases n - i,
        {
            if self.config.services[i].id == *id {
                proof {
                    assert(self@.config.services[i as int].id == id@);
                }
                return true;
            }
            i += 1;
        }
        proof {
            assert(forall|j: int|
                0 <= j < self@.config.services.len() ==> self@.config.services[j].id != id@);
        }
        false
    }

    /// The index of the service carrying the identity, if any.
    fn find_index(&self, id: &String) -> (r: Option<usize>)
        requires
            self@.config.ids_unique(),
        ensures
            match r {
                Some(i) => i < self@.config.services.len() && self@.config.services[i as int].id
                    == id@ && self@.config.has_id(id@) && self@.config.index_of(id@) == i,
                None => !self@.config.has_id(id@),
            },
    {
        let n = self.config.services.len();
        let mut i: usize = 0;
        while i < n
            invariant
                self@.config.ids_unique(),
                n == self.config.services@.len(),
                i <= n,
                forall|j: int| 0 <= j < i ==> self.config.services@[j].id@ != id@,
            decreases n - i,
        {
            if self.config.services[i].id == *id {
                proof {
                    lemma_index_unique(self@.config, i as int, id@);
                }
                return Some(i);
            }
            i += 1;
        }
        proof {
            assert(forall|j: int|
                0 <= j < self@.config.services.len() ==> self@.config.services[j].id != id@);
        }
        None
    }

    /// The fresh view list: every configured service merged with its status.
    fn build_views(&self) -> (r: Vec<ServiceView>)
        requires
            self.statuses.wf(),
        ensures
            views_ok(r@, self@),
    {
        let n = self.config.services.len();
        let mut r: Vec<ServiceView> = Vec::new();
        let mut i: usize = 0;
        while i < n
            invariant
                self.statuses.wf(),
                n == self.config.services@.len(),
                i <= n,
                r@.len() == i,
                forall|j: int|
                    0 <= j < i ==> #[trigger] r@[j]@ == (crate::models::ViewModel {
                        svc: self@.config.services[j],
                        status: stat_of(self@.statuses, self@.config.services[j].id),
                    }),
            decreases n - i,
        {
            let svc = &self.config.services[i];
            let st = self.statuses.get(&svc.id);
            r.push(ServiceView::from_config(svc, st));
            i += 1;
        }
        proof {
            assert(r@.map(|i: int, x: ServiceView| x@) =~= views_of(self@));
        }
        r
    }

    /// The fresh view list of all services.
    pub fn get_services(&self) -> (r: Vec<ServiceView>)
        requires
            self.wf(),
        ensures
            views_ok(r@, self@),
    {
        self.build_views()
    }

    /// The host identity the configuration carries.
    pub fn get_host_name(&self) -> (r: String)
        ensures
            r@ == self@.config.hostname,
    {
        self.config.hostname.clone()
    }

    /// The retained audit entries, oldest first.
    pub fn get_event_logs(&self) -> (r: Vec<LogEntry>)
        ensures
            r@.map(|i: int, e: LogEntry| e@) == self@.log,
    {
        self.log.get_all()
    }

    /// Drops every audit entry.
    pub fn clear_event_logs(&mut self)
        requires
            old(self).wf(),
        ensures
            final(self).wf(),
            final(self).daemon == old(self).daemon,
            final(self)@ == (StateModel {
                config: old(self)@.config,
                statuses: old(self)@.statuses,
                log: Seq::<EntryModel>::empty(),
            }),
    {
        self.log.clear();
    }

    /// Appends one audit entry.
    pub fn append_log(&mut self, level: LogLevel, message: String, service_id: Option<String>, now: i64)
        requires
            old(self).wf(),
        ensures
            final(self).wf(),
            final(self).daemon == old(self).daemon,
            final(self)@ == (StateModel {
                config: old(self)@.config,
                statuses: old(self)@.statuses,
                log: spec_append(
                    old(self)@.log,
                    entry(
                        now,
                        level,
                        message@,
                        match service_id {
                            Some(s) => Some(s@),
                            None => None::<Seq<char>>,
                        },
                    ),
                ),
            }),
    {
        self.log.append(now, level, message, service_id);
    }

    /// Adds a service under the given fresh identity, persists, and — when it
    /// is enabled — attempts registration, recording the outcome.  A
    /// duplicate identity or a failed persist aborts with no state change; a
    /// failed registration does not abort.
    pub fn add_service(
        &mut self,
        id: String,
        name: String,
        service_type: String,
        port: u16,
        txt: Vec<(String, String)>,
        enabled: bool,
        save: Result<(), String>,
        now: i64,
    ) -> (r: Result<Vec<ServiceView>, AppError>)
        requires
            old(self).wf(),
        ensures
            final(self).wf(),
            final(self).daemon == old(self).daemon,
            old(self)@.config.has_id(id@) ==> final(self)@ == old(self)@ && (r matches Err(
                AppError::Config(_),
            )),
            !old(self)@.config.has_id(id@) && save is Err ==> final(self)@ == old(self)@ && (
            match r {
                Result::Err(AppError::Io(m)) => m@ == save->Err_0@,
                _ => false,
            }),
            !old(self)@.config.has_id(id@) && save is Ok ==> {
                &&& r is Ok
                &&& views_ok(r->Ok_0@, final(self)@)
                &&& exists|oc: Option<Result<(), Seq<char>>>|
                    {
                        &&& (oc is Some <==> enabled)
                        &&& final(self)@ == spec_add(
                            old(self)@,
                            SvcModel {
                                id: id@,
                                name: name@,
                                service_type: service_type@,
                                port,
                                txt: txt_view(txt@),
                                enabled,
                            },
                            oc,
                            now,
                        )
                        &&& (enabled && old(self).daemon.is_fake() ==> ((oc->0 is Ok)
                            <==> old(self).daemon.fake_accepts(name@)))
                    }
            },
    {
        if self.has_service(&id) {
            return Err(AppError::Config(String::from_str("duplicate service id")));
        }
        if let Err(e) = save {
            return Err(AppError::Io(e));
        }
        let svc = ServiceConfig {
            id: id.clone(),
            name: name.clone(),
            service_type,
            port,
            txt,
            enabled,
        };
        let ghost svc_model = svc@;
        self.config.services.push(svc);
        self.log.append(
            now,
            LogLevel::Info,
            msg2("Service '", &name, "' added"),
            Some(id.clone()),
        );
        proof {
            assert(self@.config.services =~= old(self)@.config.services.push(svc_model));
            assert forall|k: Seq<char>| self@.statuses.dom().contains(k) implies self@
                .config.has_id(k) by {
                assert(old(self)@.config.has_id(k));
                let w = choose|w: int|
                    0 <= w < old(self)@.config.services.len() && old(self)@.config.services[w].id
                        == k;
                assert(self@.config.services[w].id == k);
            }
        }
        let ghost mid_state = self@;
        let ghost mut oc: Option<Result<(), Seq<char>>> = None;
        if enabled {
            let idx = self.config.services.len() - 1;
            let outcome = register_service(
                &self.daemon,
                &self.config.services[idx],
                self.config.hostname.as_str(),
            );
            match outcome {
                Ok(_) => {
                    self.statuses.set(&id, ServiceStatus::Running);
                    self.log.append(
                        now,
                        LogLevel::Info,
                        msg2("Service '", &name, "' started"),
                        Some(id.clone()),
                    );
                    proof {
                        oc = Some(Result::Ok(()));
                    }
                },
                Err(e) => {
                    self.statuses.set(&id, ServiceStatus::Error);
                    let m = msg4("Failed to start service '", &name, "': ", &e);
                    self.log.append(now, LogLevel::Error, m, Some(id.clone()));
                    proof {
                        oc = Some(Result::Err(e@));
                    }
                },
            }
            proof {
                assert(self@ == record_start(mid_state, id@, name@, oc->0, now));
                assert forall|k: Seq<char>| self@.statuses.dom().contains(k) implies self@
                    .config.has_id(k) by {
                    if k != id@ {
                        assert(mid_state.statuses.dom().contains(k));
                    } else {
                        assert(self@.config.services.last().id == id@);
                    }
                }
            }
        }
        proof {
            assert(final(self)@ == spec_add(old(self)@, svc_model, oc, now));
        }
        let views = self.build_views();
        Ok(views)
    }

    /// Deletes the service carrying the identity: unregisters it when it is
    /// running (best-effort), removes it from the configuration, drops its
    /// status record, and logs the deletion.  An unknown identity or a failed
    /// persist aborts with no state change.
    pub fn delete_service(&mut self, id: String, save: Result<(), String>, now: i64) -> (r:
        Result<Vec<ServiceView>, AppError>)
        requires
            old(self).wf(),
        ensures
            final(self).wf(),
            final(self).daemon == old(self).daemon,
            !old(self)@.config.has_id(id@) ==> final(self)@ == old(self)@ && (match r {
                Result::Err(AppError::NotFound(s)) => s@ == id@,
                _ => false,
            }),
            old(self)@.config.has_id(id@) && save is Err ==> final(self)@ == old(self)@ && (
            match r {
                Result::Err(AppError::Io(m)) => m@ == save->Err_0@,
                _ => false,
            }),
            old(self)@.config.has_id(id@) && save is Ok ==> {
                &&& r is Ok
                &&& views_ok(r->Ok_0@, final(self)@)
                &&& final(self)@ == spec_delete(old(self)@, id@, now)
            },
    {
        let idx = match self.find_index(&id) {
            None => {
                return Err(AppError::NotFound(id));
            },
            Some(i) => i,
        };
        if let Err(e) = save {
            return Err(AppError::Io(e));
        }
        if self.statuses.is_running(&id) {
            let _ = unregister_service(&self.daemon, &self.config.services[idx]);
        }
        let removed = self.config.services.remove(idx);
        self.statuses.remove(&id);
        self.log.append(
            now,
            LogLevel::Info,
            msg2("Service '", &removed.name, "' deleted"),
            Some(id),
        );
        proof {
            assert(self@.config.services =~= old(self)@.config.services.remove(idx as int));
            assert(self@ == spec_delete(old(self)@, removed.id@, now));
            assert forall|k: Seq<char>| self@.statuses.dom().contains(k) implies self@
                .config.has_id(k) by {
                assert(old(self)@.statuses.dom().contains(k));
                assert(old(self)@.config.has_id(k));
                let w = choose|w: int|
                    0 <= w < old(self)@.config.services.len() && old(self)@.config.services[w].id
                        == k;
                assert(k != removed.id@);
                assert(w != idx as int);
                if w < idx as int {
                    assert(self@.config.services[w].id == k);
                } else {
                    assert(self@.config.services[w - 1] == old(self)@.config.services[w]);
                    assert(self@.config.services[w - 1].id == k);
                }
            }
        }
        let views = self.build_views();
        Ok(views)
    }

    /// Forces the desired-state flag of the service at the index.
    fn set_enabled_at(&mut self, i: usize, e: bool)
        requires
            i < old(self).config.services@.len(),
        ensures
            final(self).config.services@.len() == old(self).config.services@.len(),
            final(self)@.config == cfg_with(
                old(self)@.config,
                i as int,
                svc_with_enabled(old(self)@.config.services[i as int], e),
            ),
            final(self)@.statuses == old(self)@.statuses,
            final(self)@.log == old(self)@.log,
            final(self).statuses == old(self).statuses,
            final(self).log == old(self).log,
            final(self).daemon == old(self).daemon,
    {
        self.config.services[i].enabled = e;
        proof {
            assert(self@.config.services =~= old(self)@.config.services.update(
                i as int,
                svc_with_enabled(old(self)@.config.services[i as int], e),
            ));
        }
    }

    /// Replaces the service definition at the index.
    fn replace_at(&mut self, i: usize, svc: ServiceConfig)
        requires
            i < old(self).config.services@.len(),
        ensures
            final(self).config.services@.len() == old(self).config.services@.len(),
            final(self)@.config == cfg_with(old(self)@.config, i as int, svc@),
            final(self)@.statuses == old(self)@.statuses,
            final(self)@.log == old(self)@.log,
            final(self).statuses == old(self).statuses,
            final(self).log == old(self).log,
            final(self).daemon == old(self).daemon,
    {
        self.config.services[i] = svc;
        proof {
            assert(self@.config.services =~= old(self)@.config.services.update(
                i as int,
                self.config.services@[i as int]@,
            ));
        }
    }

    /// Toggles the service carrying the identity: a running service is
    /// stopped and disabled; any other service is enabled and registration is
    /// attempted, recording the outcome.  An unknown identity or a failed
    /// persist aborts with no state change.
    pub fn toggle_service(&mut self, id: String, save: Result<(), String>, now: i64) -> (r:
        Result<Vec<ServiceView>, AppError>)
        requires
            old(self).wf(),
        ensures
            final(self).wf(),
            final(self).daemon == old(self).daemon,
            !old(self)@.config.has_id(id@) ==> final(self)@ == old(self)@ && (match r {
                Result::Err(AppError::NotFound(s)) => s@ == id@,
                _ => false,
            }),
            old(self)@.config.has_id(id@) && save is Err ==> final(self)@ == old(self)@ && (
            match r {
                Result::Err(AppError::Io(m)) => m@ == save->Err_0@,
                _ => false,
            }),
            old(self)@.config.has_id(id@) && save is Ok ==> {
                &&& r is Ok
                &&& views_ok(r->Ok_0@, final(self)@)
                &&& exists|oc: Result<(), Seq<char>>|
                    {
                        &&& final(self)@ == spec_toggle(old(self)@, id@, oc, now)
                        &&& (stat_of(old(self)@.statuses, id@) != ServiceStatus::Running && old(
                            self,
                        ).daemon.is_fake() ==> (oc is Ok <==> old(self).daemon.fake_accepts(
                            old(self)@.config.services[old(self)@.config.index_of(id@)].name,
                        )))
                    }
            },
    {
        let idx = match self.find_index(&id) {
            None => {
                return Err(AppError::NotFound(id));
            },
            Some(i) => i,
        };
        if let Err(e) = save {
            return Err(AppError::Io(e));
        }
        let running = self.statuses.is_running(&id);
        let ghost mut oc: Result<(), Seq<char>> = Result::Ok(());
        if running {
            let _ = unregister_service(&self.daemon, &self.config.services[idx]);
            self.statuses.set(&id, ServiceStatus::Stopped);
            let name = self.config.services[idx].name.clone();
            self.log.append(
                now,
                LogLevel::Info,
                msg2("Service '", &name, "' stopped"),
                Some(id.clone()),
            );
            self.set_enabled_at(idx, false);
        } else {
            let outcome = register_service(
                &self.daemon,
                &self.config.services[idx],
                self.config.hostname.as_str(),
            );
            let name = self.config.services[idx].name.clone();
            match outcome {
                Ok(_) => {
                    self.statuses.set(&id, ServiceStatus::Running);
                    self.log.append(
                        now,
                        LogLevel::Info,
                        msg2("Service '", &name, "' started"),
                        Some(id.clone()),
                    );
                },
                Err(e) => {
                    self.statuses.set(&id, ServiceStatus::Error);
                    let m = msg4("Failed to start service '", &name, "': ", &e);
                    self.log.append(now, LogLevel::Error, m, Some(id.clone()));
                    proof {
                        oc = Result::Err(e@);
                    }
                },
            }
            self.set_enabled_at(idx, true);
        }
        proof {
            lemma_ids_unique_update(
                old(self)@.config,
                idx as int,
                self@.config.services[idx as int],
            );
            assert(self@ == spec_toggle(old(self)@, id@, oc, now));
            assert forall|k: Seq<char>| self@.statuses.dom().contains(k) implies self@
                .config.has_id(k) by {
                if k == id@ {
                    assert(self@.config.services[idx as int].id == k);
                } else {
                    assert(old(self)@.statuses.dom().contains(k));
                    assert(old(self)@.config.has_id(k));
                }
            }
        }
        let views = self.build_views();
        Ok(views)
    }

    /// Replaces the definition of the service carrying the identity: a
    /// running instance is withdrawn first (best-effort) and marked
    /// `Stopped`, the new definition is stored and logged, and — when it is
    /// enabled — registration is attempted, recording the outcome.  An
    /// unknown identity or a failed persist aborts with no state change.
    pub fn update_service(
        &mut self,
        id: String,
        name: String,
        service_type: String,
        port: u16,
        txt: Vec<(String, String)>,
        enabled: bool,
        save: Result<(), String>,
        now: i64,
    ) -> (r: Result<Vec<ServiceView>, AppError>)
        requires
            old(self).wf(),
        ensures
            final(self).wf(),
            final(self).daemon == old(self).daemon,
            !old(self)@.config.has_id(id@) ==> final(self)@ == old(self)@ && (match r {
                Result::Err(AppError::NotFound(s)) => s@ == id@,
                _ => false,
            }),
            old(self)@.config.has_id(id@) && save is Err ==> final(self)@ == old(self)@ && (
            match r {
                Result::Err(AppError::Io(m)) => m@ == save->Err_0@,
                _ => false,
            }),
            old(self)@.config.has_id(id@) && save is Ok ==> {
                &&& r is Ok
                &&& views_ok(r->Ok_0@, final(self)@)
                &&& exists|oc: Option<Result<(), Seq<char>>>|
                    {
                        &&& (oc is Some <==> enabled)
                        &&& final(self)@ == spec_update(
                            old(self)@,
                            id@,
                            SvcModel {
                                id: id@,
                                name: name@,
                                service_type: service_type@,
                                port,
                                txt: txt_view(txt@),
                                enabled,
                            },
                            oc,
                            now,
                        )
                        &&& (enabled && old(self).daemon.is_fake() ==> ((oc->0 is Ok)
                            <==> old(self).daemon.fake_accepts(name@)))
                    }
            },
    {
        let idx = match self.find_index(&id) {
            None => {
                return Err(AppError::NotFound(id));
            },
            Some(i) => i,
        };
        if let Err(e) = save {
            return Err(AppError::Io(e));
        }
        if self.statuses.is_running(&id) {
            let _ = unregister_service(&self.daemon, &self.config.services[idx]);
            self.statuses.set(&id, ServiceStatus::Stopped);
        }
        let new_svc = ServiceConfig {
            id: id.clone(),
            name: name.clone(),
            service_type,
            port,
            txt,
            enabled,
        };
        let ghost svc_model = new_svc@;
        self.replace_at(idx, new_svc);
        self.log.append(
            now,
            LogLevel::Info,
            msg2("Service '", &name, "' updated"),
            Some(id.clone()),
        );
        proof {
            lemma_ids_unique_update(old(self)@.config, idx as int, svc_model);
        }
        let ghost mid_state = self@;
        let ghost mut oc: Option<Result<(), Seq<char>>> = None;
        if enabled {
            let outcome = register_service(
                &self.daemon,
                &self.config.services[idx],
                self.config.hostname.as_str(),
            );
            match outcome {
                Ok(_) => {
                    self.statuses.set(&id, ServiceStatus::Running);
                    self.log.append(
                        now,
                        LogLevel::Info,
                        msg2("Service '", &name, "' started"),
                        Some(id.clone()),
                    );
                    proof {
                        oc = Some(Result::Ok(()));
                    }
                },
                Err(e) => {
                    self.statuses.set(&id, ServiceStatus::Error);
                    let m = msg4("Failed to start service '", &name, "': ", &e);
                    self.log.append(now, LogLevel::Error, m, Some(id.clone()));
                    proof {
                        oc = Some(Result::Err(e@));
                    }
                },
            }
            proof {
                assert(self@ == record_start(mid_state, id@, name@, oc->0, now));
            }
        }
        proof {
            assert(self@ == spec_update(old(self)@, id@, svc_model, oc, now));
            assert forall|k: Seq<char>| self@.statuses.dom().contains(k) implies self@
                .config.has_id(k) by {
                if k == id@ {
                    assert(self@.config.services[idx as int].id == k);
                } else {
                    assert(old(self)@.statuses.dom().contains(k));
                    assert(old(self)@.config.has_id(k));
                }
            }
        }
        let views = self.build_views();
        Ok(views)
    }

    /// Starts every service: registration is attempted for each service not
    /// already running (failures are recorded per service and do not abort
    /// the batch), every desired-state flag is forced on, and one summary
    /// entry is logged.  A failed persist aborts with no state change.
    pub fn start_all(&mut self, save: Result<(), String>, now: i64) -> (r: Result<
        Vec<ServiceView>,
        AppError,
    >)
        requires
            old(self).wf(),
        ensures
            final(self).wf(),
            final(self).daemon == old(self).daemon,
            save is Err ==> final(self)@ == old(self)@ && (match r {
                Result::Err(AppError::Io(m)) => m@ == save->Err_0@,
                _ => false,
            }),
            save is Ok ==> {
                &&& r is Ok
                &&& views_ok(r->Ok_0@, final(self)@)
                &&& exists|oks: Seq<bool>|
                    {
                        &&& oks.len() == old(self)@.config.services.len()
                        &&& final(self)@ == spec_start_all(old(self)@, oks, now)
                        &&& (old(self).daemon.is_fake() ==> forall|k: int|
                            0 <= k < oks.len() && stat_of(
                                old(self)@.statuses,
                                old(self)@.config.services[k].id,
                            ) != ServiceStatus::Running ==> oks[k] == old(
                                self,
                            ).daemon.fake_accepts(old(self)@.config.services[k].name))
                    }
            },
    {
        if let Err(e) = save {
            return Err(AppError::Io(e));
        }
        let ghost m0 = self@.statuses;
        let ghost mut oks: Seq<bool> = Seq::empty();
        let n = self.config.services.len();
        let mut i: usize = 0;
        while i < n
            invariant
                n == self.config.services@.len(),
                i <= n,
                oks.len() == i,
                self.statuses.wf(),
                self.config == old(self).config,
                self@.log == old(self)@.log,
                self.log == old(self).log,
                self.daemon == old(self).daemon,
                m0 == old(self)@.statuses,
                old(self)@.config.ids_unique(),
                self@.config == old(self)@.config,
                self@.statuses == start_statuses(m0, self@.config.services.take(i as int), oks),
                forall|j: int|
                    i <= j < n ==> stat_of(self@.statuses, self@.config.services[j].id) == stat_of(
                        m0,
                        self@.config.services[j].id,
                    ),
                (old(self).daemon.is_fake() ==> forall|k: int|
                    0 <= k < i && stat_of(m0, self@.config.services[k].id)
                        != ServiceStatus::Running ==> oks[k] == old(self).daemon.fake_accepts(
                        self@.config.services[k].name,
                    )),
            decreases n - i,
        {
            let ghost stats_before = self@.statuses;
            let ghost oks_before = oks;
            let svc = &self.config.services[i];
            if !self.statuses.is_running(&svc.id) {
                let outcome = register_service(&self.daemon, svc, self.config.hostname.as_str());
                match outcome {
                    Ok(_) => {
                        let sid = self.config.services[i].id.clone();
                        self.statuses.set(&sid, ServiceStatus::Running);
                        proof {
                            oks = oks.push(true);
                        }
                    },
                    Err(_) => {
                        let sid = self.config.services[i].id.clone();
                        self.statuses.set(&sid, ServiceStatus::Error);
                        proof {
                            oks = oks.push(false);
                        }
                    },
                }
            } else {
                proof {
                    oks = oks.push(true);
                }
            }
            proof {
                assert(self@.config.services.take(i + 1 as int).drop_last() =~= self@
                    .config.services.take(i as int));
                assert(self@.config.services.take(i + 1 as int).last() == self@
                    .config.services[i as int]);
                assert(oks.drop_last() =~= oks_before);
                assert(stat_of(stats_before, self@.config.services[i as int].id) == stat_of(
                    m0,
                    self@.config.services[i as int].id,
                ));
                assert(self@.statuses == start_statuses(
                    m0,
                    self@.config.services.take(i + 1 as int),
                    oks,
                ));
                assert forall|j: int|
                    i + 1 <= j < n implies stat_of(self@.statuses, self@.config.services[j].id)
                    == stat_of(m0, self@.config.services[j].id) by {
                    assert(self@.config.services[j].id != self@.config.services[i as int].id);
                }
            }
            i += 1;
        }
        proof {
            assert(self@.config.services.take(n as int) =~= self@.config.services);
        }
        let ghost s_mid = self@.statuses;
        let mut j: usize = 0;
        while j < n
            invariant
                n == self.config.services@.len(),
                j <= n,
                self@.statuses == s_mid,
                self.statuses.wf(),
                self@.log == old(self)@.log,
                self.log == old(self).log,
                self.daemon == old(self).daemon,
                self@.config.version == old(self)@.config.version,
                self@.config.hostname == old(self)@.config.hostname,
                forall|k: int|
                    0 <= k < j ==> self@.config.services[k] == svc_with_enabled(
                        old(self)@.config.services[k],
                        true,
                    ),
                forall|k: int| j <= k < n ==> self@.config.services[k] == old(
                    self,
                )@.config.services[k],
            decreases n - j,
        {
            self.set_enabled_at(j, true);
            j += 1;
        }
        self.log.append(now, LogLevel::Info, String::from_str("All services started"), None);
        proof {
            assert(self@.config.services =~= all_enabled(old(self)@.config.services, true));
            assert(self@ == spec_start_all(old(self)@, oks, now));
            assert forall|a: int, b: int|
                0 <= a < b < self@.config.services.len() implies self@.config.services[a].id
                != self@.config.services[b].id by {
                assert(self@.config.services[a].id == old(self)@.config.services[a].id);
                assert(self@.config.services[b].id == old(self)@.config.services[b].id);
            }
            assert forall|k: Seq<char>| self@.statuses.dom().contains(k) implies self@
                .config.has_id(k) by {
                lemma_start_statuses_dom(m0, old(self)@.config.services, oks, k);
                if m0.dom().contains(k) {
                    assert(old(self)@.config.has_id(k));
                }
                let w = choose|w: int|
                    0 <= w < old(self)@.config.services.len() && old(self)@.config.services[w].id
                        == k;
                assert(self@.config.services[w] == svc_with_enabled(
                    old(self)@.config.services[w],
                    true,
                ));
                assert(self@.config.services[w].id == k);
            }
        }
        let views = self.build_views();
        Ok(views)
    }

    /// Stops every service: running advertisements are withdrawn
    /// (best-effort), every status becomes `Stopped`, every desired-state
    /// flag is forced off, and one summary entry is logged.  A failed persist
    /// aborts with no state change.
    pub fn stop_all(&mut self, save: Result<(), String>, now: i64) -> (r: Result<
        Vec<ServiceView>,
        AppError,
    >)
        requires
            old(self).wf(),
        ensures
            final(self).wf(),
            final(self).daemon == old(self).daemon,
            save is Err ==> final(self)@ == old(self)@ && (match r {
                Result::Err(AppError::Io(m)) => m@ == save->Err_0@,
                _ => false,
            }),
            save is Ok ==> {
                &&& r is Ok
                &&& views_ok(r->Ok_0@, final(self)@)
                &&& final(self)@ == spec_stop_all(old(self)@, now)
            },
    {
        if let Err(e) = save {
            return Err(AppError::Io(e));
        }
        let n = self.config.services.len();
        let mut i: usize = 0;
        while i < n
            invariant
                n == self.config.services@.len(),
                i <= n,
                self.statuses.wf(),
                self.config == old(self).config,
                self.statuses == old(self).statuses,
                self.log == old(self).log,
                self.daemon == old(self).daemon,
            decreases n - i,
        {
            let svc = &self.config.services[i];
            if self.statuses.is_running(&svc.id) {
                let _ = unregister_service(&self.daemon, svc);
            }
            i += 1;
        }
        self.statuses.clear();
        let mut j: usize = 0;
        while j < n
            invariant
                n == self.config.services@.len(),
                j <= n,
                self@.statuses == Map::<Seq<char>, ServiceStatus>::empty(),
                self.statuses.wf(),
                self@.log == old(self)@.log,
                self.log == old(self).log,
                self.daemon == old(self).daemon,
                self@.config.version == old(self)@.config.version,
                self@.config.hostname == old(self)@.config.hostname,
                forall|k: int|
                    0 <= k < j ==> self@.config.services[k] == svc_with_enabled(
                        old(self)@.config.services[k],
                        false,
                    ),
                forall|k: int| j <= k < n ==> self@.config.services[k] == old(
                    self,
                )@.config.services[k],
            decreases n - j,
        {
            self.set_enabled_at(j, false);
            j += 1;
        }
        self.log.append(now, LogLevel::Info, String::from_str("All services stopped"), None);
        proof {
            assert(self@.config.services =~= all_enabled(old(self)@.config.services, false));
            assert(self@ == spec_stop_all(old(self)@, now));
            assert forall|a: int, b: int|
                0 <= a < b < self@.config.services.len() implies self@.config.services[a].id
                != self@.config.services[b].id by {
                assert(self@.config.services[a].id == old(self)@.config.services[a].id);
                assert(self@.config.services[b].id == old(self)@.config.services[b].id);
            }
        }
        let views = self.build_views();
        Ok(views)
    }

    /// The portable form of the current configuration, live hostname
    /// included.
    pub fn export_config(&self) -> (r: String)
        ensures
            r@ == spec_render(self@.config),
    {
        render_config(&self.config)
    }

    /// The bytes that `add_service` with these arguments will persist, or the
    /// error it will return instead.
    pub fn plan_add(
        &self,
        id: &String,
        name: &String,
        service_type: &String,
        port: u16,
        txt: &Vec<(String, String)>,
        enabled: bool,
    ) -> (r: Result<String, AppError>)
        ensures
            self@.config.has_id(id@) ==> (r matches Err(AppError::Config(_))),
            !self@.config.has_id(id@) ==> r is Ok && (r->Ok_0)@ == spec_render(
                ConfigModel {
                    version: self@.config.version,
                    hostname: self@.config.hostname,
                    services: self@.config.services.push(
                        SvcModel {
                            id: id@,
                            name: name@,
                            service_type: service_type@,
                            port,
                            txt: txt_view(txt@),
                            enabled,
                        },
                    ),
                },
            ),
    {
        if self.has_service(id) {
            return Err(AppError::Config(String::from_str("duplicate service id")));
        }
        let mut c = self.config.clone();
        c.services.push(
            ServiceConfig {
                id: id.clone(),
                name: name.clone(),
                service_type: service_type.clone(),
                port,
                txt: clone_txt(txt),
                enabled,
            },
        );
        proof {
            assert(c@.services =~= self@.config.services.push(
                SvcModel {
                    id: id@,
                    name: name@,
                    service_type: service_type@,
                    port,
                    txt: txt_view(txt@),
                    enabled,
                },
            ));
        }
        Ok(render_config(&c))
    }

    /// The bytes that `update_service` with these arguments will persist, or
    /// the error it will return instead.
    pub fn plan_update(
        &self,
        id: &String,
        name: &String,
        service_type: &String,
        port: u16,
        txt: &Vec<(String, String)>,
        enabled: bool,
    ) -> (r: Result<String, AppError>)
        requires
            self@.config.ids_unique(),
        ensures
            !self@.config.has_id(id@) ==> (match r {
                Result::Err(AppError::NotFound(s)) => s@ == id@,
                _ => false,
            }),
            self@.config.has_id(id@) ==> r is Ok && (r->Ok_0)@ == spec_render(
                cfg_with(
                    self@.config,
                    self@.config.index_of(id@),
                    SvcModel {
                        id: id@,
                        name: name@,
                        service_type: service_type@,
                        port,
                        txt: txt_view(txt@),
                        enabled,
                    },
                ),
            ),
    {
        let idx = match self.find_index(id) {
            None => {
                return Err(AppError::NotFound(id.clone()));
            },
            Some(i) => i,
        };
        let mut c = self.config.clone();
        c.services[idx] = ServiceConfig {
            id: id.clone(),
            name: name.clone(),
            service_type: service_type.clone(),
            port,
            txt: clone_txt(txt),
            enabled,
        };
        proof {
            assert(c@.services =~= self@.config.services.update(
                idx as int,
                SvcModel {
                    id: id@,
                    name: name@,
                    service_type: service_type@,
                    port,
                    txt: txt_view(txt@),
                    enabled,
                },
            ));
        }
        Ok(render_config(&c))
    }

    /// The bytes that `delete_service` will persist, or the error it will
    /// return instead.
    pub fn plan_delete(&self, id: &String) -> (r: Result<String, AppError>)
        requires
            self@.config.ids_unique(),
        ensures
            !self@.config.has_id(id@) ==> (match r {
                Result::Err(AppError::NotFound(s)) => s@ == id@,
                _ => false,
            }),
            self@.config.has_id(id@) ==> r is Ok && (r->Ok_0)@ == spec_render(
                ConfigModel {
                    version: self@.config.version,
                    hostname: self@.config.hostname,
                    services: self@.config.services.remove(self@.config.index_of(id@)),
                },
            ),
    {
        let idx = match self.find_index(id) {
            None => {
                return Err(AppError::NotFound(id.clone()));
            },
            Some(i) => i,
        };
        let mut c = self.config.clone();
        c.services.remove(idx);
        proof {
            assert(c@.services =~= self@.config.services.remove(idx as int));
        }
        Ok(render_config(&c))
    }

    /// The bytes that `toggle_service` will persist, or the error it will
    /// return instead: the service's desired state becomes on exactly when it
    /// is not currently running.
    pub fn plan_toggle(&self, id: &String) -> (r: Result<String, AppError>)
        requires
            self.wf(),
        ensures
            !self@.config.has_id(id@) ==> (match r {
                Result::Err(AppError::NotFound(s)) => s@ == id@,
                _ => false,
            }),
            self@.config.has_id(id@) ==> r is Ok && (r->Ok_0)@ == spec_render(
                cfg_with(
                    self@.config,
                    self@.config.index_of(id@),
                    svc_with_enabled(
                        self@.config.services[self@.config.index_of(id@)],
                        stat_of(self@.statuses, id@) != ServiceStatus::Running,
                    ),
                ),
            ),
    {
        let idx = match self.find_index(id) {
            None => {
                return Err(AppError::NotFound(id.clone()));
            },
            Some(i) => i,
        };
        let target = !self.statuses.is_running(id);
        let mut c = self.config.clone();
        c.services[idx].enabled = target;
        proof {
            assert(c@.services =~= self@.config.services.update(
                idx as int,
                svc_with_enabled(self@.config.services[idx as int], target),
            ));
        }
        Ok(render_config(&c))
    }

    /// The bytes that `start_all` or `stop_all` will persist: every service's
    /// desired state forced to the given value.
    pub fn plan_set_all(&self, enabled: bool) -> (r: String)
        ensures
            r@ == spec_render(
                ConfigModel {
                    version: self@.config.version,
                    hostname: self@.config.hostname,
                    services: all_enabled(self@.config.services, enabled),
                },
            ),
    {
        let mut c = self.config.clone();
        let n = c.services.len();
        let mut j: usize = 0;
        while j < n
            invariant
                n == c.services@.len(),
                j <= n,
                c@.version == self@.config.version,
                c@.hostname == self@.config.hostname,
                forall|k: int|
                    0 <= k < j ==> c@.services[k] == svc_with_enabled(
                        self@.config.services[k],
                        enabled,
                    ),
                forall|k: int| j <= k < n ==> c@.services[k] == self@.config.services[k],
            decreases n - j,
        {
            let ghost pre = c@.services;
            c.services[j].enabled = enabled;
            proof {
                assert(c@.services =~= pre.update(
                    j as int,
                    svc_with_enabled(pre[j as int], enabled),
                ));
            }
            j += 1;
        }
        proof {
            assert(c@.services =~= all_enabled(self@.config.services, enabled));
        }
        render_config(&c)
    }

    /// The bytes that `import_config` will persist: the parsed services under
    /// the given fresh identities, with the live hostname kept; or the error
    /// it will return instead.
    pub fn plan_import(&self, parsed: &AppConfig, ids: &Vec<String>) -> (r: Result<
        String,
        AppError,
    >)
        ensures
            !(ids@.len() == parsed@.services.len() && strings_unique(ids@)) ==> (r matches Err(
                AppError::Config(_),
            )),
            ids@.len() == parsed@.services.len() && strings_unique(ids@) ==> r is Ok && (
            r->Ok_0)@ == spec_render(
                ConfigModel {
                    version: parsed@.version,
                    hostname: self@.config.hostname,
                    services: with_ids(parsed@.services, ids_view(ids@)),
                },
            ),
    {
        if ids.len() != parsed.services.len() || !strings_distinct(ids) {
            return Err(AppError::Config(String::from_str("invalid fresh identities")));
        }
        let svcs = Self::services_with_ids(&parsed.services, ids);
        let c = AppConfig {
            version: parsed.version,
            hostname: self.config.hostname.clone(),
            services: svcs,
        };
        Ok(render_config(&c))
    }

    /// The parsed services under the given identities, position for position.
    fn services_with_ids(services: &Vec<ServiceConfig>, ids: &Vec<String>) -> (r: Vec<
        ServiceConfig,
    >)
        requires
            ids@.len() == services@.len(),
        ensures
            r@.map(|i: int, s: ServiceConfig| s@) == with_ids(
                services@.map(|i: int, s: ServiceConfig| s@),
                ids_view(ids@),
            ),
    {
        let n = services.len();
        let mut r: Vec<ServiceConfig> = Vec::new();
        let mut k: usize = 0;
        while k < n
            invariant
                n == services@.len(),
                n == ids@.len(),
                k <= n,
                r@.len() == k,
                forall|j: int|
                    0 <= j < k ==> #[trigger] r@[j]@ == (SvcModel {
                        id: ids@[j]@,
                        name: services@[j]@.name,
                        service_type: services@[j]@.service_type,
                        port: services@[j]@.port,
                        txt: services@[j]@.txt,
                        enabled: services@[j]@.enabled,
                    }),
            decreases n - k,
        {
            let mut s = services[k].clone();
            s.id = ids[k].clone();
            r.push(s);
            k += 1;
        }
        proof {
            assert(r@.map(|i: int, s: ServiceConfig| s@) =~= with_ids(
                services@.map(|i: int, s: ServiceConfig| s@),
                ids_view(ids@),
            ));
        }
        r
    }

    /// Replaces the whole configuration with a parsed one under the given
    /// fresh identities: all running advertisements are withdrawn
    /// (best-effort), every status record is dropped, the live hostname is
    /// kept, each enabled incoming service is registered with its outcome
    /// recorded, and one summary entry is logged.  Unusable identities or a
    /// failed persist abort with no state change.
    pub fn import_config(
        &mut self,
        parsed: AppConfig,
        ids: Vec<String>,
        save: Result<(), String>,
        now: i64,
    ) -> (r: Result<Vec<ServiceView>, AppError>)
        requires
            old(self).wf(),
        ensures
            final(self).wf(),
            final(self).daemon == old(self).daemon,
            !(ids@.len() == parsed@.services.len() && strings_unique(ids@)) ==> final(self)@
                == old(self)@ && (r matches Err(AppError::Config(_))),
            ids@.len() == parsed@.services.len() && strings_unique(ids@) && save is Err
                ==> final(self)@ == old(self)@ && (match r {
                Result::Err(AppError::Io(m)) => m@ == save->Err_0@,
                _ => false,
            }),
            ids@.len() == parsed@.services.len() && strings_unique(ids@) && save is Ok ==> {
                &&& r is Ok
                &&& views_ok(r->Ok_0@, final(self)@)
                &&& exists|ocs: Seq<Result<(), Seq<char>>>|
                    {
                        &&& ocs.len() == parsed@.services.len()
                        &&& final(self)@ == spec_import(
                            old(self)@,
                            parsed@.version,
                            with_ids(parsed@.services, ids_view(ids@)),
                            ocs,
                            now,
                        )
                        &&& (old(self).daemon.is_fake() ==> forall|k: int|
                            0 <= k < ocs.len() && parsed@.services[k].enabled ==> ((
                            #[trigger] ocs[k]) is Ok <==> old(self).daemon.fake_accepts(
                                parsed@.services[k].name,
                            )))
                    }
            },
    {
        if ids.len() != parsed.services.len() || !strings_distinct(&ids) {
            return Err(AppError::Config(String::from_str("invalid fresh identities")));
        }
        if let Err(e) = save {
            return Err(AppError::Io(e));
        }
        // withdraw every running advertisement of the outgoing configuration
        let n_old = self.config.services.len();
        let mut i: usize = 0;
        while i < n_old
            invariant
                n_old == self.config.services@.len(),
                i <= n_old,
                self.statuses.wf(),
                self.config == old(self).config,
                self.statuses == old(self).statuses,
                self.log == old(self).log,
                self.daemon == old(self).daemon,
            decreases n_old - i,
        {
            let svc = &self.config.services[i];
            if self.statuses.is_running(&svc.id) {
                let _ = unregister_service(&self.daemon, svc);
            }
            i += 1;
        }
        self.statuses.clear();
        let svcs = Self::services_with_ids(&parsed.services, &ids);
        let host = self.config.hostname.clone();
        self.config = AppConfig { version: parsed.version, hostname: host, services: svcs };
        let ghost base = self@;
        proof {
            assert(base.config.services == with_ids(parsed@.services, ids_view(ids@)));
        }
        let ghost mut ocs: Seq<Result<(), Seq<char>>> = Seq::empty();
        let n = self.config.services.len();
        let mut k: usize = 0;
        while k < n
            invariant
                n == self.config.services@.len(),
                k <= n,
                ocs.len() == k,
                self.statuses.wf(),
                self.daemon == old(self).daemon,
                self.config.hostname@ == base.config.hostname,
                self@.config == base.config,
                self@ == import_reg(base, base.config.services.take(k as int), ocs, now),
                self@.log.len() <= MAX_LOG_ENTRIES,
                base.log.len() <= MAX_LOG_ENTRIES,
                (old(self).daemon.is_fake() ==> forall|j: int|
                    0 <= j < k && base.config.services[j].enabled ==> ((#[trigger] ocs[j]) is Ok
                        <==> old(self).daemon.fake_accepts(base.config.services[j].name))),
            decreases n - k,
        {
            let ghost ocs_before = ocs;
            let ghost state_before = self@;
            if self.config.services[k].enabled {
                let outcome = register_service(
                    &self.daemon,
                    &self.config.services[k],
                    self.config.hostname.as_str(),
                );
                let sid = self.config.services[k].id.clone();
                match outcome {
                    Ok(_) => {
                        self.statuses.set(&sid, ServiceStatus::Running);
                        proof {
                            ocs = ocs.push(Result::Ok(()));
                        }
                    },
                    Err(e) => {
                        self.statuses.set(&sid, ServiceStatus::Error);
                        let name = self.config.services[k].name.clone();
                        let m = msg4("Failed to start imported service '", &name, "': ", &e);
                        self.log.append(now, LogLevel::Error, m, Some(sid));
                        proof {
                            ocs = ocs.push(Result::Err(e@));
                        }
                    },
                }
            } else {
                proof {
                    ocs = ocs.push(Result::Ok(()));
                }
            }
            proof {
                assert(base.config.services.take(k + 1 as int).drop_last() =~= base
                    .config.services.take(k as int));
                assert(base.config.services.take(k + 1 as int).last() == base
                    .config.services[k as int]);
                assert(ocs.drop_last() =~= ocs_before);
                lemma_import_reg_props(
                    base,
                    base.config.services.take(k + 1 as int),
                    ocs,
                    now,
                );
                assert(self@ == import_reg(
                    base,
                    base.config.services.take(k + 1 as int),
                    ocs,
                    now,
                ));
            }
            k += 1;
        }
        proof {
            assert(base.config.services.take(n as int) =~= base.config.services);
        }
        let count = self.config.services.len();
        let mut summary = String::from_str("Configuration imported (");
        crate::codec::push_dec(&mut summary, count as u64);
        if count == 1 {
            summary.append(" service)");
        } else {
            summary.append(" services)");
        }
        proof {
            assert(summary@ =~= msg_imported(base.config.services.len()));
        }
        self.log.append(now, LogLevel::Info, summary, None);
        proof {
            lemma_import_reg_props(base, base.config.services, ocs, now);
            assert(self@ == spec_import(
                old(self)@,
                parsed@.version,
                with_ids(parsed@.services, ids_view(ids@)),
                ocs,
                now,
            ));
            assert(self@.config.services == with_ids(parsed@.services, ids_view(ids@)));
            assert forall|a: int, b: int|
                0 <= a < b < self@.config.services.len() implies self@.config.services[a].id
                != self@.config.services[b].id by {
                assert(self@.config.services[a] == with_ids(parsed@.services, ids_view(ids@))[a]);
                assert(self@.config.services[b] == with_ids(parsed@.services, ids_view(ids@))[b]);
                assert(self@.config.services[a].id == ids_view(ids@)[a]);
                assert(self@.config.services[b].id == ids_view(ids@)[b]);
                assert(ids_view(ids@)[a] == ids@[a]@);
                assert(ids_view(ids@)[b] == ids@[b]@);
            }
            assert(self@.config.services == base.config.services);
            assert forall|kk: Seq<char>| self@.statuses.dom().contains(kk) implies self@
                .config.has_id(kk) by {
                assert(!base.statuses.dom().contains(kk));
                let w = choose|w: int|
                    0 <= w < base.config.services.len() && base.config.services[w].id == kk;
                assert(self@.config.services[w].id == kk);
            }
        }
        let views = self.build_views();
        Ok(views)
    }

    /// Registers every enabled service at start-up, recording each outcome,
    /// and reports how many are running.  Nothing is persisted or logged.
    pub fn auto_start(&mut self) -> (r: usize)
        requires
            old(self).wf(),
        ensures
            final(self).wf(),
            final(self).daemon == old(self).daemon,
            final(self)@.config == old(self)@.config,
            final(self)@.log == old(self)@.log,
            exists|oks: Seq<bool>|
                {
                    &&& oks.len() == old(self)@.config.services.len()
                    &&& final(self)@.statuses == auto_statuses(
                        old(self)@.statuses,
                        old(self)@.config.services,
                        oks,
                    )
                    &&& r == auto_count(old(self)@.config.services, oks)
                    &&& (old(self).daemon.is_fake() ==> forall|k: int|
                        0 <= k < oks.len() && old(self)@.config.services[k].enabled ==> (
                        #[trigger] oks[k]) == old(self).daemon.fake_accepts(
                            old(self)@.config.services[k].name,
                        ))
                },
    {
        let ghost m0 = self@.statuses;
        let ghost mut oks: Seq<bool> = Seq::empty();
        let mut count: usize = 0;
        let n = self.config.services.len();
        let mut k: usize = 0;
        while k < n
            invariant
                n == self.config.services@.len(),
                k <= n,
                oks.len() == k,
                count <= k,
                self.statuses.wf(),
                self.config == old(self).config,
                self.log == old(self).log,
                self.daemon == old(self).daemon,
                m0 == old(self)@.statuses,
                self@.config == old(self)@.config,
                self@.log == old(self)@.log,
                self@.statuses == auto_statuses(m0, self@.config.services.take(k as int), oks),
                count == auto_count(self@.config.services.take(k as int), oks),
                (old(self).daemon.is_fake() ==> forall|j: int|
                    0 <= j < k && self@.config.services[j].enabled ==> (#[trigger] oks[j]) == old(
                        self,
                    ).daemon.fake_accepts(self@.config.services[j].name)),
            decreases n - k,
        {
            let ghost oks_before = oks;
            if self.config.services[k].enabled {
                let outcome = register_service(
                    &self.daemon,
                    &self.config.services[k],
                    self.config.hostname.as_str(),
                );
                let sid = self.config.services[k].id.clone();
                match outcome {
                    Ok(_) => {
                        self.statuses.set(&sid, ServiceStatus::Running);
                        count += 1;
                        proof {
                            oks = oks.push(true);
                        }
                    },
                    Err(_) => {
                        self.statuses.set(&sid, ServiceStatus::Error);
                        proof {
                            oks = oks.push(false);
                        }
                    },
                }
            } else {
                proof {
                    oks = oks.push(false);
                }
            }
            proof {
                assert(self@.config.services.take(k + 1 as int).drop_last() =~= self@
                    .config.services.take(k as int));
                assert(self@.config.services.take(k + 1 as int).last() == self@
                    .config.services[k as int]);
                assert(oks.drop_last() =~= oks_before);
                assert(self@.statuses == auto_statuses(
                    m0,
                    self@.config.services.take(k + 1 as int),
                    oks,
                ));
            }
            k += 1;
        }
        proof {
            assert(self@.config.services.take(n as int) =~= self@.config.services);
            assert forall|kk: Seq<char>| self@.statuses.dom().contains(kk) implies self@
                .config.has_id(kk) by {
                lemma_auto_statuses_dom(m0, old(self)@.config.services, oks, kk);
                if m0.dom().contains(kk) {
                    assert(old(self)@.config.has_id(kk));
                }
                let w = choose|w: int|
                    0 <= w < old(self)@.config.services.len() && old(self)@.config.services[w].id
                        == kk;
                assert(self@.config.services[w].id == kk);
            }
        }
        count
    }
}

} // verus!
