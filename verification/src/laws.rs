//! Laws of the command surface, stated over the transition functions that the
//! commands' contracts are written in, and proved once and for all.

use vstd::prelude::*;

use crate::audit::{spec_append, MAX_LOG_ENTRIES};
use crate::models::{EntryModel, LogLevel, ServiceStatus, SvcModel, ViewModel};
use crate::orchestrator::{
    entry, lemma_ids_unique_update, lemma_index_unique, lemma_import_reg_props, spec_add,
    spec_import, spec_start_all, spec_stop_all, spec_toggle, start_statuses, svc_with_enabled,
    views_of, with_ids, StateModel,
};
use crate::status::stat_of;

verus! {

/// Law: a well-formed state has pairwise-distinct service identities.  Every
/// command requires well-formedness and ensures it again, so identities stay
/// unique under any sequence of commands.
pub proof fn lemma_wf_ids_unique(m: StateModel)
    requires
        m.wf(),
    ensures
        m.config.ids_unique(),
{
}

/// Law: appending to the audit log never grows it beyond its cap, and an
/// append to a full log evicts exactly the oldest entry.
pub proof fn lemma_log_bounded(l: Seq<EntryModel>, e: EntryModel)
    requires
        l.len() <= MAX_LOG_ENTRIES,
    ensures
        spec_append(l, e).len() <= MAX_LOG_ENTRIES,
        l.len() == MAX_LOG_ENTRIES ==> spec_append(l, e) == l.drop_first().push(e),
        l.len() < MAX_LOG_ENTRIES ==> spec_append(l, e) == l.push(e),
{
}

/// One toggle whose registration succeeds: the desired-state flag becomes the
/// opposite of "was running", the recorded status flips between `Running` and
/// `Stopped`, and identity bookkeeping is untouched.
pub proof fn lemma_toggle_ok_step(m: StateModel, id: Seq<char>, now: i64)
    requires
        m.config.ids_unique(),
        m.config.has_id(id),
    ensures
        ({
            let i = m.config.index_of(id);
            let m2 = spec_toggle(m, id, Result::<(), Seq<char>>::Ok(()), now);
            &&& m2.config.ids_unique()
            &&& m2.config.has_id(id)
            &&& m2.config.index_of(id) == i
            &&& m2.config.services.len() == m.config.services.len()
            &&& m2.config.services[i].enabled == (stat_of(m.statuses, id)
                != ServiceStatus::Running)
            &&& stat_of(m2.statuses, id) == (if stat_of(m.statuses, id)
                == ServiceStatus::Running {
                ServiceStatus::Stopped
            } else {
                ServiceStatus::Running
            })
        }),
{
    let i = m.config.index_of(id);
    assert(0 <= i < m.config.services.len() && m.config.services[i].id == id);
    let e = stat_of(m.statuses, id) != ServiceStatus::Running;
    lemma_ids_unique_update(m.config, i, svc_with_enabled(m.config.services[i], e));
    let m2 = spec_toggle(m, id, Result::<(), Seq<char>>::Ok(()), now);
    assert(m2.config.services[i].id == id);
    lemma_index_unique(m2.config, i, id);
}

/// The state after toggling a service a number of times, every registration
/// succeeding.
pub open spec fn toggle_ok_n(m: StateModel, id: Seq<char>, times: nat, now: i64) -> StateModel
    decreases times,
{
    if times == 0 {
        m
    } else {
        toggle_ok_n(
            spec_toggle(m, id, Result::<(), Seq<char>>::Ok(()), now),
            id,
            (times - 1) as nat,
            now,
        )
    }
}

/// Law: toggling a service an even number of times restores its desired-state
/// flag, provided every registration succeeds and the flag initially agrees
/// with the live status (enabled exactly when running).  Without those
/// provisos the flag is not restored: a failing registration leaves the
/// service not running, so the next pair of toggles enables it again.
pub proof fn lemma_toggle_even(m: StateModel, id: Seq<char>, times: nat, now: i64)
    requires
        m.config.ids_unique(),
        m.config.has_id(id),
        m.config.services[m.config.index_of(id)].enabled == (stat_of(m.statuses, id)
            == ServiceStatus::Running),
        times % 2 == 0,
    ensures
        ({
            let mend = toggle_ok_n(m, id, times, now);
            &&& mend.config.has_id(id)
            &&& mend.config.index_of(id) == m.config.index_of(id)
            &&& mend.config.services[mend.config.index_of(id)].enabled
                == m.config.services[m.config.index_of(id)].enabled
        }),
    decreases times,
{
    if times > 0 {
        let i = m.config.index_of(id);
        let m1 = spec_toggle(m, id, Result::<(), Seq<char>>::Ok(()), now);
        let m2 = spec_toggle(m1, id, Result::<(), Seq<char>>::Ok(()), now);
        lemma_toggle_ok_step(m, id, now);
        lemma_toggle_ok_step(m1, id, now);
        assert(m1.config.index_of(id) == i);
        assert(stat_of(m1.statuses, id) == (if stat_of(m.statuses, id) == ServiceStatus::Running {
            ServiceStatus::Stopped
        } else {
            ServiceStatus::Running
        }));
        assert(m2.config.services[i].enabled == (stat_of(m1.statuses, id)
            != ServiceStatus::Running));
        assert(m2.config.services[i].enabled == m.config.services[i].enabled);
        assert(m2.config.services[i].enabled == (stat_of(m2.statuses, id)
            == ServiceStatus::Running));
        assert(toggle_ok_n(m, id, times, now) == toggle_ok_n(m1, id, (times - 1) as nat, now));
        assert(toggle_ok_n(m1, id, (times - 1) as nat, now) == toggle_ok_n(
            m2,
            id,
            (times - 2) as nat,
            now,
        ));
        lemma_toggle_even(m2, id, (times - 2) as nat, now);
    }
}

/// Law: two successive additions under fresh identities put both services in
/// the configuration, in order, under distinct identities — no update is
/// lost.
pub proof fn lemma_add_two(
    m: StateModel,
    s1: SvcModel,
    s2: SvcModel,
    oc1: Option<Result<(), Seq<char>>>,
    oc2: Option<Result<(), Seq<char>>>,
    n1: i64,
    n2: i64,
)
    requires
        !m.config.has_id(s1.id),
        !spec_add(m, s1, oc1, n1).config.has_id(s2.id),
    ensures
        ({
            let m2 = spec_add(spec_add(m, s1, oc1, n1), s2, oc2, n2);
            let n = m.config.services.len() as int;
            &&& s1.id != s2.id
            &&& m2.config.services.len() == n + 2
            &&& m2.config.services[n] == s1
            &&& m2.config.services[n + 1] == s2
        }),
{
    let m1 = spec_add(m, s1, oc1, n1);
    let n = m.config.services.len() as int;
    assert(m1.config.services[n] == s1);
    assert(m1.config.has_id(s1.id));
    let m2 = spec_add(m1, s2, oc2, n2);
    assert(m2.config.services[n] == m1.config.services.push(s2)[n]);
}

/// How many views carry the given status.
pub open spec fn count_status(v: Seq<ViewModel>, st: ServiceStatus) -> nat
    decreases v.len(),
{
    if v.len() == 0 {
        0
    } else {
        count_status(v.drop_last(), st) + if v.last().status == st {
            1nat
        } else {
            0nat
        }
    }
}

/// Counting a sequence of views that carry one status everywhere but at a
/// single position.
proof fn lemma_count_one_off(v: Seq<ViewModel>, k0: int)
    requires
        0 <= k0 < v.len(),
        v[k0].status == ServiceStatus::Error,
        forall|j: int| 0 <= j < v.len() && j != k0 ==> v[j].status == ServiceStatus::Running,
    ensures
        count_status(v, ServiceStatus::Running) == v.len() - 1,
        count_status(v, ServiceStatus::Error) == 1,
    decreases v.len(),
{
    if k0 == v.len() - 1 {
        lemma_count_all(v.drop_last(), ServiceStatus::Running);
        lemma_count_none(v.drop_last(), ServiceStatus::Error);
    } else {
        lemma_count_one_off(v.drop_last(), k0);
    }
}

/// Counting a sequence of views that all carry the status.
proof fn lemma_count_all(v: Seq<ViewModel>, st: ServiceStatus)
    requires
        forall|j: int| 0 <= j < v.len() ==> v[j].status == st,
    ensures
        count_status(v, st) == v.len(),
    decreases v.len(),
{
    if v.len() > 0 {
        lemma_count_all(v.drop_last(), st);
    }
}

/// Counting a sequence of views none of which carries the status.
proof fn lemma_count_none(v: Seq<ViewModel>, st: ServiceStatus)
    requires
        forall|j: int| 0 <= j < v.len() ==> v[j].status != st,
    ensures
        count_status(v, st) == 0,
    decreases v.len(),
{
    if v.len() > 0 {
        lemma_count_none(v.drop_last(), st);
    }
}

/// The status that a start-all pass records for each service.
proof fn lemma_start_statuses_at(
    m0: Map<Seq<char>, ServiceStatus>,
    svcs: Seq<SvcModel>,
    oks: Seq<bool>,
    k: int,
)
    requires
        forall|a: int, b: int| 0 <= a < b < svcs.len() ==> svcs[a].id != svcs[b].id,
        oks.len() == svcs.len(),
        0 <= k < svcs.len(),
    ensures
        stat_of(start_statuses(m0, svcs, oks), svcs[k].id) == (if stat_of(m0, svcs[k].id)
            == ServiceStatus::Running {
            ServiceStatus::Running
        } else if oks[k] {
            ServiceStatus::Running
        } else {
            ServiceStatus::Error
        }),
    decreases svcs.len(),
{
    let s = svcs.last();
    if k == svcs.len() - 1 {
        if stat_of(m0, s.id) == ServiceStatus::Running {
            lemma_start_statuses_keeps(m0, svcs.drop_last(), oks.drop_last(), s.id);
        }
    } else {
        assert(svcs.drop_last()[k] == svcs[k]);
        lemma_start_statuses_at(m0, svcs.drop_last(), oks.drop_last(), k);
        assert(svcs[k].id != s.id);
    }
}

/// A start-all pass leaves the status of an identity that no service carries
/// unchanged.
proof fn lemma_start_statuses_keeps(
    m0: Map<Seq<char>, ServiceStatus>,
    svcs: Seq<SvcModel>,
    oks: Seq<bool>,
    id: Seq<char>,
)
    requires
        forall|j: int| 0 <= j < svcs.len() ==> svcs[j].id != id,
    ensures
        stat_of(start_statuses(m0, svcs, oks), id) == stat_of(m0, id),
    decreases svcs.len(),
{
    if svcs.len() > 0 {
        assert(forall|j: int| 0 <= j < svcs.len() - 1 ==> svcs.drop_last()[j] == svcs[j]);
        lemma_start_statuses_keeps(m0, svcs.drop_last(), oks.drop_last(), id);
        assert(svcs[svcs.len() - 1].id != id);
    }
}

/// Law: starting all of N services, none of them running, where registration
/// fails for exactly one, yields N-1 `Running` views and one `Error` view,
/// and appends exactly one summary audit entry.
pub proof fn lemma_start_all_one_failure(m: StateModel, oks: Seq<bool>, k0: int, now: i64)
    requires
        m.wf(),
        oks.len() == m.config.services.len(),
        0 <= k0 < oks.len(),
        forall|k: int|
            0 <= k < oks.len() ==> stat_of(m.statuses, m.config.services[k].id)
                != ServiceStatus::Running,
        forall|k: int| 0 <= k < oks.len() && k != k0 ==> oks[k],
        !oks[k0],
    ensures
        ({
            let m2 = spec_start_all(m, oks, now);
            &&& count_status(views_of(m2), ServiceStatus::Running) == oks.len() - 1
            &&& count_status(views_of(m2), ServiceStatus::Error) == 1
            &&& m2.log == spec_append(
                m.log,
                entry(now, LogLevel::Info, "All services started"@, None),
            )
        }),
{
    let m2 = spec_start_all(m, oks, now);
    let v = views_of(m2);
    assert(v.len() == oks.len());
    assert forall|k: int| 0 <= k < v.len() implies v[k].status == (if k == k0 {
        ServiceStatus::Error
    } else {
        ServiceStatus::Running
    }) by {
        lemma_start_statuses_at(m.statuses, m.config.services, oks, k);
        assert(m2.config.services[k].id == m.config.services[k].id);
        assert(v[k].status == stat_of(m2.statuses, m2.config.services[k].id));
    }
    lemma_count_one_off(v, k0);
}

/// Law: stopping all services forces every desired-state flag off and every
/// status to `Stopped` — never `Error`, since no registration is attempted —
/// and appends exactly one summary audit entry.
pub proof fn lemma_stop_all(m: StateModel, now: i64)
    ensures
        ({
            let m2 = spec_stop_all(m, now);
            &&& m2.config.services.len() == m.config.services.len()
            &&& forall|k: int|
                0 <= k < m2.config.services.len() ==> !m2.config.services[k].enabled
            &&& forall|id: Seq<char>| stat_of(m2.statuses, id) == ServiceStatus::Stopped
            &&& m2.log == spec_append(
                m.log,
                entry(now, LogLevel::Info, "All services stopped"@, None),
            )
        }),
{
    let m2 = spec_stop_all(m, now);
    assert forall|id: Seq<char>| stat_of(m2.statuses, id) == ServiceStatus::Stopped by {
        assert(!m2.statuses.dom().contains(id));
    }
}

/// Law: importing services under fresh identities reproduces them position
/// for position — same name, type, port, metadata and desired state, the
/// given identity — and keeps the live hostname of the importing state, not
/// any imported one.
pub proof fn lemma_import_payloads(
    m: StateModel,
    version: u32,
    svcs: Seq<SvcModel>,
    ids: Seq<Seq<char>>,
    ocs: Seq<Result<(), Seq<char>>>,
    now: i64,
)
    requires
        ids.len() == svcs.len(),
    ensures
        ({
            let m2 = spec_import(m, version, with_ids(svcs, ids), ocs, now);
            &&& m2.config.services.len() == svcs.len()
            &&& forall|k: int|
                0 <= k < svcs.len() ==> (#[trigger] m2.config.services[k]).same_payload(svcs[k])
                    && m2.config.services[k].id == ids[k]
            &&& m2.config.hostname == m.config.hostname
            &&& m2.config.version == version
        }),
{
    let base = StateModel {
        config: crate::models::ConfigModel {
            version,
            hostname: m.config.hostname,
            services: with_ids(svcs, ids),
        },
        statuses: Map::<Seq<char>, ServiceStatus>::empty(),
        log: m.log,
    };
    lemma_import_reg_props(base, with_ids(svcs, ids), ocs, now);
}

} // verus!
