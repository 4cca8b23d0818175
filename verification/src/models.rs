//! The data model: service definitions, the persisted configuration, the
//! advertisement status of a service, and the read-only views handed to
//! callers.  Each executable type has a spec-level mirror (its view) that the
//! contracts of the whole crate are stated over.

use vstd::prelude::*;

verus! {

/// Advertisement status of one service.  Absence of a recorded status is
/// equivalent to `Stopped`.
#[derive(Clone, Copy, PartialEq, Eq, Structural, Debug)]
pub enum ServiceStatus {
    Running,
    Stopped,
    Error,
}

/// Severity of an audit log entry.
#[derive(Clone, Copy, PartialEq, Eq, Structural, Debug)]
pub enum LogLevel {
    Info,
    Error,
}

/// One named service as the user declared it.  `id` is assigned once when the
/// service is created and is unique within a configuration; the remaining
/// fields are user-editable.  `enabled` records the desired state, independent
/// of whether the advertisement actually succeeded.
#[derive(Debug)]
pub struct ServiceConfig {
    pub id: String,
    pub name: String,
    pub service_type: String,
    pub port: u16,
    pub txt: Vec<(String, String)>,
    pub enabled: bool,
}

/// Spec-level mirror of `ServiceConfig`.
pub ghost struct SvcModel {
    pub id: Seq<char>,
    pub name: Seq<char>,
    pub service_type: Seq<char>,
    pub port: u16,
    pub txt: Seq<(Seq<char>, Seq<char>)>,
    pub enabled: bool,
}

/// View of a metadata vector: the sequence of key/value pairs as character
/// sequences.
pub open spec fn txt_view(t: Seq<(String, String)>) -> Seq<(Seq<char>, Seq<char>)> {
    t.map(|i: int, p: (String, String)| (p.0@, p.1@))
}

impl View for ServiceConfig {
    type V = SvcModel;

    open spec fn view(&self) -> SvcModel {
        SvcModel {
            id: self.id@,
            name: self.name@,
            service_type: self.service_type@,
            port: self.port,
            txt: txt_view(self.txt@),
            enabled: self.enabled,
        }
    }
}

impl SvcModel {
    /// The user-editable payload of two services is the same; the identity may
    /// differ.
    pub open spec fn same_payload(self, other: SvcModel) -> bool {
        &&& self.name == other.name
        &&& self.service_type == other.service_type
        &&& self.port == other.port
        &&& self.txt == other.txt
        &&& self.enabled == other.enabled
    }
}

/// The persisted configuration: a format version, the host identity, and the
/// ordered list of declared services.
#[derive(Debug)]
pub struct AppConfig {
    pub version: u32,
    pub hostname: String,
    pub services: Vec<ServiceConfig>,
}

/// Spec-level mirror of `AppConfig`.
pub ghost struct ConfigModel {
    pub version: u32,
    pub hostname: Seq<char>,
    pub services: Seq<SvcModel>,
}

impl View for AppConfig {
    type V = ConfigModel;

    open spec fn view(&self) -> ConfigModel {
        ConfigModel {
            version: self.version,
            hostname: self.hostname@,
            services: self.services@.map(|i: int, s: ServiceConfig| s@),
        }
    }
}

impl ConfigModel {
    /// Service identities are pairwise distinct.
    pub open spec fn ids_unique(self) -> bool {
        forall|i: int, j: int|
            0 <= i < j < self.services.len() ==> self.services[i].id != self.services[j].id
    }

    /// Whether some service carries the given identity.
    pub open spec fn has_id(self, id: Seq<char>) -> bool {
        exists|i: int| 0 <= i < self.services.len() && self.services[i].id == id
    }

    /// The index of the service with the given identity.
    pub open spec fn index_of(self, id: Seq<char>) -> int {
        choose|i: int| 0 <= i < self.services.len() && self.services[i].id == id
    }
}

impl AppConfig {
    /// The default configuration: format version 1, no host identity yet, no
    /// services.
    pub fn new_default() -> (r: AppConfig)
        ensures
            r@.version == 1,
            r@.hostname == Seq::<char>::empty(),
            r@.services == Seq::<SvcModel>::empty(),
    {
        let r = AppConfig { version: 1, hostname: String::new(), services: Vec::new() };
        proof {
            assert(r@.services =~= Seq::<SvcModel>::empty());
        }
        r
    }
}

impl Default for AppConfig {
    /// Same as `new_default`.
    fn default() -> (r: AppConfig)
        ensures
            r@.version == 1,
            r@.hostname == Seq::<char>::empty(),
            r@.services == Seq::<SvcModel>::empty(),
    {
        AppConfig::new_default()
    }
}

/// One audit log entry.  The timestamp is milliseconds since the Unix epoch,
/// as the clock of the process reports it.
#[derive(Debug)]
pub struct LogEntry {
    pub timestamp: i64,
    pub level: LogLevel,
    pub message: String,
    pub service_id: Option<String>,
}

/// Spec-level mirror of `LogEntry`.
pub ghost struct EntryModel {
    pub timestamp: i64,
    pub level: LogLevel,
    pub message: Seq<char>,
    pub service_id: Option<Seq<char>>,
}

impl View for LogEntry {
    type V = EntryModel;

    open spec fn view(&self) -> EntryModel {
        EntryModel {
            timestamp: self.timestamp,
            level: self.level,
            message: self.message@,
            service_id: match self.service_id {
                Some(s) => Some(s@),
                None => None,
            },
        }
    }
}

/// Read-only projection of a service definition merged with its current
/// advertisement status; recomputed on every query, never stored.
#[derive(Debug)]
pub struct ServiceView {
    pub id: String,
    pub name: String,
    pub service_type: String,
    pub port: u16,
    pub txt: Vec<(String, String)>,
    pub enabled: bool,
    pub status: ServiceStatus,
}

/// Spec-level mirror of `ServiceView`.
pub ghost struct ViewModel {
    pub svc: SvcModel,
    pub status: ServiceStatus,
}

impl View for ServiceView {
    type V = ViewModel;

    open spec fn view(&self) -> ViewModel {
        ViewModel {
            svc: SvcModel {
                id: self.id@,
                name: self.name@,
                service_type: self.service_type@,
                port: self.port,
                txt: txt_view(self.txt@),
                enabled: self.enabled,
            },
            status: self.status,
        }
    }
}

/// A network interface name together with the addresses bound to it.
#[derive(Debug)]
pub struct NetworkInterface {
    pub name: String,
    pub addresses: Vec<String>,
}

/// Copies a metadata vector.
pub fn clone_txt(t: &Vec<(String, String)>) -> (r: Vec<(String, String)>)
    ensures
        r@ == t@,
{
    let mut r: Vec<(String, String)> = Vec::new();
    let mut i: usize = 0;
    while i < t.len()
        invariant
            i <= t@.len(),
            r@.len() == i,
            forall|j: int| 0 <= j < i ==> r@[j] == t@[j],
        decreases t@.len() - i,
    {
        let p = &t[i];
        r.push((p.0.clone(), p.1.clone()));
        i += 1;
    }
    proof {
        assert(r@ =~= t@);
    }
    r
}

impl Clone for ServiceConfig {
    /// Field-for-field copy; the copy has the same view.
    fn clone(&self) -> (r: Self)
        ensures
            r@ == self@,
            r.id@ == self.id@,
    {
        ServiceConfig {
            id: self.id.clone(),
            name: self.name.clone(),
            service_type: self.service_type.clone(),
            port: self.port,
            txt: clone_txt(&self.txt),
            enabled: self.enabled,
        }
    }
}

/// Copies a service list.
pub fn clone_services(s: &Vec<ServiceConfig>) -> (r: Vec<ServiceConfig>)
    ensures
        r@.map(|i: int, s: ServiceConfig| s@) == s@.map(|i: int, s: ServiceConfig| s@),
{
    let mut r: Vec<ServiceConfig> = Vec::new();
    let mut i: usize = 0;
    while i < s.len()
        invariant
            i <= s@.len(),
            r@.len() == i,
            forall|j: int| 0 <= j < i ==> #[trigger] r@[j]@ == s@[j]@,
        decreases s@.len() - i,
    {
        r.push(s[i].clone());
        i += 1;
    }
    proof {
        assert(r@.map(|i: int, s: ServiceConfig| s@) =~= s@.map(|i: int, s: ServiceConfig| s@));
    }
    r
}

impl Clone for AppConfig {
    /// Field-for-field copy; the copy has the same view.
    fn clone(&self) -> (r: Self)
        ensures
            r@ == self@,
    {
        AppConfig {
            version: self.version,
            hostname: self.hostname.clone(),
            services: clone_services(&self.services),
        }
    }
}

impl Clone for LogEntry {
    /// Field-for-field copy; the copy has the same view.
    fn clone(&self) -> (r: Self)
        ensures
            r@ == self@,
    {
        LogEntry {
            timestamp: self.timestamp,
            level: self.level,
            message: self.message.clone(),
            service_id: match &self.service_id {
                Some(s) => Some(s.clone()),
                None => None,
            },
        }
    }
}

impl ServiceView {
    /// Merges a service definition with its current status.
    pub fn from_config(config: &ServiceConfig, status: ServiceStatus) -> (r: Self)
        ensures
            r@.svc == config@,
            r@.status == status,
    {
        ServiceView {
            id: config.id.clone(),
            name: config.name.clone(),
            service_type: config.service_type.clone(),
            port: config.port,
            txt: clone_txt(&config.txt),
            enabled: config.enabled,
            status,
        }
    }
}

} // verus!
