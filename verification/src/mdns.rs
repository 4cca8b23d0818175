//! The daemon handle.  The orchestrator talks to the discovery daemon through
//! exactly two operations, register and unregister.  A live handle forwards to
//! the external daemon; a deterministic substitute accepts or refuses
//! registrations by service name, so the orchestrator's behaviour under
//! registration failure can be stated and tested.

use vstd::prelude::*;

use crate::models::ServiceConfig;
use crate::text::{chars_of, contains_string, ends_with, ends_with_chars, seq_has_string, string_of};

verus! {

/// Declares mdns_sd::ServiceDaemon so that a live handle can be held and
/// passed; the type is opaque here.
#[verifier::external_type_specification]
#[verifier::external_body]
pub struct ExServiceDaemon(mdns_sd::ServiceDaemon);

/// The sequence with its trailing dots dropped.
pub open spec fn trim_dots(s: Seq<char>) -> Seq<char>
    decreases s.len(),
{
    if s.len() > 0 && s.last() == '.' {
        trim_dots(s.drop_last())
    } else {
        s
    }
}

/// The service type in the form the discovery protocol wants: trailing dots
/// dropped, then a `.local.` domain suffix ensured.
pub open spec fn spec_mdns_type(s: Seq<char>) -> Seq<char> {
    let t = trim_dots(s);
    if ends_with(t, ".local"@) {
        t.push('.')
    } else {
        t + ".local."@
    }
}

/// The domain-qualified form of a hostname.
pub open spec fn spec_host_fqdn(h: Seq<char>) -> Seq<char> {
    if ends_with(h, ".local."@) {
        h
    } else if ends_with(h, ".local"@) {
        h.push('.')
    } else {
        h + ".local."@
    }
}

/// Domain-qualifies a service type.
pub fn to_mdns_type(service_type: &str) -> (r: String)
    ensures
        r@ == spec_mdns_type(service_type@),
{
    let mut t = chars_of(service_type);
    while t.len() > 0 && t[t.len() - 1] == '.'
        invariant
            trim_dots(t@) == trim_dots(service_type@),
        decreases t@.len(),
    {
        t.pop();
    }
    let suffix = chars_of(".local");
    if ends_with_chars(&t, &suffix) {
        t.push('.');
        string_of(&t)
    } else {
        let s = string_of(&t);
        s.concat(".local.")
    }
}

/// Domain-qualifies a hostname.
pub fn host_fqdn(hostname: &str) -> (r: String)
    ensures
        r@ == spec_host_fqdn(hostname@),
{
    let h = chars_of(hostname);
    let dotted = chars_of(".local.");
    let bare = chars_of(".local");
    if ends_with_chars(&h, &dotted) {
        string_of(&h)
    } else if ends_with_chars(&h, &bare) {
        let mut h2 = h;
        h2.push('.');
        string_of(&h2)
    } else {
        let s = string_of(&h);
        s.concat(".local.")
    }
}

/// Relies on mdns_sd::ServiceInfo::new and mdns_sd::ServiceDaemon::register:
/// builds the advertisement and queues it with the daemon.  Whether the call
/// succeeds depends on the daemon and on protocol-level validity of the
/// arguments, so nothing is promised of the outcome.
#[verifier::external_body]
fn mdns_register(
    daemon: &mdns_sd::ServiceDaemon,
    mdns_type: &str,
    name: &str,
    host: &str,
    port: u16,
    txt: &Vec<(String, String)>,
) -> Result<(), String> {
    let props: Vec<(&str, &str)> = txt.iter().map(|p| (p.0.as_str(), p.1.as_str())).collect();
    let info = mdns_sd::ServiceInfo::new(mdns_type, name, host, "", port, &props[..]).map_err(
        |e| e.to_string(),
    )?;
    daemon.register(info).map_err(|e| e.to_string())
}

/// Relies on mdns_sd::ServiceDaemon::unregister: withdraws the advertisement
/// registered under the full name.  The returned status receiver is dropped;
/// only queueing success matters to callers, and nothing is promised of it.
#[verifier::external_body]
fn mdns_unregister(daemon: &mdns_sd::ServiceDaemon, fullname: &str) -> Result<(), String> {
    daemon.unregister(fullname).map(|_| ()).map_err(|e| e.to_string())
}

/// Relies on mdns_sd::ServiceDaemon::new: starts the external daemon thread.
#[verifier::external_body]
pub fn create_daemon() -> Result<mdns_sd::ServiceDaemon, String> {
    mdns_sd::ServiceDaemon::new().map_err(|e| e.to_string())
}

/// A deterministic stand-in for the discovery daemon: registration fails
/// exactly for the listed service names, unregistration always succeeds.
#[derive(Debug)]
pub struct FakeDaemon {
    pub fail_names: Vec<String>,
}

/// The daemon handle the orchestrator drives: the external daemon, or the
/// deterministic stand-in.
pub enum Daemon {
    Live(mdns_sd::ServiceDaemon),
    Fake(FakeDaemon),
}

impl Daemon {
    /// The handle is the deterministic stand-in.
    pub open spec fn is_fake(self) -> bool {
        self is Fake
    }

    /// Whether the deterministic stand-in accepts a registration under this
    /// name.  Of a live daemon nothing is known, so this holds vacuously.
    pub open spec fn fake_accepts(self, name: Seq<char>) -> bool {
        match self {
            Daemon::Fake(f) => !seq_has_string(f.fail_names@, name),
            Daemon::Live(_) => true,
        }
    }
}

/// Registers a service advertisement.  On the deterministic stand-in the
/// outcome is exactly `fake_accepts`; on the live daemon it is whatever the
/// daemon answered.
pub fn register_service(daemon: &Daemon, svc: &ServiceConfig, hostname: &str) -> (r: Result<
    (),
    String,
>)
    ensures
        daemon.is_fake() ==> (r is Ok <==> daemon.fake_accepts(svc.name@)),
{
    match daemon {
        Daemon::Fake(f) => {
            if contains_string(&f.fail_names, &svc.name) {
                Err(String::from_str("registration refused"))
            } else {
                Ok(())
            }
        },
        Daemon::Live(sd) => {
            let t = to_mdns_type(svc.service_type.as_str());
            let h = host_fqdn(hostname);
            mdns_register(sd, t.as_str(), svc.name.as_str(), h.as_str(), svc.port, &svc.txt)
        },
    }
}

/// Withdraws a service advertisement.  On the deterministic stand-in this
/// always succeeds; on the live daemon the outcome is whatever the daemon
/// answered.  Callers treat withdrawal as best-effort either way.
pub fn unregister_service(daemon: &Daemon, svc: &ServiceConfig) -> (r: Result<(), String>)
    ensures
        daemon.is_fake() ==> r is Ok,
{
    match daemon {
        Daemon::Fake(_) => Ok(()),
        Daemon::Live(sd) => {
            let t = to_mdns_type(svc.service_type.as_str());
            let mut fullname = svc.name.clone();
            fullname.append(".");
            fullname.append(t.as_str());
            mdns_unregister(sd, fullname.as_str())
        },
    }
}

} // verus!
