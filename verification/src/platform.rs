//! Wrappers around the platform collaborators: the clock, the identifier
//! generator, and the hostname query.  Their results depend on the machine,
//! the time or randomness, so nothing is promised of the values; callers state
//! what holds of every outcome.

use vstd::prelude::*;

verus! {

/// Relies on chrono::Utc::now and timestamp_millis: the current wall-clock
/// time in milliseconds since the Unix epoch.  The value depends on the
/// clock, so nothing is promised of it.
#[verifier::external_body]
pub fn now_millis() -> i64 {
    chrono::Utc::now().timestamp_millis()
}

/// Relies on uuid::Uuid::new_v4 and its hyphenated display form: a randomly
/// drawn identifier.  The value depends on randomness, so nothing is promised
/// of it; callers that need freshness check it against the identifiers in use.
#[verifier::external_body]
pub fn fresh_service_id() -> String {
    uuid::Uuid::new_v4().to_string()
}

/// Relies on hostname::get: the live hostname of this machine, or "unknown"
/// when the query fails or the name is not valid Unicode.  The value depends
/// on the machine, so nothing is promised of it.
#[verifier::external_body]
pub fn get_hostname() -> String {
    match hostname::get() {
        Ok(h) => match h.into_string() {
            Ok(s) => s,
            Err(_) => String::from("unknown"),
        },
        Err(_) => String::from("unknown"),
    }
}

} // verus!
