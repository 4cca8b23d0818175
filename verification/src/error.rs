//! The error taxonomy of the command surface.  Parse and serialize failures
//! are configuration errors; filesystem failures are I/O errors; daemon
//! failures are discovery errors; an unknown service identity is a not-found
//! error.

use vstd::prelude::*;

verus! {

/// Why a command failed.
#[derive(Debug)]
pub enum AppError {
    /// The configuration data could not be parsed or is otherwise unusable.
    Config(String),
    /// The discovery daemon reported a failure.
    Mdns(String),
    /// No service carries the given identity.
    NotFound(String),
    /// Persisting the configuration failed.
    Io(String),
}

impl AppError {
    /// A human-readable description of the error.
    pub fn message(&self) -> (r: String)
        ensures
            r@ == match *self {
                AppError::Config(s) => "Config error: "@ + s@,
                AppError::Mdns(s) => "mDNS error: "@ + s@,
                AppError::NotFound(s) => "Service not found: "@ + s@,
                AppError::Io(s) => "IO error: "@ + s@,
            },
    {
        match self {
            AppError::Config(s) => {
                let mut r = String::from_str("Config error: ");
                r.append(s.as_str());
                r
            },
            AppError::Mdns(s) => {
                let mut r = String::from_str("mDNS error: ");
                r.append(s.as_str());
                r
            },
            AppError::NotFound(s) => {
                let mut r = String::from_str("Service not found: ");
                r.append(s.as_str());
                r
            },
            AppError::Io(s) => {
                let mut r = String::from_str("IO error: ");
                r.append(s.as_str());
                r
            },
        }
    }
}

} // verus!
