//! A service-lifecycle orchestrator for local network service advertisement.
//!
//! The library keeps three owned pieces of state — the persisted configuration,
//! the live advertisement statuses, and a bounded audit log — consistent under
//! the command surface (add / update / delete / toggle / start-all / stop-all /
//! import / export).  Registration with the discovery daemon happens through a
//! narrow daemon handle; persistence of the configuration file is an external
//! action whose outcome each command receives as an argument.
//!
//! Commands serialize through exclusive access to the orchestrator: an
//! embedder that dispatches them from several threads wraps the orchestrator
//! in a lock of its own and holds it for the duration of each command.

pub mod audit;
pub mod codec;
pub mod error;
pub mod laws;
pub mod mdns;
pub mod models;
pub mod network;
pub mod orchestrator;
pub mod platform;
pub mod status;
pub mod text;
