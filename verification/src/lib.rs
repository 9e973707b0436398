//! Decision core of a reverse proxy that guards a pool of edge servers:
//! request-head parsing, ingress policy, least-loaded edge selection, the
//! per-connection request tracker and the dispatcher's admission bookkeeping.
//!
//! Everything here is pure: sockets, TLS, file watching and configuration
//! files are the caller's business. Each function states what it computes over
//! the views of its arguments.

pub mod client;
pub mod configdb;
pub mod edge_server;
pub mod http1;
pub mod ip_rule;
pub mod location_rule;
pub mod policy;
pub mod roundtrip;
pub mod server;
pub mod text;
