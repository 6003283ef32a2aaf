//! Link-aggregating UDP tunnel relay: the per-datagram scheduling and fan-out
//! engine of the client, the interface poller's reconciliation rules, the
//! per-interface weight store, and the server-side client registry.
//!
//! All decision logic lives here, stated and proved over integer models;
//! sockets, timers and serialization live outside the library.

pub mod config;
pub mod exclusion;
pub mod ingress;
pub mod interfaces;
pub mod linktable;
pub mod management;
pub mod poller;
pub mod scheduler;
pub mod server;
pub mod weights;
