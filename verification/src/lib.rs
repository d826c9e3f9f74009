//! Deadline-ordered request processing for a replicated key-value store.
//!
//! The crate holds the decision logic of the servers and clients: the
//! message and command types, the key-value snapshots kept by the
//! replicated log, the early buffer that orders requests by deadline, the
//! fast-path quorum bookkeeping of a coordinator, and the client's request
//! schedule.
pub mod common;
pub mod deadline;
pub mod server;
pub mod client;
