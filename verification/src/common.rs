//! Types shared by servers and clients.
pub mod kv;
pub mod messages;
pub mod snapshot;
pub mod utils;
