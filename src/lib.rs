//! A gossip-based reliable broadcast node: a de-duplicated value log,
//! per-peer replication cursors, a protocol handler and a gossip tick.
pub mod laws;
pub mod message;
pub mod node;
pub mod single;
pub mod value_log;
