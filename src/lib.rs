//! The consensus core of a replicated database: a Raft role state machine
//! over a replicated command log, and the ordered key/value store interface
//! that the log is built on.
pub mod error;
pub mod raft;
pub mod storage;
pub mod types;

