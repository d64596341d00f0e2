//! The Raft role state machine: messages, the replicated log, and the node
//! in its three roles.
pub mod candidate;
pub mod follower;
pub mod leader;
pub mod log;
pub mod message;
pub mod node;
pub mod safety;

pub use self::candidate::Candidate;
pub use self::follower::Follower;
pub use self::leader::Leader;
pub use self::log::Log;
pub use self::message::{Address, Entry, Event, Message};
pub use self::node::{Node, RoleNode};

use vstd::prelude::*;

verus! {

/// The fewest ticks without word from a leader before an election starts.
pub const ELECTION_TIMEOUT_MIN: u64 = 8;

/// The most ticks without word from a leader before an election starts.
pub const ELECTION_TIMEOUT_MAX: u64 = 15;

/// Ticks between a leader's heartbeats.
pub const HEARTBEAT_INTERVAL: u64 = 3;

} // verus!
