use vstd::prelude::*;

use crate::error::Error;

verus! {

/// Where a message comes from or goes to.
#[derive(Clone, Debug)]
pub enum Address {
    /// The local client loop of this node.
    Local,
    /// An external client.
    Client,
    /// A specific other node, by id.
    Peer(String),
    /// All other nodes (broadcast).
    Peers,
}

/// A log entry as carried by replication messages and stored in the log.
#[derive(Clone, Debug)]
pub struct Entry {
    /// The term in which the entry was appended.
    pub term: u64,
    /// The command, or `None` for the no-op a new leader appends.
    pub command: Option<Vec<u8>>,
}

/// What a message asks for or reports.
#[derive(Debug)]
pub enum Event {
    /// A candidate asks for a vote.
    SolicitVote { last_log_index: u64, last_log_term: u64 },
    /// A node grants its vote to the candidate it is sent to.
    GrantVote,
    /// A leader asserts its leadership.
    Heartbeat { commit_index: u64, commit_term: u64 },
    /// A leader replicates the entries that follow `base_index`.
    ReplicateEntries { base_index: u64, base_term: u64, entries: Vec<Entry> },
    /// A follower accepted entries up to `last_index`.
    AcceptEntries { last_index: u64 },
    /// A follower rejected replicated entries: its log does not hold the base.
    RejectEntries,
    /// A client submits a command.
    ClientRequest { id: Vec<u8>, command: Vec<u8> },
    /// The answer to a client request: the log index of its entry, or an error.
    ClientResponse { id: Vec<u8>, response: std::result::Result<u64, Error> },
}

/// A message between nodes, or between a node and its clients.
#[derive(Debug)]
pub struct Message {
    /// The sender's term; 0 for local and client messages.
    pub term: u64,
    pub src_addr: Address,
    pub dst_addr: Address,
    pub event: Event,
}

impl Address {
    /// The node id of a `Peer` address.
    pub open spec fn peer_id(self) -> Option<Seq<char>> {
        match self {
            Address::Peer(id) => Some(id@),
            _ => None,
        }
    }
}

impl View for Entry {
    type V = (u64, Option<Seq<u8>>);

    open spec fn view(&self) -> (u64, Option<Seq<u8>>) {
        (self.term, match self.command {
            Some(c) => Some(c@),
            None => None,
        })
    }
}

impl Entry {
    /// A copy of the entry.
    pub fn duplicate(&self) -> (r: Entry)
        ensures
            r@ == self@,
    {
        let command = match &self.command {
            Some(c) => Some(c.clone()),
            None => None,
        };
        Entry { term: self.term, command }
    }
}

/// The views of a sequence of entries.
pub open spec fn entries_view(s: Seq<Entry>) -> Seq<(u64, Option<Seq<u8>>)> {
    s.map_values(|e: Entry| e@)
}

impl Address {
    /// A copy of the address.
    pub fn duplicate(&self) -> (r: Address)
        ensures
            r == *self,
    {
        match self {
            Address::Local => Address::Local,
            Address::Client => Address::Client,
            Address::Peer(id) => Address::Peer(id.clone()),
            Address::Peers => Address::Peers,
        }
    }
}

impl Event {
    /// Requests and responses are not tied to a term.
    pub open spec fn is_client(self) -> bool {
        self is ClientRequest || self is ClientResponse
    }
}

} // verus!
