use vstd::prelude::*;

use crate::error::{Error, Result};
use crate::raft::candidate::{candidate_stepped, Candidate};
use crate::raft::follower::{follower_stepped, Follower};
use crate::raft::leader::{leader_stepped, Leader};
use crate::raft::log::Log;
use crate::raft::message::{Address, Event, Message};
use crate::raft::HEARTBEAT_INTERVAL;

verus! {

/// The number of nodes that make a majority of a cluster of `size` nodes.
pub open spec fn quorum_of(size: int) -> int {
    size / 2 + 1
}

/// Every message of `out` from position `from` on that grants a vote is
/// sent at `term` to the node recorded as `vote`.
pub open spec fn grants_match(out: Seq<Message>, from: int, term: u64, vote: Option<Seq<char>>) -> bool {
    forall|i: int|
        from <= i < out.len() && (#[trigger] out[i]).event is GrantVote ==> out[i].term == term && out[i].dst_addr.peer_id() == vote
            && vote is Some
}

/// No message of `out` from position `from` on grants a vote.
pub open spec fn no_grants(out: Seq<Message>, from: int) -> bool {
    forall|i: int| from <= i < out.len() ==> !((#[trigger] out[i]).event is GrantVote)
}

/// The messages with which node `id`, at `term`, forwards the requests `q`
/// to `leader`, in order.
pub open spec fn forwards(q: Seq<(Address, Event)>, term: u64, id: String, leader: String) -> Seq<Message> {
    q.map_values(|p: (Address, Event)| Message { term, src_addr: Address::Peer(id), dst_addr: Address::Peer(leader), event: p.1 })
}

/// The request id and requester of each queued request, in order.
pub open spec fn request_ids(q: Seq<(Address, Event)>) -> Seq<(Seq<u8>, Address)> {
    q.map_values(|p: (Address, Event)| (match p.1 {
        Event::ClientRequest { id, .. } => id@,
        _ => Seq::empty(),
    }, p.0))
}

/// Proxied requests, with their ids in views.
pub open spec fn proxied_view(p: Seq<(Vec<u8>, Address)>) -> Seq<(Seq<u8>, Address)> {
    p.map_values(|x: (Vec<u8>, Address)| (x.0@, x.1))
}

/// The messages with which node `id`, at `term`, answers each proxied
/// request of `p` with an abort, in order.
pub open spec fn aborts(p: Seq<(Vec<u8>, Address)>, term: u64, id: String) -> Seq<Message> {
    p.map_values(|x: (Vec<u8>, Address)| Message {
        term,
        src_addr: Address::Peer(id),
        dst_addr: x.1,
        event: Event::ClientResponse { id: x.0, response: Err(Error::Abort) },
    })
}

/// What `pre` becomes as the follower of `leader` at `term`: `post`.
pub open spec fn became_follower<R>(pre: RoleNode<R>, term: u64, leader: String, post: RoleNode<Follower>) -> bool {
    &&& (post.ctx_wf())
    &&& (post.id == pre.id)
    &&& (post.peers == pre.peers)
    &&& (post.term == term)
    // Each proxied request is answered with an abort, then each queued
    // request goes to the leader, in order.
    &&& (post.outbox@ == pre.outbox@ + aborts(pre.proxied_reqs@, term, pre.id)
        + forwards(pre.queued_reqs@, term, pre.id, leader))
    &&& (proxied_view(post.proxied_reqs@) == request_ids(pre.queued_reqs@))
    &&& (post.log.entries() == pre.log.entries())
    &&& (post.log.commit_index == pre.log.commit_index)
    &&& (post.log.last_index == pre.log.last_index)
    &&& (post.vote() == (if term > pre.term { None } else { pre.vote() }))
    &&& (post.role.leader_id() == Some(leader@))
    &&& (post.role.leader_seen_ticks == 0)
    &&& (post.queued_reqs@.len() == 0)
    &&& (post.outbox@.len() >= pre.outbox@.len())
    &&& (post.outbox@.subrange(0, pre.outbox@.len() as int) == pre.outbox@)
    &&& (no_grants(post.outbox@, pre.outbox@.len() as int))
}

/// A node in a given role: the context every role shares, and the role's own state.
pub struct RoleNode<R> {
    /// This node's id.
    pub id: String,
    /// The ids of the other nodes of the cluster.
    pub peers: Vec<String>,
    /// The current term.
    pub term: u64,
    /// The log, which also persists the term and the vote.
    pub log: Log,
    /// Requests received while no leader could take them, in arrival order.
    pub queued_reqs: Vec<(Address, Event)>,
    /// Requests forwarded to the leader on a client's behalf: request id and
    /// the address to answer.
    pub proxied_reqs: Vec<(Vec<u8>, Address)>,
    /// Messages sent, in order, for the driver to deliver.
    pub outbox: Vec<Message>,
    /// The role's own state.
    pub role: R,
}

/// A node in one of its three roles.
pub enum Node {
    Candidate(RoleNode<Candidate>),
    Follower(RoleNode<Follower>),
    Leader(RoleNode<Leader>),
}

impl Node {
    /// The node is well formed in its role.
    pub open spec fn wf(&self) -> bool {
        match self {
            Node::Candidate(n) => n.ctx_wf(),
            Node::Follower(n) => n.ctx_wf(),
            Node::Leader(n) => n.leader_wf(),
        }
    }

    /// The current term.
    pub open spec fn term(&self) -> u64 {
        match self {
            Node::Candidate(n) => n.term,
            Node::Follower(n) => n.term,
            Node::Leader(n) => n.term,
        }
    }

    /// The vote cast in the current term.
    pub open spec fn vote(&self) -> Option<Seq<char>> {
        match self {
            Node::Candidate(n) => n.vote(),
            Node::Follower(n) => n.vote(),
            Node::Leader(n) => n.vote(),
        }
    }

    /// This node's id.
    pub open spec fn id(&self) -> Seq<char> {
        match self {
            Node::Candidate(n) => n.id@,
            Node::Follower(n) => n.id@,
            Node::Leader(n) => n.id@,
        }
    }

    /// The number of peers.
    pub open spec fn peer_count(&self) -> nat {
        match self {
            Node::Candidate(n) => n.peers@.len(),
            Node::Follower(n) => n.peers@.len(),
            Node::Leader(n) => n.peers@.len(),
        }
    }

    /// The index of the log's last entry.
    pub open spec fn last_index(&self) -> u64 {
        match self {
            Node::Candidate(n) => n.log.last_index,
            Node::Follower(n) => n.log.last_index,
            Node::Leader(n) => n.log.last_index,
        }
    }

    /// The term of the log's last entry.
    pub open spec fn last_term(&self) -> u64 {
        match self {
            Node::Candidate(n) => n.log.last_term,
            Node::Follower(n) => n.log.last_term,
            Node::Leader(n) => n.log.last_term,
        }
    }

    /// Whether the next tick ends the wait for a leader or for an election.
    pub open spec fn times_out(&self) -> bool {
        match self {
            Node::Candidate(n) => n.role.election_ticks + 1 >= n.role.election_timeout,
            Node::Follower(n) => n.role.leader_seen_ticks + 1 >= n.role.leader_seen_timeout,
            Node::Leader(_) => false,
        }
    }

    /// The commit index of the log.
    pub open spec fn commit_index(&self) -> u64 {
        match self {
            Node::Candidate(n) => n.log.commit_index,
            Node::Follower(n) => n.log.commit_index,
            Node::Leader(n) => n.log.commit_index,
        }
    }

    /// The messages sent so far.
    pub open spec fn sent(&self) -> Seq<Message> {
        match self {
            Node::Candidate(n) => n.outbox@,
            Node::Follower(n) => n.outbox@,
            Node::Leader(n) => n.outbox@,
        }
    }

    /// The log's entries.
    pub open spec fn entries(&self) -> Seq<(u64, Option<Seq<u8>>)> {
        match self {
            Node::Candidate(n) => n.log.entries(),
            Node::Follower(n) => n.log.entries(),
            Node::Leader(n) => n.log.entries(),
        }
    }
}

impl Node {
    /// A node that starts as a follower with no known leader, at the term
    /// that its log has persisted.
    pub fn new(id: String, peers: Vec<String>, log: Log) -> (r: Node)
        requires
            log.wf(),
            peers@.len() < u64::MAX,
        ensures
            r matches Node::Follower(f) && f.id == id && f.peers == peers && f.term == log.term
                && f.log == log && f.role.leader is None && f.outbox@.len() == 0,
            r.wf(),
    {
        let term = log.term;
        RoleNode {
            id,
            peers,
            term,
            log,
            queued_reqs: Vec::new(),
            proxied_reqs: Vec::new(),
            outbox: Vec::new(),
            role: Follower::new(None),
        }.into_node()
    }

    /// Whether the node, in its current role, acts on `msg`.
    pub open spec fn accepts(&self, msg: &Message) -> bool {
        match self {
            Node::Candidate(n) => n.accepts(msg),
            Node::Follower(n) => n.accepts(msg),
            Node::Leader(n) => n.accepts(msg),
        }
    }

    /// Processes a message in the node's current role.
    pub fn step(self, msg: Message) -> (r: Result<Node>)
        requires
            self.wf(),
        ensures
            r matches Ok(n) ==> keeps_laws(self.term(), self.vote(), self.sent(), n),
            r matches Ok(n) ==> keeps_commits(self.commit_index(), self.entries(), n),
            // An invalid message is dropped.
            !self.accepts(&msg) ==> r == Ok::<Node, Error>(self),
            // Each role's own rules.
            (match self {
                Node::Candidate(c) => candidate_stepped(c, msg, r),
                Node::Follower(f) => follower_stepped(f, msg, r),
                Node::Leader(l) => leader_stepped(l, msg, r),
            }),
            // A valid message of a later term from a peer makes the node that
            // peer's follower at that term before its event is read.
            self.accepts(&msg) && msg.src_addr is Peer && msg.term > self.term() ==> (r matches Ok(Node::Follower(f))
                && f.term == msg.term && f.role.leader_id() == msg.src_addr.peer_id()),
    {
        match self {
            Node::Candidate(n) => n.step(msg),
            Node::Follower(n) => n.step(msg),
            Node::Leader(n) => n.step(msg),
        }
    }

    /// Advances the logical clock by one tick: a follower that has not
    /// heard from a leader, or a candidate whose election has timed out,
    /// starts an election; a leader sends heartbeats.
    pub fn tick(self) -> (r: Result<Node>)
        requires
            self.wf(),
        ensures
            r matches Ok(n) ==> keeps_laws(self.term(), self.vote(), self.sent(), n),
            r matches Ok(n) ==> keeps_commits(self.commit_index(), self.entries(), n),
            r is Err ==> r == Err::<Node, Error>(Error::LogFull),
            // A timeout starts an election at the next term, with a vote for itself.
            self.times_out() && self.term() < u64::MAX ==> (r matches Ok(n) ==> n.term() == self.term() + 1
                && n.vote() == Some(self.id())),
            // Otherwise the node keeps its role, term and log.
            !(self.times_out() && self.term() < u64::MAX) ==> (r matches Ok(n) && n.term() == self.term()
                && n.entries() == self.entries() && (self is Leader <==> n is Leader)
                && (self is Follower <==> n is Follower)),
            // The election: a candidate that asks all peers for their votes, or,
            // without peers, a leader; success is owed unless a lone node's log is full.
            self.times_out() && self.term() < u64::MAX ==> {
                &&& self.peer_count() > 0 ==> (r matches Ok(Node::Candidate(c)) && c.term == self.term() + 1
                    && c.role.vote_count == 1 && c.vote() == Some(self.id())
                    && c.outbox@.last().dst_addr is Peers && c.outbox@.last().event == Event::SolicitVote {
                        last_log_index: self.last_index(),
                        last_log_term: self.last_term(),
                    })
                &&& self.peer_count() == 0 && self.last_index() < u64::MAX ==> (r matches Ok(Node::Leader(l))
                    && l.term == self.term() + 1)
                &&& self.peer_count() == 0 && self.last_index() == u64::MAX ==> r is Err
            },
            // Without a timeout the waiting count goes up and nothing is sent.
            self matches Node::Follower(f0) ==> !self.times_out() ==> (r matches Ok(Node::Follower(f))
                && f.role.leader_seen_ticks == f0.role.leader_seen_ticks + 1 && f.outbox == f0.outbox
                && f.role.leader == f0.role.leader && f.log == f0.log),
            self matches Node::Candidate(c0) ==> !self.times_out() ==> (r matches Ok(Node::Candidate(c))
                && c.role.election_ticks == c0.role.election_ticks + 1 && c.outbox == c0.outbox
                && c.role.vote_count == c0.role.vote_count && c.log == c0.log),
            // A leader sends a heartbeat to all peers at each interval.
            self matches Node::Leader(l0) ==> (r matches Ok(Node::Leader(l)) && l.log == l0.log && {
                &&& l0.role.since_heartbeat + 1 >= HEARTBEAT_INTERVAL ==> l.role.since_heartbeat == 0
                    && l.outbox@ == l0.outbox@.push(Message {
                        term: l0.term,
                        src_addr: Address::Peer(l0.id),
                        dst_addr: Address::Peers,
                        event: Event::Heartbeat { commit_index: l0.log.commit_index, commit_term: l0.log.commit_term },
                    })
                &&& l0.role.since_heartbeat + 1 < HEARTBEAT_INTERVAL ==> l.role.since_heartbeat
                    == l0.role.since_heartbeat + 1 && l.outbox == l0.outbox
            }),
    {
        match self {
            Node::Candidate(n) => {
                let mut n = n;
                if n.role.election_ticks < u64::MAX {
                    n.role.election_ticks = n.role.election_ticks + 1;
                }
                if n.role.election_ticks >= n.role.election_timeout && n.term < u64::MAX {
                    return n.campaign();
                }
                proof { lemma_unchanged_keeps_laws(Node::Candidate(n)); }
                Ok(Node::Candidate(n))
            },
            Node::Follower(n) => {
                let mut n = n;
                if n.role.leader_seen_ticks < u64::MAX {
                    n.role.leader_seen_ticks = n.role.leader_seen_ticks + 1;
                }
                if n.role.leader_seen_ticks >= n.role.leader_seen_timeout && n.term < u64::MAX {
                    return n.campaign();
                }
                proof { lemma_unchanged_keeps_laws(Node::Follower(n)); }
                Ok(Node::Follower(n))
            },
            Node::Leader(n) => {
                let mut n = n;
                n.tick();
                Ok(Node::Leader(n))
            },
        }
    }

    /// The messages sent since the last call, in order, for the driver to deliver.
    pub fn take_messages(&mut self) -> (r: Vec<Message>)
        requires
            old(self).wf(),
        ensures
            r@ == old(self).sent(),
            final(self).sent().len() == 0,
            final(self).wf(),
            final(self).term() == old(self).term(),
            final(self).vote() == old(self).vote(),
            final(self).entries() == old(self).entries(),
    {
        let mut out: Vec<Message> = Vec::new();
        match self {
            Node::Candidate(n) => std::mem::swap(&mut out, &mut n.outbox),
            Node::Follower(n) => std::mem::swap(&mut out, &mut n.outbox),
            Node::Leader(n) => std::mem::swap(&mut out, &mut n.outbox),
        }
        out
    }
}

impl RoleNode<Follower> {
    /// The node, as a follower.
    fn into_node(self) -> (r: Node)
        ensures
            r == Node::Follower(self),
    {
        Node::Follower(self)
    }
}

/// What every step keeps, from a node at `term` with `vote` that had sent
/// `sent`, to the node `n` it steps to: the result is well formed, the term
/// never decreases, a vote once cast stays for the rest of its term, the
/// messages already sent stay, and each vote granted by the step goes, at
/// the node's term, to the node it recorded its vote for.
pub open spec fn keeps_laws(term: u64, vote: Option<Seq<char>>, sent: Seq<Message>, n: Node) -> bool {
    &&& n.wf()
    &&& n.term() >= term
    &&& (n.term() == term && vote is Some ==> n.vote() == vote)
    &&& n.sent().len() >= sent.len()
    &&& n.sent().subrange(0, sent.len() as int) == sent
    &&& grants_match(n.sent(), sent.len() as int, n.term(), n.vote())
}

/// Committed entries stay: from a log with `entries` committed up to
/// `commit`, the node `n` has a commit index no lower, and the same entries
/// up to `commit`.
pub open spec fn keeps_commits(commit: u64, entries: Seq<(u64, Option<Seq<u8>>)>, n: Node) -> bool {
    &&& n.commit_index() >= commit
    &&& commit <= entries.len()
    &&& commit <= n.entries().len()
    &&& n.entries().subrange(0, commit as int) == entries.subrange(0, commit as int)
}

/// A log that extends `entries` keeps its first `commit` entries.
pub proof fn lemma_extension_keeps_commits(commit: u64, entries: Seq<(u64, Option<Seq<u8>>)>, n: Node)
    requires
        n.commit_index() >= commit,
        commit <= entries.len() <= n.entries().len(),
        n.entries().subrange(0, entries.len() as int) == entries,
    ensures
        keeps_commits(commit, entries, n),
{
    assert(n.entries().subrange(0, commit as int) =~= n.entries().subrange(0, entries.len() as int).subrange(0, commit as int));
}

/// The laws follow from a step whose sent messages hold no grant.
pub proof fn lemma_no_grants_keep_laws(term: u64, vote: Option<Seq<char>>, sent: Seq<Message>, n: Node)
    requires
        n.wf(),
        n.term() >= term,
        n.term() == term && vote is Some ==> n.vote() == vote,
        n.sent().len() >= sent.len(),
        n.sent().subrange(0, sent.len() as int) == sent,
        no_grants(n.sent(), sent.len() as int),
    ensures
        keeps_laws(term, vote, sent, n),
{
}

/// A step that leaves the log, term and messages as they were keeps the laws.
pub proof fn lemma_unchanged_keeps_laws(n: Node)
    requires
        n.wf(),
    ensures
        keeps_laws(n.term(), n.vote(), n.sent(), n),
{
    assert(n.sent().subrange(0, n.sent().len() as int) =~= n.sent());
}

impl<R> RoleNode<R> {
    /// The shared context is consistent: the log is well formed and has
    /// persisted the current term.
    pub open spec fn ctx_wf(&self) -> bool {
        &&& self.log.wf()
        &&& self.log.term == self.term
        &&& self.peers@.len() < u64::MAX
        &&& forall|i: int| 0 <= i < self.queued_reqs@.len() ==> (#[trigger] self.queued_reqs@[i]).1 is ClientRequest
    }

    /// The vote this node has cast in its current term.
    pub open spec fn vote(&self) -> Option<Seq<char>> {
        self.log.saved_vote()
    }

    /// Whether `msg` is one this node acts on: not from a broadcast or local
    /// address, not a non-request from a client, not from a past term unless
    /// it is a client request or response, and addressed to this node.
    pub open spec fn accepts(&self, msg: &Message) -> bool {
        &&& !(msg.src_addr is Peers) && !(msg.src_addr is Local)
        &&& !(msg.src_addr is Client && !(msg.event is ClientRequest))
        &&& !(msg.term < self.term && !msg.event.is_client())
        &&& match msg.dst_addr {
            Address::Peer(id) => id@ == self.id@,
            Address::Local => true,
            Address::Peers => true,
            Address::Client => false,
        }
    }

    /// Checks a message before dispatch; see `accepts`.
    pub fn validate(&self, msg: &Message) -> (r: bool)
        ensures
            r == self.accepts(msg),
    {
        match &msg.src_addr {
            Address::Peers => return false,
            Address::Local => return false,
            Address::Client => {
                if !matches!(msg.event, Event::ClientRequest { .. }) {
                    return false;
                }
            },
            Address::Peer(_) => {},
        }
        if msg.term < self.term && !matches!(msg.event, Event::ClientRequest { .. } | Event::ClientResponse { .. }) {
            return false;
        }
        match &msg.dst_addr {
            Address::Peer(id) => *id == self.id,
            Address::Local => true,
            Address::Peers => true,
            Address::Client => false,
        }
    }

    /// The number of votes that make a majority of the cluster: this node and its peers.
    pub fn quorum(&self) -> (r: u64)
        requires
            self.peers@.len() < u64::MAX,
        ensures
            r == quorum_of(self.peers@.len() + 1 as int),
    {
        ((self.peers.len() as u64) + 1) / 2 + 1
    }

    /// Sends an event at the current term, from this node.
    pub fn send(&mut self, to: Address, event: Event)
        ensures
            final(self).outbox@ == old(self).outbox@.push(Message {
                term: old(self).term,
                src_addr: Address::Peer(old(self).id),
                dst_addr: to,
                event,
            }),
            final(self).id == old(self).id,
            final(self).peers == old(self).peers,
            final(self).term == old(self).term,
            final(self).log == old(self).log,
            final(self).queued_reqs == old(self).queued_reqs,
            final(self).proxied_reqs == old(self).proxied_reqs,
            final(self).role == old(self).role,
    {
        let msg = Message { term: self.term, src_addr: Address::Peer(self.id.clone()), dst_addr: to, event };
        proof {
            assert(msg.src_addr == Address::Peer(self.id)) by {
                assert(msg.src_addr.peer_id() == Some(self.id@));
            }
        }
        self.outbox.push(msg);
    }

    /// Moves the shared context into a new role.
    pub fn become_role<T>(self, role: T) -> (r: RoleNode<T>)
        ensures
            r.id == self.id,
            r.peers == self.peers,
            r.term == self.term,
            r.log == self.log,
            r.queued_reqs == self.queued_reqs,
            r.proxied_reqs == self.proxied_reqs,
            r.outbox == self.outbox,
            r.role == role,
    {
        RoleNode {
            id: self.id,
            peers: self.peers,
            term: self.term,
            log: self.log,
            queued_reqs: self.queued_reqs,
            proxied_reqs: self.proxied_reqs,
            outbox: self.outbox,
            role,
        }
    }

    /// Answers every proxied request with an abort, and forgets them.
    pub fn abort_proxied(&mut self)
        ensures
            final(self).proxied_reqs@.len() == 0,
            final(self).outbox@ == old(self).outbox@ + aborts(old(self).proxied_reqs@, old(self).term, old(self).id),
            final(self).outbox@.len() == old(self).outbox@.len() + old(self).proxied_reqs@.len(),
            final(self).outbox@.subrange(0, old(self).outbox@.len() as int) == old(self).outbox@,
            forall|i: int| 0 <= i < old(self).proxied_reqs@.len() ==> {
                let m = #[trigger] final(self).outbox@[old(self).outbox@.len() + i];
                &&& m.dst_addr == old(self).proxied_reqs@[i].1
                &&& m.event matches Event::ClientResponse { id, response }
                    && id@ == old(self).proxied_reqs@[i].0@ && response == Err::<u64, Error>(Error::Abort)
            },
            final(self).id == old(self).id,
            final(self).peers == old(self).peers,
            final(self).term == old(self).term,
            final(self).log == old(self).log,
            final(self).queued_reqs == old(self).queued_reqs,
            final(self).role == old(self).role,
    {
        let mut proxied: Vec<(Vec<u8>, Address)> = Vec::new();
        std::mem::swap(&mut proxied, &mut self.proxied_reqs);
        let ghost reqs = proxied@;
        let ghost start = self.outbox@.len();
        let ghost mut i: int = 0;
        assert(self.outbox@ + aborts(reqs.subrange(0, 0), self.term, self.id) =~= self.outbox@);
        while proxied.len() > 0
            invariant
                self.proxied_reqs@.len() == 0,
                self.id == old(self).id,
                self.peers == old(self).peers,
                self.term == old(self).term,
                self.log == old(self).log,
                self.queued_reqs == old(self).queued_reqs,
                self.role == old(self).role,
                start == old(self).outbox@.len(),
                proxied@ == reqs.subrange(i as int, reqs.len() as int),
                0 <= i <= reqs.len(),
                self.outbox@.len() == start + i,
                self.outbox@ == old(self).outbox@ + aborts(reqs.subrange(0, i), old(self).term, old(self).id),
                self.outbox@.subrange(0, start as int) == old(self).outbox@,
                forall|j: int| 0 <= j < i ==> {
                    let m = #[trigger] self.outbox@[start + j];
                    &&& m.dst_addr == reqs[j].1
                    &&& m.event matches Event::ClientResponse { id, response }
                        && id@ == reqs[j].0@ && response == Err::<u64, Error>(Error::Abort)
                },
            decreases proxied@.len(),
        {
            let (id, addr) = proxied.remove(0);
            assert(reqs.subrange(i + 1, reqs.len() as int) =~= reqs.subrange(i as int, reqs.len() as int).remove(0));
            let ghost before = self.outbox@;
            self.send(addr, Event::ClientResponse { id, response: Err(Error::Abort) });
            assert(self.outbox@.subrange(0, start as int) =~= before.subrange(0, start as int));
            proof {
                assert(aborts(reqs.subrange(0, i + 1), self.term, self.id)
                    =~= aborts(reqs.subrange(0, i), self.term, self.id).push(self.outbox@.last()));
                assert(self.outbox@ =~= old(self).outbox@ + aborts(reqs.subrange(0, i + 1), old(self).term, old(self).id));
                i = i + 1;
            }
        }
    }

    /// Becomes a follower of `leader` at `term`: persists the term (the vote
    /// is kept where the term stays), aborts the proxied requests and hands
    /// the queued ones to the leader.
    pub fn become_follower(self, term: u64, leader: String) -> (r: RoleNode<Follower>)
        requires
            self.ctx_wf(),
            term >= self.term,
        ensures
            became_follower(self, term, leader, r),
    {
        let ghost out = self.outbox@;
        let mut this = self;
        if term > this.term {
            this.term = term;
            this.log.save_term(term, None);
        }
        this.abort_proxied();
        assert(proxied_view(this.proxied_reqs@) =~= Seq::<(Seq<u8>, Address)>::empty());
        let mut node = this.become_role(Follower::new(Some(leader.clone())));
        let ghost mid = node.outbox@;
        node.forward_queued(&leader);
        assert(proxied_view(node.proxied_reqs@) =~= request_ids(self.queued_reqs@));
        assert(node.outbox@.subrange(0, out.len() as int) =~= mid.subrange(0, out.len() as int));
        assert forall|i: int| out.len() <= i < node.outbox@.len() implies !((#[trigger] node.outbox@[i]).event is GrantVote) by {
            if i < mid.len() {
                assert(node.outbox@.subrange(0, mid.len() as int)[i] == node.outbox@[i]);
                let k = i - out.len();
                assert(mid[out.len() + k] == mid[i]);
            }
        }
        node
    }
}

} // verus!
