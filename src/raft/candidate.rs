use rand::Rng;
use vstd::prelude::*;

use crate::error::{Error, Result};
use crate::raft::leader::Leader;
use crate::raft::message::{Address, Event, Message};
use crate::raft::follower::{handled, Follower};
use crate::raft::node::{became_follower, aborts, keeps_commits, lemma_extension_keeps_commits, grants_match, keeps_laws, lemma_no_grants_keep_laws, lemma_unchanged_keeps_laws, no_grants, quorum_of, Node, RoleNode};
use crate::raft::{ELECTION_TIMEOUT_MAX, ELECTION_TIMEOUT_MIN};

verus! {

/// Relies on rand's `thread_rng().gen_range(min..=max)`: a value drawn from
/// the inclusive range, which panics where the range is empty.
#[verifier::external_body]
pub(crate) fn random_timeout(min: u64, max: u64) -> (r: u64)
    requires
        min <= max,
    ensures
        min <= r <= max,
{
    rand::thread_rng().gen_range(min..=max)
}

/// A candidate is campaigning to become a leader.
pub struct Candidate {
    /// Ticks elapsed since election start.
    pub election_ticks: u64,
    /// Election timeout, in ticks.
    pub election_timeout: u64,
    /// Votes received (including ourself).
    pub vote_count: u64,
    /// The peers whose votes were counted: a repeated grant counts once.
    pub voters: Vec<String>,
}

/// Whether `p` is among `voters`.
pub open spec fn has_voted(voters: Seq<String>, p: Seq<char>) -> bool {
    exists|i: int| 0 <= i < voters.len() && (#[trigger] voters[i])@ == p
}

/// Whether `p` is among `voters`.
fn voted(voters: &Vec<String>, p: &String) -> (r: bool)
    ensures
        r == has_voted(voters@, p@),
{
    let mut i: usize = 0;
    while i < voters.len()
        invariant
            0 <= i <= voters@.len(),
            forall|j: int| 0 <= j < i ==> (#[trigger] voters@[j])@ != p@,
        decreases voters@.len() - i,
    {
        if voters[i] == *p {
            return true;
        }
        i = i + 1;
    }
    false
}

/// The entries a new leader of `term` appends for the queued requests `q`, in order.
pub open spec fn queued_entries(q: Seq<(Address, Event)>, term: u64) -> Seq<(u64, Option<Seq<u8>>)> {
    q.map_values(|p: (Address, Event)| match p.1 {
        Event::ClientRequest { command, .. } => (term, Some(command@)),
        _ => (term, None),
    })
}

/// The answer that node `id`, leading at `term`, gives the queued request
/// `q[k]`: the index of the entry that holds its command, `first + k`.
pub open spec fn replay_reply(q: Seq<(Address, Event)>, k: int, term: u64, id: String, first: int) -> Message {
    Message {
        term,
        src_addr: Address::Peer(id),
        dst_addr: q[k].0,
        event: match q[k].1 {
            Event::ClientRequest { id: rid, .. } => Event::ClientResponse { id: rid, response: Ok((first + k) as u64) },
            _ => q[k].1,
        },
    }
}

/// Whether `out` holds `m` after position `from`.
pub open spec fn sent_after(out: Seq<Message>, from: int, m: Message) -> bool {
    exists|p: int| from < p < out.len() && out[p] == m
}

impl Candidate {
    /// A candidate that has voted for itself, with a randomised election timeout.
    pub fn new() -> (r: Candidate)
        ensures
            r.vote_count == 1,
            r.voters@.len() == 0,
            r.election_ticks == 0,
            ELECTION_TIMEOUT_MIN <= r.election_timeout <= ELECTION_TIMEOUT_MAX,
    {
        Candidate::with_timeout(random_timeout(ELECTION_TIMEOUT_MIN, ELECTION_TIMEOUT_MAX))
    }

    /// A candidate that has voted for itself, with the given election timeout.
    pub fn with_timeout(election_timeout: u64) -> (r: Candidate)
        ensures
            r.vote_count == 1,
            r.voters@.len() == 0,
            r.election_ticks == 0,
            r.election_timeout == election_timeout,
    {
        Candidate { vote_count: 1, voters: Vec::new(), election_ticks: 0, election_timeout }
    }
}

/// The laws hold of a follower that handled a message after its transition
/// sent no grant.
pub proof fn lemma_follower_laws(term: u64, vote: Option<Seq<char>>, out: Seq<Message>, mid: Seq<Message>, f: RoleNode<Follower>)
    requires
        f.ctx_wf(),
        f.term >= term,
        f.term == term && vote is Some ==> f.vote() == vote,
        mid.len() >= out.len(),
        mid.subrange(0, out.len() as int) == out,
        no_grants(mid, out.len() as int),
        f.outbox@.len() >= mid.len(),
        f.outbox@.subrange(0, mid.len() as int) == mid,
        grants_match(f.outbox@, mid.len() as int, f.term, f.vote()),
    ensures
        keeps_laws(term, vote, out, Node::Follower(f)),
{
    assert(f.outbox@.subrange(0, out.len() as int) =~= mid.subrange(0, out.len() as int));
    assert forall|i: int| out.len() <= i < f.outbox@.len() && (#[trigger] f.outbox@[i]).event is GrantVote
        implies f.outbox@[i].term == f.term && f.outbox@[i].dst_addr.peer_id() == f.vote() && f.vote() is Some by {
        if i < mid.len() {
            assert(f.outbox@.subrange(0, mid.len() as int)[i] == f.outbox@[i]);
        }
    }
}

impl<R> RoleNode<R> {
    /// Starts an election: moves to the next term, votes for itself and asks
    /// the peers for their votes; a node without peers leads at once.
    pub fn campaign(self) -> (r: Result<Node>)
        requires
            self.ctx_wf(),
            self.term < u64::MAX,
        ensures
            r matches Ok(n) ==> keeps_laws(self.term, self.vote(), self.outbox@, n),
            r matches Ok(n) ==> keeps_commits(self.log.commit_index, self.log.entries(), n),
            r matches Ok(n) ==> n.term() == self.term + 1 && n.vote() == Some(self.id@),
            self.peers@.len() > 0 ==> (r matches Ok(Node::Candidate(c)) && c.role.vote_count == 1
                && c.term == self.term + 1 && c.vote() == Some(self.id@)
                && c.outbox@.last().dst_addr is Peers && c.outbox@.last().event == Event::SolicitVote {
                    last_log_index: self.log.last_index,
                    last_log_term: self.log.last_term,
                }),
            self.peers@.len() == 0 && self.log.last_index < u64::MAX ==> r matches Ok(Node::Leader(_)),
            self.peers@.len() == 0 && self.log.last_index == u64::MAX ==> r == Err::<Node, Error>(Error::LogFull),
    {
        let ghost out = self.outbox@;
        let mut this = self;
        let term = this.term + 1;
        this.term = term;
        this.log.save_term(term, Some(this.id.clone()));
        let mut node = this.become_role(Candidate::new());
        let last_log_index = node.log.last_index;
        let last_log_term = node.log.last_term;
        node.send(Address::Peers, Event::SolicitVote { last_log_index, last_log_term });
        assert(node.outbox@.subrange(0, out.len() as int) =~= out);
        if node.role.vote_count >= node.quorum() {
            let l = node.become_leader()?;
            let ghost lo = l.outbox@;
            assert(lo.subrange(0, out.len() as int) =~= node.outbox@.subrange(0, out.len() as int));
            assert forall|i: int| out.len() <= i < lo.len() implies !((#[trigger] lo[i]).event is GrantVote) by {
                if i < node.outbox@.len() {
                    assert(lo.subrange(0, node.outbox@.len() as int)[i] == lo[i]);
                }
            }
            proof {
                lemma_no_grants_keep_laws(self.term, self.vote(), out, Node::Leader(l));
                assert(l.log.entries().subrange(0, self.log.entries().len() as int) =~= self.log.entries());
                lemma_extension_keeps_commits(self.log.commit_index, self.log.entries(), Node::Leader(l));
            }
            return Ok(Node::Leader(l));
        }
        proof { lemma_no_grants_keep_laws(self.term, self.vote(), out, Node::Candidate(node)); }
        Ok(Node::Candidate(node))
    }
}

/// What a candidate `c` that steps on `msg` returns: `r`.
pub open spec fn candidate_stepped(c: RoleNode<Candidate>, msg: Message, r: Result<Node>) -> bool {
    // A message of a later term from a peer, or a leader's heartbeat,
    // makes the node that peer's follower, which then handles the message.
    &&& (c.accepts(&msg) ==> (msg.src_addr matches Address::Peer(src) ==> ((msg.term > c.term || msg.event is Heartbeat) ==>
        (r matches Ok(Node::Follower(f)) && exists|mid: RoleNode<Follower>|
            became_follower(c, msg.term, src, mid) && #[trigger] handled(mid, msg, f)))))
    &&& (r matches Ok(n) ==> keeps_laws(c.term, c.vote(), c.outbox@, n))
    &&& (r matches Ok(n) ==> keeps_commits(c.log.commit_index, c.log.entries(), n))
    // An invalid message is dropped.
    &&& (!c.accepts(&msg) ==> r == Ok::<Node, Error>(Node::Candidate(c)))
    // A later term, or a leader of this one, makes the node its follower.
    &&& (c.accepts(&msg) && msg.src_addr is Peer && (msg.term > c.term || msg.event is Heartbeat)
        ==> (r matches Ok(Node::Follower(f)) && f.term == msg.term
            && f.role.leader_id() == msg.src_addr.peer_id()))
    // A vote of this term is counted once per voter; with a quorum the node leads,
    // and the queued requests follow the no-op entry, in order.
    &&& (c.accepts(&msg) && msg.term <= c.term && msg.event is GrantVote ==> {
        let fresh = !has_voted(c.role.voters@, msg.src_addr.peer_id()->0);
        let count = if fresh && c.role.vote_count < u64::MAX { (c.role.vote_count + 1) as u64 } else { c.role.vote_count };
        let won = count >= quorum_of(c.peers@.len() + 1 as int);
        let room = c.log.last_index + 1 + c.queued_reqs@.len() <= u64::MAX;
        &&& !won ==> (r matches Ok(Node::Candidate(n)) && n.role.vote_count == count
            && has_voted(n.role.voters@, msg.src_addr.peer_id()->0)
            && (!fresh ==> n.role.voters == c.role.voters)
            && n.term == c.term && n.outbox == c.outbox && n.log == c.log)
        &&& won && room ==> (r matches Ok(Node::Leader(l)) && l.term == c.term
            && l.log.entries() == c.log.entries().push((c.term, None))
                + queued_entries(c.queued_reqs@, c.term)
            // The heartbeat goes first, and each queued request is answered.
            && l.outbox@.len() > c.outbox@.len()
            && l.outbox@[c.outbox@.len() as int] == Message {
                term: c.term,
                src_addr: Address::Peer(c.id),
                dst_addr: Address::Peers,
                event: Event::Heartbeat { commit_index: c.log.commit_index, commit_term: c.log.commit_term },
            }
            && forall|k: int| 0 <= k < c.queued_reqs@.len() ==> sent_after(l.outbox@, c.outbox@.len() as int,
                #[trigger] replay_reply(c.queued_reqs@, k, c.term, c.id, c.log.last_index + 2)))
        &&& won && !room ==> r == Err::<Node, Error>(Error::LogFull)
    })
    // The node leads only on a vote that completes a quorum.
    &&& (r matches Ok(Node::Leader(l)) ==> c.accepts(&msg) && msg.event is GrantVote && msg.term <= c.term
        && l.term == c.term && (if !has_voted(c.role.voters@, msg.src_addr.peer_id()->0) && c.role.vote_count < u64::MAX {
            c.role.vote_count + 1
        } else {
            c.role.vote_count as int
        }) >= quorum_of(c.peers@.len() + 1 as int))
    // A client request waits for a leader.
    &&& (c.accepts(&msg) && !(msg.src_addr is Peer && msg.term > c.term) && msg.event is ClientRequest ==>
        (r matches Ok(Node::Candidate(n)) && n.queued_reqs@ == c.queued_reqs@.push((msg.src_addr, msg.event))
            && n.term == c.term && n.log == c.log && n.outbox == c.outbox))
    // Anything else leaves the node as it was.
    &&& (c.accepts(&msg) && msg.term <= c.term && !(msg.event is GrantVote) && !(msg.event is Heartbeat)
        && !(msg.event is ClientRequest) ==> r == Ok::<Node, Error>(Node::Candidate(c)))
}

impl RoleNode<Candidate> {
    /// Transition to leader role: announce leadership with a heartbeat,
    /// append a no-op entry of the new term, and abort proxied requests.
    /// Fails, with nothing sent, where the log is full.
    pub fn become_leader(self) -> (r: Result<RoleNode<Leader>>)
        requires
            self.ctx_wf(),
        ensures
            self.log.last_index == u64::MAX ==> r == Err::<RoleNode<Leader>, Error>(Error::LogFull),
            self.log.last_index < u64::MAX ==> (r matches Ok(n) && {
                &&& n.leader_wf()
                &&& n.id == self.id
                &&& n.peers == self.peers
                &&& n.term == self.term
                &&& n.vote() == self.vote()
                &&& n.queued_reqs == self.queued_reqs
                &&& n.log.commit_index == self.log.commit_index
                &&& n.log.entries() == self.log.entries().push((self.term, None))
                &&& n.outbox@.len() > self.outbox@.len()
                &&& n.role.peer_next_index@ == Seq::new(self.peers@.len(), |_i: int| (self.log.last_index + 1) as u64)
                &&& n.role.peer_last_index@ == Seq::new(self.peers@.len(), |_i: int| 0u64)
                &&& n.role.since_heartbeat == 0
                // First a heartbeat to all peers, and no other.
                &&& n.outbox@[self.outbox@.len() as int] == Message {
                    term: self.term,
                    src_addr: Address::Peer(self.id),
                    dst_addr: Address::Peers,
                    event: Event::Heartbeat { commit_index: self.log.commit_index, commit_term: self.log.commit_term },
                }
                &&& forall|k: int| self.outbox@.len() < k < n.outbox@.len() ==> !((#[trigger] n.outbox@[k]).event is Heartbeat)
                // Last, each proxied request is answered with an abort.
                &&& n.proxied_reqs@.len() == 0
                &&& n.outbox@.len() >= self.outbox@.len() + 1 + self.proxied_reqs@.len()
                &&& n.outbox@.subrange(n.outbox@.len() - self.proxied_reqs@.len(), n.outbox@.len() as int)
                    == aborts(self.proxied_reqs@, self.term, self.id)
                &&& n.outbox@.subrange(0, self.outbox@.len() as int) == self.outbox@
                &&& no_grants(n.outbox@, self.outbox@.len() as int)
            }),
    {
        if self.log.last_index == u64::MAX {
            return Err(Error::LogFull);
        }
        let ghost out = self.outbox@;
        let last_index = self.log.last_index;
        let leader = Leader::new(&self.peers, last_index);
        let mut node = self.become_role(leader);
        let commit_index = node.log.commit_index;
        let commit_term = node.log.commit_term;
        node.send(Address::Peers, Event::Heartbeat { commit_index, commit_term });
        let ghost m1 = node.outbox@;
        node.append(None)?;
        let ghost m2 = node.outbox@;
        node.abort_proxied();
        assert(node.outbox@.subrange(m2.len() as int, node.outbox@.len() as int) =~= aborts(self.proxied_reqs@, self.term, self.id));
        assert forall|k: int| out.len() < k < node.outbox@.len() implies !((#[trigger] node.outbox@[k]).event is Heartbeat) by {
            if k < m2.len() {
                assert(node.outbox@.subrange(0, m2.len() as int)[k] == node.outbox@[k]);
                assert(m2[k].event is ReplicateEntries);
            } else {
                assert(node.outbox@[k] == aborts(self.proxied_reqs@, self.term, self.id)[k - m2.len()]);
            }
        }
        assert(m2.subrange(0, m1.len() as int)[out.len() as int] == m2[out.len() as int]);
        assert(node.outbox@.subrange(0, m2.len() as int)[out.len() as int] == node.outbox@[out.len() as int]);
        assert(node.outbox@.subrange(0, out.len() as int) =~= m2.subrange(0, out.len() as int));
        assert(m2.subrange(0, out.len() as int) =~= m1.subrange(0, out.len() as int));
        assert forall|i: int| out.len() <= i < node.outbox@.len() implies !((#[trigger] node.outbox@[i]).event is GrantVote) by {
            if i < m2.len() {
                assert(node.outbox@.subrange(0, m2.len() as int)[i] == node.outbox@[i]);
                if i >= m1.len() {
                } else {
                    assert(m2.subrange(0, m1.len() as int)[i] == m2[i]);
                }
            } else {
                let k = i - m2.len();
                assert(node.outbox@[m2.len() + k] == node.outbox@[i]);
            }
        }
        Ok(node)
    }

    /// Processes a message.
    pub fn step(self, msg: Message) -> (r: Result<Node>)
        requires
            self.ctx_wf(),
        ensures
            candidate_stepped(self, msg, r),
    {
        let mut this = self;
        // Pre-processing when receiving a message.
        if !this.validate(&msg) {
            proof { lemma_unchanged_keeps_laws(Node::Candidate(this)); }
            return Ok(Node::Candidate(this));
        }
        let ghost s0 = this;
        let ghost m0 = msg;
        let ghost term = this.term;
        let ghost vote = this.vote();
        let ghost out = this.outbox@;
        if msg.term > this.term {
            if let Address::Peer(src) = &msg.src_addr {
                let mut f = this.become_follower(msg.term, src.clone());
                let ghost midf = f;
                let ghost mid = f.outbox@;
                f.handle(msg);
                assert(became_follower(s0, m0.term, *src, midf) && handled(midf, m0, f));
                proof { lemma_follower_laws(term, vote, out, mid, f); }
                return Ok(Node::Follower(f));
            }
        }
        match msg.event {
            Event::Heartbeat { .. } => {
                if let Address::Peer(src) = &msg.src_addr {
                    let mut f = this.become_follower(msg.term, src.clone());
                    let ghost midf = f;
                    let ghost mid = f.outbox@;
                    f.handle(msg);
                    assert(became_follower(s0, m0.term, *src, midf) && handled(midf, m0, f));
                    proof { lemma_follower_laws(term, vote, out, mid, f); }
                    return Ok(Node::Follower(f));
                }
                proof { lemma_unchanged_keeps_laws(Node::Candidate(this)); }
                Ok(Node::Candidate(this))
            },
            Event::GrantVote => {
                if let Address::Peer(src) = &msg.src_addr {
                    if !voted(&this.role.voters, src) {
                        this.role.voters.push(src.clone());
                        assert(this.role.voters@[this.role.voters@.len() - 1]@ == src@);
                        if this.role.vote_count < u64::MAX {
                            this.role.vote_count = this.role.vote_count + 1;
                        }
                    }
                }
                if this.role.vote_count >= this.quorum() {
                    let mut queued: Vec<(Address, Event)> = Vec::new();
                    std::mem::swap(&mut queued, &mut this.queued_reqs);
                    let ghost q = queued@;
                    let ghost base = this.log.entries().push((this.term, None));
                    if this.log.last_index as u128 + 1 + queued.len() as u128 > u64::MAX as u128 {
                        return Err(Error::LogFull);
                    }
                    let ghost hb = Message {
                        term: this.term,
                        src_addr: Address::Peer(this.id),
                        dst_addr: Address::Peers,
                        event: Event::Heartbeat { commit_index: this.log.commit_index, commit_term: this.log.commit_term },
                    };
                    let mut node = this.become_leader()?;
                    let ghost mut i: int = 0;
                    assert(queued_entries(q.subrange(0, 0), term) =~= Seq::<(u64, Option<Seq<u8>>)>::empty());
                    assert(base + queued_entries(q.subrange(0, 0), term) =~= base);
                    while queued.len() > 0
                        invariant
                            node.leader_wf(),
                            node.term == term,
                            node.vote() == vote,
                            node.log.commit_index >= self.log.commit_index,
                            0 <= i <= q.len(),
                            queued@ == q.subrange(i, q.len() as int),
                            forall|j: int| 0 <= j < q.len() ==> (#[trigger] q[j]).1 is ClientRequest,
                            node.log.entries() == base + queued_entries(q.subrange(0, i), term),
                            node.log.last_index + q.len() - i <= u64::MAX,
                            node.outbox@.len() >= out.len(),
                            node.outbox@.subrange(0, out.len() as int) == out,
                            no_grants(node.outbox@, out.len() as int),
                            node.id == s0.id,
                            node.outbox@.len() > out.len(),
                            node.outbox@[out.len() as int] == hb,
                            node.log.last_index == s0.log.last_index + 1 + i,
                            forall|k: int| 0 <= k < i ==> sent_after(node.outbox@, out.len() as int,
                                #[trigger] replay_reply(q, k, term, s0.id, s0.log.last_index + 2)),
                        decreases queued@.len(),
                    {
                        let (src_addr, event) = queued.remove(0);
                        assert(q.subrange(i + 1, q.len() as int) =~= q.subrange(i, q.len() as int).remove(0));
                        let ghost before = node.outbox@;
                        let ghost cmd = match event {
                            Event::ClientRequest { ref command, .. } => command@,
                            _ => Seq::empty(),
                        };
                        let ghost qm = Message { term: 0, src_addr, dst_addr: Address::Local, event };
                        node.handle(Message { term: 0, src_addr, dst_addr: Address::Local, event })?;
                        proof {
                            assert(node.outbox@.subrange(0, before.len() as int)[out.len() as int] == node.outbox@[out.len() as int]);
                            assert(node.outbox@.last() == replay_reply(q, i, term, s0.id, s0.log.last_index + 2));
                            assert(node.outbox@[node.outbox@.len() - 1] == node.outbox@.last());
                            assert forall|k: int| 0 <= k < i + 1 implies sent_after(node.outbox@, out.len() as int,
                                #[trigger] replay_reply(q, k, term, s0.id, s0.log.last_index + 2)) by {
                                if k < i {
                                    assert(sent_after(before, out.len() as int, replay_reply(q, k, term, s0.id, s0.log.last_index + 2)));
                                    let p = choose|p: int| out.len() < p < before.len() && before[p]
                                        == replay_reply(q, k, term, s0.id, s0.log.last_index + 2);
                                    assert(node.outbox@.subrange(0, before.len() as int)[p] == node.outbox@[p]);
                                    assert(out.len() < p < node.outbox@.len() && node.outbox@[p]
                                        == replay_reply(q, k, term, s0.id, s0.log.last_index + 2));
                                } else {
                                    let p = node.outbox@.len() - 1;
                                    assert(out.len() < p < node.outbox@.len() && node.outbox@[p]
                                        == replay_reply(q, k, term, s0.id, s0.log.last_index + 2));
                                }
                            }
                            assert(queued_entries(q.subrange(0, i + 1), term)
                                =~= queued_entries(q.subrange(0, i), term).push((term, Some(cmd))));
                            assert(node.outbox@.subrange(0, out.len() as int) =~= before.subrange(0, out.len() as int));
                            assert forall|k: int| out.len() <= k < node.outbox@.len() implies !((#[trigger] node.outbox@[k]).event is GrantVote) by {
                                if k < before.len() {
                                    assert(node.outbox@.subrange(0, before.len() as int)[k] == node.outbox@[k]);
                                }
                            }
                            i = i + 1;
                        }
                    }
                    assert(q.subrange(0, i) =~= q);
                    let r = Node::Leader(node);
                    proof {
                        lemma_no_grants_keep_laws(term, vote, out, r);
                        assert(r.entries().subrange(0, self.log.entries().len() as int) =~= self.log.entries());
                        lemma_extension_keeps_commits(self.log.commit_index, self.log.entries(), r);
                    }
                    return Ok(r);
                }
                proof { lemma_unchanged_keeps_laws(Node::Candidate(this)); }
                Ok(Node::Candidate(this))
            },
            Event::ClientRequest { id, command } => {
                this.queued_reqs.push((msg.src_addr, Event::ClientRequest { id, command }));
                proof { lemma_unchanged_keeps_laws(Node::Candidate(this)); }
                Ok(Node::Candidate(this))
            },
            // Ignores other candidates when we are in an election.
            Event::SolicitVote { .. } => {
                proof { lemma_unchanged_keeps_laws(Node::Candidate(this)); }
                Ok(Node::Candidate(this))
            },
            Event::ReplicateEntries { .. } | Event::AcceptEntries { .. } | Event::RejectEntries
            | Event::ClientResponse { .. } => {
                proof { lemma_unchanged_keeps_laws(Node::Candidate(this)); }
                Ok(Node::Candidate(this))
            },
        }
    }
}

} // verus!
