use vstd::prelude::*;

use crate::raft::candidate::random_timeout;
use crate::raft::log::{lemma_match_len_bounds, match_len, splice_accepts, spliced};
use crate::raft::message::{entries_view, Address, Event, Message};
use crate::error::{Error, Result};
use crate::raft::candidate::lemma_follower_laws;
use crate::raft::node::{became_follower, forwards, proxied_view, request_ids, keeps_commits, lemma_extension_keeps_commits, grants_match, keeps_laws, lemma_unchanged_keeps_laws, no_grants, Node, RoleNode};
use crate::raft::{ELECTION_TIMEOUT_MAX, ELECTION_TIMEOUT_MIN};
use crate::storage::bytes_equal;

verus! {

/// A follower replicates the leader's log and votes in elections.
pub struct Follower {
    /// The leader of the current term, once known.
    pub leader: Option<String>,
    /// Ticks since the leader was last heard from.
    pub leader_seen_ticks: u64,
    /// Ticks without word from a leader after which an election starts.
    pub leader_seen_timeout: u64,
}

impl Follower {
    /// A follower of `leader`, with a randomised election timeout.
    pub fn new(leader: Option<String>) -> (r: Follower)
        ensures
            r.leader == leader,
            r.leader_seen_ticks == 0,
            ELECTION_TIMEOUT_MIN <= r.leader_seen_timeout <= ELECTION_TIMEOUT_MAX,
    {
        Follower { leader, leader_seen_ticks: 0, leader_seen_timeout: random_timeout(ELECTION_TIMEOUT_MIN, ELECTION_TIMEOUT_MAX) }
    }

    /// The id of the known leader.
    pub open spec fn leader_id(&self) -> Option<Seq<char>> {
        match self.leader {
            Some(l) => Some(l@),
            None => None,
        }
    }
}

/// Whether a candidate's log, ending with `last_index` at `last_term`, is at
/// least as up to date as a log ending with `my_index` at `my_term`.
pub open spec fn up_to_date(last_index: u64, last_term: u64, my_index: u64, my_term: u64) -> bool {
    last_term > my_term || (last_term == my_term && last_index >= my_index)
}

/// Whether a node that holds `vote` may vote for `candidate`.
pub open spec fn may_vote(vote: Option<Seq<char>>, candidate: Seq<char>) -> bool {
    vote is None || vote == Some(candidate)
}

/// Whether a node that holds `vote`, with a log ending with `my_index` at
/// `my_term`, grants the vote that `msg` asks for.
pub open spec fn grants_vote(vote: Option<Seq<char>>, msg: &Message, my_index: u64, my_term: u64) -> bool {
    match (msg.event, msg.src_addr) {
        (Event::SolicitVote { last_log_index, last_log_term }, Address::Peer(c)) =>
            may_vote(vote, c@) && up_to_date(last_log_index, last_log_term, my_index, my_term),
        _ => false,
    }
}

/// Whether `i` is the first position of request `id` among `proxied`.
pub open spec fn is_first_proxied(proxied: Seq<(Vec<u8>, Address)>, id: Seq<u8>, i: int) -> bool {
    &&& 0 <= i < proxied.len()
    &&& proxied[i].0@ == id
    &&& forall|j: int| 0 <= j < i ==> (#[trigger] proxied[j]).0@ != id
}

/// What a follower `pre` that handles `msg` becomes: `post`.
pub open spec fn handled(pre: RoleNode<Follower>, msg: Message, post: RoleNode<Follower>) -> bool {
    &&& (post.ctx_wf())
    &&& (post.id == pre.id)
    &&& (post.peers == pre.peers)
    &&& (post.term == pre.term)
    &&& (post.outbox@.len() >= pre.outbox@.len())
    &&& (post.outbox@.subrange(0, pre.outbox@.len() as int) == pre.outbox@)
    &&& (pre.vote() is Some ==> post.vote() == pre.vote())
    &&& (grants_match(post.outbox@, pre.outbox@.len() as int, post.term, post.vote()))
    &&& (post.log.commit_index >= pre.log.commit_index)
    &&& (post.log.entries().subrange(0, pre.log.commit_index as int)
        == pre.log.entries().subrange(0, pre.log.commit_index as int))
    // A vote is granted exactly where the rules allow it.
    &&& ((msg.event is SolicitVote && msg.src_addr is Peer) ==> ({
        let c = msg.src_addr.peer_id()->0;
        let grant = grants_vote(pre.vote(), &msg, pre.log.last_index, pre.log.last_term);
        &&& grant ==> post.vote() == Some(c) && post.outbox@.len() == pre.outbox@.len() + 1
            && post.outbox@.last().event is GrantVote
        &&& !grant ==> post.vote() == pre.vote() && post.outbox@.len() == pre.outbox@.len()
    }))
    &&& (!(msg.event is SolicitVote) ==> post.vote() == pre.vote())
    &&& (pre.role.leader is Some ==> post.role.leader_id() == pre.role.leader_id())
    // Entries from the leader are taken where the log holds their base.
    &&& (msg.event matches Event::ReplicateEntries { base_index, base_term, entries } ==> (
        msg.src_addr matches Address::Peer(src) ==> (
            (pre.role.leader is None || pre.role.leader_id() == Some(src@)) ==> {
                let ok = base_index <= pre.log.last_index && pre.log.holds(base_index as int, base_term)
                    && splice_accepts(pre.log.entries(), base_index as int, entries_view(entries@),
                        pre.log.commit_index as int);
                &&& post.role.leader_id() == Some(src@)
                &&& post.outbox@.len() > pre.outbox@.len()
                &&& post.outbox@.last().dst_addr == Address::Peer(src)
                &&& ok ==> post.log.entries() == spliced(pre.log.entries(), base_index as int,
                        entries_view(entries@))
                    && post.outbox@.last().event == Event::AcceptEntries {
                        last_index: (base_index + entries@.len()) as u64,
                    }
                &&& !ok ==> post.log.entries() == pre.log.entries()
                    && post.outbox@.last().event == Event::RejectEntries
            })))
    // A heartbeat from the leader commits what the log holds of its commit.
    &&& (msg.event matches Event::Heartbeat { commit_index, commit_term } ==> (
        msg.src_addr matches Address::Peer(src) ==> (
            (pre.role.leader is None || pre.role.leader_id() == Some(src@)) ==> {
                &&& post.role.leader_id() == Some(src@)
                &&& post.log.entries() == pre.log.entries()
                &&& post.log.commit_index == if commit_index > pre.log.commit_index
                    && pre.log.holds(commit_index as int, commit_term) {
                    commit_index
                } else {
                    pre.log.commit_index
                }
            })))
    // A client request goes to the known leader, or waits for one.
    &&& (msg.event matches Event::ClientRequest { id, .. } ==> {
        &&& pre.role.leader matches Some(l) ==> post.outbox@ == pre.outbox@.push(Message {
                term: pre.term,
                src_addr: Address::Peer(pre.id),
                dst_addr: Address::Peer(l),
                event: msg.event,
            }) && proxied_view(post.proxied_reqs@) == proxied_view(pre.proxied_reqs@).push((id@, msg.src_addr))
            && post.queued_reqs == pre.queued_reqs
        &&& pre.role.leader is None ==> post.queued_reqs@ == pre.queued_reqs@.push((msg.src_addr, msg.event))
            && post.outbox == pre.outbox && post.proxied_reqs == pre.proxied_reqs
    })
    // A response to a proxied request goes back to the requester, once.
    &&& (msg.event matches Event::ClientResponse { id, .. } ==> {
        &&& forall|i: int| is_first_proxied(pre.proxied_reqs@, id@, i) ==> post.outbox@ == pre.outbox@.push(Message {
                term: pre.term,
                src_addr: Address::Peer(pre.id),
                dst_addr: pre.proxied_reqs@[i].1,
                event: msg.event,
            }) && post.proxied_reqs@ == pre.proxied_reqs@.remove(i)
        &&& (forall|i: int| 0 <= i < pre.proxied_reqs@.len() ==> (#[trigger] pre.proxied_reqs@[i]).0@ != id@)
            ==> post.outbox == pre.outbox && post.proxied_reqs == pre.proxied_reqs
    })
}

/// What a follower `f0` that steps on `msg` returns: `r`.
pub open spec fn follower_stepped(f0: RoleNode<Follower>, msg: Message, r: Result<Node>) -> bool {
    // A message of a later term from a peer makes the node that peer's
    // follower, which then handles the message.
    &&& (f0.accepts(&msg) ==> (msg.src_addr matches Address::Peer(src) ==> ((msg.term > f0.term) ==>
        (r matches Ok(Node::Follower(f)) && exists|mid: RoleNode<Follower>|
            became_follower(f0, msg.term, src, mid) && #[trigger] handled(mid, msg, f)))))
    // Any other message is handled in the follower role.
    &&& (f0.accepts(&msg) && !(msg.src_addr is Peer && msg.term > f0.term) ==> (r matches Ok(Node::Follower(f))
        && handled(f0, msg, f)))
    &&& (r matches Ok(n) && keeps_laws(f0.term, f0.vote(), f0.outbox@, n) && n is Follower)
    &&& (r matches Ok(n) ==> keeps_commits(f0.log.commit_index, f0.log.entries(), n))
    &&& (!f0.accepts(&msg) ==> r == Ok::<Node, Error>(Node::Follower(f0)))
    &&& (f0.accepts(&msg) && msg.src_addr is Peer && msg.term > f0.term
        ==> (r matches Ok(Node::Follower(f)) && f.term == msg.term
            && f.role.leader_id() == msg.src_addr.peer_id()))
    // A vote is granted exactly where the rules allow it.
    &&& (f0.accepts(&msg) && msg.src_addr is Peer && msg.event is SolicitVote ==> ({
        let vote = if msg.term > f0.term { None } else { f0.vote() };
        let c = msg.src_addr.peer_id()->0;
        let grant = grants_vote(vote, &msg, f0.log.last_index, f0.log.last_term);
        &&& r matches Ok(Node::Follower(f))
        &&& grant ==> f.vote() == Some(c) && f.outbox@.last().event is GrantVote
            && f.outbox@.last().dst_addr.peer_id() == Some(c)
        &&& !grant ==> f.vote() == vote && no_grants(f.outbox@, f0.outbox@.len() as int)
    }))
}

impl RoleNode<Follower> {
    /// Processes a message. A message of a later term from a peer first
    /// makes the node that peer's follower at that term.
    pub fn step(self, msg: Message) -> (r: Result<Node>)
        requires
            self.ctx_wf(),
        ensures
            follower_stepped(self, msg, r),
    {
        let mut this = self;
        if !this.validate(&msg) {
            proof { lemma_unchanged_keeps_laws(Node::Follower(this)); }
            return Ok(Node::Follower(this));
        }
        let ghost s0 = this;
        let ghost m0 = msg;
        let ghost term = this.term;
        let ghost vote = this.vote();
        let ghost out = this.outbox@;
        if msg.term > this.term {
            if let Address::Peer(src) = &msg.src_addr {
                this = this.become_follower(msg.term, src.clone());
            }
        }
        let ghost mid = this.outbox@;
        proof {
            if mid.len() == out.len() {
                assert(mid =~= mid.subrange(0, out.len() as int));
            }
            assert(no_grants(mid, out.len() as int));
        }
        let ghost midf = this;
        this.handle(msg);
        proof {
            assert(handled(midf, m0, this));
            if m0.src_addr is Peer && m0.term > s0.term {
                assert(became_follower(s0, m0.term, m0.src_addr->Peer_0, midf));
            }
        }
        proof {
            lemma_follower_laws(term, vote, out, mid, this);
            if this.outbox@.len() == mid.len() {
                assert(this.outbox@ =~= mid);
            } else {
                assert(this.outbox@[this.outbox@.len() - 1] == this.outbox@.last());
            }
        }
        Ok(Node::Follower(this))
    }

    /// Forwards the queued client requests to `leader`, in order, recording
    /// each as proxied.
    pub fn forward_queued(&mut self, leader: &String)
        requires
            old(self).ctx_wf(),
        ensures
            final(self).ctx_wf(),
            final(self).queued_reqs@.len() == 0,
            final(self).id == old(self).id,
            final(self).peers == old(self).peers,
            final(self).term == old(self).term,
            final(self).log == old(self).log,
            final(self).role == old(self).role,
            final(self).outbox@ == old(self).outbox@ + forwards(old(self).queued_reqs@, old(self).term, old(self).id, *leader),
            proxied_view(final(self).proxied_reqs@) == proxied_view(old(self).proxied_reqs@) + request_ids(old(self).queued_reqs@),
            final(self).outbox@.len() >= old(self).outbox@.len(),
            final(self).outbox@.subrange(0, old(self).outbox@.len() as int) == old(self).outbox@,
            no_grants(final(self).outbox@, old(self).outbox@.len() as int),
    {
        let mut queued: Vec<(Address, Event)> = Vec::new();
        std::mem::swap(&mut queued, &mut self.queued_reqs);
        let ghost q = queued@;
        let ghost out0 = self.outbox@;
        let ghost px0 = proxied_view(self.proxied_reqs@);
        let ghost mut i: int = 0;
        assert(forwards(q.subrange(0, 0), self.term, self.id, *leader) =~= Seq::<Message>::empty());
        assert(request_ids(q.subrange(0, 0)) =~= Seq::<(Seq<u8>, Address)>::empty());
        assert(out0 + Seq::<Message>::empty() =~= out0);
        assert(px0 + Seq::<(Seq<u8>, Address)>::empty() =~= px0);
        while queued.len() > 0
            invariant
                self.ctx_wf(),
                self.queued_reqs@.len() == 0,
                self.id == old(self).id,
                self.peers == old(self).peers,
                self.term == old(self).term,
                self.log == old(self).log,
                self.role == old(self).role,
                q == old(self).queued_reqs@,
                out0 == old(self).outbox@,
                px0 == proxied_view(old(self).proxied_reqs@),
                forall|j: int| 0 <= j < q.len() ==> (#[trigger] q[j]).1 is ClientRequest,
                0 <= i <= q.len(),
                queued@ == q.subrange(i, q.len() as int),
                self.outbox@ == out0 + forwards(q.subrange(0, i), self.term, self.id, *leader),
                proxied_view(self.proxied_reqs@) == px0 + request_ids(q.subrange(0, i)),
            decreases queued@.len(),
        {
            let (src, event) = queued.remove(0);
            assert(q.subrange(i + 1, q.len() as int) =~= q.subrange(i, q.len() as int).remove(0));
            assert(q[i] == (src, event));
            if let Event::ClientRequest { id, command } = event {
                let ghost p0 = self.proxied_reqs@;
                self.proxied_reqs.push((id.clone(), src));
                assert(proxied_view(self.proxied_reqs@) =~= proxied_view(p0).push((id@, q[i].0)));
                self.send(Address::Peer(leader.clone()), Event::ClientRequest { id, command });
                proof {
                    assert(forwards(q.subrange(0, i + 1), self.term, self.id, *leader)
                        =~= forwards(q.subrange(0, i), self.term, self.id, *leader).push(self.outbox@.last()));
                    assert(request_ids(q.subrange(0, i + 1)) =~= request_ids(q.subrange(0, i)).push((id@, q[i].0)));
                }
            }
            proof {
                i = i + 1;
            }
        }
        proof {
            assert(q.subrange(0, i) =~= q);
            assert forall|j: int| out0.len() <= j < self.outbox@.len() implies !((#[trigger] self.outbox@[j]).event is GrantVote) by {
                assert(q[j - out0.len()].1 is ClientRequest);
            }
            assert(self.outbox@.subrange(0, out0.len() as int) =~= out0);
        }
    }

    /// Handles a message of the current term (or a client message), in the follower role.
    pub fn handle(&mut self, msg: Message)
        requires
            old(self).ctx_wf(),
            msg.term <= old(self).term || msg.event.is_client(),
        ensures
            handled(*old(self), msg, *final(self)),
    {
        let ghost start = self.outbox@.len();
        let ghost committed = self.log.entries().subrange(0, self.log.commit_index as int);
        match msg.event {
            Event::SolicitVote { last_log_index, last_log_term } => {
                if let Address::Peer(src) = msg.src_addr {
                    let (_t, vote) = self.log.load_term();
                    let free = match &vote {
                        Some(v) => *v == src,
                        None => true,
                    };
                    if free && (last_log_term > self.log.last_term
                        || (last_log_term == self.log.last_term && last_log_index >= self.log.last_index)) {
                        let term = self.term;
                        self.log.save_term(term, Some(src.clone()));
                        self.send(Address::Peer(src), Event::GrantVote);
                        assert(self.log.entries().subrange(0, old(self).log.commit_index as int) == committed);
                    }
                }
            },
            Event::Heartbeat { commit_index, commit_term } => {
                if let Address::Peer(src) = msg.src_addr {
                    self.observe_leader(&src);
                    if self.is_leader(&src) {
                        self.role.leader_seen_ticks = 0;
                        if commit_index > self.log.commit_index && self.log.has(commit_index, commit_term) {
                            self.log.commit(commit_index);
                            assert(self.log.entries().subrange(0, old(self).log.commit_index as int) == committed);
                        }
                    }
                }
            },
            Event::ReplicateEntries { base_index, base_term, entries } => {
                if let Address::Peer(src) = msg.src_addr {
                    self.observe_leader(&src);
                    if self.is_leader(&src) {
                        self.role.leader_seen_ticks = 0;
                        let n = entries.len();
                        let ghost e = entries_view(entries@);
                        let ghost l = self.log.entries();
                        if base_index <= self.log.last_index && self.log.has(base_index, base_term)
                            && self.log.splice(base_index, entries) {
                            proof {
                                let m = match_len(l, base_index as int, e, 0);
                                lemma_match_len_bounds(l, base_index as int, e, 0);
                                if m < e.len() {
                                    let s2 = l.subrange(0, base_index + m) + e.subrange(m, e.len() as int);
                                    assert(spliced(l, base_index as int, e) == s2);
                                    assert(s2.subrange(0, old(self).log.commit_index as int) =~= committed);
                                }
                            }
                            self.send(Address::Peer(src), Event::AcceptEntries { last_index: base_index + n as u64 });
                        } else {
                            self.send(Address::Peer(src), Event::RejectEntries);
                        }
                    }
                }
            },
            Event::ClientRequest { id, command } => {
                let leader = match &self.role.leader {
                    Some(l) => Some(l.clone()),
                    None => None,
                };
                match leader {
                    Some(l) => {
                        let ghost p0 = self.proxied_reqs@;
                        self.proxied_reqs.push((id.clone(), msg.src_addr));
                        assert(proxied_view(self.proxied_reqs@) =~= proxied_view(p0).push((id@, msg.src_addr)));
                        self.send(Address::Peer(l), Event::ClientRequest { id, command });
                    },
                    None => {
                        self.queued_reqs.push((msg.src_addr, Event::ClientRequest { id, command }));
                    },
                }
            },
            Event::ClientResponse { id, response } => {
                let n = self.proxied_reqs.len();
                let mut i: usize = 0;
                while i < n && !bytes_equal(&self.proxied_reqs[i].0, &id)
                    invariant
                        n == self.proxied_reqs@.len(),
                        0 <= i <= n,
                        forall|j: int| 0 <= j < i ==> (#[trigger] self.proxied_reqs@[j]).0@ != id@,
                    decreases n - i,
                {
                    i = i + 1;
                }
                if i < n {
                    let ghost p0 = self.proxied_reqs@;
                    let (_, addr) = self.proxied_reqs.remove(i);
                    self.send(addr, Event::ClientResponse { id, response });
                    proof {
                        assert forall|j: int| is_first_proxied(p0, id@, j) implies j == i by {
                            if j < i {
                            } else if j > i {
                                assert(p0[i as int].0@ == id@);
                            }
                        }
                    }
                }
            },
            Event::GrantVote | Event::AcceptEntries { .. } | Event::RejectEntries => {},
        }
        proof {
            assert(self.outbox@.subrange(0, start as int) =~= old(self).outbox@);
        }
    }

    /// Whether `id` is the known leader.
    fn is_leader(&self, id: &String) -> (r: bool)
        ensures
            r == (self.role.leader_id() == Some(id@)),
    {
        match &self.role.leader {
            Some(l) => *l == *id,
            None => false,
        }
    }

    /// Records `id` as the leader of the current term if none is known yet,
    /// and hands it the queued requests.
    fn observe_leader(&mut self, id: &String)
        requires
            old(self).ctx_wf(),
        ensures
            final(self).ctx_wf(),
            final(self).id == old(self).id,
            final(self).peers == old(self).peers,
            final(self).term == old(self).term,
            final(self).log == old(self).log,
            final(self).outbox@.len() >= old(self).outbox@.len(),
            final(self).outbox@.subrange(0, old(self).outbox@.len() as int) == old(self).outbox@,
            no_grants(final(self).outbox@, old(self).outbox@.len() as int),
            old(self).role.leader is Some ==> final(self).role == old(self).role,
            old(self).role.leader is None ==> final(self).role.leader_id() == Some(id@),
    {
        if self.role.leader.is_none() {
            self.role.leader = Some(id.clone());
            self.forward_queued(id);
        }
    }
}

} // verus!
