use vstd::prelude::*;

use crate::error::{Error, Result};
use crate::raft::message::{entries_view, Address, Event, Message};
use crate::raft::candidate::lemma_follower_laws;
use crate::raft::follower::{handled, Follower};
use crate::raft::node::{became_follower, keeps_commits, lemma_extension_keeps_commits, keeps_laws, lemma_no_grants_keep_laws, lemma_unchanged_keeps_laws, no_grants, quorum_of, Node, RoleNode};
use crate::raft::HEARTBEAT_INTERVAL;

verus! {

/// A leader serves client requests and replicates its log to the followers.
pub struct Leader {
    /// Per peer, in the order of the node's peers: the index of the next
    /// entry to send.
    pub peer_next_index: Vec<u64>,
    /// Per peer: the highest index known to match the leader's log.
    pub peer_last_index: Vec<u64>,
    /// Ticks since the last heartbeat.
    pub since_heartbeat: u64,
}

/// Whether `i` is the first position of peer `id` in `peers`.
pub open spec fn is_first_peer(peers: Seq<String>, id: Seq<char>, i: int) -> bool {
    &&& 0 <= i < peers.len()
    &&& peers[i]@ == id
    &&& forall|j: int| 0 <= j < i ==> (#[trigger] peers[j])@ != id
}

/// How many of `acked` are at least `index`.
pub open spec fn count_acked(acked: Seq<u64>, index: int) -> nat
    decreases acked.len(),
{
    if acked.len() == 0 {
        0
    } else {
        count_acked(acked.drop_last(), index) + if acked.last() >= index { 1nat } else { 0nat }
    }
}

/// Whether the entry at `index` may be committed by a leader of `term`:
/// a quorum of the cluster (the leader and the peers with progress `acked`)
/// holds it, and it is of the leader's own term.
pub open spec fn committable(acked: Seq<u64>, cluster: int, index: int, last_index: int, term_at: u64, term: u64) -> bool {
    &&& index <= last_index
    &&& count_acked(acked, index) + 1 >= quorum_of(cluster)
    &&& term_at == term
}

impl Leader {
    /// A leader with no progress known for any of `peers`, whose log ends at `last_index`.
    pub fn new(peers: &Vec<String>, last_index: u64) -> (r: Leader)
        requires
            last_index < u64::MAX,
        ensures
            r.peer_next_index@ == Seq::new(peers@.len(), |_i: int| (last_index + 1) as u64),
            r.peer_last_index@ == Seq::new(peers@.len(), |_i: int| 0u64),
            r.since_heartbeat == 0,
    {
        let mut next: Vec<u64> = Vec::new();
        let mut last: Vec<u64> = Vec::new();
        let mut i: usize = 0;
        while i < peers.len()
            invariant
                0 <= i <= peers@.len(),
                last_index < u64::MAX,
                next@ == Seq::new(i as nat, |_i: int| (last_index + 1) as u64),
                last@ == Seq::new(i as nat, |_i: int| 0u64),
            decreases peers@.len() - i,
        {
            next.push(last_index + 1);
            last.push(0);
            i = i + 1;
            assert(next@ =~= Seq::new(i as nat, |_i: int| (last_index + 1) as u64));
            assert(last@ =~= Seq::new(i as nat, |_i: int| 0u64));
        }
        Leader { peer_next_index: next, peer_last_index: last, since_heartbeat: 0 }
    }

    /// The progress is consistent with a cluster of `n` peers and a log that ends at `last_index`.
    pub open spec fn wf(&self, n: nat, last_index: u64) -> bool {
        &&& self.peer_next_index@.len() == n
        &&& self.peer_last_index@.len() == n
        &&& forall|i: int| 0 <= i < n ==> 1 <= #[trigger] self.peer_next_index@[i] <= last_index + 1
        &&& forall|i: int| 0 <= i < n ==> #[trigger] self.peer_last_index@[i] <= last_index
    }
}

/// What a leader `pre` that handles `msg` becomes, `post`, and the outcome `r`.
pub open spec fn leader_handled(pre: RoleNode<Leader>, msg: Message, post: RoleNode<Leader>, r: Result<()>) -> bool {
    &&& (post.leader_wf())
    &&& (post.id == pre.id)
    &&& (post.peers == pre.peers)
    &&& (post.term == pre.term)
    &&& (post.log.saved_vote() == pre.log.saved_vote())
    &&& (post.log.commit_index >= pre.log.commit_index)
    &&& (post.queued_reqs == pre.queued_reqs)
    &&& (post.outbox@.len() >= pre.outbox@.len())
    &&& (post.outbox@.subrange(0, pre.outbox@.len() as int) == pre.outbox@)
    &&& (no_grants(post.outbox@, pre.outbox@.len() as int))
    &&& (r is Err ==> r == Err::<(), Error>(Error::LogFull) && pre.log.last_index == u64::MAX)
    &&& (msg.event is ClientRequest ==> (r is Ok <==> pre.log.last_index < u64::MAX))
    &&& (msg.event matches Event::ClientRequest { id, command } ==> pre.log.last_index < u64::MAX ==> {
        &&& post.log.entries() == pre.log.entries().push((pre.term, Some(command@)))
        &&& post.outbox@.last().dst_addr == msg.src_addr
        &&& post.outbox@.len() > pre.outbox@.len()
        &&& post.outbox@.last().term == pre.term
        &&& post.outbox@.last().src_addr == Address::Peer(pre.id)
        &&& post.outbox@.last().event == Event::ClientResponse {
            id,
            response: Ok((pre.log.last_index + 1) as u64),
        }
    })
    &&& (!(msg.event is ClientRequest) ==> post.log.entries() == pre.log.entries())
    // An acknowledgement records the peer's progress, then commits what a quorum holds.
    &&& (msg.event matches Event::AcceptEntries { last_index } ==> (msg.src_addr matches Address::Peer(src) ==>
        forall|i: int| is_first_peer(pre.peers@, src@, i) ==> {
            let prev = pre.role.peer_last_index@[i];
            let acked = if last_index <= pre.log.last_index && last_index > prev { last_index } else { prev };
            let progress = pre.role.peer_last_index@.update(i, acked);
            &&& post.role.peer_last_index@ == progress
            &&& post.log.commit_index > pre.log.commit_index ==> committable(progress,
                pre.peers@.len() + 1 as int, post.log.commit_index as int, pre.log.last_index as int,
                pre.log.term_at(post.log.commit_index as int), pre.term)
            &&& forall|c: int| post.log.commit_index < c <= pre.log.last_index ==> !committable(progress,
                pre.peers@.len() + 1 as int, c, pre.log.last_index as int,
                #[trigger] pre.log.term_at(c), pre.term)
        }))
    // A rejection steps the peer's next index back and resends from there.
    &&& (msg.event is RejectEntries ==> (msg.src_addr matches Address::Peer(src) ==>
        forall|i: int| is_first_peer(pre.peers@, src@, i) ==> {
            let prev = pre.role.peer_next_index@[i];
            let next = if prev > 1 { (prev - 1) as u64 } else { prev };
            &&& post.role.peer_next_index@ == pre.role.peer_next_index@.update(i, next)
            &&& post.outbox@.last().dst_addr == Address::Peer(pre.peers@[i])
            &&& post.outbox@.last().event matches Event::ReplicateEntries { base_index, .. }
                && base_index == next - 1
        }))
}

/// What a leader `l0` that steps on `msg` returns: `r`.
pub open spec fn leader_stepped(l0: RoleNode<Leader>, msg: Message, r: Result<Node>) -> bool {
    // A message of a later term from a peer makes the node that peer's
    // follower, which then handles the message.
    &&& (l0.accepts(&msg) ==> (msg.src_addr matches Address::Peer(src) ==> ((msg.term > l0.term) ==>
        (r matches Ok(Node::Follower(f)) && exists|mid: RoleNode<Follower>|
            became_follower(l0, msg.term, src, mid) && #[trigger] handled(mid, msg, f)))))
    // Any other message is handled in the leader role.
    &&& (l0.accepts(&msg) && !(msg.src_addr is Peer && msg.term > l0.term) ==> (r matches Ok(n) ==>
        (n matches Node::Leader(l) && leader_handled(l0, msg, l, Ok(())))))
    &&& (r matches Ok(n) ==> keeps_laws(l0.term, l0.vote(), l0.outbox@, n))
    &&& (r matches Ok(n) ==> keeps_commits(l0.log.commit_index, l0.log.entries(), n))
    &&& (r is Err ==> r == Err::<Node, Error>(Error::LogFull) && l0.log.last_index == u64::MAX)
    &&& (l0.log.last_index < u64::MAX ==> r is Ok)
    &&& (!l0.accepts(&msg) ==> r == Ok::<Node, Error>(Node::Leader(l0)))
    &&& (l0.accepts(&msg) && msg.src_addr is Peer && msg.term > l0.term
        ==> (r matches Ok(Node::Follower(f)) && f.term == msg.term
            && f.role.leader_id() == msg.src_addr.peer_id()))
    &&& (l0.accepts(&msg) && !(msg.src_addr is Peer && msg.term > l0.term) ==> (r matches Ok(n) ==> n is Leader))
}

impl RoleNode<Leader> {
    /// Processes a message. A message of a later term from a peer makes the
    /// node that peer's follower at that term, which then handles it.
    pub fn step(self, msg: Message) -> (r: Result<Node>)
        requires
            self.leader_wf(),
        ensures
            leader_stepped(self, msg, r),
    {
        let mut this = self;
        if !this.validate(&msg) {
            proof { lemma_unchanged_keeps_laws(Node::Leader(this)); }
            return Ok(Node::Leader(this));
        }
        let ghost s0 = this;
        let ghost m0 = msg;
        let ghost term = this.term;
        let ghost vote = this.vote();
        let ghost out = this.outbox@;
        if msg.term > this.term {
            if let Address::Peer(src) = &msg.src_addr {
                let mut f = this.become_follower(msg.term, src.clone());
                let ghost midf = f;
                let ghost mid = f.outbox@;
                f.handle(msg);
                assert(became_follower(s0, m0.term, *src, midf) && handled(midf, m0, f));
                proof { lemma_follower_laws(term, vote, out, mid, f); }
                return Ok(Node::Follower(f));
            }
        }
        let ghost e0 = this.log.entries();
        this.handle(msg)?;
        proof {
            lemma_no_grants_keep_laws(term, vote, out, Node::Leader(this));
            assert(this.log.entries().subrange(0, e0.len() as int) =~= e0);
            lemma_extension_keeps_commits(self.log.commit_index, e0, Node::Leader(this));
        }
        Ok(Node::Leader(this))
    }

    /// Sends a heartbeat to all peers where the interval has passed.
    pub fn tick(&mut self)
        requires
            old(self).leader_wf(),
        ensures
            keeps_laws(old(self).term, old(self).vote(), old(self).outbox@, Node::Leader(*final(self))),
            final(self).term == old(self).term,
            final(self).log == old(self).log,
            final(self).id == old(self).id,
            final(self).peers == old(self).peers,
            final(self).queued_reqs == old(self).queued_reqs,
            final(self).proxied_reqs == old(self).proxied_reqs,
            final(self).role.peer_next_index == old(self).role.peer_next_index,
            final(self).role.peer_last_index == old(self).role.peer_last_index,
            // At the interval a heartbeat goes to all peers and the count restarts.
            old(self).role.since_heartbeat + 1 >= HEARTBEAT_INTERVAL ==> final(self).role.since_heartbeat == 0
                && final(self).outbox@ == old(self).outbox@.push(Message {
                    term: old(self).term,
                    src_addr: Address::Peer(old(self).id),
                    dst_addr: Address::Peers,
                    event: Event::Heartbeat { commit_index: old(self).log.commit_index, commit_term: old(self).log.commit_term },
                }),
            // Before it the count goes up and nothing is sent.
            old(self).role.since_heartbeat + 1 < HEARTBEAT_INTERVAL ==> final(self).role.since_heartbeat
                == old(self).role.since_heartbeat + 1 && final(self).outbox == old(self).outbox,
    {
        let ghost out = self.outbox@;
        if self.role.since_heartbeat < u64::MAX {
            self.role.since_heartbeat = self.role.since_heartbeat + 1;
        }
        if self.role.since_heartbeat >= HEARTBEAT_INTERVAL {
            self.role.since_heartbeat = 0;
            let commit_index = self.log.commit_index;
            let commit_term = self.log.commit_term;
            self.send(Address::Peers, Event::Heartbeat { commit_index, commit_term });
            assert(self.outbox@.subrange(0, out.len() as int) =~= out);
        } else {
            assert(self.outbox@.subrange(0, out.len() as int) =~= out);
        }
    }

    pub open spec fn leader_wf(&self) -> bool {
        &&& self.ctx_wf()
        &&& self.role.wf(self.peers@.len(), self.log.last_index)
    }

    /// Sends peer `i` the entries from its next index on.
    pub fn replicate(&mut self, i: usize)
        requires
            old(self).leader_wf(),
            i < old(self).peers@.len(),
        ensures
            final(self).leader_wf(),
            final(self).id == old(self).id,
            final(self).peers == old(self).peers,
            final(self).term == old(self).term,
            final(self).log == old(self).log,
            final(self).role == old(self).role,
            final(self).queued_reqs == old(self).queued_reqs,
            final(self).proxied_reqs == old(self).proxied_reqs,
            final(self).outbox@.len() == old(self).outbox@.len() + 1,
            final(self).outbox@.subrange(0, old(self).outbox@.len() as int) == old(self).outbox@,
            no_grants(final(self).outbox@, old(self).outbox@.len() as int),
            final(self).outbox@.last().dst_addr == Address::Peer(old(self).peers@[i as int]),
            final(self).outbox@.last().event matches Event::ReplicateEntries { base_index, base_term, entries }
                && base_index == old(self).role.peer_next_index@[i as int] - 1
                && base_term == old(self).log.term_at(base_index as int)
                && entries_view(entries@) == old(self).log.entries().subrange(base_index as int, old(self).log.entries().len() as int),
    {
        let next = self.role.peer_next_index[i];
        let base_index = next - 1;
        let base_term = match self.log.get_term(base_index) {
            Some(t) => t,
            None => 0,
        };
        let entries = self.log.entries_from(next);
        let ghost before = self.outbox@;
        let peer = self.peers[i].clone();
        self.send(Address::Peer(peer), Event::ReplicateEntries { base_index, base_term, entries });
        assert(self.outbox@.subrange(0, before.len() as int) =~= before);
        assert(self.outbox@.last().dst_addr == Address::Peer(old(self).peers@[i as int])) by {
            assert(self.outbox@.last().dst_addr.peer_id() == Some(old(self).peers@[i as int]@));
        }
    }

    /// Sends every peer the entries it lacks.
    pub fn replicate_all(&mut self)
        requires
            old(self).leader_wf(),
        ensures
            final(self).leader_wf(),
            final(self).id == old(self).id,
            final(self).peers == old(self).peers,
            final(self).term == old(self).term,
            final(self).log == old(self).log,
            final(self).role == old(self).role,
            final(self).queued_reqs == old(self).queued_reqs,
            final(self).proxied_reqs == old(self).proxied_reqs,
            final(self).outbox@.len() == old(self).outbox@.len() + old(self).peers@.len(),
            final(self).outbox@.subrange(0, old(self).outbox@.len() as int) == old(self).outbox@,
            no_grants(final(self).outbox@, old(self).outbox@.len() as int),
            // Message `j` goes to peer `j`, with the entries from its next index.
            forall|j: int| 0 <= j < old(self).peers@.len() ==> {
                let m = #[trigger] final(self).outbox@[old(self).outbox@.len() + j];
                &&& m.dst_addr == Address::Peer(old(self).peers@[j])
                &&& m.event matches Event::ReplicateEntries { base_index, .. }
                    && base_index == old(self).role.peer_next_index@[j] - 1
            },
    {
        let ghost start = self.outbox@.len();
        let mut i: usize = 0;
        while i < self.peers.len()
            invariant
                self.leader_wf(),
                self.id == old(self).id,
                self.peers == old(self).peers,
                self.term == old(self).term,
                self.log == old(self).log,
                self.role == old(self).role,
                self.queued_reqs == old(self).queued_reqs,
                self.proxied_reqs == old(self).proxied_reqs,
                start == old(self).outbox@.len(),
                0 <= i <= self.peers@.len(),
                self.outbox@.len() == start + i,
                self.outbox@.subrange(0, start as int) == old(self).outbox@,
                no_grants(self.outbox@, start as int),
                forall|j: int| 0 <= j < i ==> {
                    let m = #[trigger] self.outbox@[start + j];
                    &&& m.dst_addr == Address::Peer(old(self).peers@[j])
                    &&& m.event matches Event::ReplicateEntries { base_index, .. }
                        && base_index == old(self).role.peer_next_index@[j] - 1
                },
            decreases self.peers@.len() - i,
        {
            let ghost before = self.outbox@;
            self.replicate(i);
            proof {
                assert forall|j: int| 0 <= j < i + 1 implies {
                    let m = #[trigger] self.outbox@[start + j];
                    &&& m.dst_addr == Address::Peer(old(self).peers@[j])
                    &&& m.event matches Event::ReplicateEntries { base_index, .. }
                        && base_index == old(self).role.peer_next_index@[j] - 1
                } by {
                    if j < i {
                        assert(self.outbox@.subrange(0, before.len() as int)[start + j] == self.outbox@[start + j]);
                        assert(before[start + j] == self.outbox@[start + j]);
                    } else {
                        assert(self.outbox@[start + j] == self.outbox@.last());
                    }
                }
            }
            assert(self.outbox@.subrange(0, start as int) =~= before.subrange(0, start as int));
            assert forall|j: int| start <= j < self.outbox@.len() implies !((#[trigger] self.outbox@[j]).event is GrantVote) by {
                if j < before.len() {
                    assert(self.outbox@.subrange(0, before.len() as int)[j] == self.outbox@[j]);
                }
            }
            i = i + 1;
        }
    }

    /// Appends a command (or a no-op) at the current term and replicates it.
    pub fn append(&mut self, command: Option<Vec<u8>>) -> (r: Result<u64>)
        requires
            old(self).leader_wf(),
        ensures
            final(self).leader_wf(),
            final(self).id == old(self).id,
            final(self).peers == old(self).peers,
            final(self).term == old(self).term,
            final(self).log.saved_vote() == old(self).log.saved_vote(),
            final(self).log.commit_index == old(self).log.commit_index,
            final(self).queued_reqs == old(self).queued_reqs,
            final(self).proxied_reqs == old(self).proxied_reqs,
            final(self).role == old(self).role,
            final(self).outbox@.len() >= old(self).outbox@.len(),
            final(self).outbox@.subrange(0, old(self).outbox@.len() as int) == old(self).outbox@,
            no_grants(final(self).outbox@, old(self).outbox@.len() as int),
            // What it sends replicates the log to the peers.
            forall|k: int| old(self).outbox@.len() <= k < final(self).outbox@.len()
                ==> (#[trigger] final(self).outbox@[k]).event is ReplicateEntries,
            old(self).log.last_index == u64::MAX ==> r == Err::<u64, Error>(Error::LogFull)
                && final(self).log.entries() == old(self).log.entries(),
            old(self).log.last_index < u64::MAX ==> r == Ok::<u64, Error>((old(self).log.last_index + 1) as u64)
                && final(self).log.entries() == old(self).log.entries().push((old(self).term, match command {
                    Some(c) => Some(c@),
                    None => None,
                })),
    {
        let term = self.term;
        let index = self.log.append(term, command)?;
        let ghost start = self.outbox@.len();
        self.replicate_all();
        assert forall|k: int| start <= k < self.outbox@.len() implies (#[trigger] self.outbox@[k]).event is ReplicateEntries by {
            assert(self.outbox@[start + (k - start)] == self.outbox@[k]);
        }
        Ok(index)
    }

    /// How many peers hold the entry at `index`.
    fn acked_by(&self, index: u64) -> (r: u64)
        requires
            self.leader_wf(),
        ensures
            r == count_acked(self.role.peer_last_index@, index as int),
            r <= self.peers@.len(),
    {
        let acked = &self.role.peer_last_index;
        let mut n: u64 = 0;
        let mut i: usize = 0;
        while i < acked.len()
            invariant
                0 <= i <= acked@.len(),
                acked@.len() == self.peers@.len(),
                self.peers@.len() < u64::MAX,
                n == count_acked(acked@.subrange(0, i as int), index as int),
                n <= i,
            decreases acked@.len() - i,
        {
            assert(acked@.subrange(0, i + 1).drop_last() =~= acked@.subrange(0, i as int));
            if acked[i] >= index {
                n = n + 1;
            }
            i = i + 1;
        }
        assert(acked@.subrange(0, i as int) =~= acked@);
        n
    }

    /// Commits the highest entry that a quorum holds and that is of the
    /// current term, where it lies above the commit index.
    pub fn maybe_commit(&mut self)
        requires
            old(self).leader_wf(),
        ensures
            final(self).leader_wf(),
            final(self).id == old(self).id,
            final(self).peers == old(self).peers,
            final(self).term == old(self).term,
            final(self).role == old(self).role,
            final(self).outbox == old(self).outbox,
            final(self).queued_reqs == old(self).queued_reqs,
            final(self).log.entries() == old(self).log.entries(),
            final(self).log.last_index == old(self).log.last_index,
            final(self).log.saved_vote() == old(self).log.saved_vote(),
            final(self).log.commit_index >= old(self).log.commit_index,
            final(self).log.commit_index > old(self).log.commit_index ==> committable(
                old(self).role.peer_last_index@, old(self).peers@.len() + 1 as int, final(self).log.commit_index as int,
                old(self).log.last_index as int, old(self).log.term_at(final(self).log.commit_index as int), old(self).term),
            forall|c: int| final(self).log.commit_index < c <= old(self).log.last_index ==> !committable(
                old(self).role.peer_last_index@, old(self).peers@.len() + 1 as int, c,
                old(self).log.last_index as int, #[trigger] old(self).log.term_at(c), old(self).term),
    {
        let quorum = self.quorum();
        let mut c: u64 = self.log.last_index;
        while c > self.log.commit_index
            invariant
                self.leader_wf(),
                *self == *old(self),
                quorum == quorum_of(self.peers@.len() + 1 as int),
                self.log.commit_index <= c <= self.log.last_index,
                forall|c2: int| c < c2 <= self.log.last_index ==> !committable(
                    self.role.peer_last_index@, self.peers@.len() + 1 as int, c2,
                    self.log.last_index as int, #[trigger] self.log.term_at(c2), self.term),
            decreases c,
        {
            let acked = self.acked_by(c);
            let t = match self.log.get_term(c) {
                Some(t) => t,
                None => 0,
            };
            if acked + 1 >= quorum && t == self.term {
                self.log.commit(c);
                return;
            }
            c = c - 1;
        }
    }

    /// Handles a message of the current term (or a client message), in the leader role.
    pub fn handle(&mut self, msg: Message) -> (r: Result<()>)
        requires
            old(self).leader_wf(),
            msg.term <= old(self).term || msg.event.is_client(),
        ensures
            leader_handled(*old(self), msg, *final(self), r),
    {
        let ghost start = self.outbox@.len();
        let r = match msg.event {
            Event::AcceptEntries { last_index } => {
                if let Address::Peer(src) = msg.src_addr {
                    if let Some(i) = self.peer_position(&src) {
                        let ghost prev = self.role.peer_last_index@[i as int];
                        let ghost acked = if last_index <= self.log.last_index && last_index > prev { last_index } else { prev };
                        if last_index <= self.log.last_index && last_index > self.role.peer_last_index[i] {
                            self.role.peer_last_index.set(i, last_index);
                            let next = if last_index < u64::MAX { last_index + 1 } else { last_index };
                            self.role.peer_next_index.set(i, next);
                        }
                        assert(self.role.peer_last_index@ =~= old(self).role.peer_last_index@.update(i as int, acked));
                        self.maybe_commit();
                        proof {
                            assert forall|j: int| is_first_peer(old(self).peers@, src@, j) implies j == i by {
                                if j < i {
                                    assert(old(self).peers@[j]@ != src@);
                                } else if j > i {
                                    assert(old(self).peers@[i as int]@ != src@);
                                }
                            }
                        }
                    }
                }
                Ok(())
            },
            Event::RejectEntries => {
                if let Address::Peer(src) = msg.src_addr {
                    if let Some(i) = self.peer_position(&src) {
                        let ghost prevn = self.role.peer_next_index@[i as int];
                        if self.role.peer_next_index[i] > 1 {
                            let next = self.role.peer_next_index[i] - 1;
                            self.role.peer_next_index.set(i, next);
                        }
                        assert(self.role.peer_next_index@ =~= old(self).role.peer_next_index@.update(i as int,
                            if prevn > 1 { (prevn - 1) as u64 } else { prevn }));
                        self.replicate(i);
                        proof {
                            assert forall|j: int| is_first_peer(old(self).peers@, src@, j) implies j == i by {
                                if j < i {
                                    assert(old(self).peers@[j]@ != src@);
                                } else if j > i {
                                    assert(old(self).peers@[i as int]@ != src@);
                                }
                            }
                        }
                    }
                }
                Ok(())
            },
            Event::ClientRequest { id, command } => {
                match self.append(Some(command)) {
                    Ok(index) => {
                        let ghost before = self.outbox@;
                        self.send(msg.src_addr, Event::ClientResponse { id, response: Ok(index) });
                        assert(self.outbox@.subrange(0, old(self).outbox@.len() as int) =~= before.subrange(0, old(self).outbox@.len() as int));
                        Ok(())
                    },
                    Err(e) => Err(e),
                }
            },
            Event::SolicitVote { .. } | Event::GrantVote | Event::Heartbeat { .. } | Event::ReplicateEntries { .. }
            | Event::ClientResponse { .. } => Ok(()),
        };
        proof {
            assert(self.outbox@.subrange(0, start as int) =~= old(self).outbox@);
        }
        r
    }

    /// The position of peer `id` among the peers.
    fn peer_position(&self, id: &String) -> (r: Option<usize>)
        ensures
            r matches Some(i) ==> is_first_peer(self.peers@, id@, i as int),
            r is None ==> forall|i: int| 0 <= i < self.peers@.len() ==> (#[trigger] self.peers@[i])@ != id@,
    {
        let mut i: usize = 0;
        while i < self.peers.len()
            invariant
                0 <= i <= self.peers@.len(),
                forall|j: int| 0 <= j < i ==> (#[trigger] self.peers@[j])@ != id@,
            decreases self.peers@.len() - i,
        {
            if self.peers[i] == *id {
                return Some(i);
            }
            i = i + 1;
        }
        None
    }
}

} // verus!
