use vstd::prelude::*;
use vstd::set_lib::*;

use crate::raft::message::Message;
use crate::raft::node::{keeps_laws, quorum_of, Node};

verus! {

/// The node `trace[i + 1]` follows from `trace[i]` by a step.
pub open spec fn is_step(trace: Seq<Node>, i: int) -> bool {
    keeps_laws(trace[i].term(), trace[i].vote(), trace[i].sent(), trace[i + 1])
}

/// Each node of `trace` follows from the one before by a step.
pub open spec fn is_trace(trace: Seq<Node>) -> bool {
    forall|i: int| 0 <= i < trace.len() - 1 ==> #[trigger] is_step(trace, i)
}

/// Whether the message at position `i` of `sent` grants a vote.
pub open spec fn is_grant(sent: Seq<Message>, i: int) -> bool {
    0 <= i < sent.len() && sent[i].event is GrantVote
}

/// Every vote the node has granted lies in a term no later than its own,
/// and one of its own term went to the node it recorded its vote for.
pub open spec fn votes_recorded(n: Node) -> bool {
    forall|i: int| #[trigger] is_grant(n.sent(), i) ==> n.sent()[i].term <= n.term()
        && (n.sent()[i].term == n.term() ==> n.sent()[i].dst_addr.peer_id() == n.vote() && n.vote() is Some)
}

/// Any two votes granted in one term went to the same node.
pub open spec fn one_vote_per_term(sent: Seq<Message>) -> bool {
    forall|i: int, j: int| #[trigger] is_grant(sent, i) && #[trigger] is_grant(sent, j) && sent[i].term == sent[j].term
        ==> sent[i].dst_addr.peer_id() == sent[j].dst_addr.peer_id()
}

/// One step keeps both facts about granted votes.
proof fn lemma_step_keeps_votes(n0: Node, n1: Node)
    requires
        keeps_laws(n0.term(), n0.vote(), n0.sent(), n1),
        votes_recorded(n0),
        one_vote_per_term(n0.sent()),
    ensures
        votes_recorded(n1),
        one_vote_per_term(n1.sent()),
{
    let s0 = n0.sent();
    let s1 = n1.sent();
    assert forall|i: int| 0 <= i < s0.len() implies s1[i] == s0[i] by {
        assert(s1.subrange(0, s0.len() as int)[i] == s1[i]);
    }
    assert forall|i: int| #[trigger] is_grant(s1, i) implies s1[i].term <= n1.term()
        && (s1[i].term == n1.term() ==> s1[i].dst_addr.peer_id() == n1.vote() && n1.vote() is Some) by {
        if i < s0.len() {
            assert(is_grant(s0, i));
        }
    }
    assert forall|i: int, j: int| #[trigger] is_grant(s1, i) && #[trigger] is_grant(s1, j) && s1[i].term == s1[j].term
        implies s1[i].dst_addr.peer_id() == s1[j].dst_addr.peer_id() by {
        if i < s0.len() {
            assert(is_grant(s0, i));
        }
        if j < s0.len() {
            assert(is_grant(s0, j));
        }
    }
}

/// Vote safety: along any sequence of steps from a node whose granted votes
/// are in order, the node grants at most one vote in each term: any two
/// votes it sent in the same term went to the same candidate.
pub proof fn lemma_vote_safety(trace: Seq<Node>)
    requires
        trace.len() > 0,
        is_trace(trace),
        votes_recorded(trace[0]),
        one_vote_per_term(trace[0].sent()),
    ensures
        one_vote_per_term(trace.last().sent()),
        votes_recorded(trace.last()),
    decreases trace.len(),
{
    if trace.len() > 1 {
        let prefix = trace.drop_last();
        assert forall|i: int| 0 <= i < prefix.len() - 1 implies #[trigger] is_step(prefix, i) by {
            assert(is_step(trace, i));
        }
        lemma_vote_safety(prefix);
        assert(is_step(trace, trace.len() - 2));
        lemma_step_keeps_votes(prefix.last(), trace.last());
    }
}

/// Term monotonicity: along any sequence of steps, a node's term never decreases.
pub proof fn lemma_term_monotonic(trace: Seq<Node>)
    requires
        is_trace(trace),
    ensures
        forall|i: int, j: int| 0 <= i <= j < trace.len() ==> #[trigger] trace[i].term() <= #[trigger] trace[j].term(),
    decreases trace.len(),
{
    if trace.len() > 1 {
        let prefix = trace.drop_last();
        assert forall|i: int| 0 <= i < prefix.len() - 1 implies #[trigger] is_step(prefix, i) by {
            assert(is_step(trace, i));
        }
        lemma_term_monotonic(prefix);
        assert(is_step(trace, trace.len() - 2));
        assert forall|i: int, j: int| 0 <= i <= j < trace.len() implies #[trigger] trace[i].term() <= #[trigger] trace[j].term() by {
            if j < trace.len() - 1 {
                assert(prefix[i] == trace[i] && prefix[j] == trace[j]);
            } else if i < j {
                assert(prefix[i] == trace[i] && prefix[j - 1] == trace[j - 1]);
            }
        }
    }
}

/// Election safety rests on this: two sets of nodes of one cluster that
/// each make a quorum share a node, so two candidates of one term cannot
/// both gather a quorum from nodes that vote once per term.
pub proof fn lemma_quorums_intersect(cluster: Set<Seq<char>>, a: Set<Seq<char>>, b: Set<Seq<char>>)
    requires
        cluster.finite(),
        a.subset_of(cluster),
        b.subset_of(cluster),
        a.len() >= quorum_of(cluster.len() as int),
        b.len() >= quorum_of(cluster.len() as int),
    ensures
        exists|x: Seq<char>| a.contains(x) && b.contains(x),
{
    lemma_len_subset(a, cluster);
    lemma_len_subset(b, cluster);
    lemma_len_subset(a.union(b), cluster);
    if forall|x: Seq<char>| !(a.contains(x) && b.contains(x)) {
        assert(a.disjoint(b));
        lemma_set_disjoint_lens(a, b);
    }
}

/// Election safety: where each node of a cluster votes at most once in a
/// term (`votes` maps a node to the candidate it voted for), two candidates
/// that each gathered the votes of a quorum are the same node.
pub proof fn lemma_election_safety(
    cluster: Set<Seq<char>>,
    votes: Map<Seq<char>, Seq<char>>,
    a: Seq<char>,
    voters_a: Set<Seq<char>>,
    b: Seq<char>,
    voters_b: Set<Seq<char>>,
)
    requires
        cluster.finite(),
        voters_a.subset_of(cluster),
        voters_b.subset_of(cluster),
        forall|x: Seq<char>| #[trigger] voters_a.contains(x) ==> votes.contains_key(x) && votes[x] == a,
        forall|x: Seq<char>| #[trigger] voters_b.contains(x) ==> votes.contains_key(x) && votes[x] == b,
        voters_a.len() >= quorum_of(cluster.len() as int),
        voters_b.len() >= quorum_of(cluster.len() as int),
    ensures
        a == b,
{
    lemma_quorums_intersect(cluster, voters_a, voters_b);
    let x = choose|x: Seq<char>| voters_a.contains(x) && voters_b.contains(x);
    assert(votes[x] == a && votes[x] == b);
}

} // verus!
