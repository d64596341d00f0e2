use toydb::error::Error;
use toydb::raft::{Address, Candidate, Entry, Event, Follower, Leader, Log, Message, Node, RoleNode};

fn s(x: &str) -> String {
    x.to_string()
}

fn peers(ids: &[&str]) -> Vec<String> {
    ids.iter().map(|i| s(i)).collect()
}

/// A node with the given role, at `term`, having voted for `vote`.
fn role_node<R>(id: &str, peer_ids: &[&str], term: u64, vote: Option<&str>, role: R) -> RoleNode<R> {
    let mut log = Log::new();
    log.save_term(term, vote.map(s));
    RoleNode {
        id: s(id),
        peers: peers(peer_ids),
        term,
        log,
        queued_reqs: Vec::new(),
        proxied_reqs: Vec::new(),
        outbox: Vec::new(),
        role,
    }
}

fn candidate(votes: u64, peer_ids: &[&str], term: u64) -> RoleNode<Candidate> {
    let mut c = Candidate::with_timeout(10);
    c.vote_count = votes;
    role_node("a", peer_ids, term, Some("a"), c)
}

fn msg(term: u64, from: &str, to: &str, event: Event) -> Message {
    Message { term, src_addr: Address::Peer(s(from)), dst_addr: Address::Peer(s(to)), event }
}

fn request(id: &[u8], command: &[u8]) -> Event {
    Event::ClientRequest { id: id.to_vec(), command: command.to_vec() }
}

fn commands(log: &Log) -> Vec<Option<Vec<u8>>> {
    log.entries.iter().map(|e| e.command.clone()).collect()
}

#[test]
fn quorum_of_five_node_cluster() {
    let c = candidate(1, &["b", "c", "d", "e"], 1);
    assert_eq!(c.quorum(), 3);
    let c = candidate(1, &[], 1);
    assert_eq!(c.quorum(), 1);
    let c = candidate(1, &["b"], 1);
    assert_eq!(c.quorum(), 2);
    let c = candidate(1, &["b", "c"], 1);
    assert_eq!(c.quorum(), 2);
}

#[test]
fn candidate_needs_exactly_one_more_vote() {
    let c = candidate(1, &["b", "c", "d", "e"], 1);
    let n = c.step(msg(1, "b", "a", Event::GrantVote)).unwrap();
    let c = match n {
        Node::Candidate(c) => c,
        _ => panic!("a second vote is not a quorum of five"),
    };
    assert_eq!(c.role.vote_count, 2);
    let n = c.step(msg(1, "c", "a", Event::GrantVote)).unwrap();
    match n {
        Node::Leader(l) => {
            assert_eq!(l.term, 1);
            assert_eq!(l.log.last_index, 1);
            assert_eq!(commands(&l.log), vec![None]);
            assert!(matches!(l.outbox[0].dst_addr, Address::Peers));
            assert!(matches!(l.outbox[0].event, Event::Heartbeat { commit_index: 0, commit_term: 0 }));
        },
        _ => panic!("three votes of five make a leader"),
    }
}

#[test]
fn queued_requests_replay_in_order() {
    let mut c = candidate(1, &["b", "c"], 2);
    for (id, cmd) in [(b"1", b"A"), (b"2", b"B"), (b"3", b"C")] {
        let m = Message { term: 0, src_addr: Address::Client, dst_addr: Address::Local, event: request(id, cmd) };
        c = match c.step(m).unwrap() {
            Node::Candidate(c) => c,
            _ => panic!("a request does not change the role"),
        };
    }
    assert_eq!(c.queued_reqs.len(), 3);
    match c.step(msg(2, "b", "a", Event::GrantVote)).unwrap() {
        Node::Leader(l) => {
            assert!(l.queued_reqs.is_empty());
            assert_eq!(commands(&l.log), vec![None, Some(b"A".to_vec()), Some(b"B".to_vec()), Some(b"C".to_vec())]);
            assert!(l.log.entries.iter().all(|e| e.term == 2));
            let responses: Vec<(Vec<u8>, u64)> = l
                .outbox
                .iter()
                .filter_map(|m| match &m.event {
                    Event::ClientResponse { id, response: Ok(index) } => Some((id.clone(), *index)),
                    _ => None,
                })
                .collect();
            assert_eq!(responses, vec![(b"1".to_vec(), 2), (b"2".to_vec(), 3), (b"3".to_vec(), 4)]);
        },
        _ => panic!("two votes of three make a leader"),
    }
}

#[test]
fn higher_term_grant_turns_leader_into_follower() {
    let l = role_node("a", &["b", "c"], 3, Some("a"), Leader::new(&peers(&["b", "c"]), 0));
    match l.step(msg(5, "b", "a", Event::GrantVote)).unwrap() {
        Node::Follower(f) => {
            assert_eq!(f.term, 5);
            assert_eq!(f.log.term, 5);
            assert_eq!(f.log.voted_for, None);
            assert_eq!(f.role.leader, Some(s("b")));
        },
        _ => panic!("a later term makes the node a follower"),
    }
}

#[test]
fn higher_term_grant_turns_candidate_into_follower() {
    let c = candidate(1, &["b", "c"], 3);
    match c.step(msg(4, "c", "a", Event::GrantVote)).unwrap() {
        Node::Follower(f) => {
            assert_eq!(f.term, 4);
            assert_eq!(f.role.leader, Some(s("c")));
        },
        _ => panic!("a later term makes the node a follower"),
    }
}

#[test]
fn heartbeat_of_same_term_makes_candidate_follow() {
    let mut c = candidate(1, &["b", "c"], 3);
    c.queued_reqs.push((Address::Client, request(b"9", b"X")));
    match c.step(msg(3, "b", "a", Event::Heartbeat { commit_index: 0, commit_term: 0 })).unwrap() {
        Node::Follower(f) => {
            assert_eq!(f.term, 3);
            // The vote of the term stays.
            assert_eq!(f.log.voted_for, Some(s("a")));
            assert_eq!(f.role.leader, Some(s("b")));
            assert!(f.queued_reqs.is_empty());
            assert_eq!(f.proxied_reqs.len(), 1);
            assert!(f.outbox.iter().any(|m| matches!(&m.dst_addr, Address::Peer(p) if p == "b")
                && matches!(&m.event, Event::ClientRequest { command, .. } if command == b"X")));
        },
        _ => panic!("a leader of the term makes the candidate follow"),
    }
}

#[test]
fn stale_message_is_dropped() {
    let c = candidate(1, &["b", "c"], 3);
    match c.step(msg(2, "b", "a", Event::GrantVote)).unwrap() {
        Node::Candidate(c) => {
            assert_eq!(c.term, 3);
            assert_eq!(c.role.vote_count, 1);
        },
        _ => panic!("a stale message changes nothing"),
    }
}

#[test]
fn message_for_another_node_is_dropped() {
    let c = candidate(1, &["b", "c"], 3);
    match c.step(msg(3, "b", "c", Event::GrantVote)).unwrap() {
        Node::Candidate(c) => assert_eq!(c.role.vote_count, 1),
        _ => panic!("a message for another node changes nothing"),
    }
}

#[test]
fn candidate_ignores_solicit_vote() {
    let c = candidate(1, &["b", "c"], 3);
    match c.step(msg(3, "b", "a", Event::SolicitVote { last_log_index: 9, last_log_term: 3 })).unwrap() {
        Node::Candidate(c) => assert!(c.outbox.is_empty()),
        _ => panic!("a candidate keeps campaigning"),
    }
}

fn follower(term: u64, vote: Option<&str>) -> RoleNode<Follower> {
    role_node("a", &["b", "c"], term, vote, Follower::new(None))
}

fn grants(n: &Node) -> Vec<(String, u64)> {
    let out = match n {
        Node::Follower(f) => &f.outbox,
        Node::Candidate(c) => &c.outbox,
        Node::Leader(l) => &l.outbox,
    };
    out.iter()
        .filter_map(|m| match (&m.event, &m.dst_addr) {
            (Event::GrantVote, Address::Peer(p)) => Some((p.clone(), m.term)),
            _ => None,
        })
        .collect()
}

#[test]
fn follower_votes_once_per_term() {
    let f = follower(1, None);
    let n = f.step(msg(2, "b", "a", Event::SolicitVote { last_log_index: 0, last_log_term: 0 })).unwrap();
    assert_eq!(grants(&n), vec![(s("b"), 2)]);
    let f = match n {
        Node::Follower(f) => f,
        _ => panic!("a follower stays a follower"),
    };
    assert_eq!(f.log.voted_for, Some(s("b")));
    let n = f.step(msg(2, "c", "a", Event::SolicitVote { last_log_index: 0, last_log_term: 0 })).unwrap();
    assert_eq!(grants(&n), vec![(s("b"), 2)]);
    // The same candidate may ask again.
    let f = match n {
        Node::Follower(f) => f,
        _ => panic!("a follower stays a follower"),
    };
    let n = f.step(msg(2, "b", "a", Event::SolicitVote { last_log_index: 0, last_log_term: 0 })).unwrap();
    assert_eq!(grants(&n), vec![(s("b"), 2), (s("b"), 2)]);
    // A later term frees the vote.
    let f = match n {
        Node::Follower(f) => f,
        _ => panic!("a follower stays a follower"),
    };
    let n = f.step(msg(3, "c", "a", Event::SolicitVote { last_log_index: 0, last_log_term: 0 })).unwrap();
    assert_eq!(grants(&n), vec![(s("b"), 2), (s("b"), 2), (s("c"), 3)]);
}

#[test]
fn follower_refuses_candidate_with_older_log() {
    let mut f = follower(2, None);
    f.log.append(2, Some(b"x".to_vec())).unwrap();
    let n = f.step(msg(2, "b", "a", Event::SolicitVote { last_log_index: 5, last_log_term: 1 })).unwrap();
    assert!(grants(&n).is_empty());
    let f = match n {
        Node::Follower(f) => f,
        _ => panic!("a follower stays a follower"),
    };
    assert_eq!(f.log.voted_for, None);
    let n = f.step(msg(2, "b", "a", Event::SolicitVote { last_log_index: 1, last_log_term: 2 })).unwrap();
    assert_eq!(grants(&n), vec![(s("b"), 2)]);
}

fn entry(term: u64, cmd: &[u8]) -> Entry {
    Entry { term, command: Some(cmd.to_vec()) }
}

#[test]
fn follower_accepts_and_rejects_entries() {
    let f = follower(1, None);
    let m = msg(1, "b", "a", Event::ReplicateEntries { base_index: 0, base_term: 0, entries: vec![entry(1, b"x"), entry(1, b"y")] });
    let f = match f.step(m).unwrap() {
        Node::Follower(f) => f,
        _ => panic!("a follower stays a follower"),
    };
    assert_eq!(f.role.leader, Some(s("b")));
    assert_eq!(f.log.last_index, 2);
    assert!(matches!(f.outbox.last().unwrap().event, Event::AcceptEntries { last_index: 2 }));
    // A base the log does not hold is rejected.
    let m = msg(1, "b", "a", Event::ReplicateEntries { base_index: 2, base_term: 7, entries: vec![entry(1, b"z")] });
    let f = match f.step(m).unwrap() {
        Node::Follower(f) => f,
        _ => panic!("a follower stays a follower"),
    };
    assert_eq!(f.log.last_index, 2);
    assert!(matches!(f.outbox.last().unwrap().event, Event::RejectEntries));
    // A conflicting suffix is replaced.
    let m = msg(1, "b", "a", Event::ReplicateEntries { base_index: 1, base_term: 1, entries: vec![entry(1, b"w")] });
    let f = match f.step(m).unwrap() {
        Node::Follower(f) => f,
        _ => panic!("a follower stays a follower"),
    };
    assert_eq!(commands(&f.log), vec![Some(b"x".to_vec()), Some(b"y".to_vec())]);
    let mut f = f;
    f.log.entries[1] = entry(1, b"y");
    let m = msg(2, "c", "a", Event::ReplicateEntries { base_index: 1, base_term: 1, entries: vec![entry(2, b"v")] });
    let f = match f.step(m).unwrap() {
        Node::Follower(f) => f,
        _ => panic!("a follower stays a follower"),
    };
    assert_eq!(f.term, 2);
    assert_eq!(commands(&f.log), vec![Some(b"x".to_vec()), Some(b"v".to_vec())]);
    assert_eq!(f.log.last_term, 2);
    // A heartbeat commits what the log holds.
    let m = msg(2, "c", "a", Event::Heartbeat { commit_index: 2, commit_term: 2 });
    let f = match f.step(m).unwrap() {
        Node::Follower(f) => f,
        _ => panic!("a follower stays a follower"),
    };
    assert_eq!(f.log.commit_index, 2);
    assert_eq!(f.log.commit_term, 2);
}

#[test]
fn splice_keeps_agreeing_entries() {
    let mut log = Log::new();
    log.append(1, Some(b"a".to_vec())).unwrap();
    log.append(1, Some(b"b".to_vec())).unwrap();
    log.append(1, Some(b"c".to_vec())).unwrap();
    assert!(log.splice(0, vec![entry(1, b"a")]));
    assert_eq!(log.last_index, 3);
    log.commit(2);
    // Replacing a committed entry is refused.
    assert!(!log.splice(0, vec![entry(2, b"q")]));
    assert_eq!(log.last_index, 3);
    assert!(log.splice(2, vec![entry(2, b"d")]));
    assert_eq!(commands(&log), vec![Some(b"a".to_vec()), Some(b"b".to_vec()), Some(b"d".to_vec())]);
    assert_eq!(log.get_term(3), Some(2));
    assert_eq!(log.get_term(4), None);
    assert!(log.has(0, 0));
    assert!(log.has(3, 2));
    assert!(!log.has(3, 1));
}

#[test]
fn leader_commits_on_quorum() {
    let mut l = role_node("a", &["b", "c", "d", "e"], 1, Some("a"), Leader::new(&peers(&["b", "c", "d", "e"]), 0));
    l.append(None).unwrap();
    l.append(Some(b"x".to_vec())).unwrap();
    let n = l.step(msg(1, "b", "a", Event::AcceptEntries { last_index: 2 })).unwrap();
    let l = match n {
        Node::Leader(l) => l,
        _ => panic!("a leader stays a leader"),
    };
    assert_eq!(l.log.commit_index, 0);
    let n = l.step(msg(1, "c", "a", Event::AcceptEntries { last_index: 1 })).unwrap();
    let l = match n {
        Node::Leader(l) => l,
        _ => panic!("a leader stays a leader"),
    };
    assert_eq!(l.log.commit_index, 1);
    let n = l.step(msg(1, "d", "a", Event::AcceptEntries { last_index: 2 })).unwrap();
    let l = match n {
        Node::Leader(l) => l,
        _ => panic!("a leader stays a leader"),
    };
    assert_eq!(l.log.commit_index, 2);
    assert_eq!(l.log.commit_term, 1);
}

#[test]
fn leader_backs_off_on_reject() {
    let mut l = role_node("a", &["b"], 1, Some("a"), Leader::new(&peers(&["b"]), 0));
    l.append(Some(b"x".to_vec())).unwrap();
    l.append(Some(b"y".to_vec())).unwrap();
    assert_eq!(l.role.peer_next_index, vec![1]);
    let n = l.step(msg(1, "b", "a", Event::AcceptEntries { last_index: 2 })).unwrap();
    let mut l = match n {
        Node::Leader(l) => l,
        _ => panic!("a leader stays a leader"),
    };
    assert_eq!(l.role.peer_next_index, vec![3]);
    assert_eq!(l.role.peer_last_index, vec![2]);
    l.outbox.clear();
    let n = l.step(msg(1, "b", "a", Event::RejectEntries)).unwrap();
    let l = match n {
        Node::Leader(l) => l,
        _ => panic!("a leader stays a leader"),
    };
    assert_eq!(l.role.peer_next_index, vec![2]);
    match &l.outbox[0].event {
        Event::ReplicateEntries { base_index, base_term, entries } => {
            assert_eq!(*base_index, 1);
            assert_eq!(*base_term, 1);
            assert_eq!(entries.len(), 1);
            assert_eq!(entries[0].command, Some(b"y".to_vec()));
        },
        _ => panic!("a rejection is answered with entries"),
    }
}

#[test]
fn leader_answers_client_request() {
    let l = role_node("a", &["b"], 1, Some("a"), Leader::new(&peers(&["b"]), 0));
    let m = Message { term: 0, src_addr: Address::Client, dst_addr: Address::Local, event: request(b"7", b"put") };
    match l.step(m).unwrap() {
        Node::Leader(l) => {
            assert_eq!(commands(&l.log), vec![Some(b"put".to_vec())]);
            let last = l.outbox.last().unwrap();
            assert!(matches!(last.dst_addr, Address::Client));
            assert!(matches!(&last.event, Event::ClientResponse { id, response: Ok(1) } if id == b"7"));
        },
        _ => panic!("a leader stays a leader"),
    }
}

#[test]
fn full_log_fails_the_request() {
    let mut l = role_node("a", &["b"], 1, Some("a"), Leader::new(&peers(&["b"]), 0));
    l.log.last_index = u64::MAX;
    let m = Message { term: 0, src_addr: Address::Client, dst_addr: Address::Local, event: request(b"7", b"put") };
    assert!(matches!(l.step(m), Err(Error::LogFull)));
}

#[test]
fn follower_forwards_and_relays_requests() {
    let mut f = follower(1, None);
    f.role.leader = Some(s("b"));
    let m = Message { term: 0, src_addr: Address::Client, dst_addr: Address::Local, event: request(b"5", b"get") };
    let f = match f.step(m).unwrap() {
        Node::Follower(f) => f,
        _ => panic!("a follower stays a follower"),
    };
    assert_eq!(f.proxied_reqs.len(), 1);
    assert!(matches!(&f.outbox[0].dst_addr, Address::Peer(p) if p == "b"));
    let m = msg(1, "b", "a", Event::ClientResponse { id: b"5".to_vec(), response: Ok(4) });
    let f = match f.step(m).unwrap() {
        Node::Follower(f) => f,
        _ => panic!("a follower stays a follower"),
    };
    assert!(f.proxied_reqs.is_empty());
    assert!(matches!(f.outbox[1].dst_addr, Address::Client));
    assert!(matches!(&f.outbox[1].event, Event::ClientResponse { response: Ok(4), .. }));
}

#[test]
fn leaving_leadership_aborts_proxied_requests() {
    let mut l = role_node("a", &["b"], 1, Some("a"), Leader::new(&peers(&["b"]), 0));
    l.proxied_reqs.push((b"5".to_vec(), Address::Client));
    match l.step(msg(2, "b", "a", Event::Heartbeat { commit_index: 0, commit_term: 0 })).unwrap() {
        Node::Follower(f) => {
            assert!(f.proxied_reqs.is_empty());
            assert!(f.outbox.iter().any(|m| matches!(m.dst_addr, Address::Client)
                && matches!(&m.event, Event::ClientResponse { id, response: Err(Error::Abort) } if id == b"5")));
        },
        _ => panic!("a later term makes the node a follower"),
    }
}

#[test]
fn election_starts_after_timeout() {
    let mut n = Node::new(s("a"), peers(&["b", "c"]), Log::new());
    for _ in 0..15 {
        n = n.tick().unwrap();
    }
    match &n {
        Node::Candidate(c) => {
            assert_eq!(c.term, 1);
            assert_eq!(c.log.voted_for, Some(s("a")));
            assert_eq!(c.role.vote_count, 1);
            assert!(c.outbox.iter().any(|m| matches!(m.dst_addr, Address::Peers)
                && matches!(m.event, Event::SolicitVote { last_log_index: 0, last_log_term: 0 })));
        },
        _ => panic!("a follower without a leader campaigns"),
    }
    let sent = n.take_messages();
    assert!(!sent.is_empty());
    assert!(n.take_messages().is_empty());
}

#[test]
fn single_node_leads_at_once() {
    let mut n = Node::new(s("a"), Vec::new(), Log::new());
    for _ in 0..15 {
        n = n.tick().unwrap();
    }
    match n {
        Node::Leader(l) => {
            assert_eq!(l.term, 1);
            assert_eq!(l.log.last_index, 1);
        },
        _ => panic!("a node without peers leads"),
    }
}

#[test]
fn candidate_restarts_election_after_timeout() {
    let c = candidate(1, &["b", "c"], 3);
    let mut n = Node::Candidate(c);
    for _ in 0..10 {
        n = n.tick().unwrap();
    }
    assert!(matches!(&n, Node::Candidate(c) if c.term == 4 && c.role.vote_count == 1));
}

#[test]
fn leader_sends_heartbeats() {
    let l = role_node("a", &["b"], 1, Some("a"), Leader::new(&peers(&["b"]), 0));
    let mut n = Node::Leader(l);
    for _ in 0..3 {
        n = n.tick().unwrap();
    }
    let sent = n.take_messages();
    assert_eq!(sent.len(), 1);
    assert!(matches!(sent[0].event, Event::Heartbeat { commit_index: 0, commit_term: 0 }));
}

#[test]
fn random_timeouts_lie_in_range() {
    let drawn: Vec<u64> = (0..64).map(|_| Candidate::new().election_timeout).collect();
    assert!(drawn.iter().any(|t| *t != drawn[0]));
    for _ in 0..50 {
        let c = Candidate::new();
        assert!((8..=15).contains(&c.election_timeout));
        assert_eq!(c.vote_count, 1);
        let f = Follower::new(None);
        assert!((8..=15).contains(&f.leader_seen_timeout));
    }
}

#[test]
fn log_keeps_term_and_vote() {
    let mut log = Log::new();
    assert_eq!(log.load_term(), (0, None));
    log.save_term(4, Some(s("b")));
    assert_eq!(log.load_term(), (4, Some(s("b"))));
    log.append(4, Some(b"x".to_vec())).unwrap();
    log.append(4, None).unwrap();
    let tail = log.entries_from(2);
    assert_eq!(tail.len(), 1);
    assert_eq!(tail[0].command, None);
    assert_eq!(log.entries_from(3).len(), 0);
    assert_eq!(log.entries_from(1).len(), 2);
}

#[test]
fn duplicated_grant_counts_once() {
    let c = candidate(1, &["b", "c", "d", "e"], 1);
    let c = match c.step(msg(1, "b", "a", Event::GrantVote)).unwrap() {
        Node::Candidate(c) => c,
        _ => panic!("two votes of five are no quorum"),
    };
    let c = match c.step(msg(1, "b", "a", Event::GrantVote)).unwrap() {
        Node::Candidate(c) => c,
        _ => panic!("a repeated vote is no quorum"),
    };
    assert_eq!(c.role.vote_count, 2);
    assert_eq!(c.role.voters, vec![s("b")]);
    assert!(matches!(c.step(msg(1, "c", "a", Event::GrantVote)).unwrap(), Node::Leader(_)));
}
