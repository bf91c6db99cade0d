use rand_chacha::rand_core::SeedableRng;
use raft_consensus::rpc_messages::{
    AppendEntries, AppendEntriesReply, LogEntry, ReplyTo, Request, RequestVote, RpcMessage, Vote,
};
use raft_consensus::state_machine::{Action, Event, Node, Role, StartTickTimer};
use raft_consensus::{
    Duration, Instant, LogIndex, LogRange, PersistentStorage, RaftConfig, RaftNodeState, RequestId,
    ServerId, TermIndex,
};

fn config() -> RaftConfig {
    RaftConfig::new(Duration(50), Duration(150), Duration(300)).unwrap()
}

fn entry(term: u64) -> LogEntry {
    LogEntry { term: TermIndex(term), command: vec![term as u8] }
}

fn store(term: u64, terms: &[u64]) -> PersistentStorage {
    let mut log = Vec::new();
    for t in terms {
        log.push(entry(*t));
    }
    PersistentStorage::restore(TermIndex(term), None, log).unwrap()
}

fn follower(id: u64, peers: &[u64], timeout: u64) -> Node {
    let peers = peers.iter().map(|p| ServerId(*p)).collect();
    let (node, timer) = Node::with_timeout(ServerId(id), peers, Instant(0), Duration(timeout));
    assert_eq!(timer, StartTickTimer(Duration(timeout)));
    node
}

fn step(
    node: Node,
    event: Event,
    storage: &mut PersistentStorage,
    timeout: u64) -> (Node, Vec<Action>,
) {
    let config = config();
    assert!(node.can_step(&event, storage, &config));
    node.step(event, storage, &config, Duration(timeout))
}

// The token that a node's first election gives the request to `from`, when its
// peers are all the identifiers below and above its own, in order.
fn first_token(from: u64, to: u64) -> u64 {
    if from > to {
        from - 1
    } else {
        from
    }
}

fn vote(from: u64, to: u64, term: u64, granted: bool) -> Event {
    vote_for_request(from, to, term, granted, first_token(from, to))
}

fn vote_for_request(from: u64, to: u64, term: u64, granted: bool, request: u64) -> Event {
    Event::IncomingRpc(RpcMessage::Reply(ReplyTo::RequestVote(Vote {
        request_id: RequestId(request),
        from: ServerId(from),
        to: ServerId(to),
        term: TermIndex(term),
        vote_granted: granted,
    })))
}

fn append(
    from: u64,
    to: u64,
    term: u64,
    prev: u64,
    prev_term: u64,
    terms: &[u64],
    commit: u64,
) -> Event {
    Event::IncomingRpc(RpcMessage::Request(Request::AppendEntries(AppendEntries {
        request_id: RequestId(77),
        from: ServerId(from),
        to: ServerId(to),
        term: TermIndex(term),
        prev_log_index: LogIndex(prev),
        prev_log_term: TermIndex(prev_term),
        entries: terms.iter().map(|t| entry(*t)).collect(),
        leader_commit: LogIndex(commit),
    })))
}

// An answer to the heartbeat that a leader of three sent on taking office
// after its first election.
fn append_reply(from: u64, to: u64, term: u64, success: bool, match_index: u64) -> Event {
    append_reply_to(from, to, term, success, match_index, 2 + first_token(from, to))
}

fn append_reply_to(
    from: u64,
    to: u64,
    term: u64,
    success: bool,
    match_index: u64,
    request: u64,
) -> Event {
    Event::IncomingRpc(RpcMessage::Reply(ReplyTo::AppendEntries(AppendEntriesReply {
        request_id: RequestId(request),
        from: ServerId(from),
        to: ServerId(to),
        term: TermIndex(term),
        success,
        match_index: LogIndex(match_index),
    })))
}

fn ae_reply(action: &Action) -> AppendEntriesReply {
    match action {
        Action::OutgoingRpc(RpcMessage::Reply(ReplyTo::AppendEntries(r))) => *r,
        other => panic!("expected an AppendEntries reply, got {:?}", other),
    }
}

fn leader_of(id: u64, peers: &[u64], storage: &mut PersistentStorage) -> Node {
    let node = follower(id, peers, 200);
    let (mut node, _) = step(node, Event::Tick(Instant(200)), storage, 200);
    let term = storage.current_term().0;
    let need = (peers.len() + 1) / 2;
    for p in peers.iter().take(need) {
        let (n, _) = step(node, vote(*p, id, term, true), storage, 200);
        node = n;
    }
    assert_eq!(node.state(), RaftNodeState::Leader);
    node
}

#[test]
fn new_node_is_a_follower_without_leader() {
    let node = follower(0, &[1, 2], 200);
    assert_eq!(node.id(), ServerId(0));
    assert_eq!(node.peers(), &vec![ServerId(1), ServerId(2)]);
    assert_eq!(node.state(), RaftNodeState::Follower);
    assert_eq!(node.leader_for_term(), None);
    assert_eq!(node.commit_index(), LogIndex(0));
    assert_eq!(node.last_applied(), LogIndex(0));
    match node.role() {
        Role::Follower(f) => assert_eq!(f.election_deadline, Instant(200)),
        other => panic!("expected a follower, got {:?}", other),
    }
}

#[test]
fn follower_ticks_until_its_deadline_then_stands() {
    let mut storage = PersistentStorage::new();
    let node = follower(0, &[1, 2], 200);
    let (node, actions) = step(node, Event::Tick(Instant(150)), &mut storage, 250);
    assert_eq!(actions, vec![Action::StartTickTimer(Duration(50))]);
    assert_eq!(node.state(), RaftNodeState::Follower);
    assert_eq!(storage.current_term(), TermIndex(0));

    let (node, actions) = step(node, Event::Tick(Instant(200)), &mut storage, 250);
    assert_eq!(node.state(), RaftNodeState::Candidate);
    assert_eq!(storage.current_term(), TermIndex(1));
    assert_eq!(storage.voted_for(), Some((TermIndex(1), ServerId(0))));
    let request = |k: u64, to: u64| {
        Action::OutgoingRpc(RpcMessage::Request(Request::RequestVote(RequestVote {
            request_id: RequestId(k),
            from: ServerId(0),
            to: ServerId(to),
            term: TermIndex(1),
            last_log_index: LogIndex(0),
            last_log_term: TermIndex(0),
        })))
    };
    assert_eq!(actions, vec![request(0, 1), request(1, 2), Action::StartTickTimer(Duration(250))]);
    match node.role() {
        Role::Candidate(c) => {
            assert_eq!(c.election_deadline, Instant(450));
            assert_eq!(c.votes, vec![ServerId(0)]);
            assert_eq!(c.first_request, RequestId(0));
        }
        other => panic!("expected a candidate, got {:?}", other),
    }
}

#[test]
fn clock_going_backwards_counts_as_no_time() {
    let mut storage = PersistentStorage::new();
    let node = follower(0, &[1], 200);
    let (node, _) = step(node, Event::Tick(Instant(150)), &mut storage, 250);
    let (node, actions) = step(node, Event::Tick(Instant(100)), &mut storage, 250);
    assert_eq!(actions, vec![Action::StartTickTimer(Duration(50))]);
    assert_eq!(node.state(), RaftNodeState::Follower);
}

#[test]
fn candidate_starts_over_when_its_deadline_passes() {
    let mut storage = PersistentStorage::new();
    let node = follower(0, &[1, 2], 200);
    let (node, _) = step(node, Event::Tick(Instant(200)), &mut storage, 150);
    let (node, actions) = step(node, Event::Tick(Instant(300)), &mut storage, 150);
    assert_eq!(actions, vec![Action::StartTickTimer(Duration(50))]);
    assert_eq!(storage.current_term(), TermIndex(1));
    let (node, actions) = step(node, Event::Tick(Instant(350)), &mut storage, 160);
    assert_eq!(node.state(), RaftNodeState::Candidate);
    assert_eq!(storage.current_term(), TermIndex(2));
    assert_eq!(storage.voted_for(), Some((TermIndex(2), ServerId(0))));
    assert_eq!(actions.len(), 3);
    assert_eq!(actions[2], Action::StartTickTimer(Duration(160)));
    match &actions[0] {
        Action::OutgoingRpc(RpcMessage::Request(Request::RequestVote(rv))) => {
            assert_eq!(rv.term, TermIndex(2));
            assert_eq!(rv.request_id, RequestId(2));
        }
        other => panic!("expected a vote request, got {:?}", other),
    }
}

#[test]
fn vote_is_denied_to_a_candidate_with_a_staler_log() {
    // A holds terms [1, 1, 2]; B holds [1, 1] and stands in term 3.
    let mut a_store = store(2, &[1, 1, 2]);
    let mut b_store = store(2, &[1, 1]);
    let a = follower(0, &[1], 200);
    let b = follower(1, &[0], 150);
    let (b, b_actions) = step(b, Event::Tick(Instant(150)), &mut b_store, 150);
    assert_eq!(b_store.current_term(), TermIndex(3));
    let request = match &b_actions[0] {
        Action::OutgoingRpc(m) => m.clone(),
        other => panic!("expected a message, got {:?}", other),
    };
    assert_eq!(
        request,
        RpcMessage::Request(Request::RequestVote(RequestVote {
            request_id: RequestId(0),
            from: ServerId(1),
            to: ServerId(0),
            term: TermIndex(3),
            last_log_index: LogIndex(2),
            last_log_term: TermIndex(1),
        }))
    );
    let (a, a_actions) = step(a, Event::IncomingRpc(request), &mut a_store, 200);
    assert_eq!(
        a_actions,
        vec![Action::OutgoingRpc(RpcMessage::Reply(ReplyTo::RequestVote(Vote {
            request_id: RequestId(0),
            from: ServerId(0),
            to: ServerId(1),
            term: TermIndex(3),
            vote_granted: false,
        })))]
    );
    assert_eq!(a_store.current_term(), TermIndex(3));
    assert_eq!(a_store.voted_for(), None);
    assert_eq!(a.state(), RaftNodeState::Follower);
    let (b, b_actions) = step(b, vote(0, 1, 3, false), &mut b_store, 150);
    assert_eq!(b.state(), RaftNodeState::Candidate);
    assert_eq!(b_actions, vec![]);
}

#[test]
fn vote_is_granted_once_per_term() {
    let mut storage = store(1, &[1]);
    let node = follower(0, &[1, 2], 200);
    let ask = |from: u64, index: u64, term: u64| {
        Event::IncomingRpc(RpcMessage::Request(Request::RequestVote(RequestVote {
            request_id: RequestId(5),
            from: ServerId(from),
            to: ServerId(0),
            term: TermIndex(2),
            last_log_index: LogIndex(index),
            last_log_term: TermIndex(term),
        })))
    };
    let granted = |actions: &Vec<Action>| match &actions[0] {
        Action::OutgoingRpc(RpcMessage::Reply(ReplyTo::RequestVote(v))) => v.vote_granted,
        other => panic!("expected a vote, got {:?}", other),
    };
    let (node, _) = step(node, Event::Tick(Instant(10)), &mut storage, 200);
    // equal last term, shorter log: denied
    let (node, actions) = step(node, ask(1, 0, 1), &mut storage, 170);
    assert!(!granted(&actions));
    assert_eq!(actions.len(), 1);
    assert_eq!(storage.voted_for(), None);
    // equal last term, equal length: granted, deadline moves
    let (node, actions) = step(node, ask(1, 1, 1), &mut storage, 170);
    assert!(granted(&actions));
    assert_eq!(actions[1], Action::StartTickTimer(Duration(170)));
    assert_eq!(storage.voted_for(), Some((TermIndex(2), ServerId(1))));
    match node.role() {
        Role::Follower(f) => assert_eq!(f.election_deadline, Instant(180)),
        other => panic!("expected a follower, got {:?}", other),
    }
    // same candidate again: granted again; another candidate: denied
    let (node, actions) = step(node, ask(1, 1, 1), &mut storage, 170);
    assert!(granted(&actions));
    let (_, actions) = step(node, ask(2, 5, 9), &mut storage, 170);
    assert!(!granted(&actions));
    assert_eq!(storage.voted_for(), Some((TermIndex(2), ServerId(1))));
}

#[test]
fn candidate_counts_each_voter_once_and_leads_with_a_majority() {
    let mut storage = store(0, &[]);
    let node = follower(0, &[1, 2, 3, 4], 200);
    let (node, _) = step(node, Event::Tick(Instant(200)), &mut storage, 200);
    let (node, actions) = step(node, vote(1, 0, 1, true), &mut storage, 200);
    assert_eq!(actions, vec![]);
    let (node, _) = step(node, vote(1, 0, 1, true), &mut storage, 200);
    assert_eq!(node.state(), RaftNodeState::Candidate);
    let (node, _) = step(node, vote(2, 0, 1, false), &mut storage, 200);
    assert_eq!(node.state(), RaftNodeState::Candidate);
    let (node, _) = step(node, vote(9, 0, 1, true), &mut storage, 200);
    assert_eq!(node.state(), RaftNodeState::Candidate);
    let (node, _) = step(node, vote(3, 0, 0, true), &mut storage, 200);
    assert_eq!(node.state(), RaftNodeState::Candidate);
    let (node, actions) = step(node, vote(3, 0, 1, true), &mut storage, 200);
    assert_eq!(node.state(), RaftNodeState::Leader);
    assert_eq!(node.leader_for_term(), Some(ServerId(0)));
    assert_eq!(actions.len(), 5);
    assert_eq!(actions[4], Action::StartTickTimer(Duration(50)));
    match &actions[1] {
        Action::OutgoingRpc(RpcMessage::Request(Request::AppendEntries(ae))) => {
            assert_eq!(ae.to, ServerId(2));
            assert_eq!(ae.term, TermIndex(1));
            assert_eq!(ae.prev_log_index, LogIndex(0));
            assert_eq!(ae.prev_log_term, TermIndex(0));
            assert_eq!(ae.entries, vec![]);
            assert_eq!(ae.leader_commit, LogIndex(0));
            assert_eq!(ae.request_id, RequestId(5));
        }
        other => panic!("expected a heartbeat, got {:?}", other),
    }
    match node.role() {
        Role::Leader(l) => {
            assert_eq!(l.next_index, vec![LogIndex(1); 4]);
            assert_eq!(l.match_index, vec![LogIndex(0); 4]);
            assert_eq!(l.heartbeat_deadline, Instant(250));
            assert_eq!(l.first_request, RequestId(4));
        }
        other => panic!("expected a leader, got {:?}", other),
    }
}

#[test]
fn candidate_drops_a_vote_that_answers_no_request_of_its_election() {
    let mut storage = store(0, &[]);
    let node = follower(0, &[1, 2], 200);
    let (node, _) = step(node, Event::Tick(Instant(200)), &mut storage, 200);
    // the request to peer 2 has token 1
    let before = node.clone();
    let (node, actions) = step(node, vote_for_request(2, 0, 1, true, 0), &mut storage, 200);
    assert_eq!(node, before);
    assert_eq!(actions, vec![]);
    let (node, _) = step(node, vote_for_request(2, 0, 1, true, 7), &mut storage, 200);
    assert_eq!(node, before);
    let (node, _) = step(node, vote_for_request(2, 0, 1, true, 1), &mut storage, 200);
    assert_eq!(node.state(), RaftNodeState::Leader);
}

#[test]
fn leader_drops_an_answer_to_no_request_of_its_leadership() {
    let mut storage = store(4, &[3, 5]);
    let leader = leader_of(0, &[1, 2], &mut storage);
    let before = leader.clone();
    // tokens 0 and 1 went out with the election, 2 and 3 with the first heartbeat
    let (leader, actions) = step(leader, append_reply_to(1, 0, 5, true, 2, 1), &mut storage, 200);
    assert_eq!(leader, before);
    assert_eq!(actions, vec![]);
    let (leader, _) = step(leader, append_reply_to(1, 0, 5, true, 2, 4), &mut storage, 200);
    assert_eq!(leader, before);
    let (leader, _) = step(leader, append_reply_to(1, 0, 5, false, 0, 99), &mut storage, 200);
    assert_eq!(leader, before);
    let (leader, _) = step(leader, append_reply_to(1, 0, 5, true, 2, 3), &mut storage, 200);
    assert_eq!(leader.commit_index(), LogIndex(2));
}

#[test]
fn stale_leader_steps_down_on_a_higher_term() {
    let mut storage = store(1, &[]);
    let leader = leader_of(0, &[1, 2], &mut storage);
    assert_eq!(storage.current_term(), TermIndex(2));
    assert_eq!(storage.voted_for(), Some((TermIndex(2), ServerId(0))));
    let (node, actions) = step(leader, append(1, 0, 3, 0, 0, &[], 0), &mut storage, 180);
    assert_eq!(storage.current_term(), TermIndex(3));
    assert_eq!(storage.voted_for(), None);
    assert_eq!(node.state(), RaftNodeState::Follower);
    assert_eq!(node.leader_for_term(), Some(ServerId(1)));
    assert_eq!(actions.len(), 2);
    let reply = ae_reply(&actions[0]);
    assert_eq!(
        reply,
        AppendEntriesReply {
            request_id: RequestId(77),
            from: ServerId(0),
            to: ServerId(1),
            term: TermIndex(3),
            success: true,
            match_index: LogIndex(0),
        }
    );
    assert_eq!(actions[1], Action::StartTickTimer(Duration(180)));
}

#[test]
fn leader_commits_only_entries_of_its_own_term_by_counting() {
    // The log holds an entry of term 3 and one of term 5; the node leads term 5.
    let mut storage = store(4, &[3, 5]);
    let leader = leader_of(0, &[1, 2], &mut storage);
    assert_eq!(storage.current_term(), TermIndex(5));
    let (leader, actions) = step(leader, append_reply(1, 0, 5, true, 1), &mut storage, 200);
    assert_eq!(leader.commit_index(), LogIndex(0));
    assert_eq!(actions, vec![]);
    let (leader, actions) = step(leader, append_reply(1, 0, 5, true, 2), &mut storage, 200);
    assert_eq!(leader.commit_index(), LogIndex(2));
    assert_eq!(leader.last_applied(), LogIndex(2));
    assert_eq!(
        actions,
        vec![Action::ApplyLogEntries(LogRange { first: LogIndex(1), last: LogIndex(2) })]
    );
    match leader.role() {
        Role::Leader(l) => {
            assert_eq!(l.match_index, vec![LogIndex(2), LogIndex(0)]);
            assert_eq!(l.next_index, vec![LogIndex(3), LogIndex(3)]);
        }
        other => panic!("expected a leader, got {:?}", other),
    }
}

#[test]
fn leader_never_commits_a_log_of_older_terms() {
    let mut storage = store(4, &[3, 3]);
    let leader = leader_of(0, &[1, 2], &mut storage);
    let (leader, _) = step(leader, append_reply(1, 0, 5, true, 2), &mut storage, 200);
    let (leader, actions) = step(leader, append_reply(2, 0, 5, true, 2), &mut storage, 200);
    assert_eq!(leader.commit_index(), LogIndex(0));
    assert_eq!(actions, vec![]);
}

#[test]
fn leader_steps_back_and_resends_after_a_refusal() {
    let mut storage = store(1, &[1, 1]);
    let leader = leader_of(0, &[1, 2], &mut storage);
    let (leader, actions) = step(leader, append_reply(2, 0, 2, false, 0), &mut storage, 200);
    assert_eq!(
        actions,
        vec![Action::OutgoingRpc(RpcMessage::Request(Request::AppendEntries(AppendEntries {
            request_id: RequestId(4),
            from: ServerId(0),
            to: ServerId(2),
            term: TermIndex(2),
            prev_log_index: LogIndex(1),
            prev_log_term: TermIndex(1),
            entries: vec![entry(1)],
            leader_commit: LogIndex(0),
        })))]
    );
    let (leader, _) = step(leader, append_reply(2, 0, 2, false, 0), &mut storage, 200);
    let (leader, actions) = step(leader, append_reply(2, 0, 2, false, 0), &mut storage, 200);
    match &actions[0] {
        Action::OutgoingRpc(RpcMessage::Request(Request::AppendEntries(ae))) => {
            assert_eq!(ae.prev_log_index, LogIndex(0));
            assert_eq!(ae.prev_log_term, TermIndex(0));
            assert_eq!(ae.entries, vec![entry(1), entry(1)]);
        }
        other => panic!("expected an AppendEntries, got {:?}", other),
    }
    match leader.role() {
        Role::Leader(l) => assert_eq!(l.next_index, vec![LogIndex(3), LogIndex(1)]),
        other => panic!("expected a leader, got {:?}", other),
    }
}

#[test]
fn leader_heartbeats_when_its_interval_is_up() {
    let mut storage = store(1, &[1]);
    let leader = leader_of(0, &[1, 2], &mut storage);
    match leader.role() {
        Role::Leader(l) => assert_eq!(l.heartbeat_deadline, Instant(250)),
        other => panic!("expected a leader, got {:?}", other),
    }
    let (leader, actions) = step(leader, Event::Tick(Instant(220)), &mut storage, 200);
    assert_eq!(actions, vec![Action::StartTickTimer(Duration(30))]);
    let (leader, actions) = step(leader, Event::Tick(Instant(260)), &mut storage, 200);
    assert_eq!(leader.state(), RaftNodeState::Leader);
    assert_eq!(actions.len(), 3);
    assert_eq!(actions[2], Action::StartTickTimer(Duration(50)));
    match &actions[0] {
        Action::OutgoingRpc(RpcMessage::Request(Request::AppendEntries(ae))) => {
            assert_eq!(ae.to, ServerId(1));
            assert_eq!(ae.prev_log_index, LogIndex(1));
            assert_eq!(ae.prev_log_term, TermIndex(1));
            assert_eq!(ae.entries, vec![]);
        }
        other => panic!("expected a heartbeat, got {:?}", other),
    }
    match leader.role() {
        Role::Leader(l) => assert_eq!(l.heartbeat_deadline, Instant(310)),
        other => panic!("expected a leader, got {:?}", other),
    }
}

#[test]
fn leader_ignores_a_reply_that_claims_more_than_its_log() {
    let mut storage = store(1, &[2]);
    let leader = leader_of(0, &[1, 2], &mut storage);
    let before = leader.clone();
    let (leader, actions) = step(leader, append_reply(1, 0, 2, true, 2), &mut storage, 200);
    assert_eq!(leader, before);
    assert_eq!(actions, vec![]);
}

#[test]
fn follower_appends_truncates_and_commits() {
    let mut storage = store(2, &[1, 1, 1]);
    let node = follower(0, &[1, 2], 200);
    let (node, _) = step(node, Event::Tick(Instant(20)), &mut storage, 200);
    // entries 2..3 of terms [1, 2]: entry 2 agrees, entry 3 differs and is replaced
    let (node, actions) = step(node, append(1, 0, 2, 1, 1, &[1, 2, 2], 3), &mut storage, 190);
    assert_eq!(
        storage.entries(),
        &vec![entry(1), entry(1), entry(2), entry(2)]
    );
    assert_eq!(node.commit_index(), LogIndex(3));
    assert_eq!(node.last_applied(), LogIndex(3));
    assert_eq!(node.leader_for_term(), Some(ServerId(1)));
    assert_eq!(actions.len(), 3);
    assert_eq!(
        actions[0],
        Action::ApplyLogEntries(LogRange { first: LogIndex(1), last: LogIndex(3) })
    );
    let reply = ae_reply(&actions[1]);
    assert!(reply.success);
    assert_eq!(reply.match_index, LogIndex(4));
    assert_eq!(reply.term, TermIndex(2));
    assert_eq!(actions[2], Action::StartTickTimer(Duration(190)));
    match node.role() {
        Role::Follower(f) => assert_eq!(f.election_deadline, Instant(210)),
        other => panic!("expected a follower, got {:?}", other),
    }

    // a heartbeat behind the commit index leaves the commit index alone
    let (node, actions) = step(node, append(1, 0, 2, 1, 1, &[], 4), &mut storage, 190);
    assert_eq!(node.commit_index(), LogIndex(3));
    assert_eq!(storage.log_len(), LogIndex(4));
    assert_eq!(ae_reply(&actions[0]).match_index, LogIndex(1));
    assert!(ae_reply(&actions[0]).success);

    // the leader's commit index is capped by the last entry the message covers
    let (node, actions) = step(node, append(1, 0, 2, 4, 2, &[], 9), &mut storage, 190);
    assert_eq!(node.commit_index(), LogIndex(4));
    assert_eq!(
        actions[0],
        Action::ApplyLogEntries(LogRange { first: LogIndex(4), last: LogIndex(4) })
    );
}

#[test]
fn follower_refuses_what_does_not_fit_its_log() {
    let mut storage = store(2, &[1, 1]);
    let node = follower(0, &[1], 200);
    // previous entry of another term
    let (node, actions) = step(node, append(1, 0, 2, 2, 2, &[2], 0), &mut storage, 190);
    let reply = ae_reply(&actions[0]);
    assert!(!reply.success);
    assert_eq!(reply.match_index, LogIndex(0));
    assert_eq!(storage.log_len(), LogIndex(2));
    assert_eq!(node.leader_for_term(), Some(ServerId(1)));
    // previous index past the end of the log
    let (node, actions) = step(node, append(1, 0, 2, 3, 0, &[2], 0), &mut storage, 190);
    assert!(!ae_reply(&actions[0]).success);
    assert_eq!(storage.log_len(), LogIndex(2));
    // a committed entry is never cut away
    let (node, _) = step(node, append(1, 0, 2, 2, 1, &[], 2), &mut storage, 190);
    assert_eq!(node.commit_index(), LogIndex(2));
    let (node, actions) = step(node, append(1, 0, 2, 1, 1, &[2], 2), &mut storage, 190);
    assert!(!ae_reply(&actions[0]).success);
    assert_eq!(storage.entries(), &vec![entry(1), entry(1)]);
    assert_eq!(node.commit_index(), LogIndex(2));
}

#[test]
fn candidate_yields_to_a_leader_of_its_term() {
    let mut storage = store(0, &[]);
    let node = follower(0, &[1, 2], 200);
    let (node, _) = step(node, Event::Tick(Instant(200)), &mut storage, 200);
    assert_eq!(node.state(), RaftNodeState::Candidate);
    let (node, actions) = step(node, append(2, 0, 1, 0, 0, &[1], 0), &mut storage, 170);
    assert_eq!(node.state(), RaftNodeState::Follower);
    assert_eq!(node.leader_for_term(), Some(ServerId(2)));
    assert_eq!(storage.voted_for(), Some((TermIndex(1), ServerId(0))));
    assert!(ae_reply(&actions[0]).success);
    assert_eq!(storage.entries(), &vec![entry(1)]);
}

#[test]
fn requests_from_a_past_term_are_refused_with_the_current_term() {
    let mut storage = store(5, &[]);
    let node = follower(0, &[1, 2], 200);
    let before = node.clone();
    let (node, actions) = step(node, append(1, 0, 4, 0, 0, &[4], 1), &mut storage, 170);
    assert_eq!(
        actions,
        vec![Action::OutgoingRpc(RpcMessage::Reply(ReplyTo::AppendEntries(AppendEntriesReply {
            request_id: RequestId(77),
            from: ServerId(0),
            to: ServerId(1),
            term: TermIndex(5),
            success: false,
            match_index: LogIndex(0),
        })))]
    );
    assert_eq!(node, before);
    assert_eq!(storage.log_len(), LogIndex(0));
    let ask = Event::IncomingRpc(RpcMessage::Request(Request::RequestVote(RequestVote {
        request_id: RequestId(8),
        from: ServerId(2),
        to: ServerId(0),
        term: TermIndex(4),
        last_log_index: LogIndex(9),
        last_log_term: TermIndex(4),
    })));
    let (node, actions) = step(node, ask, &mut storage, 170);
    assert_eq!(
        actions,
        vec![Action::OutgoingRpc(RpcMessage::Reply(ReplyTo::RequestVote(Vote {
            request_id: RequestId(8),
            from: ServerId(0),
            to: ServerId(2),
            term: TermIndex(5),
            vote_granted: false,
        })))]
    );
    assert_eq!(storage.voted_for(), None);
    let (node, actions) = step(node, vote(1, 0, 4, true), &mut storage, 170);
    assert_eq!(actions, vec![]);
    assert_eq!(node, before);
}

#[test]
fn messages_from_strangers_are_dropped() {
    let mut storage = store(1, &[]);
    let node = follower(0, &[1, 2], 200);
    let before = node.clone();
    let (node, actions) = step(node, append(7, 0, 9, 0, 0, &[9], 1), &mut storage, 170);
    assert_eq!(actions, vec![]);
    assert_eq!(node, before);
    assert_eq!(storage.current_term(), TermIndex(1));
    assert_eq!(storage.log_len(), LogIndex(0));
}

#[test]
fn messages_for_someone_else_are_dropped() {
    let mut storage = store(1, &[]);
    let node = follower(0, &[1, 2], 200);
    let before = node.clone();
    let (node, actions) = step(node, append(1, 2, 9, 0, 0, &[9], 1), &mut storage, 170);
    assert_eq!(actions, vec![]);
    assert_eq!(node, before);
    assert_eq!(storage.current_term(), TermIndex(1));
    assert_eq!(storage.log_len(), LogIndex(0));
}

#[test]
fn follower_keeps_its_deadline_when_it_learns_of_a_new_term() {
    let mut storage = store(1, &[3]);
    let node = follower(0, &[1, 2], 200);
    let ask = Event::IncomingRpc(RpcMessage::Request(Request::RequestVote(RequestVote {
        request_id: RequestId(8),
        from: ServerId(2),
        to: ServerId(0),
        term: TermIndex(4),
        last_log_index: LogIndex(0),
        last_log_term: TermIndex(0),
    })));
    let (node, actions) = step(node, ask, &mut storage, 170);
    assert_eq!(actions.len(), 1);
    assert_eq!(storage.current_term(), TermIndex(4));
    match node.role() {
        Role::Follower(f) => assert_eq!(f.election_deadline, Instant(200)),
        other => panic!("expected a follower, got {:?}", other),
    }
}

#[test]
fn can_step_is_false_at_the_limits() {
    let config = config();
    let storage = store(u64::MAX, &[]);
    let node = follower(0, &[1], 200);
    assert!(node.can_step(&Event::Tick(Instant(199)), &storage, &config));
    assert!(!node.can_step(&Event::Tick(Instant(200)), &storage, &config));
    assert!(!node.can_step(&Event::Tick(Instant(u64::MAX - 299)), &store(0, &[]), &config));
    assert!(node.can_step(&vote(1, 0, 1, true), &storage, &config));
}

#[test]
fn next_draws_a_timeout_from_the_configured_range() {
    let config = config();
    let mut rng = rand_chacha::ChaCha8Rng::seed_from_u64(42);
    let mut storage = PersistentStorage::new();
    let (node, timer) =
        Node::new(ServerId(0), vec![ServerId(1), ServerId(2)], &config, Instant(0), &mut rng);
    assert!(timer.0 .0 >= 150 && timer.0 .0 <= 300);
    let (node, actions) = node.next(Event::Tick(Instant(300)), &mut storage, &config, &mut rng);
    assert_eq!(node.state(), RaftNodeState::Candidate);
    match actions.last() {
        Some(Action::StartTickTimer(d)) => assert!(d.0 >= 150 && d.0 <= 300),
        other => panic!("expected a timer, got {:?}", other),
    }
}
