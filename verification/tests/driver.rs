use rand_chacha::rand_core::SeedableRng;
use rand_chacha::ChaCha8Rng;
use raft_consensus::driver::{Driver, StartError};
use raft_consensus::rpc_messages::{
    AppendEntries, AppendEntriesReply, ReplyTo, Request, RpcMessage,
};
use raft_consensus::state_machine::Action;
use raft_consensus::{
    ConfigError, Duration, Instant, LogIndex, PersistentStorage, RaftConfig, RaftNodeState,
    RequestId, ServerId, TermIndex,
};

fn config() -> RaftConfig {
    RaftConfig::new(Duration(50), Duration(150), Duration(300)).unwrap()
}

fn rng() -> ChaCha8Rng {
    ChaCha8Rng::seed_from_u64(1)
}

fn driver(timeout: u64) -> Driver {
    Driver::with_timeout(
        ServerId(0),
        vec![ServerId(1), ServerId(2)],
        PersistentStorage::new(),
        config(),
        rng(),
        Instant(0),
        Duration(timeout),
    )
    .unwrap()
}

fn heartbeat(from: u64, term: u64) -> RpcMessage {
    RpcMessage::Request(Request::AppendEntries(AppendEntries {
        request_id: RequestId(3),
        from: ServerId(from),
        to: ServerId(0),
        term: TermIndex(term),
        prev_log_index: LogIndex(0),
        prev_log_term: TermIndex(0),
        entries: vec![],
        leader_commit: LogIndex(0),
    }))
}

#[test]
fn driver_checks_its_parameters_in_order() {
    let bad = RaftConfig {
        heartbeat_interval: Duration(100),
        election_timeout_min: Duration(150),
        election_timeout_max: Duration(300),
    };
    let start = |id: u64, peers: Vec<u64>, config: RaftConfig, now: u64| {
        Driver::new(
            ServerId(id),
            peers.into_iter().map(ServerId).collect(),
            PersistentStorage::new(),
            config,
            rng(),
            Instant(now),
        )
        .err()
    };
    assert_eq!(
        start(1, vec![1, 2, 2], bad, u64::MAX),
        Some(StartError::Config(ConfigError::ElectionTimeoutTooShort))
    );
    assert_eq!(start(1, vec![1, 2, 2], config(), u64::MAX), Some(StartError::SelfAmongPeers));
    assert_eq!(start(0, vec![1, 2, 2], config(), u64::MAX), Some(StartError::DuplicatePeer));
    assert_eq!(start(0, vec![1, 2], config(), u64::MAX - 299), Some(StartError::ClockOutOfRange));
    assert_eq!(start(0, vec![1, 2], config(), u64::MAX - 300), None);
    assert_eq!(start(0, vec![], config(), 0), None);
}

#[test]
fn new_driver_waits_one_election_timeout() {
    let d = Driver::new(
        ServerId(0),
        vec![ServerId(1)],
        PersistentStorage::new(),
        config(),
        rng(),
        Instant(10),
    )
    .unwrap();
    assert!(d.timer_interval().0 >= 150 && d.timer_interval().0 <= 300);
    assert_eq!(d.node().state(), RaftNodeState::Follower);
    assert_eq!(d.storage().current_term(), TermIndex(0));
}

#[test]
fn follower_ticks_after_a_timeout_of_the_transport() {
    // The deadline is 200 ms away; the transport returns nothing after 150 ms.
    let d = driver(200);
    assert_eq!(d.timer_interval(), Duration(200));
    let (d, turn) = d.turn_with(Instant(150), Duration(150), None, Duration(170), Duration(180));
    let turn = turn.unwrap();
    assert_eq!(turn.actions, vec![Action::StartTickTimer(Duration(50))]);
    assert_eq!(d.timer_interval(), Duration(50));
    assert_eq!(turn.event.current_state, RaftNodeState::Follower);
    assert_eq!(turn.event.server_id, ServerId(0));
    assert_eq!(turn.event.current_term, TermIndex(0));
    assert_eq!(turn.event.voted_for, None);
    assert_eq!(turn.event.leader_for_term, None);
    // Nothing again after another 50 ms: the node stands.
    let (d, turn) = d.turn_with(Instant(200), Duration(50), None, Duration(170), Duration(180));
    let turn = turn.unwrap();
    assert_eq!(turn.event.current_state, RaftNodeState::Candidate);
    assert_eq!(turn.event.current_term, TermIndex(1));
    assert_eq!(turn.event.voted_for, Some((TermIndex(1), ServerId(0))));
    assert_eq!(turn.actions.len(), 3);
    assert_eq!(d.timer_interval(), Duration(170));
    assert_eq!(d.storage().current_term(), TermIndex(1));
}

#[test]
fn tick_comes_before_the_message_and_the_last_timer_wins() {
    let d = driver(200);
    let (d, turn) = d.turn_with(
        Instant(120),
        Duration(120),
        Some(heartbeat(1, 1)),
        Duration(170),
        Duration(180),
    );
    let turn = turn.unwrap();
    assert_eq!(turn.actions.len(), 3);
    assert_eq!(turn.actions[0], Action::StartTickTimer(Duration(80)));
    assert_eq!(
        turn.actions[1],
        Action::OutgoingRpc(RpcMessage::Reply(ReplyTo::AppendEntries(AppendEntriesReply {
            request_id: RequestId(3),
            from: ServerId(0),
            to: ServerId(1),
            term: TermIndex(1),
            success: true,
            match_index: LogIndex(0),
        })))
    );
    assert_eq!(turn.actions[2], Action::StartTickTimer(Duration(180)));
    assert_eq!(d.timer_interval(), Duration(180));
    assert_eq!(turn.event.leader_for_term, Some(ServerId(1)));
    assert_eq!(turn.event.current_term, TermIndex(1));
}

#[test]
fn message_arriving_at_the_deadline_meets_a_candidate() {
    let d = driver(200);
    let (d, turn) = d.turn_with(
        Instant(200),
        Duration(200),
        Some(heartbeat(1, 1)),
        Duration(170),
        Duration(180),
    );
    let turn = turn.unwrap();
    // the tick made the node a candidate of term 1; the heartbeat of term 1 made it yield
    assert_eq!(turn.event.current_state, RaftNodeState::Follower);
    assert_eq!(turn.event.current_term, TermIndex(1));
    assert_eq!(turn.event.voted_for, Some((TermIndex(1), ServerId(0))));
    assert_eq!(turn.event.leader_for_term, Some(ServerId(1)));
    assert_eq!(turn.actions.len(), 5);
    assert_eq!(turn.actions[2], Action::StartTickTimer(Duration(170)));
    assert_eq!(turn.actions[4], Action::StartTickTimer(Duration(180)));
    assert_eq!(d.timer_interval(), Duration(180));
}

#[test]
fn turn_draws_its_timeouts_from_the_configured_range() {
    let d = driver(200);
    let (d, turn) = d.turn(Instant(200), Duration(200), None);
    assert!(turn.is_some());
    assert!(d.timer_interval().0 >= 150 && d.timer_interval().0 <= 300);
    assert_eq!(d.node().state(), RaftNodeState::Candidate);
}

#[test]
fn driver_is_not_ready_past_the_limits() {
    let d = driver(200);
    assert!(d.ready(Instant(0)));
    assert!(!d.ready(Instant(u64::MAX - 299)));
    let (d, turn) = d.turn(Instant(u64::MAX - 299), Duration(1), None);
    assert!(turn.is_none());
    assert_eq!(d.timer_interval(), Duration(200));
    assert_eq!(d.node().state(), RaftNodeState::Follower);
}
