use raft_consensus::events::BufferedRaftEventCollector;
use raft_consensus::{
    NoOpRaftEventCollector, RaftNodeState, RaftStateEvent, RaftStateEventCollector, ServerId,
    TermIndex,
};

fn event(term: u64) -> RaftStateEvent {
    RaftStateEvent {
        server_id: ServerId(1),
        current_state: RaftNodeState::Follower,
        current_term: TermIndex(term),
        voted_for: None,
        leader_for_term: None,
    }
}

#[test]
fn no_op_collector_takes_events() {
    let mut sink = NoOpRaftEventCollector;
    sink.push_event(event(1));
    sink.push_event(event(2));
}

#[test]
fn buffered_collector_keeps_events_in_order() {
    let mut sink = BufferedRaftEventCollector::new(3);
    sink.push_event(event(1));
    sink.push_event(event(2));
    assert_eq!(sink.drain(), vec![event(1), event(2)]);
    assert_eq!(sink.drain(), vec![]);
}

#[test]
fn buffered_collector_drops_the_oldest_when_full() {
    let mut sink = BufferedRaftEventCollector::new(3);
    for term in 1..=5 {
        sink.record(event(term));
    }
    assert_eq!(sink.drain(), vec![event(3), event(4), event(5)]);
    sink.record(event(6));
    assert_eq!(sink.drain(), vec![event(6)]);
}

#[test]
fn buffered_collector_of_no_capacity_keeps_nothing() {
    let mut sink = BufferedRaftEventCollector::new(0);
    sink.record(event(1));
    assert_eq!(sink.drain(), vec![]);
}

#[test]
fn collectors_can_cross_threads() {
    fn assert_send<T: Send>() {}
    assert_send::<NoOpRaftEventCollector>();
    assert_send::<BufferedRaftEventCollector>();
}
