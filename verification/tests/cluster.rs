use rand_chacha::rand_core::SeedableRng;
use rand_chacha::ChaCha8Rng;
use raft_consensus::driver::Driver;
use raft_consensus::rpc_messages::{LogEntry, RpcMessage};
use raft_consensus::state_machine::Action;
use raft_consensus::{
    Duration, Instant, LogIndex, PersistentStorage, RaftConfig, RaftNodeState, RaftStateEvent,
    ServerId, TermIndex,
};

fn config() -> RaftConfig {
    RaftConfig::new(Duration(50), Duration(150), Duration(300)).unwrap()
}

fn entry(term: u64) -> LogEntry {
    LogEntry { term: TermIndex(term), command: vec![term as u8] }
}

struct Seat {
    driver: Option<Driver>,
    wake: u64,
    last: u64,
    group: u8,
    last_event: Option<RaftStateEvent>,
    role_changes: Vec<(u64, RaftNodeState)>,
}

struct World {
    seats: Vec<Seat>,
    queue: Vec<(u64, RpcMessage)>,
    now: u64,
    latency: u64,
    sent: u64,
}

fn world(stores: Vec<PersistentStorage>, first_timeouts: &[u64], latency: u64) -> World {
    let n = stores.len() as u64;
    let mut seats = Vec::new();
    for (i, store) in stores.into_iter().enumerate() {
        let id = i as u64;
        let peers = (0..n).filter(|p| *p != id).map(ServerId).collect();
        let driver = Driver::with_timeout(
            ServerId(id),
            peers,
            store,
            config(),
            ChaCha8Rng::seed_from_u64(1000 + id),
            Instant(0),
            Duration(first_timeouts[i]),
        )
        .unwrap();
        let wake = driver.timer_interval().0;
        seats.push(Seat {
            driver: Some(driver),
            wake,
            last: 0,
            group: 0,
            last_event: None,
            role_changes: vec![(0, RaftNodeState::Follower)],
        });
    }
    World { seats, queue: Vec::new(), now: 0, latency, sent: 0 }
}

fn take_turn(w: &mut World, i: usize, message: Option<RpcMessage>) {
    let now = w.now;
    let driver = w.seats[i].driver.take().unwrap();
    let elapsed = now - w.seats[i].last;
    let term_before = driver.storage().current_term();
    let commit_before = driver.node().commit_index();
    let (driver, turn) = driver.turn(Instant(now), Duration(elapsed), message);
    let turn = turn.unwrap();
    assert!(driver.storage().current_term() >= term_before);
    assert!(driver.node().commit_index() >= commit_before);
    assert!(driver.node().last_applied() <= driver.node().commit_index());
    for action in turn.actions {
        if let Action::OutgoingRpc(m) = action {
            w.sent += 1;
            w.queue.push((now + w.latency, m));
        }
    }
    let seat = &mut w.seats[i];
    if seat.role_changes.last().unwrap().1 != turn.event.current_state {
        seat.role_changes.push((now, turn.event.current_state));
    }
    seat.last_event = Some(turn.event);
    seat.wake = now + driver.timer_interval().0;
    seat.last = now;
    seat.driver = Some(driver);
}

fn run_until(w: &mut World, until: u64) {
    loop {
        assert_one_leader_per_term(w);
        assert_logs_match(w);
        let next_wake = w.seats.iter().map(|s| s.wake).min().unwrap();
        let next_message = w.queue.iter().map(|(t, _)| *t).min();
        let next = match next_message {
            Some(t) if t <= next_wake => t,
            _ => next_wake,
        };
        if next > until {
            w.now = until;
            return;
        }
        w.now = next;
        if next_message == Some(next) {
            let at = w.queue.iter().position(|(t, _)| *t == next).unwrap();
            let (_, m) = w.queue.remove(at);
            let from = m.from().0 as usize;
            let to = m.to().0 as usize;
            if w.seats[from].group == w.seats[to].group {
                take_turn(w, to, Some(m));
            }
        } else {
            let i = w.seats.iter().position(|s| s.wake == next).unwrap();
            take_turn(w, i, None);
        }
    }
}

fn leaders(w: &World) -> Vec<usize> {
    (0..w.seats.len())
        .filter(|i| w.seats[*i].driver.as_ref().unwrap().node().state() == RaftNodeState::Leader)
        .collect()
}

fn term(w: &World, i: usize) -> u64 {
    w.seats[i].driver.as_ref().unwrap().storage().current_term().0
}

fn assert_logs_match(w: &World) {
    for a in &w.seats {
        for b in &w.seats {
            let la = a.driver.as_ref().unwrap().storage().entries();
            let lb = b.driver.as_ref().unwrap().storage().entries();
            for i in 0..la.len().min(lb.len()) {
                if la[i].term == lb[i].term {
                    assert_eq!(la[..=i], lb[..=i]);
                }
            }
        }
    }
}

fn assert_one_leader_per_term(w: &World) {
    let ls = leaders(w);
    for a in &ls {
        for b in &ls {
            assert!(a == b || term(w, *a) != term(w, *b));
        }
    }
}

#[test]
fn three_nodes_elect_one_leader_and_keep_it() {
    let stores = vec![PersistentStorage::new(), PersistentStorage::new(), PersistentStorage::new()];
    let mut w = world(stores, &[150, 220, 290], 5);
    // within one election timeout exactly one leader has emerged
    run_until(&mut w, 300);
    assert_eq!(leaders(&w), vec![0]);
    for i in 0..3 {
        assert!(term(&w, i) >= 1);
    }
    let changes: Vec<usize> = w.seats.iter().map(|s| s.role_changes.len()).collect();
    let sent_before = w.sent;
    // ten heartbeat intervals on: heartbeats only, nobody has changed its role
    run_until(&mut w, 300 + 10 * 50);
    assert_eq!(leaders(&w), vec![0]);
    for i in 0..3 {
        assert_eq!(w.seats[i].role_changes.len(), changes[i]);
        assert_eq!(term(&w, i), 1);
        assert_eq!(
            w.seats[i].last_event.unwrap().leader_for_term,
            Some(ServerId(0))
        );
    }
    // two heartbeats and two answers per interval
    let sent = w.sent - sent_before;
    assert!(sent >= 4 * 9 && sent <= 4 * 11, "{} messages in ten intervals", sent);
}

#[test]
fn leader_brings_a_follower_up_to_its_log() {
    let with = |terms: &[u64]| {
        PersistentStorage::restore(TermIndex(1), None, terms.iter().map(|t| entry(*t)).collect())
            .unwrap()
    };
    let mut w = world(vec![with(&[1, 1, 1]), with(&[1]), with(&[])], &[150, 300, 300], 5);
    run_until(&mut w, 400);
    assert_eq!(leaders(&w), vec![0]);
    for i in 0..3 {
        let d = w.seats[i].driver.as_ref().unwrap();
        assert_eq!(d.storage().entries(), &vec![entry(1), entry(1), entry(1)]);
        // entries of an older term are never committed by counting
        assert_eq!(d.node().commit_index(), LogIndex(0));
    }
}

#[test]
fn partition_and_heal() {
    let with = |terms: &[u64]| {
        PersistentStorage::restore(TermIndex(2), None, terms.iter().map(|t| entry(*t)).collect())
            .unwrap()
    };
    // node 0 holds an entry the others lack; node 2 holds another in its place
    let stores = vec![with(&[1, 1]), with(&[1]), with(&[1, 2]), with(&[1]), with(&[1])];
    let mut w = world(stores, &[150, 300, 300, 300, 300], 5);
    run_until(&mut w, 170);
    assert_eq!(leaders(&w), vec![0]);
    let old_term = term(&w, 0);
    assert_eq!(old_term, 3);

    // {0, 1} against {2, 3, 4}
    for i in 2..5 {
        w.seats[i].group = 1;
    }
    run_until(&mut w, 5000);
    assert_one_leader_per_term(&w);
    let ls = leaders(&w);
    assert!(ls.contains(&0));
    assert_eq!(ls.len(), 2);
    let new_leader = *ls.iter().find(|i| **i != 0).unwrap();
    assert_eq!(new_leader, 2);
    assert!(term(&w, new_leader) >= old_term + 1);
    assert_eq!(term(&w, 0), old_term);
    for i in 0..2 {
        assert_eq!(w.seats[i].driver.as_ref().unwrap().node().commit_index(), LogIndex(0));
    }
    assert_eq!(
        w.seats[0].driver.as_ref().unwrap().storage().entries(),
        &vec![entry(1), entry(1)]
    );

    // healed: the old leader steps down and its entry is overwritten
    for i in 2..5 {
        w.seats[i].group = 0;
    }
    run_until(&mut w, 6000);
    assert_eq!(leaders(&w), vec![new_leader]);
    assert_eq!(w.seats[0].driver.as_ref().unwrap().node().state(), RaftNodeState::Follower);
    for i in 0..5 {
        assert_eq!(term(&w, i), term(&w, new_leader));
        assert_eq!(
            w.seats[i].driver.as_ref().unwrap().storage().entries(),
            &vec![entry(1), entry(2)]
        );
    }
}

#[test]
fn same_seed_same_history() {
    let run = || {
        let stores =
            vec![PersistentStorage::new(), PersistentStorage::new(), PersistentStorage::new()];
        let mut w = world(stores, &[150, 150, 150], 5);
        run_until(&mut w, 3000);
        let roles: Vec<Vec<(u64, RaftNodeState)>> =
            w.seats.iter().map(|s| s.role_changes.clone()).collect();
        let terms: Vec<u64> = (0..3).map(|i| term(&w, i)).collect();
        (roles, terms, w.sent)
    };
    let first = run();
    assert_eq!(first, run());
    assert!(first.1.iter().all(|t| *t >= 1));
}
