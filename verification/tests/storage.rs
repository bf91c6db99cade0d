use raft_consensus::rpc_messages::LogEntry;
use raft_consensus::{LogIndex, LogRange, PersistentStorage, ServerId, StorageError, TermIndex};

fn entry(term: u64, tag: u8) -> LogEntry {
    LogEntry { term: TermIndex(term), command: vec![tag] }
}

#[test]
fn new_store_is_empty() {
    let s = PersistentStorage::new();
    assert_eq!(s.current_term(), TermIndex(0));
    assert_eq!(s.voted_for(), None);
    assert_eq!(s.log_len(), LogIndex(0));
    assert_eq!(s.term_at(LogIndex(0)), TermIndex(0));
    assert_eq!(s.last_log_term(), TermIndex(0));
    assert_eq!(s.entry_at(LogIndex(0)), None);
    assert_eq!(s.entry_at(LogIndex(1)), None);
}

#[test]
fn restore_keeps_term_vote_and_log() {
    let log = vec![entry(1, 10), entry(1, 11), entry(2, 12)];
    let s = PersistentStorage::restore(TermIndex(3), Some((TermIndex(3), ServerId(7))), log.clone())
        .unwrap();
    assert_eq!(s.current_term(), TermIndex(3));
    assert_eq!(s.voted_for(), Some((TermIndex(3), ServerId(7))));
    assert_eq!(s.log_len(), LogIndex(3));
    assert_eq!(s.entries(), &log);
    assert_eq!(s.term_at(LogIndex(1)), TermIndex(1));
    assert_eq!(s.term_at(LogIndex(3)), TermIndex(2));
    assert_eq!(s.last_log_term(), TermIndex(2));
    assert_eq!(s.entry_at(LogIndex(2)), Some(entry(1, 11)));
    assert_eq!(s.entry_at(LogIndex(4)), None);
}

#[test]
fn restart_round_trip_is_identity() {
    let mut s = PersistentStorage::new();
    s.set_current_term(TermIndex(4));
    assert!(s.record_vote(TermIndex(4), ServerId(2)));
    s.append_entries(LogIndex(1), vec![entry(1, 1), entry(4, 2)]);
    let again =
        PersistentStorage::restore(s.current_term(), s.voted_for(), s.entries().clone()).unwrap();
    assert_eq!(again, s);
}

#[test]
fn restore_rejects_vote_from_a_later_term() {
    assert_eq!(
        PersistentStorage::restore(TermIndex(2), Some((TermIndex(3), ServerId(1))), vec![]),
        Err(StorageError::VoteAheadOfTerm)
    );
    assert!(PersistentStorage::restore(TermIndex(3), Some((TermIndex(2), ServerId(1))), vec![])
        .is_ok());
}

#[test]
fn set_current_term_clears_vote_only_when_term_rises() {
    let mut s = PersistentStorage::new();
    s.set_current_term(TermIndex(2));
    assert!(s.record_vote(TermIndex(2), ServerId(5)));
    s.set_current_term(TermIndex(2));
    assert_eq!(s.voted_for(), Some((TermIndex(2), ServerId(5))));
    s.set_current_term(TermIndex(1));
    assert_eq!(s.current_term(), TermIndex(2));
    assert_eq!(s.voted_for(), Some((TermIndex(2), ServerId(5))));
    s.set_current_term(TermIndex(3));
    assert_eq!(s.current_term(), TermIndex(3));
    assert_eq!(s.voted_for(), None);
}

#[test]
fn record_vote_gives_one_vote_per_term() {
    let mut s = PersistentStorage::new();
    s.set_current_term(TermIndex(1));
    assert!(s.record_vote(TermIndex(1), ServerId(5)));
    assert!(s.record_vote(TermIndex(1), ServerId(5)));
    assert!(!s.record_vote(TermIndex(1), ServerId(6)));
    assert_eq!(s.voted_for(), Some((TermIndex(1), ServerId(5))));
    assert!(!s.record_vote(TermIndex(2), ServerId(6)));
    assert!(!s.record_vote(TermIndex(0), ServerId(6)));
    assert_eq!(s.voted_for(), Some((TermIndex(1), ServerId(5))));
}

#[test]
fn append_entries_replaces_the_suffix() {
    let mut s = PersistentStorage::new();
    s.append_entries(LogIndex(1), vec![entry(1, 1), entry(1, 2), entry(1, 3)]);
    assert_eq!(s.log_len(), LogIndex(3));
    s.append_entries(LogIndex(2), vec![entry(2, 9)]);
    assert_eq!(s.entries(), &vec![entry(1, 1), entry(2, 9)]);
    s.append_entries(LogIndex(3), vec![]);
    assert_eq!(s.entries(), &vec![entry(1, 1), entry(2, 9)]);
    s.append_entries(LogIndex(3), vec![entry(3, 4)]);
    assert_eq!(s.entries(), &vec![entry(1, 1), entry(2, 9), entry(3, 4)]);
}

#[test]
fn truncate_suffix_removes_from_the_index_on() {
    let mut s = PersistentStorage::new();
    s.append_entries(LogIndex(1), vec![entry(1, 1), entry(1, 2), entry(1, 3)]);
    s.truncate_suffix(LogIndex(4));
    assert_eq!(s.log_len(), LogIndex(3));
    s.truncate_suffix(LogIndex(3));
    assert_eq!(s.entries(), &vec![entry(1, 1), entry(1, 2)]);
    s.truncate_suffix(LogIndex(1));
    assert_eq!(s.log_len(), LogIndex(0));
}

#[test]
fn entries_from_copies_the_suffix() {
    let mut s = PersistentStorage::new();
    s.append_entries(LogIndex(1), vec![entry(1, 1), entry(1, 2), entry(2, 3)]);
    assert_eq!(s.entries_from(LogIndex(1)), vec![entry(1, 1), entry(1, 2), entry(2, 3)]);
    assert_eq!(s.entries_from(LogIndex(3)), vec![entry(2, 3)]);
    assert_eq!(s.entries_from(LogIndex(4)), vec![]);
}

#[test]
fn entries_in_copies_the_positions_the_log_has() {
    let mut s = PersistentStorage::new();
    s.append_entries(LogIndex(1), vec![entry(1, 1), entry(1, 2), entry(2, 3)]);
    let range = |first: u64, last: u64| LogRange { first: LogIndex(first), last: LogIndex(last) };
    assert_eq!(s.entries_in(range(1, 3)), vec![entry(1, 1), entry(1, 2), entry(2, 3)]);
    assert_eq!(s.entries_in(range(2, 2)), vec![entry(1, 2)]);
    assert_eq!(s.entries_in(range(0, 1)), vec![entry(1, 1)]);
    assert_eq!(s.entries_in(range(3, 9)), vec![entry(2, 3)]);
    assert_eq!(s.entries_in(range(3, 2)), vec![]);
    assert_eq!(s.entries_in(range(4, u64::MAX)), vec![]);
}
