use raft_consensus::image::{decode, encode};
use raft_consensus::rpc_messages::LogEntry;
use raft_consensus::{LogIndex, PersistentStorage, ServerId, StorageError, TermIndex};

fn sample() -> PersistentStorage {
    PersistentStorage::restore(
        TermIndex(0x0102),
        Some((TermIndex(0x0102), ServerId(7))),
        vec![
            LogEntry { term: TermIndex(1), command: vec![0xaa, 0xbb] },
            LogEntry { term: TermIndex(0x0102), command: vec![] },
        ],
    )
    .unwrap()
}

#[test]
fn image_has_the_documented_layout() {
    let bytes = encode(&sample());
    let mut expected: Vec<u8> = Vec::new();
    expected.extend_from_slice(&[0x02, 0x01, 0, 0, 0, 0, 0, 0]);
    expected.push(1);
    expected.extend_from_slice(&[0x02, 0x01, 0, 0, 0, 0, 0, 0]);
    expected.extend_from_slice(&[7, 0, 0, 0, 0, 0, 0, 0]);
    expected.extend_from_slice(&[2, 0, 0, 0, 0, 0, 0, 0]);
    expected.extend_from_slice(&[1, 0, 0, 0, 0, 0, 0, 0]);
    expected.extend_from_slice(&[2, 0, 0, 0, 0, 0, 0, 0]);
    expected.extend_from_slice(&[0xaa, 0xbb]);
    expected.extend_from_slice(&[0x02, 0x01, 0, 0, 0, 0, 0, 0]);
    expected.extend_from_slice(&[0, 0, 0, 0, 0, 0, 0, 0]);
    assert_eq!(bytes, expected);
}

#[test]
fn image_of_a_new_store() {
    let bytes = encode(&PersistentStorage::new());
    assert_eq!(bytes, vec![0u8; 17]);
    assert_eq!(decode(&bytes), Ok(PersistentStorage::new()));
}

#[test]
fn image_reads_back_as_the_store() {
    let store = sample();
    let again = decode(&encode(&store)).unwrap();
    assert_eq!(again, store);
    assert_eq!(again.current_term(), TermIndex(0x0102));
    assert_eq!(again.voted_for(), Some((TermIndex(0x0102), ServerId(7))));
    assert_eq!(again.log_len(), LogIndex(2));
    assert_eq!(again.entry_at(LogIndex(1)).unwrap().command, vec![0xaa, 0xbb]);
}

#[test]
fn image_cut_short_is_turned_down() {
    let bytes = encode(&sample());
    for keep in 0..bytes.len() {
        assert_eq!(decode(&bytes[..keep]), Err(StorageError::Malformed), "kept {}", keep);
    }
}

#[test]
fn image_with_bytes_left_over_is_turned_down() {
    let mut bytes = encode(&sample());
    bytes.push(0);
    assert_eq!(decode(&bytes), Err(StorageError::Malformed));
}

#[test]
fn image_with_an_unknown_vote_byte_is_turned_down() {
    let mut bytes = encode(&PersistentStorage::new());
    bytes[8] = 2;
    assert_eq!(decode(&bytes), Err(StorageError::Malformed));
}

#[test]
fn image_with_a_vote_ahead_of_the_term_is_turned_down() {
    let mut bytes = encode(&sample());
    bytes[9] = 0x03;
    assert_eq!(decode(&bytes), Err(StorageError::VoteAheadOfTerm));
}

#[test]
fn image_with_a_wrong_count_is_turned_down() {
    let mut bytes = encode(&sample());
    bytes[25] = 3;
    assert_eq!(decode(&bytes), Err(StorageError::Malformed));
    bytes[25] = 1;
    assert_eq!(decode(&bytes), Err(StorageError::Malformed));
}
