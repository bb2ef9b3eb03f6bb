use iraft::error::RaftError;
use iraft::log::log::{Entry, Log, MetadateKey};
use iraft::log::memory_store::MemoryStore;
use iraft::log::{Bound, Range, Store};

fn log_of(commands: &[&[u8]], term: u64) -> Log<MemoryStore> {
    let mut log = Log::new(MemoryStore::new());
    for command in commands {
        log.append(term, Some(command.to_vec())).unwrap();
    }
    log
}

fn entry(index: u64, term: u64, command: &[u8]) -> Entry {
    Entry { index, term, command: Some(command.to_vec()) }
}

#[test]
fn append_then_get_returns_the_entry() {
    let mut log = Log::new(MemoryStore::new());
    let appended = log.append(1, Some(vec![1, 2, 3])).unwrap();
    assert_eq!(appended, Entry { index: 1, term: 1, command: Some(vec![1, 2, 3]) });
    assert_eq!(log.get(1).unwrap(), Some(appended));
    assert_eq!(log.get(0).unwrap(), None);
    assert_eq!(log.get(2).unwrap(), None);
    assert_eq!(log.last_index(), 1);
    assert_eq!(log.last_term(), 1);
}

#[test]
fn append_numbers_entries_from_one() {
    let mut log = Log::new(MemoryStore::new());
    assert_eq!(log.last_index(), 0);
    assert_eq!(log.last_term(), 0);
    assert_eq!(log.append(2, None).unwrap(), Entry { index: 1, term: 2, command: None });
    assert_eq!(log.append(3, Some(vec![])).unwrap(), Entry { index: 2, term: 3, command: Some(vec![]) });
    assert_eq!(log.last_index(), 2);
    assert_eq!(log.last_term(), 3);
    assert_eq!(log.get(1).unwrap(), Some(Entry { index: 1, term: 2, command: None }));
}

#[test]
fn entries_are_stored_as_bincode_writes_them() {
    let mut log = Log::new(MemoryStore::new());
    log.append(7, Some(b"set x".to_vec())).unwrap();
    let stored = log.store().get(1).unwrap().unwrap();
    let expected = bincode::serialize(&(1u64, 7u64, Some(b"set x".to_vec()))).unwrap();
    assert_eq!(stored, expected);
    assert_eq!(stored.len(), 8 + 8 + 1 + 8 + 5);
    assert_eq!(&stored[0..8], &[1, 0, 0, 0, 0, 0, 0, 0]);
}

#[test]
fn metadata_is_stored_as_bincode_writes_it() {
    let mut log = Log::new(MemoryStore::new());
    log.save_metadata(3, Some("2")).unwrap();
    let stored = log.store().get_metadata(MetadateKey.encode()).unwrap();
    let expected = bincode::serialize(&(3u64, Some("2"))).unwrap();
    assert_eq!(stored, expected);
    assert_eq!(MetadateKey.encode(), vec![0u8]);
}

#[test]
fn metadata_defaults_on_a_fresh_log() {
    let log = Log::new(MemoryStore::new());
    assert_eq!(log.get_metadata().unwrap(), (0, None));
}

#[test]
fn metadata_is_read_back_and_replaced() {
    let mut log = Log::new(MemoryStore::new());
    log.save_metadata(1, None).unwrap();
    assert_eq!(log.get_metadata().unwrap(), (1, None));
    log.save_metadata(4, Some("node-3")).unwrap();
    assert_eq!(log.get_metadata().unwrap(), (4, Some("node-3".to_string())));
    log.save_metadata(4, Some("node-3")).unwrap();
    assert_eq!(log.get_metadata().unwrap(), (4, Some("node-3".to_string())));
}

#[test]
fn scan_yields_the_entries_of_the_range_in_order() {
    let log = log_of(&[b"a", b"b", b"c", b"d"], 1);
    let all = log.scan(Range::from(Bound::Unbounded, Bound::Unbounded)).unwrap();
    assert_eq!(all, vec![entry(1, 1, b"a"), entry(2, 1, b"b"), entry(3, 1, b"c"), entry(4, 1, b"d")]);
    let middle = log.scan(Range::from(Bound::Included(2), Bound::Included(3))).unwrap();
    assert_eq!(middle, vec![entry(2, 1, b"b"), entry(3, 1, b"c")]);
    for (k, found) in middle.iter().enumerate() {
        assert_eq!(Some(found.clone()), log.get(2 + k as u64).unwrap());
    }
    let open = log.scan(Range::from(Bound::Excluded(1), Bound::Excluded(4))).unwrap();
    assert_eq!(open, vec![entry(2, 1, b"b"), entry(3, 1, b"c")]);
    let tail = log.scan(Range::from(Bound::Included(3), Bound::Unbounded)).unwrap();
    assert_eq!(tail, vec![entry(3, 1, b"c"), entry(4, 1, b"d")]);
}

#[test]
fn scan_of_an_empty_or_outside_range_is_empty() {
    let log = log_of(&[b"a", b"b"], 1);
    assert!(log.scan(Range::from(Bound::Included(3), Bound::Included(9))).unwrap().is_empty());
    assert!(log.scan(Range::from(Bound::Included(2), Bound::Included(1))).unwrap().is_empty());
    assert!(log.scan(Range::from(Bound::Unbounded, Bound::Excluded(0))).unwrap().is_empty());
    assert!(log.scan(Range::from(Bound::Excluded(u64::MAX), Bound::Unbounded)).unwrap().is_empty());
    let from_zero = log.scan(Range::from(Bound::Included(0), Bound::Included(1))).unwrap();
    assert_eq!(from_zero, vec![entry(1, 1, b"a")]);
    let empty = Log::new(MemoryStore::new());
    assert!(empty.scan(Range::from(Bound::Unbounded, Bound::Unbounded)).unwrap().is_empty());
}

#[test]
fn has_knows_the_empty_prefix_and_stored_terms() {
    let mut log = log_of(&[b"a"], 1);
    log.append(2, Some(b"b".to_vec())).unwrap();
    assert_eq!(log.has(0, 0), Ok(true));
    assert_eq!(log.has(0, 1), Ok(false));
    assert_eq!(log.has(1, 1), Ok(true));
    assert_eq!(log.has(1, 2), Ok(false));
    assert_eq!(log.has(2, 2), Ok(true));
    assert_eq!(log.has(3, 2), Ok(false));
    assert_eq!(log.has(3, 0), Ok(false));
}

#[test]
fn commit_moves_the_commit_index_and_term() {
    let mut log = log_of(&[b"a", b"b"], 1);
    log.append(3, Some(b"c".to_vec())).unwrap();
    assert_eq!(log.commit_index(), 0);
    assert_eq!(log.commit_term(), 0);
    assert_eq!(log.commit(0), Ok(0));
    assert_eq!(log.commit(2), Ok(2));
    assert_eq!(log.commit_index(), 2);
    assert_eq!(log.commit_term(), 1);
    assert_eq!(log.commit(2), Ok(2));
    assert_eq!(log.commit(3), Ok(3));
    assert_eq!(log.commit_term(), 3);
    assert_eq!(log.store().committed(), Ok(3));
}

#[test]
fn commit_refuses_what_the_log_does_not_hold_and_never_goes_back() {
    let mut log = log_of(&[b"a", b"b"], 1);
    assert_eq!(log.commit(3), Err(RaftError::LogInconsistency));
    assert_eq!(log.commit_index(), 0);
    assert_eq!(log.commit(2), Ok(2));
    assert_eq!(log.commit(1), Err(RaftError::LogInconsistency));
    assert_eq!(log.commit_index(), 2);
}

#[test]
fn truncate_drops_the_entries_after_the_index() {
    let mut log = log_of(&[b"a", b"b", b"c"], 1);
    assert_eq!(log.truncate(5), Ok(()));
    assert_eq!(log.last_index(), 3);
    assert_eq!(log.truncate(1), Ok(()));
    assert_eq!(log.last_index(), 1);
    assert_eq!(log.last_term(), 1);
    assert_eq!(log.get(2).unwrap(), None);
    assert_eq!(log.get(1).unwrap(), Some(entry(1, 1, b"a")));
    assert_eq!(log.truncate(0), Ok(()));
    assert_eq!(log.last_index(), 0);
    assert_eq!(log.last_term(), 0);
    assert_eq!(log.append(2, None).unwrap().index, 1);
}

#[test]
fn truncate_refuses_to_drop_a_committed_entry() {
    let mut log = log_of(&[b"a", b"b", b"c"], 1);
    log.commit(2).unwrap();
    assert_eq!(log.truncate(1), Err(RaftError::LogInconsistency));
    assert_eq!(log.last_index(), 3);
    assert_eq!(log.truncate(2), Ok(()));
    assert_eq!(log.last_index(), 2);
}

#[test]
fn memory_store_keeps_bytes_and_metadata() {
    let mut store = MemoryStore::new();
    assert_eq!(store.get_metadata(vec![1]), Err(RaftError::NotFound));
    assert_eq!(store.set_metadata(vec![1], vec![9]), Ok(()));
    assert_eq!(store.set_metadata(vec![2], vec![8]), Ok(()));
    assert_eq!(store.set_metadata(vec![1], vec![7, 7]), Ok(()));
    assert_eq!(store.get_metadata(vec![1]), Ok(vec![7, 7]));
    assert_eq!(store.get_metadata(vec![2]), Ok(vec![8]));
    assert_eq!(store.append(vec![1]), Ok(1));
    assert_eq!(store.append(vec![2, 2]), Ok(2));
    assert_eq!(store.get(0), Ok(None));
    assert_eq!(store.get(2), Ok(Some(vec![2, 2])));
    assert_eq!(store.get(3), Ok(None));
    assert_eq!(store.committed(), Ok(0));
    assert_eq!(store.commit(3), Err(RaftError::LogInconsistency));
    assert_eq!(store.commit(2), Ok(()));
    assert_eq!(store.commit(1), Ok(()));
    assert_eq!(store.committed(), Ok(2));
    assert_eq!(store.truncate(1), Err(RaftError::LogInconsistency));
    assert_eq!(store.append(vec![3]), Ok(3));
    assert_eq!(store.truncate(2), Ok(2));
    assert_eq!(store.scan(Range::from(Bound::Unbounded, Bound::Unbounded)), Ok(vec![vec![1], vec![2, 2]]));
    assert_eq!(store.scan(Range::from(Bound::Excluded(1), Bound::Included(2))), Ok(vec![vec![2, 2]]));
}

#[test]
fn errors_describe_themselves() {
    assert_eq!(RaftError::Store.describe(), "store failure");
    assert_eq!(RaftError::NotFound.describe(), "no such metadata key");
    assert_eq!(RaftError::LogInconsistency.describe(), "log inconsistency");
    assert_eq!(RaftError::Decode.describe(), "decode failure");
    assert_eq!(RaftError::PeerUnreachable.describe(), "peer unreachable");
    assert_eq!(RaftError::InvalidTransition.describe(), "invalid transition");
    assert_eq!(RaftError::Exhausted.describe(), "counter exhausted");
}

#[test]
fn bytes_that_are_no_entry_are_reported() {
    let mut store = MemoryStore::new();
    store.append(vec![1, 2, 3]).unwrap();
    store.set_metadata(MetadateKey.encode(), vec![9]).unwrap();
    let log = Log::new(store);
    assert_eq!(log.get(1), Err(RaftError::Decode));
    assert_eq!(log.get_metadata(), Err(RaftError::Decode));
}
