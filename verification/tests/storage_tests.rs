use rust_db::{DbError, Entry, LsmStorage, Marker, Segment, StorageOp};

fn value(key: &[u8], value: &[u8]) -> Entry {
    Entry { key: key.to_vec(), marker: Marker::Value(value.to_vec()) }
}

fn tombstone(key: &[u8]) -> Entry {
    Entry { key: key.to_vec(), marker: Marker::Tombstone }
}

/// Writes a segment out and reads it back, as a restart would.
fn reread(segment: &Segment) -> Segment {
    Segment::decode(segment.generation(), &segment.encode().unwrap()).unwrap()
}

/// Logs a mutation and applies it, as the write path does.
fn write(store: &mut LsmStorage, log: &mut Vec<u8>, op: StorageOp) -> bool {
    log.extend(op.encode().unwrap());
    match op {
        StorageOp::Insert(key, value) => store.insert(key, value),
        StorageOp::Delete(key) => store.delete(key),
    }
}

#[test]
fn new_store_knows_nothing() {
    let store = LsmStorage::new(1024);
    assert_eq!(store.get(b"a"), None);
    assert_eq!(store.memtable_size(), 0);
    assert!(store.manifest().is_empty());
    assert!(store.frozen().is_none());
    assert!(store.segments().is_empty());
}

#[test]
fn get_returns_what_was_inserted() {
    let mut store = LsmStorage::new(1024);
    assert!(!store.insert(b"k".to_vec(), b"v".to_vec()));
    assert_eq!(store.get(b"k"), Some(b"v".to_vec()));
    assert_eq!(store.get(b"j"), None);
}

#[test]
fn last_insert_wins() {
    let mut store = LsmStorage::new(1024);
    store.insert(b"k".to_vec(), b"v1".to_vec());
    store.insert(b"k".to_vec(), b"v2".to_vec());
    assert_eq!(store.get(b"k"), Some(b"v2".to_vec()));
}

#[test]
fn last_insert_wins_across_a_flush() {
    let mut store = LsmStorage::new(1);
    assert!(store.insert(b"k".to_vec(), b"v1".to_vec()));
    assert_eq!(store.flush_memtable(), Some(0));
    assert!(store.insert(b"k".to_vec(), b"v2".to_vec()));
    assert_eq!(store.get(b"k"), Some(b"v2".to_vec()));
    assert_eq!(store.flush_memtable(), Some(1));
    assert_eq!(store.get(b"k"), Some(b"v2".to_vec()));
}

#[test]
fn delete_hides_the_key() {
    let mut store = LsmStorage::new(1024);
    store.insert(b"k".to_vec(), b"v".to_vec());
    store.delete(b"k".to_vec());
    assert_eq!(store.get(b"k"), None);
}

#[test]
fn delete_hides_a_key_that_was_flushed() {
    let mut store = LsmStorage::new(1);
    assert!(store.insert(b"k".to_vec(), b"v".to_vec()));
    assert_eq!(store.get(b"k"), Some(b"v".to_vec()));
    assert_eq!(store.flush_memtable(), Some(0));
    assert_eq!(store.get(b"k"), Some(b"v".to_vec()));
    store.delete(b"k".to_vec());
    assert_eq!(store.get(b"k"), None);
    store.freeze();
    assert_eq!(store.get(b"k"), None);
    store.flush_memtable();
    assert_eq!(store.get(b"k"), None);
    assert_eq!(store.manifest().len(), 2);
}

#[test]
fn delete_of_an_unknown_key_is_no_failure() {
    let mut store = LsmStorage::new(1024);
    store.delete(b"never".to_vec());
    assert_eq!(store.get(b"never"), None);
}

#[test]
fn threshold_freezes_the_active_table() {
    let mut store = LsmStorage::new(1024);
    let mut due = false;
    let mut written = 0;
    for i in 0..100u32 {
        let key = format!("key-{:04}", i).into_bytes();
        let value = vec![b'v'; 12];
        written += key.len() + value.len();
        due = store.insert(key, value);
        if written <= 1024 {
            assert!(!due, "frozen after {} bytes", written);
            assert_eq!(store.memtable_size(), written);
        }
        if due {
            break;
        }
    }
    assert!(due);
    assert!(written > 1024 && written <= 1024 + 20);
    assert_eq!(store.memtable_size(), 0);
    assert!(store.manifest().is_empty());
    assert_eq!(store.frozen().unwrap().generation(), 0);
    assert_eq!(store.frozen().unwrap().len(), written / 20);
    assert_eq!(store.get(b"key-0000"), Some(vec![b'v'; 12]));
    assert_eq!(store.flush_memtable(), Some(0));
    assert_eq!(store.manifest(), vec![0]);
    assert_eq!(store.segments().len(), 1);
    assert!(store.frozen().is_none());
    assert_eq!(store.memtable_size(), 0);
    for i in 0..(written / 20) {
        let key = format!("key-{:04}", i).into_bytes();
        assert_eq!(store.get(&key), Some(vec![b'v'; 12]));
    }
}

#[test]
fn threshold_must_be_exceeded() {
    let mut store = LsmStorage::new(4);
    assert!(!store.insert(b"ab".to_vec(), b"cd".to_vec()));
    assert_eq!(store.memtable_size(), 4);
    assert!(store.frozen().is_none());
    assert!(store.manifest().is_empty());
    assert!(store.insert(b"e".to_vec(), b"".to_vec()));
    assert_eq!(store.memtable_size(), 0);
    assert_eq!(store.frozen().unwrap().len(), 2);
    assert_eq!(store.flush_memtable(), Some(0));
    assert_eq!(store.manifest(), vec![0]);
    assert_eq!(store.get(b"ab"), Some(b"cd".to_vec()));
}

#[test]
fn exhausted_generations_freeze_nothing() {
    let segments = vec![Segment::from_entries(u64::MAX - 1, vec![]).unwrap()];
    let (mut store, _) = LsmStorage::recover(0, segments, &[]).unwrap();
    assert_eq!(store.next_generation(), u64::MAX);
    assert!(!store.insert(b"a".to_vec(), b"1".to_vec()));
    assert!(!store.freeze());
    assert_eq!(store.compact(0, 1), None);
    assert_eq!(store.memtable_size(), 2);
    assert_eq!(store.get(b"a"), Some(b"1".to_vec()));
}

#[test]
fn writes_go_on_while_a_table_is_frozen() {
    let mut store = LsmStorage::new(1);
    assert!(store.insert(b"a".to_vec(), b"1".to_vec()));
    assert!(store.insert(b"b".to_vec(), b"2".to_vec()));
    assert!(store.insert(b"a".to_vec(), b"3".to_vec()));
    assert_eq!(store.memtable_size(), 4);
    assert_eq!(store.frozen().unwrap().len(), 1);
    assert_eq!(store.get(b"a"), Some(b"3".to_vec()));
    assert_eq!(store.get(b"b"), Some(b"2".to_vec()));
    assert_eq!(store.flush_memtable(), Some(0));
    assert!(store.insert(b"c".to_vec(), b"4".to_vec()));
    assert_eq!(store.frozen().unwrap().generation(), 1);
    assert_eq!(store.frozen().unwrap().len(), 3);
    assert_eq!(store.flush_memtable(), Some(1));
    assert_eq!(store.manifest(), vec![0, 1]);
    assert_eq!(store.get(b"a"), Some(b"3".to_vec()));
}

#[test]
fn flush_without_a_frozen_table_does_nothing() {
    let mut store = LsmStorage::new(1024);
    store.insert(b"a".to_vec(), b"1".to_vec());
    assert_eq!(store.flush_memtable(), None);
    assert!(store.manifest().is_empty());
    assert_eq!(store.get(b"a"), Some(b"1".to_vec()));
}

#[test]
fn freeze_on_request() {
    let mut store = LsmStorage::new(1024);
    assert!(!store.freeze());
    store.insert(b"a".to_vec(), b"1".to_vec());
    assert!(store.freeze());
    assert_eq!(store.memtable_size(), 0);
    assert_eq!(store.get(b"a"), Some(b"1".to_vec()));
    store.insert(b"b".to_vec(), b"2".to_vec());
    assert!(store.freeze());
    assert_eq!(store.memtable_size(), 2);
    assert_eq!(store.frozen().unwrap().len(), 1);
}

#[test]
fn freeze_on_request_goes_by_entries_not_bytes() {
    let mut store = LsmStorage::new(1024);
    store.insert(b"".to_vec(), b"".to_vec());
    assert_eq!(store.memtable_size(), 0);
    assert!(store.freeze());
    assert_eq!(store.frozen().unwrap().len(), 1);
    assert_eq!(store.flush_memtable(), Some(0));
    assert_eq!(store.get(b""), Some(b"".to_vec()));
}

#[test]
fn newer_tiers_hide_older_ones() {
    let segments = vec![
        Segment::from_entries(0, vec![value(b"a", b"s0"), value(b"b", b"s0"), value(b"c", b"s0")])
            .unwrap(),
        Segment::from_entries(1, vec![value(b"a", b"s1"), tombstone(b"b")]).unwrap(),
    ];
    let (mut store, _) = LsmStorage::recover(1024, segments, &[]).unwrap();
    assert_eq!(store.get(b"a"), Some(b"s1".to_vec()));
    assert_eq!(store.get(b"b"), None);
    assert_eq!(store.get(b"c"), Some(b"s0".to_vec()));
    store.insert(b"b".to_vec(), b"frozen".to_vec());
    store.freeze();
    assert_eq!(store.get(b"b"), Some(b"frozen".to_vec()));
    store.delete(b"c".to_vec());
    store.insert(b"b".to_vec(), b"active".to_vec());
    assert_eq!(store.get(b"a"), Some(b"s1".to_vec()));
    assert_eq!(store.get(b"b"), Some(b"active".to_vec()));
    assert_eq!(store.get(b"c"), None);
}

#[test]
fn recovery_replays_every_logged_write() {
    let mut log = Vec::new();
    let mut store = LsmStorage::new(1024);
    write(&mut store, &mut log, StorageOp::Insert(b"a".to_vec(), b"1".to_vec()));
    write(&mut store, &mut log, StorageOp::Insert(b"b".to_vec(), b"2".to_vec()));
    write(&mut store, &mut log, StorageOp::Delete(b"a".to_vec()));
    write(&mut store, &mut log, StorageOp::Insert(b"c".to_vec(), b"3".to_vec()));
    write(&mut store, &mut log, StorageOp::Insert(b"b".to_vec(), b"4".to_vec()));
    let (reopened, end) = LsmStorage::recover(1024, vec![], &log).unwrap();
    assert_eq!(end, log.len());
    for key in [&b"a"[..], b"b", b"c", b"d"] {
        assert_eq!(reopened.get(key), store.get(key));
    }
    assert_eq!(reopened.get(b"a"), None);
    assert_eq!(reopened.get(b"b"), Some(b"4".to_vec()));
    assert_eq!(reopened.get(b"c"), Some(b"3".to_vec()));
    assert_eq!(reopened.memtable_size(), store.memtable_size());
}

#[test]
fn recovery_drops_a_write_that_was_cut_short() {
    let mut log = Vec::new();
    let mut store = LsmStorage::new(1024);
    write(&mut store, &mut log, StorageOp::Insert(b"a".to_vec(), b"1".to_vec()));
    let whole = log.len();
    let torn = StorageOp::Insert(b"a".to_vec(), b"2".to_vec()).encode().unwrap();
    for cut in 0..torn.len() {
        let mut crashed = log.clone();
        crashed.extend(&torn[..cut]);
        let (reopened, end) = LsmStorage::recover(1024, vec![], &crashed).unwrap();
        assert_eq!(end, whole);
        assert_eq!(reopened.get(b"a"), Some(b"1".to_vec()));
    }
}

#[test]
fn recovery_after_a_flush_sees_segments_and_log() {
    let mut log = Vec::new();
    let mut store = LsmStorage::new(3);
    write(&mut store, &mut log, StorageOp::Insert(b"a".to_vec(), b"1".to_vec()));
    assert!(write(&mut store, &mut log, StorageOp::Insert(b"b".to_vec(), b"2".to_vec())));
    store.flush_memtable();
    write(&mut store, &mut log, StorageOp::Delete(b"a".to_vec()));
    let on_disk: Vec<Segment> = store.segments().iter().map(reread).collect();
    let (reopened, _) = LsmStorage::recover(3, on_disk, &log).unwrap();
    assert_eq!(reopened.manifest(), vec![0]);
    for key in [&b"a"[..], b"b", b"c"] {
        assert_eq!(reopened.get(key), store.get(key));
    }
    assert_eq!(reopened.get(b"a"), None);
    assert_eq!(reopened.get(b"b"), Some(b"2".to_vec()));
}

#[test]
fn recovery_before_the_flush_is_complete_loses_nothing() {
    let mut log = Vec::new();
    let mut store = LsmStorage::new(1);
    assert!(write(&mut store, &mut log, StorageOp::Insert(b"a".to_vec(), b"1".to_vec())));
    write(&mut store, &mut log, StorageOp::Insert(b"b".to_vec(), b"2".to_vec()));
    let (reopened, _) = LsmStorage::recover(1, vec![], &log).unwrap();
    assert_eq!(reopened.get(b"a"), Some(b"1".to_vec()));
    assert_eq!(reopened.get(b"b"), Some(b"2".to_vec()));
}

#[test]
fn reopening_twice_gives_the_same_store() {
    let mut log = Vec::new();
    let mut store = LsmStorage::new(3);
    write(&mut store, &mut log, StorageOp::Insert(b"a".to_vec(), b"1".to_vec()));
    write(&mut store, &mut log, StorageOp::Insert(b"b".to_vec(), b"2".to_vec()));
    store.flush_memtable();
    write(&mut store, &mut log, StorageOp::Delete(b"b".to_vec()));
    log.extend([0u8, 3, 0]);
    let first_disk: Vec<Segment> = store.segments().iter().map(reread).collect();
    let (first, end) = LsmStorage::recover(3, first_disk, &log).unwrap();
    assert_eq!(end, log.len() - 3);
    let second_disk: Vec<Segment> = first.segments().iter().map(reread).collect();
    let (second, second_end) = LsmStorage::recover(3, second_disk, &log[..end]).unwrap();
    assert_eq!(second_end, end);
    assert_eq!(first.manifest(), second.manifest());
    assert_eq!(first.memtable_size(), second.memtable_size());
    for key in [&b"a"[..], b"b", b"c"] {
        assert_eq!(first.get(key), second.get(key));
        assert_eq!(first.get(key), store.get(key));
    }
}

#[test]
fn recovery_numbers_new_segments_after_the_old() {
    let segments = vec![
        Segment::from_entries(7, vec![value(b"a", b"1")]).unwrap(),
        Segment::from_entries(3, vec![value(b"b", b"2")]).unwrap(),
    ];
    let (mut store, end) = LsmStorage::recover(1, segments, &[]).unwrap();
    assert_eq!(end, 0);
    assert_eq!(store.manifest(), vec![7, 3]);
    assert!(store.insert(b"c".to_vec(), b"3".to_vec()));
    assert_eq!(store.flush_memtable(), Some(8));
    assert_eq!(store.manifest(), vec![7, 3, 8]);
}

#[test]
fn recovery_refuses_a_generation_twice() {
    let segments = vec![
        Segment::from_entries(1, vec![]).unwrap(),
        Segment::from_entries(2, vec![]).unwrap(),
        Segment::from_entries(1, vec![]).unwrap(),
    ];
    let opened = LsmStorage::recover(1024, segments, &[]);
    assert!(matches!(opened, Err(DbError::SerializationError(_))));
}

#[test]
fn recovery_refuses_the_last_generation() {
    let segments = vec![Segment::from_entries(u64::MAX, vec![]).unwrap()];
    let opened = LsmStorage::recover(1024, segments, &[]);
    assert!(matches!(opened, Err(DbError::SerializationError(_))));
}

#[test]
fn compaction_lets_the_newer_segment_decide() {
    let segments = vec![
        Segment::from_entries(0, vec![value(b"a", b"x")]).unwrap(),
        Segment::from_entries(1, vec![value(b"a", b"y"), value(b"b", b"z")]).unwrap(),
    ];
    let (mut store, _) = LsmStorage::recover(1024, segments, &[]).unwrap();
    assert_eq!(store.compact(0, 2), Some(vec![0, 1]));
    assert_eq!(store.get(b"a"), Some(b"y".to_vec()));
    assert_eq!(store.get(b"b"), Some(b"z".to_vec()));
    assert_eq!(store.manifest(), vec![2]);
    assert_eq!(store.segments()[0].entries(), &vec![value(b"a", b"y"), value(b"b", b"z")]);
}

#[test]
fn compaction_of_all_older_segments_drops_the_tombstone() {
    let segments = vec![
        Segment::from_entries(0, vec![value(b"k", b"v"), value(b"l", b"w")]).unwrap(),
        Segment::from_entries(1, vec![tombstone(b"k")]).unwrap(),
    ];
    let (mut store, _) = LsmStorage::recover(1024, segments, &[]).unwrap();
    assert_eq!(store.get(b"k"), None);
    assert_eq!(store.compact(0, 2), Some(vec![0, 1]));
    assert_eq!(store.segments()[0].entries(), &vec![value(b"l", b"w")]);
    assert_eq!(store.segments()[0].lookup(b"k"), None);
    assert_eq!(store.get(b"k"), None);
    assert_eq!(store.get(b"l"), Some(b"w".to_vec()));
}

#[test]
fn compaction_of_some_segments_keeps_the_tombstone() {
    let segments = vec![
        Segment::from_entries(0, vec![value(b"k", b"oldest")]).unwrap(),
        Segment::from_entries(1, vec![value(b"k", b"v")]).unwrap(),
        Segment::from_entries(2, vec![tombstone(b"k")]).unwrap(),
        Segment::from_entries(3, vec![value(b"m", b"n")]).unwrap(),
    ];
    let (mut store, _) = LsmStorage::recover(1024, segments, &[]).unwrap();
    assert_eq!(store.compact(1, 2), Some(vec![1, 2]));
    assert_eq!(store.manifest(), vec![0, 4, 3]);
    assert_eq!(store.segments()[1].lookup(b"k"), Some(Marker::Tombstone));
    assert_eq!(store.get(b"k"), None);
    assert_eq!(store.get(b"m"), Some(b"n".to_vec()));
    assert_eq!(store.compact(0, 2), Some(vec![0, 4]));
    assert_eq!(store.manifest(), vec![5, 3]);
    assert_eq!(store.segments()[0].len(), 0);
    assert_eq!(store.get(b"k"), None);
}

#[test]
fn compaction_leaves_newer_tables_alone() {
    let mut store = LsmStorage::new(0);
    store.insert(b"a".to_vec(), b"1".to_vec());
    store.flush_memtable();
    store.delete(b"a".to_vec());
    store.flush_memtable();
    store.insert(b"a".to_vec(), b"3".to_vec());
    store.insert(b"b".to_vec(), b"4".to_vec());
    assert_eq!(store.compact(0, 2), Some(vec![0, 1]));
    assert_eq!(store.manifest(), vec![3]);
    assert_eq!(store.frozen().unwrap().generation(), 2);
    assert_eq!(store.get(b"a"), Some(b"3".to_vec()));
    assert_eq!(store.get(b"b"), Some(b"4".to_vec()));
    assert_eq!(store.flush_memtable(), Some(2));
    assert_eq!(store.manifest(), vec![3, 2]);
    assert_eq!(store.get(b"a"), Some(b"3".to_vec()));
}

#[test]
fn compaction_of_no_such_stretch_does_nothing() {
    let segments = vec![
        Segment::from_entries(0, vec![value(b"a", b"x")]).unwrap(),
        Segment::from_entries(1, vec![value(b"a", b"y")]).unwrap(),
    ];
    let (mut store, _) = LsmStorage::recover(1024, segments, &[]).unwrap();
    assert_eq!(store.compact(0, 0), None);
    assert_eq!(store.compact(0, 3), None);
    assert_eq!(store.compact(2, 1), None);
    assert_eq!(store.compact(3, 0), None);
    assert_eq!(store.compact(1, usize::MAX), None);
    assert_eq!(store.manifest(), vec![0, 1]);
    assert_eq!(store.get(b"a"), Some(b"y".to_vec()));
}

#[test]
fn compaction_of_one_segment_rewrites_it() {
    let segments =
        vec![Segment::from_entries(0, vec![tombstone(b"a"), value(b"b", b"1")]).unwrap()];
    let (mut store, _) = LsmStorage::recover(1024, segments, &[]).unwrap();
    assert_eq!(store.compact(0, 1), Some(vec![0]));
    assert_eq!(store.manifest(), vec![1]);
    assert_eq!(store.segments()[0].entries(), &vec![value(b"b", b"1")]);
}

#[test]
fn compaction_is_called_for_above_the_limit() {
    let mut store = LsmStorage::new(1);
    assert!(!store.needs_compaction(0));
    store.insert(b"a".to_vec(), b"1".to_vec());
    store.flush_memtable();
    store.insert(b"b".to_vec(), b"2".to_vec());
    store.flush_memtable();
    assert!(store.needs_compaction(1));
    assert!(!store.needs_compaction(2));
}

#[test]
fn apply_records_an_entry() {
    let mut store = LsmStorage::new(1024);
    store.apply(value(b"a", b"1"));
    store.apply(tombstone(b"b"));
    assert_eq!(store.get(b"a"), Some(b"1".to_vec()));
    assert_eq!(store.get(b"b"), None);
    assert_eq!(store.memtable_size(), 3);
}

#[test]
fn cohort_brings_the_count_back_to_the_limit() {
    let segments: Vec<Segment> =
        (0..5u64).map(|g| Segment::from_entries(g, vec![]).unwrap()).collect();
    let (store, _) = LsmStorage::recover(1024, segments, &[]).unwrap();
    assert_eq!(store.compaction_cohort(5), None);
    assert_eq!(store.compaction_cohort(9), None);
    assert_eq!(store.compaction_cohort(4), Some(2));
    assert_eq!(store.compaction_cohort(1), Some(5));
    assert_eq!(store.compaction_cohort(0), Some(5));
    assert_eq!(LsmStorage::new(1).compaction_cohort(0), None);
}

#[test]
fn cohort_of_the_oldest_is_compacted() {
    let segments: Vec<Segment> = (0..5u64)
        .map(|g| Segment::from_entries(g, vec![value(b"k", &[g as u8])]).unwrap())
        .collect();
    let (mut store, _) = LsmStorage::recover(1024, segments, &[]).unwrap();
    let count = store.compaction_cohort(3).unwrap();
    assert_eq!(count, 3);
    assert_eq!(store.compact(0, count), Some(vec![0, 1, 2]));
    assert_eq!(store.manifest(), vec![5, 3, 4]);
    assert_eq!(store.segments()[0].lookup(b"k"), Some(Marker::Value(vec![2])));
    assert_eq!(store.get(b"k"), Some(vec![4]));
    assert_eq!(store.next_generation(), 6);
}

#[test]
fn store_tells_its_settings() {
    let store = LsmStorage::new(77);
    assert_eq!(store.flush_threshold(), 77);
    assert_eq!(store.next_generation(), 0);
}

#[test]
fn marker_value_is_what_a_reader_sees() {
    assert_eq!(rust_db::storage::marker_value(Marker::Value(b"v".to_vec())), Some(b"v".to_vec()));
    assert_eq!(rust_db::storage::marker_value(Marker::Tombstone), None);
}

#[test]
fn zero_threshold_freezes_at_the_first_byte() {
    let mut store = LsmStorage::new(0);
    assert!(!store.insert(b"".to_vec(), b"".to_vec()));
    assert!(store.frozen().is_none());
    assert!(store.insert(b"a".to_vec(), b"".to_vec()));
    assert_eq!(store.frozen().unwrap().len(), 2);
    assert_eq!(store.get(b""), Some(b"".to_vec()));
    assert_eq!(store.get(b"a"), Some(b"".to_vec()));
}
