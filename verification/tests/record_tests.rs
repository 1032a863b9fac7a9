use rust_db::record::{decode_log, decode_record, encode_record, OP_DELETE, OP_INSERT};
use rust_db::wire::{frame_bytes, take_bytes};
use rust_db::{Entry, Marker, StorageOp};

fn value(key: &[u8], value: &[u8]) -> Entry {
    Entry { key: key.to_vec(), marker: Marker::Value(value.to_vec()) }
}

fn tombstone(key: &[u8]) -> Entry {
    Entry { key: key.to_vec(), marker: Marker::Tombstone }
}

#[test]
fn frame_bytes_puts_the_length_first() {
    let framed = frame_bytes(b"abc").unwrap();
    assert_eq!(framed, vec![3, 0, 0, 0, 0, 0, 0, 0, b'a', b'b', b'c']);
}

#[test]
fn frame_bytes_of_nothing_is_eight_zero_bytes() {
    let framed = frame_bytes(b"").unwrap();
    assert_eq!(framed, vec![0u8; 8]);
}

#[test]
fn frame_bytes_matches_the_serializer() {
    let data: Vec<u8> = (0..=255u8).collect();
    let framed = frame_bytes(&data).unwrap();
    assert_eq!(framed, bincode::serialize(&data).unwrap());
    assert_eq!(framed.len(), 8 + 256);
    assert_eq!(&framed[..8], &[0, 1, 0, 0, 0, 0, 0, 0]);
}

#[test]
fn take_bytes_reads_back_what_was_framed() {
    let mut bytes = vec![9u8, 9];
    bytes.extend(frame_bytes(b"key").unwrap());
    bytes.extend(vec![7u8; 3]);
    assert_eq!(take_bytes(&bytes, 2), Some((b"key".to_vec(), 13)));
}

#[test]
fn take_bytes_refuses_a_short_length() {
    assert_eq!(take_bytes(&[1, 0, 0, 0, 0, 0, 0], 0), None);
}

#[test]
fn take_bytes_refuses_a_length_past_the_end() {
    assert_eq!(take_bytes(&[2, 0, 0, 0, 0, 0, 0, 0, 1], 0), None);
    assert_eq!(take_bytes(&[255; 8], 0), None);
}

#[test]
fn take_bytes_refuses_a_position_past_the_end() {
    assert_eq!(take_bytes(&[0; 8], 9), None);
}

#[test]
fn insert_record_has_opcode_key_and_value() {
    let bytes = StorageOp::Insert(b"a".to_vec(), b"xy".to_vec()).encode().unwrap();
    assert_eq!(
        bytes,
        vec![OP_INSERT, 1, 0, 0, 0, 0, 0, 0, 0, b'a', 2, 0, 0, 0, 0, 0, 0, 0, b'x', b'y']
    );
}

#[test]
fn delete_record_has_opcode_and_key() {
    let bytes = StorageOp::Delete(b"ab".to_vec()).encode().unwrap();
    assert_eq!(bytes, vec![OP_DELETE, 2, 0, 0, 0, 0, 0, 0, 0, b'a', b'b']);
}

#[test]
fn opcodes_are_zero_and_one() {
    assert_eq!(OP_INSERT, 0);
    assert_eq!(OP_DELETE, 1);
}

#[test]
fn entry_and_op_are_framed_alike() {
    let op = StorageOp::Insert(b"k".to_vec(), b"v".to_vec());
    assert_eq!(op.encode().unwrap(), value(b"k", b"v").encode().unwrap());
    let op = StorageOp::Delete(b"k".to_vec());
    assert_eq!(op.encode().unwrap(), tombstone(b"k").encode().unwrap());
    assert_eq!(
        encode_record(b"k", &Marker::Tombstone).unwrap(),
        tombstone(b"k").encode().unwrap()
    );
}

#[test]
fn op_becomes_the_entry_it_leaves() {
    assert_eq!(StorageOp::Insert(b"k".to_vec(), b"v".to_vec()).into_entry(), value(b"k", b"v"));
    assert_eq!(StorageOp::Delete(b"k".to_vec()).into_entry(), tombstone(b"k"));
}

#[test]
fn decode_record_reads_back_an_insert() {
    let bytes = value(b"key", b"value").encode().unwrap();
    assert_eq!(decode_record(&bytes, 0), Some((value(b"key", b"value"), bytes.len())));
}

#[test]
fn decode_record_reads_back_a_delete() {
    let bytes = tombstone(b"key").encode().unwrap();
    assert_eq!(decode_record(&bytes, 0), Some((tombstone(b"key"), 12)));
}

#[test]
fn decode_record_reads_empty_key_and_value() {
    let bytes = value(b"", b"").encode().unwrap();
    assert_eq!(bytes.len(), 17);
    assert_eq!(decode_record(&bytes, 0), Some((value(b"", b""), 17)));
}

#[test]
fn decode_record_refuses_an_unknown_opcode() {
    let mut bytes = value(b"k", b"v").encode().unwrap();
    bytes[0] = 2;
    assert_eq!(decode_record(&bytes, 0), None);
}

#[test]
fn decode_record_refuses_every_cut() {
    let bytes = value(b"key", b"value").encode().unwrap();
    for cut in 0..bytes.len() {
        assert_eq!(decode_record(&bytes[..cut], 0), None, "cut at {}", cut);
    }
    let bytes = tombstone(b"key").encode().unwrap();
    for cut in 0..bytes.len() {
        assert_eq!(decode_record(&bytes[..cut], 0), None, "cut at {}", cut);
    }
}

#[test]
fn decode_record_at_the_end_is_nothing() {
    let bytes = tombstone(b"k").encode().unwrap();
    assert_eq!(decode_record(&bytes, bytes.len()), None);
    assert_eq!(decode_record(&bytes, bytes.len() + 5), None);
}

#[test]
fn decode_log_reads_all_whole_records() {
    let mut log = Vec::new();
    log.extend(value(b"a", b"1").encode().unwrap());
    log.extend(tombstone(b"b").encode().unwrap());
    log.extend(value(b"a", b"2").encode().unwrap());
    let (entries, end) = decode_log(&log);
    assert_eq!(entries, vec![value(b"a", b"1"), tombstone(b"b"), value(b"a", b"2")]);
    assert_eq!(end, log.len());
}

#[test]
fn decode_log_stops_at_a_torn_tail() {
    let mut log = Vec::new();
    log.extend(value(b"a", b"1").encode().unwrap());
    let whole = log.len();
    let torn = value(b"b", b"2").encode().unwrap();
    log.extend(&torn[..torn.len() - 1]);
    let (entries, end) = decode_log(&log);
    assert_eq!(entries, vec![value(b"a", b"1")]);
    assert_eq!(end, whole);
}

#[test]
fn decode_log_of_nothing_is_empty() {
    let (entries, end) = decode_log(&[]);
    assert!(entries.is_empty());
    assert_eq!(end, 0);
}

#[test]
fn decode_log_stops_at_garbage() {
    let mut log = tombstone(b"a").encode().unwrap();
    let whole = log.len();
    log.extend([9u8, 9, 9]);
    log.extend(tombstone(b"b").encode().unwrap());
    let (entries, end) = decode_log(&log);
    assert_eq!(entries, vec![tombstone(b"a")]);
    assert_eq!(end, whole);
}

#[test]
fn marker_and_entry_duplicate_equal() {
    let e = value(b"k", b"v");
    assert_eq!(e.duplicate(), e);
    assert_eq!(Marker::Tombstone.duplicate(), Marker::Tombstone);
}
