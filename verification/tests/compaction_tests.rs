use rust_db::compaction::{drop_tombstones, merge_runs, merge_segments};
use rust_db::{Entry, Marker, Segment};

fn value(key: &[u8], value: &[u8]) -> Entry {
    Entry { key: key.to_vec(), marker: Marker::Value(value.to_vec()) }
}

fn tombstone(key: &[u8]) -> Entry {
    Entry { key: key.to_vec(), marker: Marker::Tombstone }
}

#[test]
fn merge_runs_interleaves() {
    let older = vec![value(b"a", b"1"), value(b"c", b"3"), value(b"e", b"5")];
    let newer = vec![value(b"b", b"2"), value(b"d", b"4")];
    assert_eq!(
        merge_runs(&older, &newer),
        vec![
            value(b"a", b"1"),
            value(b"b", b"2"),
            value(b"c", b"3"),
            value(b"d", b"4"),
            value(b"e", b"5")
        ]
    );
}

#[test]
fn merge_runs_prefers_the_newer_entry() {
    let older = vec![value(b"a", b"old"), value(b"b", b"old")];
    let newer = vec![value(b"a", b"new"), tombstone(b"b")];
    assert_eq!(merge_runs(&older, &newer), vec![value(b"a", b"new"), tombstone(b"b")]);
}

#[test]
fn merge_runs_with_an_empty_side() {
    let run = vec![value(b"a", b"1"), tombstone(b"b")];
    assert_eq!(merge_runs(&run, &vec![]), run);
    assert_eq!(merge_runs(&vec![], &run), run);
    assert!(merge_runs(&vec![], &vec![]).is_empty());
}

#[test]
fn drop_tombstones_keeps_the_values() {
    let run = vec![tombstone(b"a"), value(b"b", b"2"), tombstone(b"c"), value(b"d", b"4")];
    assert_eq!(drop_tombstones(run), vec![value(b"b", b"2"), value(b"d", b"4")]);
    assert!(drop_tombstones(vec![tombstone(b"a")]).is_empty());
    assert!(drop_tombstones(vec![]).is_empty());
}

#[test]
fn merge_segments_lets_the_newest_decide() {
    let segments = vec![
        Segment::from_entries(1, vec![value(b"a", b"1"), value(b"b", b"1")]).unwrap(),
        Segment::from_entries(2, vec![value(b"b", b"2"), value(b"c", b"2")]).unwrap(),
        Segment::from_entries(3, vec![value(b"c", b"3"), tombstone(b"a")]).unwrap_or_else(|| {
            Segment::from_entries(3, vec![tombstone(b"a"), value(b"c", b"3")]).unwrap()
        }),
    ];
    let merged = merge_segments(&segments, 0, 3, 10, false);
    assert_eq!(merged.generation(), 10);
    assert_eq!(
        merged.entries(),
        &vec![tombstone(b"a"), value(b"b", b"2"), value(b"c", b"3")]
    );
    let collected = merge_segments(&segments, 0, 3, 11, true);
    assert_eq!(collected.entries(), &vec![value(b"b", b"2"), value(b"c", b"3")]);
}

#[test]
fn merge_segments_of_a_stretch_in_the_middle() {
    let segments = vec![
        Segment::from_entries(1, vec![value(b"a", b"1")]).unwrap(),
        Segment::from_entries(2, vec![value(b"a", b"2")]).unwrap(),
        Segment::from_entries(3, vec![value(b"b", b"3")]).unwrap(),
        Segment::from_entries(4, vec![value(b"a", b"4")]).unwrap(),
    ];
    let merged = merge_segments(&segments, 1, 2, 9, false);
    assert_eq!(merged.entries(), &vec![value(b"a", b"2"), value(b"b", b"3")]);
    let none = merge_segments(&segments, 2, 0, 9, false);
    assert_eq!(none.len(), 0);
}
