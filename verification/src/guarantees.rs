//! What the store guarantees, stated over its model and proved.
//!
//! The theorems speak of [`EngineView`], the mathematical content of the
//! engine, and of the byte framing of the write-ahead log.

use crate::memtable::replayed;
use crate::record::{
    frameable, lemma_decode_log_framed, lemma_decode_truncated, spec_decode, spec_decode_log,
    spec_frame, spec_frame_all, spec_log_end, EntryView, MarkerView,
};
use crate::storage::{distinct, next_after, tier_generations, tier_maps, EngineView, Tier};
use crate::tiers::{
    lemma_newest_hit, lemma_overlay_collect, lemma_overlay_concat, lemma_overlay_empty_top,
    lemma_overlay_one, lemma_overlay_replace, lemma_some_hit, overlay_all, visible, TierMap,
};
use crate::wire::spec_take_bytes;
use vstd::prelude::*;

verus! {

/// A write changes what the store knows of the written key, and of no
/// other.
pub proof fn lemma_write_merged(s: EngineView, entry: EntryView)
    ensures
        s.write(entry).merged() == s.merged().insert(entry.key, entry.marker),
{
    let before = s.tiers();
    let after = s.write(entry).tiers();
    assert(after.drop_last() =~= before.drop_last());
    assert(after.last() == before.last().insert(entry.key, entry.marker));
    assert(s.write(entry).merged() =~= s.merged().insert(entry.key, entry.marker));
}

/// Freezing the active table changes nothing of what the store knows.
pub proof fn lemma_freeze_merged(s: EngineView)
    requires
        s.frozen is None,
    ensures
        s.freeze().merged() == s.merged(),
{
    assert(s.freeze().tiers() =~= s.tiers().push(Map::empty()));
    lemma_overlay_empty_top(s.tiers());
}

/// A write, with the freeze that may follow it, changes what the store
/// knows of the written key, and of no other.
pub proof fn lemma_after_write_merged(s: EngineView, entry: EntryView)
    ensures
        s.after_write(entry).merged() == s.merged().insert(entry.key, entry.marker),
{
    lemma_write_merged(s, entry);
    if s.write(entry).should_freeze() {
        lemma_freeze_merged(s.write(entry));
    }
}

/// Completing a flush changes nothing of what the store knows: the frozen
/// table keeps its place among the tiers.
pub proof fn lemma_flush_merged(s: EngineView)
    ensures
        s.flush().merged() == s.merged(),
{
    assert(s.flush().tiers() =~= s.tiers());
}

/// Compaction changes nothing of what a reader is shown, and teaches the
/// store no new key. Where the cohort does not start at the oldest
/// segment, the tombstones stay and the store knows exactly what it knew.
pub proof fn lemma_compact_reads(s: EngineView, from: int, count: int, key: Seq<u8>)
    requires
        s.can_compact(from, count),
    ensures
        s.compact(from, count).read(key) == s.read(key),
        s.compact(from, count).merged().contains_key(key) ==> s.merged().contains_key(key),
        from > 0 ==> s.compact(from, count).merged() == s.merged(),
{
    let len = s.segments.len() as int;
    let before = tier_maps(s.segments.subrange(0, from));
    let cohort = tier_maps(s.segments.subrange(from, from + count));
    let after = tier_maps(s.segments.subrange(from + count, len));
    let top = match s.frozen {
        Some(tier) => seq![tier.map],
        None => Seq::empty(),
    } + seq![s.active];
    let merged = s.compacted(from, count).map;
    assert(s.tiers() =~= before + cohort + (after + top));
    assert(s.compact(from, count).tiers() =~= before + seq![merged] + (after + top));
    if from > 0 {
        lemma_overlay_replace(before, cohort, after + top);
    } else {
        assert(before =~= Seq::<TierMap>::empty());
        assert(before + cohort + (after + top) =~= cohort + (after + top));
        assert(before + seq![merged] + (after + top) =~= seq![merged] + (after + top));
        lemma_overlay_collect(cohort, after + top, key);
        lemma_overlay_one(merged);
        lemma_overlay_concat(seq![merged], after + top);
        lemma_overlay_concat(cohort, after + top);
    }
}

/// After a compaction that starts at the oldest segment, the segment it
/// leaves holds no tombstone: a deleted key is gone from it altogether.
pub proof fn lemma_compact_collects(s: EngineView, count: int, key: Seq<u8>)
    requires
        s.can_compact(0, count),
    ensures
        s.compact(0, count).segments[0] == s.compacted(0, count),
        s.compacted(0, count).map.contains_key(key) ==> s.compacted(0, count).map[key] is Value,
        overlay_all(tier_maps(s.segments.subrange(0, count))).contains_key(key) && overlay_all(
            tier_maps(s.segments.subrange(0, count)),
        )[key] is Tombstone ==> !s.compacted(0, count).map.contains_key(key),
{
    assert(s.segments.subrange(0, 0) =~= Seq::<Tier>::empty());
}

/// Of two values written for one key, a reader is shown the later.
pub proof fn lemma_last_insert_wins(s: EngineView, key: Seq<u8>, first: Seq<u8>, second: Seq<u8>)
    ensures
        s.after_write(EntryView { key, marker: MarkerView::Value(first) }).after_write(
            EntryView { key, marker: MarkerView::Value(second) },
        ).read(key) == Some(second),
{
    let e1 = EntryView { key, marker: MarkerView::Value(first) };
    let e2 = EntryView { key, marker: MarkerView::Value(second) };
    lemma_after_write_merged(s, e1);
    lemma_after_write_merged(s.after_write(e1), e2);
}

/// A key that was written and then deleted is shown to no reader,
/// whether or not a flush has moved the written value into a segment in
/// between, and whether or not the delete is itself flushed afterwards.
pub proof fn lemma_delete_hides(s: EngineView, key: Seq<u8>, value: Seq<u8>)
    ensures
        ({
            let written = s.after_write(EntryView { key, marker: MarkerView::Value(value) });
            let deleted = EntryView { key, marker: MarkerView::Tombstone };
            &&& written.read(key) == Some(value)
            &&& written.flush().read(key) == Some(value)
            &&& written.after_write(deleted).read(key) is None
            &&& written.flush().after_write(deleted).read(key) is None
            &&& written.flush().after_write(deleted).flush().read(key) is None
        }),
{
    let written = s.after_write(EntryView { key, marker: MarkerView::Value(value) });
    let deleted = EntryView { key, marker: MarkerView::Tombstone };
    lemma_after_write_merged(s, EntryView { key, marker: MarkerView::Value(value) });
    lemma_flush_merged(written);
    lemma_after_write_merged(written, deleted);
    lemma_after_write_merged(written.flush(), deleted);
    lemma_flush_merged(written.flush().after_write(deleted));
}

/// A write that takes the byte count of the active table over the
/// threshold, while no other table is being flushed and a generation is
/// left to give, freezes it; once that flush is complete the store has
/// one segment more and an empty active table, and a reader is shown
/// what the write left. A write that leaves the byte count at the
/// threshold or below freezes nothing.
pub proof fn lemma_flush_trigger(s: EngineView, entry: EntryView, key: Seq<u8>)
    requires
        s.frozen is None,
        s.next_generation < u64::MAX,
    ensures
        s.write(entry).active_size <= s.flush_threshold ==> s.after_write(entry) == s.write(
            entry,
        ),
        s.write(entry).active_size > s.flush_threshold ==> ({
            let flushed = s.after_write(entry).flush();
            &&& s.after_write(entry).frozen == Some(
                Tier { generation: s.next_generation, map: s.write(entry).active },
            )
            &&& flushed.segments == s.segments.push(
                Tier { generation: s.next_generation, map: s.write(entry).active },
            )
            &&& flushed.segments.len() == s.segments.len() + 1
            &&& flushed.frozen is None
            &&& flushed.active == Map::<Seq<u8>, MarkerView>::empty()
            &&& flushed.active_size == 0
            &&& flushed.read(key) == s.write(entry).read(key)
        }),
{
    lemma_write_merged(s, entry);
    lemma_after_write_merged(s, entry);
    lemma_flush_merged(s.after_write(entry));
}

/// The store is grounded in a run of logged mutations: it knows of no
/// key that the log does not mention, and it shows a reader, for every
/// key, what the last logged mutation of that key says.
pub open spec fn grounded(s: EngineView, ops: Seq<EntryView>) -> bool {
    forall|key: Seq<u8>|
        {
            &&& (#[trigger] s.merged().contains_key(key)) ==> replayed(ops).contains_key(key)
            &&& s.read(key) == visible(replayed(ops), key)
        }
}

/// A mutation that is logged and applied keeps the store grounded in the
/// log.
pub proof fn lemma_write_grounded(s: EngineView, ops: Seq<EntryView>, entry: EntryView)
    requires
        grounded(s, ops),
    ensures
        grounded(s.after_write(entry), ops.push(entry)),
{
    lemma_after_write_merged(s, entry);
    assert(ops.push(entry).drop_last() =~= ops);
    assert(replayed(ops.push(entry)) == replayed(ops).insert(entry.key, entry.marker));
    assert forall|key: Seq<u8>|
        {
            &&& (#[trigger] s.after_write(entry).merged().contains_key(key)) ==> replayed(
                ops.push(entry),
            ).contains_key(key)
            &&& s.after_write(entry).read(key) == visible(replayed(ops.push(entry)), key)
        } by {
        assert(s.merged().contains_key(key) ==> replayed(ops).contains_key(key));
        assert(s.read(key) == visible(replayed(ops), key));
    }
}

/// Freezing, flushing and compacting keep the store grounded in the log.
pub proof fn lemma_upkeep_grounded(s: EngineView, ops: Seq<EntryView>, from: int, count: int)
    requires
        grounded(s, ops),
    ensures
        s.frozen is None ==> grounded(s.freeze(), ops),
        grounded(s.flush(), ops),
        s.can_compact(from, count) ==> grounded(s.compact(from, count), ops),
{
    if s.frozen is None {
        lemma_freeze_merged(s);
    }
    lemma_flush_merged(s);
    if s.can_compact(from, count) {
        assert forall|key: Seq<u8>|
            {
                &&& (#[trigger] s.compact(from, count).merged().contains_key(key)) ==> replayed(
                    ops,
                ).contains_key(key)
                &&& s.compact(from, count).read(key) == visible(replayed(ops), key)
            } by {
            lemma_compact_reads(s, from, count, key);
            assert(s.merged().contains_key(key) ==> replayed(ops).contains_key(key));
            assert(s.read(key) == visible(replayed(ops), key));
        }
    }
}

/// Every key that a tier mentions is known to the stack of tiers.
proof fn lemma_hit_known(tiers: Seq<TierMap>, u: int, key: Seq<u8>)
    requires
        0 <= u < tiers.len(),
        tiers[u].contains_key(key),
    ensures
        overlay_all(tiers).contains_key(key),
    decreases tiers.len(),
{
    if u < tiers.len() - 1 {
        assert(tiers.drop_last()[u] == tiers[u]);
        lemma_hit_known(tiers.drop_last(), u, key);
    }
}

/// Opening a data directory gives a store that is grounded in its log,
/// provided its segments mention no key that the log does not.
pub proof fn lemma_recovered_grounded(
    segments: Seq<Tier>,
    ops: Seq<EntryView>,
    flush_threshold: usize,
)
    requires
        forall|t: int, key: Seq<u8>|
            0 <= t < segments.len() && (#[trigger] segments[t].map.contains_key(key))
                ==> replayed(ops).contains_key(key),
    ensures
        grounded(EngineView::recovered(segments, ops, flush_threshold), ops),
{
    let r = EngineView::recovered(segments, ops, flush_threshold);
    let tiers = r.tiers();
    let top = tiers.len() - 1;
    assert(tiers[top] == replayed(ops));
    assert forall|key: Seq<u8>|
        {
            &&& (#[trigger] r.merged().contains_key(key)) ==> replayed(ops).contains_key(key)
            &&& r.read(key) == visible(replayed(ops), key)
        } by {
        if replayed(ops).contains_key(key) {
            lemma_newest_hit(tiers, top, key);
        } else if r.merged().contains_key(key) {
            lemma_some_hit(tiers, key);
            let u = choose|u: int| 0 <= u < tiers.len() && (#[trigger] tiers[u]).contains_key(key);
            assert(u < top);
            assert(tiers[u] == segments[u].map);
            assert(segments[u].map.contains_key(key));
        }
    }
}

/// Crash and reopen: a store that is grounded in the log shows a reader
/// after reopening what it showed before, whether the directory lists
/// the segments alone or, the flush having reached the disk, the frozen
/// table among them. No write that was logged is lost.
pub proof fn lemma_reopen_reads(
    s: EngineView,
    ops: Seq<EntryView>,
    flush_threshold: usize,
    key: Seq<u8>,
)
    requires
        grounded(s, ops),
    ensures
        EngineView::recovered(s.segments, ops, flush_threshold).read(key) == s.read(key),
        EngineView::recovered(s.flush().segments, ops, flush_threshold).read(key) == s.read(key),
{
    lemma_flush_merged(s);
    lemma_segments_grounded(s, ops);
    lemma_segments_grounded(s.flush(), ops);
    lemma_recovered_grounded(s.segments, ops, flush_threshold);
    lemma_recovered_grounded(s.flush().segments, ops, flush_threshold);
    assert(s.merged().contains_key(key) ==> replayed(ops).contains_key(key));
    assert(s.flush().merged().contains_key(key) ==> replayed(ops).contains_key(key));
    let a = EngineView::recovered(s.segments, ops, flush_threshold);
    let b = EngineView::recovered(s.flush().segments, ops, flush_threshold);
    assert(a.merged().contains_key(key) ==> replayed(ops).contains_key(key));
    assert(b.merged().contains_key(key) ==> replayed(ops).contains_key(key));
}

/// The segments of a store that is grounded in the log mention no key
/// that the log does not.
pub proof fn lemma_segments_grounded(s: EngineView, ops: Seq<EntryView>)
    requires
        grounded(s, ops),
    ensures
        forall|t: int, key: Seq<u8>|
            0 <= t < s.segments.len() && (#[trigger] s.segments[t].map.contains_key(key))
                ==> replayed(ops).contains_key(key),
{
    assert forall|t: int, key: Seq<u8>|
        0 <= t < s.segments.len() && (#[trigger] s.segments[t].map.contains_key(
            key,
        )) implies replayed(ops).contains_key(key) by {
        assert(s.tiers()[t] == s.segments[t].map);
        lemma_hit_known(s.tiers(), t, key);
        assert(s.merged().contains_key(key));
    }
}

/// One thing that happens to a store.
pub enum Step {
    /// A mutation is logged and applied.
    Write(EntryView),
    /// The active table is frozen on request.
    Freeze,
    /// The flush of the frozen table is completed.
    Flush,
    /// The segments from a position on, so many of them, are compacted.
    Compact(int, int),
    /// The process stops, cleanly or not, and the data directory is
    /// opened again. It lists the segments alone.
    Reopen,
    /// As [`Step::Reopen`], but the frozen table had reached the disk
    /// and the manifest before the process stopped.
    ReopenFlushed,
}

/// The store and its log after `step`.
pub open spec fn after_step(s: EngineView, ops: Seq<EntryView>, step: Step) -> (
    EngineView,
    Seq<EntryView>,
) {
    match step {
        Step::Write(entry) => (s.after_write(entry), ops.push(entry)),
        Step::Freeze => (
            if s.frozen is None {
                s.freeze()
            } else {
                s
            },
            ops,
        ),
        Step::Flush => (s.flush(), ops),
        Step::Compact(from, count) => (
            if s.can_compact(from, count) {
                s.compact(from, count)
            } else {
                s
            },
            ops,
        ),
        Step::Reopen => (EngineView::recovered(s.segments, ops, s.flush_threshold), ops),
        Step::ReopenFlushed => (
            EngineView::recovered(s.flush().segments, ops, s.flush_threshold),
            ops,
        ),
    }
}

/// The store and its log after a history of steps that began with an
/// empty data directory.
pub open spec fn after_history(steps: Seq<Step>, flush_threshold: usize) -> (
    EngineView,
    Seq<EntryView>,
)
    decreases steps.len(),
{
    if steps.len() == 0 {
        (EngineView::recovered(Seq::empty(), Seq::empty(), flush_threshold), Seq::empty())
    } else {
        let before = after_history(steps.drop_last(), flush_threshold);
        after_step(before.0, before.1, steps.last())
    }
}

/// Whatever happens to a store, in whatever order, it shows a reader for
/// every key what the last logged mutation of that key says: writes,
/// freezes, flushes, compactions and restarts lose nothing and bring
/// nothing back.
pub proof fn lemma_history_grounded(steps: Seq<Step>, flush_threshold: usize)
    ensures
        grounded(after_history(steps, flush_threshold).0, after_history(steps, flush_threshold).1),
    decreases steps.len(),
{
    if steps.len() == 0 {
        lemma_recovered_grounded(Seq::empty(), Seq::empty(), flush_threshold);
    } else {
        let before = after_history(steps.drop_last(), flush_threshold);
        let s = before.0;
        let ops = before.1;
        lemma_history_grounded(steps.drop_last(), flush_threshold);
        match steps.last() {
            Step::Write(entry) => {
                lemma_write_grounded(s, ops, entry);
            },
            Step::Freeze => {
                lemma_upkeep_grounded(s, ops, 0, 0);
            },
            Step::Flush => {
                lemma_upkeep_grounded(s, ops, 0, 0);
            },
            Step::Compact(from, count) => {
                lemma_upkeep_grounded(s, ops, from, count);
            },
            Step::Reopen => {
                lemma_segments_grounded(s, ops);
                lemma_recovered_grounded(s.segments, ops, s.flush_threshold);
            },
            Step::ReopenFlushed => {
                lemma_upkeep_grounded(s, ops, 0, 0);
                lemma_segments_grounded(s.flush(), ops);
                lemma_recovered_grounded(s.flush().segments, ops, s.flush_threshold);
            },
        }
    }
}

/// No number that [`next_after`] gives lies above a bound that every
/// generation in use stays below.
proof fn lemma_next_after_below(generations: Seq<u64>, bound: int)
    requires
        0 <= bound,
        forall|i: int| 0 <= i < generations.len() ==> #[trigger] generations[i] < bound,
    ensures
        next_after(generations) <= bound,
    decreases generations.len(),
{
    if generations.len() > 0 {
        assert(generations[generations.len() - 1] < bound);
        assert forall|i: int| 0 <= i < generations.drop_last().len() implies #[trigger]
            generations.drop_last()[i] < bound by {
            assert(generations.drop_last()[i] == generations[i]);
        }
        lemma_next_after_below(generations.drop_last(), bound);
    }
}

/// What an engine lists can be opened again: the generations of its
/// segments, with or without the table being flushed among them, are
/// distinct and leave a generation to give, which is all that opening
/// asks of a list of segments.
pub proof fn lemma_recover_accepts(s: EngineView)
    requires
        s.generations_fresh(),
    ensures
        distinct(tier_generations(s.segments)),
        next_after(tier_generations(s.segments)) <= u64::MAX,
        distinct(tier_generations(s.flush().segments)),
        next_after(tier_generations(s.flush().segments)) <= u64::MAX,
{
    let all = s.generations();
    let listed = tier_generations(s.segments);
    let flushed = tier_generations(s.flush().segments);
    assert forall|i: int| 0 <= i < listed.len() implies #[trigger] listed[i]
        < s.next_generation by {
        assert(all[i] == listed[i]);
    }
    assert forall|i: int, j: int| 0 <= i < j < listed.len() implies listed[i] != listed[j] by {
        assert(all[i] == listed[i]);
        assert(all[j] == listed[j]);
    }
    assert(flushed =~= all);
    lemma_next_after_below(listed, s.next_generation as int);
    lemma_next_after_below(flushed, s.next_generation as int);
}

/// A log that ends in a record cut short by a crash is read as the
/// records that were written whole before it.
pub proof fn lemma_torn_tail(ops: Seq<EntryView>, torn: EntryView, cut: int)
    requires
        forall|i: int| 0 <= i < ops.len() ==> frameable(#[trigger] ops[i]),
        frameable(torn),
        0 <= cut < spec_frame(torn).len(),
    ensures
        spec_decode_log(spec_frame_all(ops) + spec_frame(torn).subrange(0, cut)) == ops,
        spec_log_end(spec_frame_all(ops) + spec_frame(torn).subrange(0, cut)) == spec_frame_all(
            ops,
        ).len(),
{
    let tail = spec_frame(torn).subrange(0, cut);
    lemma_decode_log_framed(ops, tail);
    lemma_decode_truncated(torn, cut);
    assert(ops + spec_decode_log(tail) =~= ops);
}

/// A length-prefixed byte string is read from the bytes it takes up
/// alone: what follows them does not matter.
proof fn lemma_take_prefix(bytes: Seq<u8>, other: Seq<u8>)
    requires
        spec_take_bytes(bytes) is Some,
        other.len() >= spec_take_bytes(bytes).unwrap().1,
        forall|i: int| 0 <= i < spec_take_bytes(bytes).unwrap().1 ==> other[i] == bytes[i],
    ensures
        spec_take_bytes(other) == spec_take_bytes(bytes),
        8 <= spec_take_bytes(bytes).unwrap().1 <= bytes.len(),
{
    let used = spec_take_bytes(bytes).unwrap().1;
    assert(other.subrange(0, 8) =~= bytes.subrange(0, 8));
    assert(other.subrange(8, used) =~= bytes.subrange(8, used));
}

/// A record is read from the bytes it takes up alone: what follows them
/// does not matter.
proof fn lemma_decode_prefix(bytes: Seq<u8>, other: Seq<u8>)
    requires
        spec_decode(bytes) is Some,
        other.len() >= spec_decode(bytes).unwrap().1,
        forall|i: int| 0 <= i < spec_decode(bytes).unwrap().1 ==> other[i] == bytes[i],
    ensures
        spec_decode(other) == spec_decode(bytes),
        0 < spec_decode(bytes).unwrap().1 <= bytes.len(),
{
    let key_used = spec_take_bytes(bytes.skip(1)).unwrap().1;
    assert(other[0] == bytes[0]);
    let other_key = other.skip(1);
    let bytes_key = bytes.skip(1);
    assert forall|i: int| 0 <= i < key_used implies #[trigger] other_key[i] == bytes_key[i] by {
        assert(other[i + 1] == bytes[i + 1]);
    }
    lemma_take_prefix(bytes.skip(1), other.skip(1));
    if bytes[0] == crate::record::OP_INSERT {
        let value_used = spec_take_bytes(bytes.skip(1 + key_used)).unwrap().1;
        let other_value = other.skip(1 + key_used);
        let bytes_value = bytes.skip(1 + key_used);
        assert forall|i: int| 0 <= i < value_used implies #[trigger] other_value[i]
            == bytes_value[i] by {
            assert(other[i + 1 + key_used] == bytes[i + 1 + key_used]);
        }
        lemma_take_prefix(bytes.skip(1 + key_used), other.skip(1 + key_used));
    }
}

/// Cutting a log off where its whole records end leaves a log that is
/// whole to its last byte and holds the same records.
pub proof fn lemma_log_truncated(log: Seq<u8>)
    ensures
        0 <= spec_log_end(log) <= log.len(),
        spec_decode_log(log.subrange(0, spec_log_end(log))) == spec_decode_log(log),
        spec_log_end(log.subrange(0, spec_log_end(log))) == spec_log_end(log),
    decreases log.len(),
{
    let end = spec_log_end(log);
    match spec_decode(log) {
        Some((entry, used)) => {
            let rest = log.skip(used);
            lemma_decode_prefix(log, log);
            lemma_log_truncated(rest);
            let cut = log.subrange(0, end);
            assert forall|i: int| 0 <= i < used implies #[trigger] cut[i] == log[i] by {}
            lemma_decode_prefix(log, cut);
            assert(cut.skip(used) =~= rest.subrange(0, spec_log_end(rest)));
        },
        None => {
            assert(log.subrange(0, 0) =~= Seq::<u8>::empty());
            assert(spec_decode(Seq::<u8>::empty()) is None);
        },
    }
}

/// Opening twice with no write in between gives the same store, also
/// where the first opening cut a torn tail off the log.
pub proof fn lemma_reopen_idempotent(segments: Seq<Tier>, log: Seq<u8>, flush_threshold: usize)
    ensures
        EngineView::recovered(
            segments,
            spec_decode_log(log.subrange(0, spec_log_end(log))),
            flush_threshold,
        ) == EngineView::recovered(segments, spec_decode_log(log), flush_threshold),
{
    lemma_log_truncated(log);
}

} // verus!
