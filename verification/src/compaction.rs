//! Merging segments: the work of compaction.

use crate::keys::{key_lt, key_order, lemma_key_lt_transitive, KeyOrder};
use crate::record::{entry_views, Entry, EntryView, Marker};
use crate::run::{
    below, holds, holds_at, lemma_empty_run, lemma_sorted_entry, run_map, sorted,
};
use crate::segment::Segment;
use crate::tiers::{live, overlay_all, TierMap};
use vstd::prelude::*;

verus! {

/// What each of a row of segments knows, segment by segment.
pub open spec fn segment_maps(segments: Seq<Segment>) -> Seq<TierMap> {
    Seq::new(segments.len(), |i: int| segments[i]@.map())
}

/// A sorted run stays sorted when an entry whose key sorts after its
/// last key is put at its end.
pub proof fn lemma_push_sorted(run: Seq<EntryView>, entry: EntryView)
    requires
        sorted(run),
        run.len() > 0 ==> key_lt(run.last().key, entry.key),
    ensures
        sorted(run.push(entry)),
{
    let grown = run.push(entry);
    assert forall|i: int, j: int| 0 <= i < j < grown.len() implies key_lt(
        grown[i].key,
        grown[j].key,
    ) by {
        if j < run.len() {
            assert(grown[i] == run[i] && grown[j] == run[j]);
        } else {
            assert(grown[i] == run[i]);
            if i < run.len() - 1 {
                assert(key_lt(run[i].key, run[run.len() - 1].key));
                lemma_key_lt_transitive(run[i].key, run.last().key, entry.key);
            }
        }
    }
}

/// Merges two sorted runs into one. Where both hold a key, the entry of
/// the newer run is kept.
pub fn merge_runs(older: &Vec<Entry>, newer: &Vec<Entry>) -> (merged: Vec<Entry>)
    requires
        sorted(entry_views(older@)),
        sorted(entry_views(newer@)),
    ensures
        sorted(entry_views(merged@)),
        run_map(entry_views(merged@)) == run_map(entry_views(older@)).union_prefer_right(
            run_map(entry_views(newer@)),
        ),
{
    let ghost old_run = entry_views(older@);
    let ghost new_run = entry_views(newer@);
    let mut merged: Vec<Entry> = Vec::new();
    let mut i: usize = 0;
    let mut j: usize = 0;
    proof {
        lemma_empty_run();
        assert(entry_views(merged@) =~= Seq::<EntryView>::empty());
    }
    while i < older.len() || j < newer.len()
        invariant
            old_run == entry_views(older@),
            new_run == entry_views(newer@),
            sorted(old_run),
            sorted(new_run),
            i <= older.len(),
            j <= newer.len(),
            sorted(entry_views(merged@)),
            i < older.len() ==> below(new_run, old_run[i as int].key, j as int),
            j < newer.len() ==> below(old_run, new_run[j as int].key, i as int),
            merged.len() > 0 && i < older.len() ==> key_lt(
                entry_views(merged@).last().key,
                old_run[i as int].key,
            ),
            merged.len() > 0 && j < newer.len() ==> key_lt(
                entry_views(merged@).last().key,
                new_run[j as int].key,
            ),
            forall|k: int|
                0 <= k < merged.len() ==> holds(old_run, (#[trigger] entry_views(merged@)[k]).key)
                    || holds(new_run, entry_views(merged@)[k].key),
            forall|a: int| 0 <= a < j ==> entry_views(merged@).contains(#[trigger] new_run[a]),
            forall|a: int|
                0 <= a < i ==> holds(new_run, (#[trigger] old_run[a]).key) || entry_views(
                    merged@,
                ).contains(old_run[a]),
        decreases (older.len() - i) + (newer.len() - j),
    {
        let ghost out = entry_views(merged@);
        let take_old: bool;
        let take_new: bool;
        if i == older.len() {
            take_old = false;
            take_new = true;
        } else if j == newer.len() {
            take_old = true;
            take_new = false;
        } else {
            assert(old_run[i as int] == older@[i as int]@);
            assert(new_run[j as int] == newer@[j as int]@);
            match key_order(older[i].key.as_slice(), newer[j].key.as_slice()) {
                KeyOrder::Less => {
                    take_old = true;
                    take_new = false;
                },
                KeyOrder::Greater => {
                    take_old = false;
                    take_new = true;
                },
                KeyOrder::Equal => {
                    take_old = true;
                    take_new = true;
                },
            }
        }
        if take_new {
            // The newer run's entry goes out; an equal key of the older run is passed over.
            let entry = newer[j].duplicate();
            proof {
                assert(new_run[j as int] == newer@[j as int]@);
                assert(entry@ == new_run[j as int]);
                lemma_push_sorted(out, entry@);
                assert(entry_views(merged@.push(entry)) =~= out.push(entry@));
                let grown = out.push(entry@);
                assert(holds_at(new_run, entry@.key, j as int));
                assert forall|k: int| 0 <= k < grown.len() implies holds(
                    old_run,
                    (#[trigger] grown[k]).key,
                ) || holds(new_run, grown[k].key) by {
                    if k < out.len() {
                        assert(grown[k] == out[k]);
                    }
                }
                assert forall|a: int| 0 <= a < j + 1 implies grown.contains(
                    #[trigger] new_run[a],
                ) by {
                    if a < j {
                        let k = choose|k: int| 0 <= k < out.len() && out[k] == new_run[a];
                        assert(grown[k] == new_run[a]);
                    } else {
                        assert(grown[out.len() as int] == new_run[a]);
                    }
                }
                assert forall|a: int| 0 <= a < i implies holds(
                    new_run,
                    (#[trigger] old_run[a]).key,
                ) || grown.contains(old_run[a]) by {
                    if !holds(new_run, old_run[a].key) {
                        let k = choose|k: int| 0 <= k < out.len() && out[k] == old_run[a];
                        assert(grown[k] == old_run[a]);
                    }
                }
                if take_old {
                    assert(holds_at(new_run, old_run[i as int].key, j as int));
                    if i + 1 < older.len() {
                        assert(key_lt(old_run[i as int].key, old_run[i + 1].key));
                        assert forall|a: int| 0 <= a < j + 1 && a < new_run.len() implies key_lt(
                            #[trigger] new_run[a].key,
                            old_run[i + 1].key,
                        ) by {
                            if a < j {
                                assert(key_lt(new_run[a].key, old_run[i as int].key));
                                lemma_key_lt_transitive(
                                    new_run[a].key,
                                    old_run[i as int].key,
                                    old_run[i + 1].key,
                                );
                            }
                        }
                    }
                    if j + 1 < newer.len() {
                        assert(key_lt(new_run[j as int].key, new_run[j + 1].key));
                        assert forall|a: int| 0 <= a < i + 1 && a < old_run.len() implies key_lt(
                            #[trigger] old_run[a].key,
                            new_run[j + 1].key,
                        ) by {
                            if a < i {
                                assert(key_lt(old_run[a].key, new_run[j as int].key));
                                lemma_key_lt_transitive(
                                    old_run[a].key,
                                    new_run[j as int].key,
                                    new_run[j + 1].key,
                                );
                            }
                        }
                    }
                } else {
                    if i < older.len() {
                        assert forall|a: int| 0 <= a < j + 1 && a < new_run.len() implies key_lt(
                            #[trigger] new_run[a].key,
                            old_run[i as int].key,
                        ) by {}
                    }
                    if j + 1 < newer.len() {
                        assert(key_lt(new_run[j as int].key, new_run[j + 1].key));
                        assert forall|a: int| 0 <= a < i && a < old_run.len() implies key_lt(
                            #[trigger] old_run[a].key,
                            new_run[j + 1].key,
                        ) by {
                            assert(key_lt(old_run[a].key, new_run[j as int].key));
                            lemma_key_lt_transitive(
                                old_run[a].key,
                                new_run[j as int].key,
                                new_run[j + 1].key,
                            );
                        }
                    }
                }
            }
            merged.push(entry);
            j += 1;
            if take_old {
                i += 1;
            }
        } else {
            // Only the older run holds this key.
            let entry = older[i].duplicate();
            proof {
                assert(old_run[i as int] == older@[i as int]@);
                assert(entry@ == old_run[i as int]);
                lemma_push_sorted(out, entry@);
                assert(entry_views(merged@.push(entry)) =~= out.push(entry@));
                let grown = out.push(entry@);
                assert(holds_at(old_run, entry@.key, i as int));
                assert forall|k: int| 0 <= k < grown.len() implies holds(
                    old_run,
                    (#[trigger] grown[k]).key,
                ) || holds(new_run, grown[k].key) by {
                    if k < out.len() {
                        assert(grown[k] == out[k]);
                    }
                }
                assert forall|a: int| 0 <= a < j implies grown.contains(
                    #[trigger] new_run[a],
                ) by {
                    let k = choose|k: int| 0 <= k < out.len() && out[k] == new_run[a];
                    assert(grown[k] == new_run[a]);
                }
                assert forall|a: int| 0 <= a < i + 1 implies holds(
                    new_run,
                    (#[trigger] old_run[a]).key,
                ) || grown.contains(old_run[a]) by {
                    if a == i {
                        assert(grown[out.len() as int] == old_run[a]);
                    } else if !holds(new_run, old_run[a].key) {
                        let k = choose|k: int| 0 <= k < out.len() && out[k] == old_run[a];
                        assert(grown[k] == old_run[a]);
                    }
                }
                if i + 1 < older.len() {
                    assert(key_lt(old_run[i as int].key, old_run[i + 1].key));
                    assert forall|a: int| 0 <= a < j && a < new_run.len() implies key_lt(
                        #[trigger] new_run[a].key,
                        old_run[i + 1].key,
                    ) by {
                        assert(key_lt(new_run[a].key, old_run[i as int].key));
                        lemma_key_lt_transitive(
                            new_run[a].key,
                            old_run[i as int].key,
                            old_run[i + 1].key,
                        );
                    }
                }
                if j < newer.len() {
                    assert forall|a: int| 0 <= a < i + 1 && a < old_run.len() implies key_lt(
                        #[trigger] old_run[a].key,
                        new_run[j as int].key,
                    ) by {}
                }
            }
            merged.push(entry);
            i += 1;
        }
    }
    proof {
        let out = entry_views(merged@);
        let target = run_map(old_run).union_prefer_right(run_map(new_run));
        assert forall|key: Seq<u8>| run_map(out).contains_key(key) <==> target.contains_key(
            key,
        ) by {
            if holds(out, key) {
                let k = choose|k: int| holds_at(out, key, k);
                assert(holds(old_run, out[k].key) || holds(new_run, out[k].key));
            }
            if holds(new_run, key) {
                let a = choose|a: int| holds_at(new_run, key, a);
                let k = choose|k: int| 0 <= k < out.len() && out[k] == new_run[a];
                assert(holds_at(out, key, k));
            } else if holds(old_run, key) {
                let a = choose|a: int| holds_at(old_run, key, a);
                let k = choose|k: int| 0 <= k < out.len() && out[k] == old_run[a];
                assert(holds_at(out, key, k));
            }
        }
        assert forall|key: Seq<u8>| run_map(out).contains_key(key) implies run_map(out)[key]
            == target[key] by {
            if holds(new_run, key) {
                let a = choose|a: int| holds_at(new_run, key, a);
                let k = choose|k: int| 0 <= k < out.len() && out[k] == new_run[a];
                lemma_sorted_entry(out, k);
                lemma_sorted_entry(new_run, a);
            } else {
                let a = choose|a: int| holds_at(old_run, key, a);
                let k = choose|k: int| 0 <= k < out.len() && out[k] == old_run[a];
                lemma_sorted_entry(out, k);
                lemma_sorted_entry(old_run, a);
            }
        }
        assert(run_map(out) =~= target);
    }
    merged
}

/// Drops the tombstones of a sorted run.
pub fn drop_tombstones(entries: Vec<Entry>) -> (kept: Vec<Entry>)
    requires
        sorted(entry_views(entries@)),
    ensures
        sorted(entry_views(kept@)),
        run_map(entry_views(kept@)) == live(run_map(entry_views(entries@))),
{
    let ghost run = entry_views(entries@);
    let mut kept: Vec<Entry> = Vec::new();
    let mut i: usize = 0;
    let ghost mut from: Seq<int> = Seq::empty();
    proof {
        lemma_empty_run();
        assert(entry_views(kept@) =~= Seq::<EntryView>::empty());
    }
    while i < entries.len()
        invariant
            run == entry_views(entries@),
            sorted(run),
            i <= entries.len(),
            sorted(entry_views(kept@)),
            from.len() == kept.len(),
            forall|k: int|
                0 <= k < kept.len() ==> 0 <= #[trigger] from[k] < i && entry_views(kept@)[k]
                    == run[from[k]] && run[from[k]].marker is Value,
            forall|a: int|
                0 <= a < i && (#[trigger] run[a]).marker is Value ==> entry_views(
                    kept@,
                ).contains(run[a]),
        decreases entries.len() - i,
    {
        let ghost out = entry_views(kept@);
        assert(run[i as int] == entries@[i as int]@);
        match &entries[i].marker {
            Marker::Value(_) => {
                let entry = entries[i].duplicate();
                proof {
                    if out.len() > 0 {
                        let last = out.len() - 1;
                        assert(out[last] == run[from[last]]);
                        assert(key_lt(run[from[last]].key, run[i as int].key));
                    }
                    lemma_push_sorted(out, entry@);
                    assert(entry_views(kept@.push(entry)) =~= out.push(entry@));
                    let grown = out.push(entry@);
                    let grown_from = from.push(i as int);
                    assert forall|k: int| 0 <= k < grown.len() implies 0 <= #[trigger] grown_from[k]
                        < i + 1 && grown[k] == run[grown_from[k]] && run[grown_from[k]].marker
                        is Value by {
                        if k < out.len() {
                            assert(grown_from[k] == from[k]);
                            assert(grown[k] == out[k]);
                        }
                    }
                    assert forall|a: int|
                        0 <= a < i + 1 && (#[trigger] run[a]).marker is Value implies grown.contains(
                        run[a],
                    ) by {
                        if a < i {
                            let k = choose|k: int| 0 <= k < out.len() && out[k] == run[a];
                            assert(grown[k] == run[a]);
                        } else {
                            assert(grown[out.len() as int] == run[a]);
                        }
                    }
                    from = grown_from;
                }
                kept.push(entry);
            },
            Marker::Tombstone => {},
        }
        i += 1;
    }
    proof {
        let out = entry_views(kept@);
        let target = live(run_map(run));
        assert forall|key: Seq<u8>| run_map(out).contains_key(key) <==> target.contains_key(
            key,
        ) by {
            if holds(out, key) {
                let k = choose|k: int| holds_at(out, key, k);
                assert(out[k] == run[from[k]]);
                assert(holds_at(run, key, from[k]));
                lemma_sorted_entry(run, from[k]);
            }
            if target.contains_key(key) {
                let a = choose|a: int| holds_at(run, key, a);
                lemma_sorted_entry(run, a);
                let k = choose|k: int| 0 <= k < out.len() && out[k] == run[a];
                assert(holds_at(out, key, k));
            }
        }
        assert forall|key: Seq<u8>| run_map(out).contains_key(key) implies run_map(out)[key]
            == target[key] by {
            let k = choose|k: int| holds_at(out, key, k);
            lemma_sorted_entry(out, k);
            assert(out[k] == run[from[k]]);
            lemma_sorted_entry(run, from[k]);
        }
        assert(run_map(out) =~= target);
    }
    kept
}

/// Merges the `count` segments that start at position `from` of a row
/// of segments, oldest first, into one segment with the given
/// generation. Where several hold a key, the newest of them decides.
/// Tombstones are kept unless `collect` asks to drop them.
pub fn merge_segments(
    segments: &Vec<Segment>,
    from: usize,
    count: usize,
    generation: u64,
    collect: bool,
) -> (merged: Segment)
    requires
        from + count <= segments.len(),
        forall|i: int| 0 <= i < segments.len() ==> (#[trigger] segments[i]).wf(),
    ensures
        merged.wf(),
        merged@.generation == generation,
        merged@.map() == if collect {
            live(overlay_all(segment_maps(segments@.subrange(from as int, from + count))))
        } else {
            overlay_all(segment_maps(segments@.subrange(from as int, from + count)))
        },
{
    let ghost maps = segment_maps(segments@.subrange(from as int, from + count));
    let mut acc: Vec<Entry> = Vec::new();
    let mut t: usize = 0;
    proof {
        lemma_empty_run();
        assert(entry_views(acc@) =~= Seq::<EntryView>::empty());
        assert(maps.subrange(0, 0) =~= Seq::<TierMap>::empty());
    }
    while t < count
        invariant
            from + count <= segments.len(),
            forall|i: int| 0 <= i < segments.len() ==> (#[trigger] segments[i]).wf(),
            maps == segment_maps(segments@.subrange(from as int, from + count)),
            t <= count,
            sorted(entry_views(acc@)),
            run_map(entry_views(acc@)) == overlay_all(maps.subrange(0, t as int)),
        decreases count - t,
    {
        let segment = &segments[from + t];
        proof {
            assert(segment.wf());
            segment.lemma_wf_sorted();
            assert(maps[t as int] == segments@.subrange(from as int, from + count)[t as int]@.map());
            assert(maps.subrange(0, t + 1).drop_last() =~= maps.subrange(0, t as int));
            assert(maps.subrange(0, t + 1).last() == maps[t as int]);
        }
        acc = merge_runs(&acc, segment.entries());
        t += 1;
    }
    proof {
        assert(maps.subrange(0, count as int) =~= maps);
    }
    if collect {
        acc = drop_tombstones(acc);
    }
    Segment::from_sorted(generation, acc)
}

} // verus!
