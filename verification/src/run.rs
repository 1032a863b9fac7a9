//! Sorted runs: sequences of entries whose keys strictly increase.
//!
//! The in-memory table and every segment keep their entries as a sorted
//! run, which stands for a map from key to marker.

use crate::keys::{
    key_lt, key_order, lemma_key_lt_asymmetric, lemma_key_lt_transitive, KeyOrder,
};
use crate::record::{entry_views, Entry, EntryView, MarkerView};
use vstd::prelude::*;

verus! {

/// The keys of `run` strictly increase.
pub open spec fn sorted(run: Seq<EntryView>) -> bool {
    forall|i: int, j: int|
        #![trigger run[i], run[j]]
        0 <= i < j < run.len() ==> key_lt(run[i].key, run[j].key)
}

/// `run` has an entry for `key` at position `i`.
pub open spec fn holds_at(run: Seq<EntryView>, key: Seq<u8>, i: int) -> bool {
    0 <= i < run.len() && run[i].key == key
}

/// `run` has an entry for `key`.
pub open spec fn holds(run: Seq<EntryView>, key: Seq<u8>) -> bool {
    exists|i: int| holds_at(run, key, i)
}

/// The map that a run stands for: each key with the marker of its entry.
pub open spec fn run_map(run: Seq<EntryView>) -> Map<Seq<u8>, MarkerView> {
    Map::new(
        |key: Seq<u8>| holds(run, key),
        |key: Seq<u8>| run[choose|i: int| holds_at(run, key, i)].marker,
    )
}

/// Every entry of `run` before position `idx` sorts before `key`.
pub open spec fn below(run: Seq<EntryView>, key: Seq<u8>, idx: int) -> bool {
    forall|j: int| 0 <= j < idx && j < run.len() ==> key_lt(#[trigger] run[j].key, key)
}

/// Every entry of `run` from position `from` on sorts after `key`.
pub open spec fn above(run: Seq<EntryView>, key: Seq<u8>, from: int) -> bool {
    forall|j: int| 0 <= from <= j < run.len() ==> key_lt(key, #[trigger] run[j].key)
}

/// In a sorted run, the entry at a position is the entry of its key.
pub proof fn lemma_sorted_entry(run: Seq<EntryView>, i: int)
    requires
        sorted(run),
        0 <= i < run.len(),
    ensures
        run_map(run).contains_key(run[i].key),
        run_map(run)[run[i].key] == run[i].marker,
{
    let key = run[i].key;
    assert(holds_at(run, key, i));
    let p = choose|p: int| holds_at(run, key, p);
    if p < i {
        assert(key_lt(run[p].key, run[i].key));
        lemma_key_lt_asymmetric(run[p].key, run[i].key);
    } else if i < p {
        assert(key_lt(run[i].key, run[p].key));
        lemma_key_lt_asymmetric(run[i].key, run[p].key);
    }
}

/// A key that falls between two neighbours of a sorted run is not in it.
pub proof fn lemma_absent(run: Seq<EntryView>, key: Seq<u8>, idx: int)
    requires
        0 <= idx <= run.len(),
        below(run, key, idx),
        above(run, key, idx),
    ensures
        !holds(run, key),
        !run_map(run).contains_key(key),
{
    if holds(run, key) {
        let p = choose|p: int| holds_at(run, key, p);
        if p < idx {
            assert(key_lt(run[p].key, key));
            lemma_key_lt_asymmetric(run[p].key, key);
        } else {
            assert(key_lt(key, run[p].key));
            lemma_key_lt_asymmetric(key, run[p].key);
        }
    }
}

/// Putting a new key at its place in a sorted run keeps the run sorted
/// and adds the key to its map.
pub proof fn lemma_insert_entry(run: Seq<EntryView>, idx: int, entry: EntryView)
    requires
        sorted(run),
        0 <= idx <= run.len(),
        below(run, entry.key, idx),
        above(run, entry.key, idx),
    ensures
        sorted(run.insert(idx, entry)),
        run_map(run.insert(idx, entry)) == run_map(run).insert(entry.key, entry.marker),
{
    let grown = run.insert(idx, entry);
    assert forall|i: int, j: int| 0 <= i < j < grown.len() implies key_lt(
        grown[i].key,
        grown[j].key,
    ) by {
        if j < idx {
            assert(grown[i] == run[i] && grown[j] == run[j]);
        } else if j == idx {
            assert(grown[i] == run[i]);
        } else if i < idx {
            assert(grown[i] == run[i] && grown[j] == run[j - 1]);
        } else if i == idx {
            assert(grown[j] == run[j - 1]);
        } else {
            assert(grown[i] == run[i - 1] && grown[j] == run[j - 1]);
        }
    }
    lemma_absent(run, entry.key, idx);
    let target = run_map(run).insert(entry.key, entry.marker);
    assert forall|key: Seq<u8>| run_map(grown).contains_key(key) <==> target.contains_key(
        key,
    ) by {
        if holds(grown, key) {
            let p = choose|p: int| holds_at(grown, key, p);
            if p < idx {
                assert(holds_at(run, key, p));
            } else if p > idx {
                assert(holds_at(run, key, p - 1));
            }
        }
        if key == entry.key {
            assert(holds_at(grown, key, idx));
        } else if holds(run, key) {
            let p = choose|p: int| holds_at(run, key, p);
            if p < idx {
                assert(holds_at(grown, key, p));
            } else {
                assert(holds_at(grown, key, p + 1));
            }
        }
    }
    assert forall|key: Seq<u8>| run_map(grown).contains_key(key) implies run_map(grown)[key]
        == target[key] by {
        let p = choose|p: int| holds_at(grown, key, p);
        lemma_sorted_entry(grown, p);
        if p < idx {
            assert(holds_at(run, key, p));
            lemma_sorted_entry(run, p);
        } else if p > idx {
            assert(holds_at(run, key, p - 1));
            lemma_sorted_entry(run, p - 1);
        }
    }
    assert(run_map(grown) =~= target);
}

/// Replacing the entry of a key in a sorted run keeps the run sorted and
/// gives the key its new marker.
pub proof fn lemma_update_entry(run: Seq<EntryView>, idx: int, entry: EntryView)
    requires
        sorted(run),
        0 <= idx < run.len(),
        run[idx].key == entry.key,
    ensures
        sorted(run.update(idx, entry)),
        run_map(run.update(idx, entry)) == run_map(run).insert(entry.key, entry.marker),
{
    let changed = run.update(idx, entry);
    assert forall|i: int, j: int| 0 <= i < j < changed.len() implies key_lt(
        changed[i].key,
        changed[j].key,
    ) by {
        assert(changed[i].key == run[i].key && changed[j].key == run[j].key);
    }
    let target = run_map(run).insert(entry.key, entry.marker);
    assert forall|key: Seq<u8>| run_map(changed).contains_key(key) <==> target.contains_key(
        key,
    ) by {
        if holds(changed, key) {
            let p = choose|p: int| holds_at(changed, key, p);
            assert(holds_at(run, key, p));
        }
        if key == entry.key {
            assert(holds_at(changed, key, idx));
        } else if holds(run, key) {
            let p = choose|p: int| holds_at(run, key, p);
            assert(holds_at(changed, key, p));
        }
    }
    assert forall|key: Seq<u8>| run_map(changed).contains_key(key) implies run_map(
        changed,
    )[key] == target[key] by {
        let p = choose|p: int| holds_at(changed, key, p);
        lemma_sorted_entry(changed, p);
        if p != idx {
            assert(holds_at(run, key, p));
            lemma_sorted_entry(run, p);
        }
    }
    assert(run_map(changed) =~= target);
}

/// The empty run stands for the empty map.
pub proof fn lemma_empty_run()
    ensures
        sorted(Seq::<EntryView>::empty()),
        run_map(Seq::<EntryView>::empty()) == Map::<Seq<u8>, MarkerView>::empty(),
{
    assert(run_map(Seq::<EntryView>::empty()) =~= Map::<Seq<u8>, MarkerView>::empty());
}

/// Finds where `key` stands in a sorted run by halving the range that
/// can hold it: the position of its entry if it has one, else the
/// position at which an entry for it would have to be put.
pub(crate) fn search(entries: &Vec<Entry>, key: &[u8], from: usize, to: usize) -> (found: (usize, bool))
    requires
        sorted(entry_views(entries@)),
        from <= to <= entries.len(),
        below(entry_views(entries@), key@, from as int),
        above(entry_views(entries@), key@, to as int),
    ensures
        from <= found.0 <= to,
        found.1 ==> holds_at(entry_views(entries@), key@, found.0 as int),
        !found.1 ==> !holds(entry_views(entries@), key@),
        below(entry_views(entries@), key@, found.0 as int),
        above(entry_views(entries@), key@, if found.1 { found.0 + 1 } else { found.0 as int }),
{
    let ghost run = entry_views(entries@);
    let mut lo: usize = from;
    let mut hi: usize = to;
    while lo < hi
        invariant
            run == entry_views(entries@),
            sorted(run),
            from <= lo <= hi <= to <= entries.len(),
            below(run, key@, lo as int),
            above(run, key@, hi as int),
        decreases hi - lo,
    {
        let mid = lo + (hi - lo) / 2;
        assert(run[mid as int] == entries@[mid as int]@);
        match key_order(entries[mid].key.as_slice(), key) {
            KeyOrder::Less => {
                proof {
                    assert forall|j: int| 0 <= j < mid + 1 && j < run.len() implies key_lt(
                        #[trigger] run[j].key,
                        key@,
                    ) by {
                        if j < mid {
                            assert(key_lt(run[j].key, run[mid as int].key));
                            lemma_key_lt_transitive(run[j].key, run[mid as int].key, key@);
                        }
                    }
                }
                lo = mid + 1;
            },
            KeyOrder::Greater => {
                proof {
                    assert forall|j: int| mid <= j < run.len() implies key_lt(
                        key@,
                        #[trigger] run[j].key,
                    ) by {
                        if mid < j {
                            assert(key_lt(run[mid as int].key, run[j].key));
                            lemma_key_lt_transitive(key@, run[mid as int].key, run[j].key);
                        }
                    }
                }
                hi = mid;
            },
            KeyOrder::Equal => {
                proof {
                    assert forall|j: int| 0 <= j < mid && j < run.len() implies key_lt(
                        #[trigger] run[j].key,
                        key@,
                    ) by {
                        assert(key_lt(run[j].key, run[mid as int].key));
                    }
                    assert forall|j: int| mid + 1 <= j < run.len() implies key_lt(
                        key@,
                        #[trigger] run[j].key,
                    ) by {
                        assert(key_lt(run[mid as int].key, run[j].key));
                    }
                }
                return (mid, true);
            },
        }
    }
    proof {
        lemma_absent(run, key@, lo as int);
    }
    (lo, false)
}

} // verus!
