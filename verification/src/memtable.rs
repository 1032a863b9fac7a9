//! The in-memory table of recent mutations.

use crate::record::{
    decode_record, entry_views, spec_decode, spec_decode_log, spec_log_end, Entry, EntryView,
    Marker, MarkerView,
};
use crate::run::{
    holds_at, lemma_empty_run, lemma_insert_entry, lemma_sorted_entry, lemma_update_entry, run_map, search,
    sorted,
};
use vstd::prelude::*;

verus! {

/// The size counter of a table after `entry` was put into it: the
/// lengths of the key and of the value are added, and the counter stops
/// at the largest number it can hold.
pub open spec fn grown_size(size: nat, entry: EntryView) -> nat {
    let sum = size + entry.key.len() + entry.marker.weight();
    if sum > usize::MAX {
        usize::MAX as nat
    } else {
        sum
    }
}

/// The table that a run of mutations leaves when they are applied in
/// order to an empty table: for each key, what the last mutation of it
/// says.
pub open spec fn replayed(ops: Seq<EntryView>) -> Map<Seq<u8>, MarkerView>
    decreases ops.len(),
{
    if ops.len() == 0 {
        Map::empty()
    } else {
        replayed(ops.drop_last()).insert(ops.last().key, ops.last().marker)
    }
}

/// The size counter of a table after a run of mutations was applied to
/// an empty table.
pub open spec fn replayed_size(ops: Seq<EntryView>) -> nat
    decreases ops.len(),
{
    if ops.len() == 0 {
        0
    } else {
        grown_size(replayed_size(ops.drop_last()), ops.last())
    }
}

/// A sorted buffer of the most recent mutations, tombstones included,
/// with a running count of the bytes written into it.
#[derive(Debug)]
pub struct MemTable {
    entries: Vec<Entry>,
    size: usize,
}

impl View for MemTable {
    type V = Map<Seq<u8>, MarkerView>;

    /// What the table knows of each key.
    closed spec fn view(&self) -> Map<Seq<u8>, MarkerView> {
        run_map(entry_views(self.entries@))
    }
}

impl MemTable {
    /// The table's entries are in key order, one for each key.
    pub closed spec fn wf(&self) -> bool {
        sorted(entry_views(self.entries@))
    }

    /// The entries of the table in key order.
    pub closed spec fn run(&self) -> Seq<EntryView> {
        entry_views(self.entries@)
    }

    /// The running count of bytes written into the table.
    pub closed spec fn spec_size(&self) -> nat {
        self.size as nat
    }

    /// The entries of a well-formed table are sorted and stand for its
    /// view.
    pub proof fn lemma_run_view(&self)
        requires
            self.wf(),
        ensures
            sorted(self.run()),
            run_map(self.run()) == self@,
    {
    }

    /// An empty table.
    pub fn new() -> (table: MemTable)
        ensures
            table.wf(),
            table@ == Map::<Seq<u8>, MarkerView>::empty(),
            table.spec_size() == 0,
            table.run() == Seq::<EntryView>::empty(),
    {
        proof {
            lemma_empty_run();
            assert(entry_views(Seq::<Entry>::empty()) =~= Seq::<EntryView>::empty());
        }
        MemTable { entries: Vec::new(), size: 0 }
    }

    /// Records `entry`, replacing what the table knew of its key.
    pub fn put(&mut self, entry: Entry)
        requires
            old(self).wf(),
        ensures
            final(self).wf(),
            final(self)@ == old(self)@.insert(entry@.key, entry@.marker),
            final(self).spec_size() == grown_size(old(self).spec_size(), entry@),
    {
        let ghost before = entry_views(self.entries@);
        let weight = match &entry.marker {
            Marker::Value(value) => value.len(),
            Marker::Tombstone => 0,
        };
        let size = self.size.saturating_add(entry.key.len()).saturating_add(weight);
        let (idx, found) = search(&self.entries, entry.key.as_slice(), 0, self.entries.len());
        if found {
            proof {
                lemma_update_entry(before, idx as int, entry@);
                assert(entry_views(self.entries@.update(idx as int, entry)) =~= before.update(
                    idx as int,
                    entry@,
                ));
            }
            self.entries.set(idx, entry);
        } else {
            proof {
                lemma_insert_entry(before, idx as int, entry@);
                assert(entry_views(self.entries@.insert(idx as int, entry)) =~= before.insert(
                    idx as int,
                    entry@,
                ));
            }
            self.entries.insert(idx, entry);
        }
        self.size = size;
    }

    /// Records a value for `key`.
    pub fn insert(&mut self, key: Vec<u8>, value: Vec<u8>)
        requires
            old(self).wf(),
        ensures
            final(self).wf(),
            final(self)@ == old(self)@.insert(key@, MarkerView::Value(value@)),
            final(self).spec_size() == grown_size(
                old(self).spec_size(),
                EntryView { key: key@, marker: MarkerView::Value(value@) },
            ),
    {
        self.put(Entry { key, marker: Marker::Value(value) });
    }

    /// Records that `key` was deleted.
    pub fn delete(&mut self, key: Vec<u8>)
        requires
            old(self).wf(),
        ensures
            final(self).wf(),
            final(self)@ == old(self)@.insert(key@, MarkerView::Tombstone),
            final(self).spec_size() == grown_size(
                old(self).spec_size(),
                EntryView { key: key@, marker: MarkerView::Tombstone },
            ),
    {
        self.put(Entry { key, marker: Marker::Tombstone });
    }

    /// What the table knows of `key`: its value, that it was deleted, or
    /// nothing.
    pub fn get(&self, key: &[u8]) -> (marker: Option<Marker>)
        requires
            self.wf(),
        ensures
            match marker {
                Some(m) => self@.contains_key(key@) && self@[key@] == m@,
                None => !self@.contains_key(key@),
            },
    {
        let (idx, found) = search(&self.entries, key, 0, self.entries.len());
        if found {
            proof {
                lemma_sorted_entry(entry_views(self.entries@), idx as int);
            }
            Some(self.entries[idx].marker.duplicate())
        } else {
            None
        }
    }

    /// The running count of bytes written into the table.
    pub fn size(&self) -> (size: usize)
        ensures
            size == self.spec_size(),
    {
        self.size
    }

    /// How many keys the table knows of.
    pub fn len(&self) -> (len: usize)
        ensures
            len == self.run().len(),
    {
        self.entries.len()
    }

    /// Whether the table knows of no key at all.
    pub fn is_empty(&self) -> (empty: bool)
        requires
            self.wf(),
        ensures
            empty == (self@ == Map::<Seq<u8>, MarkerView>::empty()),
    {
        proof {
            let run = entry_views(self.entries@);
            if run.len() == 0 {
                assert(self@ =~= Map::<Seq<u8>, MarkerView>::empty());
            } else {
                assert(holds_at(run, run[0].key, 0));
                assert(self@.contains_key(run[0].key));
            }
        }
        self.entries.len() == 0
    }

    /// Hands the table's contents off as a snapshot and leaves the table
    /// empty for the writes that follow.
    pub fn freeze(&mut self) -> (snapshot: MemTable)
        requires
            old(self).wf(),
        ensures
            snapshot.wf(),
            final(self).wf(),
            snapshot@ == old(self)@,
            snapshot.run() == old(self).run(),
            snapshot.spec_size() == old(self).spec_size(),
            final(self)@ == Map::<Seq<u8>, MarkerView>::empty(),
            final(self).run() == Seq::<EntryView>::empty(),
            final(self).spec_size() == 0,
    {
        proof {
            lemma_empty_run();
            assert(entry_views(Seq::<Entry>::empty()) =~= Seq::<EntryView>::empty());
        }
        let mut entries: Vec<Entry> = Vec::new();
        std::mem::swap(&mut self.entries, &mut entries);
        let size = self.size;
        self.size = 0;
        MemTable { entries, size }
    }

    /// Gives up the table for its entries in key order.
    pub fn into_entries(self) -> (entries: Vec<Entry>)
        requires
            self.wf(),
        ensures
            entry_views(entries@) == self.run(),
            sorted(entry_views(entries@)),
            run_map(entry_views(entries@)) == self@,
    {
        self.entries
    }

    /// Rebuilds a table from the bytes of a write-ahead log: every whole
    /// record is applied in order, and reading stops at the first place
    /// where no whole record stands. The second result is the number of
    /// bytes that were understood.
    pub fn replay(log: &[u8]) -> (recovered: (MemTable, usize))
        ensures
            recovered.0.wf(),
            recovered.0@ == replayed(spec_decode_log(log@)),
            recovered.0.spec_size() == replayed_size(spec_decode_log(log@)),
            recovered.1 == spec_log_end(log@),
            recovered.1 <= log.len(),
    {
        let mut table = MemTable::new();
        let mut pos: usize = 0;
        let ghost mut done: Seq<EntryView> = Seq::empty();
        proof {
            assert(log@.skip(0) =~= log@);
            assert(done + spec_decode_log(log@) =~= spec_decode_log(log@));
        }
        loop
            invariant
                pos <= log.len(),
                table.wf(),
                table@ == replayed(done),
                table.spec_size() == replayed_size(done),
                spec_decode_log(log@) == done + spec_decode_log(log@.skip(pos as int)),
                spec_log_end(log@) == pos + spec_log_end(log@.skip(pos as int)),
            ensures
                pos <= log.len(),
                table.wf(),
                table@ == replayed(spec_decode_log(log@)),
                table.spec_size() == replayed_size(spec_decode_log(log@)),
                spec_log_end(log@) == pos,
            decreases log.len() - pos,
        {
            let ghost rest = log@.skip(pos as int);
            match decode_record(log, pos) {
                Some((entry, next)) => {
                    proof {
                        assert(rest.skip(next - pos) =~= log@.skip(next as int));
                        assert(done.push(entry@).drop_last() =~= done);
                        assert(done.push(entry@) + spec_decode_log(log@.skip(next as int))
                            =~= done + spec_decode_log(rest));
                        done = done.push(entry@);
                    }
                    table.put(entry);
                    pos = next;
                },
                None => {
                    proof {
                        assert(spec_decode(rest) is None);
                        assert(done + spec_decode_log(rest) =~= done);
                    }
                    break ;
                },
            }
        }
        (table, pos)
    }
}

} // verus!
