//! Segments: immutable sorted tables, written once and only ever read.

use crate::error::DbError;
use crate::keys::{key_lt, key_order, lemma_key_lt_asymmetric, lemma_key_lt_transitive, KeyOrder};
use crate::memtable::MemTable;
use crate::record::{
    all_encodable, decode_record, encodable, entry_views, frameable, lemma_decode_log_framed, spec_decode,
    spec_decode_log, spec_frame, spec_frame_all, spec_log_end, Entry, EntryView, Marker,
    MarkerView,
};
use crate::run::{above, below, lemma_absent, lemma_sorted_entry, run_map, sorted};
use vstd::prelude::*;
use vstd::slice::*;
use vstd::string::*;

verus! {

/// Every how many entries the sparse index of a segment notes a key.
pub const INDEX_STRIDE: usize = 16;

/// One slot of a segment's sparse index: a key and where its entry
/// stands.
#[derive(Debug)]
pub struct IndexEntry {
    key: Vec<u8>,
    position: usize,
}

/// An immutable sorted table with the generation number it was given.
#[derive(Debug)]
pub struct Segment {
    generation: u64,
    entries: Vec<Entry>,
    index: Vec<IndexEntry>,
}

/// The mathematical content of a [`Segment`]: its generation and its
/// entries in key order.
pub struct SegmentView {
    pub generation: u64,
    pub run: Seq<EntryView>,
}

/// The mathematical content of a slot of the sparse index.
pub struct IndexSlot {
    pub key: Seq<u8>,
    pub position: nat,
}

/// The sparse index of a run: the key of every sixteenth entry, from the
/// first on, with the position of that entry.
pub open spec fn sparse_index(run: Seq<EntryView>) -> Seq<IndexSlot> {
    Seq::new(
        ((run.len() + 15) / 16) as nat,
        |s: int| IndexSlot { key: run[16 * s].key, position: (16 * s) as nat },
    )
}

impl SegmentView {
    /// What the segment knows of each key.
    pub open spec fn map(self) -> Map<Seq<u8>, MarkerView> {
        run_map(self.run)
    }
}

impl View for Segment {
    type V = SegmentView;

    closed spec fn view(&self) -> SegmentView {
        SegmentView { generation: self.generation, run: entry_views(self.entries@) }
    }
}

/// Each key of `run` sorts before the one that follows it.
pub open spec fn stepwise_sorted(run: Seq<EntryView>) -> bool {
    forall|i: int| 0 < i < run.len() ==> key_lt(run[i - 1].key, #[trigger] run[i].key)
}

/// A run whose neighbours are in order is sorted throughout.
pub proof fn lemma_stepwise_sorted(run: Seq<EntryView>)
    requires
        stepwise_sorted(run),
    ensures
        sorted(run),
{
    assert forall|i: int, j: int| 0 <= i < j < run.len() implies key_lt(
        run[i].key,
        run[j].key,
    ) by {
        lemma_stepwise_pair(run, i, j);
    }
}

proof fn lemma_stepwise_pair(run: Seq<EntryView>, i: int, j: int)
    requires
        stepwise_sorted(run),
        0 <= i < j < run.len(),
    ensures
        key_lt(run[i].key, run[j].key),
    decreases j - i,
{
    assert(key_lt(run[j - 1].key, run[j].key));
    if i < j - 1 {
        lemma_stepwise_pair(run, i, j - 1);
        lemma_key_lt_transitive(run[i].key, run[j - 1].key, run[j].key);
    }
}

/// Framing a run with one more entry at its end adds that entry's bytes
/// at the end.
pub proof fn lemma_frame_all_push(run: Seq<EntryView>, entry: EntryView)
    ensures
        spec_frame_all(run.push(entry)) == spec_frame_all(run) + spec_frame(entry),
    decreases run.len(),
{
    let grown = run.push(entry);
    if run.len() == 0 {
        assert(grown.skip(1) =~= Seq::<EntryView>::empty());
        assert(spec_frame_all(grown.skip(1)) =~= Seq::<u8>::empty());
        assert(spec_frame_all(grown) =~= spec_frame(entry));
        assert(spec_frame_all(run) + spec_frame(entry) =~= spec_frame(entry));
    } else {
        assert(grown.skip(1) =~= run.skip(1).push(entry));
        lemma_frame_all_push(run.skip(1), entry);
        assert(grown[0] == run[0]);
        assert(spec_frame_all(grown) =~= spec_frame_all(run) + spec_frame(entry));
    }
}

/// The entries of a segment read back from its bytes are the entries
/// that were framed, and no byte is left over.
pub proof fn lemma_segment_round_trip(run: Seq<EntryView>)
    requires
        forall|i: int| 0 <= i < run.len() ==> frameable(#[trigger] run[i]),
    ensures
        spec_decode_log(spec_frame_all(run)) == run,
        spec_log_end(spec_frame_all(run)) == spec_frame_all(run).len(),
{
    lemma_decode_log_framed(run, Seq::empty());
    assert(spec_frame_all(run) + Seq::<u8>::empty() =~= spec_frame_all(run));
    assert(spec_decode(Seq::<u8>::empty()) is None);
    assert(run + spec_decode_log(Seq::<u8>::empty()) =~= run);
}

impl Segment {
    /// The slots of the segment's sparse index.
    pub closed spec fn spec_index(&self) -> Seq<IndexSlot> {
        Seq::new(
            self.index@.len(),
            |s: int|
                IndexSlot {
                    key: self.index@[s].key@,
                    position: self.index@[s].position as nat,
                },
        )
    }

    /// The segment's entries are in key order, one for each key, and its
    /// sparse index notes every sixteenth of them.
    pub closed spec fn wf(&self) -> bool {
        &&& sorted(entry_views(self.entries@))
        &&& self.spec_index() == sparse_index(entry_views(self.entries@))
    }

    /// A well-formed segment's run is sorted, and its sparse index notes
    /// every sixteenth entry of the run.
    pub proof fn lemma_wf_sorted(&self)
        requires
            self.wf(),
        ensures
            sorted(self@.run),
            self.spec_index() == sparse_index(self@.run),
    {
    }

    /// What a slot of a well-formed segment's index holds.
    proof fn lemma_slot(&self, s: int)
        requires
            self.wf(),
            0 <= s < self.index@.len(),
        ensures
            self.index@[s].position == 16 * s,
            16 * s < self.entries@.len(),
            self.index@[s].key@ == entry_views(self.entries@)[16 * s].key,
    {
        let run = entry_views(self.entries@);
        assert(self.spec_index().len() == sparse_index(run).len());
        assert(self.spec_index()[s] == sparse_index(run)[s]);
    }

    /// Makes a segment of entries that are already in key order, noting
    /// every sixteenth key in the sparse index.
    pub(crate) fn from_sorted(generation: u64, entries: Vec<Entry>) -> (segment: Segment)
        requires
            sorted(entry_views(entries@)),
        ensures
            segment.wf(),
            segment@.generation == generation,
            segment@.run == entry_views(entries@),
            segment.spec_index() == sparse_index(entry_views(entries@)),
    {
        let ghost run = entry_views(entries@);
        let mut index: Vec<IndexEntry> = Vec::new();
        let mut p: usize = 0;
        while p < entries.len()
            invariant
                run == entry_views(entries@),
                p <= entries.len(),
                p == 16 * index@.len() || (p == entries.len() && 16 * (index@.len() - 1) < p
                    <= 16 * index@.len()),
                forall|s: int|
                    0 <= s < index@.len() ==> {
                        &&& (#[trigger] index@[s]).position == 16 * s
                        &&& 16 * s < entries.len()
                        &&& index@[s].key@ == run[16 * s].key
                    },
            decreases entries.len() - p,
        {
            let slot = IndexEntry { key: slice_to_vec(entries[p].key.as_slice()), position: p };
            assert(run[p as int] == entries@[p as int]@);
            index.push(slot);
            p = if entries.len() - p > INDEX_STRIDE {
                p + INDEX_STRIDE
            } else {
                entries.len()
            };
        }
        let segment = Segment { generation, entries, index };
        proof {
            assert(segment.spec_index() =~= sparse_index(run));
        }
        segment
    }

    /// Makes a segment of entries in any order, if their keys strictly
    /// increase; `None` if they do not.
    pub fn from_entries(generation: u64, entries: Vec<Entry>) -> (segment: Option<Segment>)
        ensures
            match segment {
                Some(s) => {
                    &&& sorted(entry_views(entries@))
                    &&& s.wf()
                    &&& s@.generation == generation
                    &&& s@.run == entry_views(entries@)
                },
                None => !sorted(entry_views(entries@)),
            },
    {
        let ghost run = entry_views(entries@);
        let mut i: usize = 1;
        while i < entries.len()
            invariant
                run == entry_views(entries@),
                1 <= i,
                forall|k: int| 0 < k < i && k < run.len() ==> key_lt(
                    run[k - 1].key,
                    #[trigger] run[k].key,
                ),
            decreases entries.len() - i,
        {
            assert(run[i as int] == entries@[i as int]@);
            assert(run[i - 1] == entries@[i - 1]@);
            match key_order(entries[i - 1].key.as_slice(), entries[i].key.as_slice()) {
                KeyOrder::Less => {},
                KeyOrder::Equal => {
                    proof {
                        if sorted(run) {
                            assert(key_lt(run[i - 1].key, run[i as int].key));
                            lemma_key_lt_asymmetric(run[i - 1].key, run[i as int].key);
                        }
                    }
                    return None;
                },
                KeyOrder::Greater => {
                    proof {
                        if sorted(run) {
                            assert(key_lt(run[i - 1].key, run[i as int].key));
                            lemma_key_lt_asymmetric(run[i - 1].key, run[i as int].key);
                        }
                    }
                    return None;
                },
            }
            i += 1;
        }
        proof {
            lemma_stepwise_sorted(run);
        }
        Some(Segment::from_sorted(generation, entries))
    }

    /// Makes the segment that a frozen table is written out as.
    pub fn from_memtable(generation: u64, table: MemTable) -> (segment: Segment)
        requires
            table.wf(),
        ensures
            segment.wf(),
            segment@.generation == generation,
            segment@.run == table.run(),
            segment@.map() == table@,
    {
        Segment::from_sorted(generation, table.into_entries())
    }

    /// The generation number of the segment.
    pub fn generation(&self) -> (generation: u64)
        ensures
            generation == self@.generation,
    {
        self.generation
    }

    /// How many entries the segment holds.
    pub fn len(&self) -> (len: usize)
        ensures
            len == self@.run.len(),
    {
        self.entries.len()
    }

    /// The entry at position `i` of the segment's key order, or nothing
    /// past the last: with `len`, a scan that can be started again at
    /// any position.
    pub fn entry(&self, i: usize) -> (entry: Option<&Entry>)
        ensures
            match entry {
                Some(e) => i < self@.run.len() && e@ == self@.run[i as int],
                None => i >= self@.run.len(),
            },
    {
        if i < self.entries.len() {
            Some(&self.entries[i])
        } else {
            None
        }
    }

    /// The entries of the segment in key order.
    pub fn entries(&self) -> (entries: &Vec<Entry>)
        ensures
            entry_views(entries@) == self@.run,
    {
        &self.entries
    }

    /// What the segment knows of `key`. The sparse index bounds the
    /// stretch of entries that can hold the key; that stretch is then
    /// read through in order.
    pub fn lookup(&self, key: &[u8]) -> (marker: Option<Marker>)
        requires
            self.wf(),
        ensures
            match marker {
                Some(m) => self@.map().contains_key(key@) && self@.map()[key@] == m@,
                None => !self@.map().contains_key(key@),
            },
    {
        let ghost run = entry_views(self.entries@);
        let mut lo: usize = 0;
        let mut hi: usize = self.entries.len();
        let mut s: usize = 0;
        while s < self.index.len()
            invariant_except_break
                hi == self.entries.len(),
                s > 0 ==> lo == self.index@[s - 1].position,
            invariant
                self.wf(),
                run == entry_views(self.entries@),
                s <= self.index.len(),
                lo <= hi <= self.entries.len(),
                below(run, key@, lo as int),
                above(run, key@, hi as int),
            decreases self.index.len() - s,
        {
            let slot = &self.index[s];
            let ghost p = slot.position as int;
            proof {
                self.lemma_slot(s as int);
                if s > 0 {
                    self.lemma_slot(s - 1);
                }
            }
            assert(slot.key@ == run[p].key);
            match key_order(slot.key.as_slice(), key) {
                KeyOrder::Greater => {
                    proof {
                        assert forall|j: int| p <= j < run.len() implies key_lt(
                            key@,
                            #[trigger] run[j].key,
                        ) by {
                            if p < j {
                                assert(key_lt(run[p].key, run[j].key));
                                lemma_key_lt_transitive(key@, run[p].key, run[j].key);
                            }
                        }
                    }
                    hi = slot.position;
                    break ;
                },
                _ => {
                    proof {
                        assert forall|j: int| 0 <= j < p && j < run.len() implies key_lt(
                            #[trigger] run[j].key,
                            key@,
                        ) by {
                            assert(key_lt(run[j].key, run[p].key));
                            if run[p].key != key@ {
                                lemma_key_lt_transitive(run[j].key, run[p].key, key@);
                            }
                        }
                    }
                    lo = slot.position;
                    s += 1;
                },
            }
        }
        let mut i: usize = lo;
        while i < hi
            invariant
                run == entry_views(self.entries@),
                sorted(run),
                lo <= i <= hi <= self.entries.len(),
                below(run, key@, i as int),
                above(run, key@, hi as int),
            decreases hi - i,
        {
            assert(run[i as int] == self.entries@[i as int]@);
            match key_order(self.entries[i].key.as_slice(), key) {
                KeyOrder::Equal => {
                    proof {
                        lemma_sorted_entry(run, i as int);
                    }
                    return Some(self.entries[i].marker.duplicate());
                },
                KeyOrder::Greater => {
                    proof {
                        assert forall|j: int| i <= j < run.len() implies key_lt(
                            key@,
                            #[trigger] run[j].key,
                        ) by {
                            if i < j {
                                assert(key_lt(run[i as int].key, run[j].key));
                                lemma_key_lt_transitive(key@, run[i as int].key, run[j].key);
                            }
                        }
                        lemma_absent(run, key@, i as int);
                    }
                    return None;
                },
                KeyOrder::Less => {
                    i += 1;
                },
            }
        }
        proof {
            lemma_absent(run, key@, i as int);
        }
        None
    }

    /// How many slots the sparse index has.
    pub fn index_len(&self) -> (len: usize)
        ensures
            len == self.spec_index().len(),
    {
        self.index.len()
    }

    /// The bytes of the segment's file: its entries framed one after the
    /// other in key order. A segment with an entry whose key or value is
    /// too long to be framed is refused, and no other.
    pub fn encode(&self) -> (framed: Result<Vec<u8>, DbError>)
        ensures
            match framed {
                Ok(bytes) => all_encodable(self@.run) && bytes@ == spec_frame_all(self@.run),
                Err(e) => !all_encodable(self@.run) && e is SerializationError,
            },
    {
        let ghost run = entry_views(self.entries@);
        let mut bytes: Vec<u8> = Vec::new();
        let mut i: usize = 0;
        proof {
            assert(run.subrange(0, 0) =~= Seq::<EntryView>::empty());
        }
        while i < self.entries.len()
            invariant
                run == entry_views(self.entries@),
                i <= self.entries.len(),
                bytes@ == spec_frame_all(run.subrange(0, i as int)),
                forall|k: int| 0 <= k < i ==> encodable(#[trigger] run[k]),
            decreases self.entries.len() - i,
        {
            assert(run[i as int] == self.entries@[i as int]@);
            let mut record = match self.entries[i].encode() {
                Ok(record) => record,
                Err(e) => {
                    return Err(e);
                },
            };
            proof {
                lemma_frame_all_push(run.subrange(0, i as int), run[i as int]);
                assert(run.subrange(0, i + 1) =~= run.subrange(0, i as int).push(run[i as int]));
            }
            bytes.append(&mut record);
            i += 1;
        }
        proof {
            assert(run.subrange(0, run.len() as int) =~= run);
        }
        Ok(bytes)
    }

    /// Opens a segment from the bytes of its file. The bytes must be
    /// whole records from first to last, with strictly increasing keys;
    /// anything else is reported as corruption.
    pub fn decode(generation: u64, bytes: &[u8]) -> (opened: Result<Segment, DbError>)
        ensures
            match opened {
                Ok(segment) => {
                    &&& spec_log_end(bytes@) == bytes.len()
                    &&& sorted(spec_decode_log(bytes@))
                    &&& segment.wf()
                    &&& segment@.generation == generation
                    &&& segment@.run == spec_decode_log(bytes@)
                },
                Err(e) => {
                    &&& e is SerializationError
                    &&& (spec_log_end(bytes@) != bytes.len() || !sorted(spec_decode_log(bytes@)))
                },
            },
    {
        let mut entries: Vec<Entry> = Vec::new();
        let mut pos: usize = 0;
        proof {
            assert(bytes@.skip(0) =~= bytes@);
            assert(entry_views(entries@) + spec_decode_log(bytes@) =~= spec_decode_log(bytes@));
        }
        while pos < bytes.len()
            invariant
                pos <= bytes.len(),
                spec_decode_log(bytes@) == entry_views(entries@) + spec_decode_log(
                    bytes@.skip(pos as int),
                ),
                spec_log_end(bytes@) == pos + spec_log_end(bytes@.skip(pos as int)),
            decreases bytes.len() - pos,
        {
            let ghost rest = bytes@.skip(pos as int);
            match decode_record(bytes, pos) {
                Some((entry, next)) => {
                    proof {
                        assert(rest.skip(next - pos) =~= bytes@.skip(next as int));
                        assert(entry_views(entries@.push(entry)) =~= entry_views(entries@)
                            + seq![entry@]);
                    }
                    entries.push(entry);
                    pos = next;
                },
                None => {
                    assert(spec_decode(rest) is None);
                    return Err(
                        DbError::SerializationError(
                            String::from_str("segment holds a malformed record"),
                        ),
                    );
                },
            }
        }
        proof {
            assert(bytes@.skip(pos as int).len() == 0);
            assert(spec_decode(bytes@.skip(pos as int)) is None);
            assert(entry_views(entries@) + Seq::<EntryView>::empty() =~= entry_views(entries@));
        }
        match Segment::from_entries(generation, entries) {
            Some(segment) => Ok(segment),
            None => Err(
                DbError::SerializationError(String::from_str("segment keys are out of order")),
            ),
        }
    }
}

} // verus!
