//! The storage engine: an active table, a table being flushed, and the
//! segments, read as one store.
//!
//! The engine decides; the caller does the file work. A write is framed
//! with [`crate::record::StorageOp::encode`], made durable in the write-ahead log by the
//! caller, and only then applied here. When the active table has grown
//! past the threshold it is frozen into the segment it will become; the
//! caller writes that segment out and then tells the engine that the
//! flush is complete.

use crate::compaction::{merge_segments, segment_maps};
use crate::error::DbError;
use crate::memtable::{grown_size, replayed, replayed_size, MemTable};
use crate::record::{spec_decode_log, spec_log_end, Entry, EntryView, Marker, MarkerView};
use crate::segment::{Segment, SegmentView};
use crate::tiers::{
    lemma_newest_hit, lemma_no_hit, live, overlay_all, visible, TierMap,
};
use vstd::prelude::*;
use vstd::string::*;

verus! {

/// A segment as the store sees it: its generation and what it knows.
pub struct Tier {
    pub generation: u64,
    pub map: TierMap,
}

/// The tier that a segment is.
pub open spec fn tier_of(segment: SegmentView) -> Tier {
    Tier { generation: segment.generation, map: segment.map() }
}

/// The tiers that a row of segments is.
pub open spec fn segment_tiers(segments: Seq<Segment>) -> Seq<Tier> {
    Seq::new(segments.len(), |i: int| tier_of(segments[i]@))
}

/// What each of a row of tiers knows.
pub open spec fn tier_maps(tiers: Seq<Tier>) -> Seq<TierMap> {
    Seq::new(tiers.len(), |i: int| tiers[i].map)
}

/// The generations of a row of tiers.
pub open spec fn tier_generations(tiers: Seq<Tier>) -> Seq<u64> {
    Seq::new(tiers.len(), |i: int| tiers[i].generation)
}

/// No number occurs twice in `numbers`.
pub open spec fn distinct(numbers: Seq<u64>) -> bool {
    forall|i: int, j: int| 0 <= i < j < numbers.len() ==> numbers[i] != numbers[j]
}

/// The smallest number that is larger than every generation in use.
pub open spec fn next_after(generations: Seq<u64>) -> int
    decreases generations.len(),
{
    if generations.len() == 0 {
        0
    } else {
        let rest = next_after(generations.drop_last());
        if generations.last() + 1 > rest {
            generations.last() + 1
        } else {
            rest
        }
    }
}

/// Every generation in use is smaller than the number that
/// [`next_after`] gives.
pub proof fn lemma_next_after_bounds(generations: Seq<u64>, k: int)
    requires
        0 <= k < generations.len(),
    ensures
        generations[k] < next_after(generations),
    decreases generations.len(),
{
    if k < generations.len() - 1 {
        assert(generations.drop_last()[k] == generations[k]);
        lemma_next_after_bounds(generations.drop_last(), k);
    }
}

/// The mathematical content of the engine.
pub struct EngineView {
    /// What the active table knows.
    pub active: TierMap,
    /// The byte count of the active table.
    pub active_size: nat,
    /// The table that is being flushed, if one is.
    pub frozen: Option<Tier>,
    /// The segments, oldest first.
    pub segments: Seq<Tier>,
    /// The generation that the next new segment gets.
    pub next_generation: u64,
    /// The byte count above which the active table is frozen.
    pub flush_threshold: usize,
}

impl EngineView {
    /// The tables of the store, oldest first: the segments, the table
    /// being flushed, the active table.
    pub open spec fn tiers(self) -> Seq<TierMap> {
        tier_maps(self.segments) + match self.frozen {
            Some(tier) => seq![tier.map],
            None => Seq::empty(),
        } + seq![self.active]
    }

    /// What the store knows of each key: what the newest table that
    /// mentions the key says.
    pub open spec fn merged(self) -> TierMap {
        overlay_all(self.tiers())
    }

    /// What a reader is handed for `key`.
    pub open spec fn read(self, key: Seq<u8>) -> Option<Seq<u8>> {
        visible(self.merged(), key)
    }

    /// The generations in use: those of the segments and of the table
    /// being flushed.
    pub open spec fn generations(self) -> Seq<u64> {
        tier_generations(self.segments) + match self.frozen {
            Some(tier) => seq![tier.generation],
            None => Seq::empty(),
        }
    }

    /// No generation is in use twice, and none has reached the number
    /// that the next segment gets.
    pub open spec fn generations_fresh(self) -> bool {
        &&& distinct(self.generations())
        &&& forall|i: int|
            0 <= i < self.generations().len() ==> #[trigger] self.generations()[i]
                < self.next_generation
    }

    /// The store with `entry` recorded in the active table.
    pub open spec fn write(self, entry: EntryView) -> EngineView {
        EngineView {
            active: self.active.insert(entry.key, entry.marker),
            active_size: grown_size(self.active_size, entry),
            ..self
        }
    }

    /// The active table is due to be frozen: its byte count exceeds the
    /// threshold, no other table is being flushed, and a generation is
    /// left to give.
    pub open spec fn should_freeze(self) -> bool {
        &&& self.active_size > self.flush_threshold
        &&& self.frozen is None
        &&& self.next_generation < u64::MAX
    }

    /// The active table can be frozen on request: it knows of a key, no
    /// other table is being flushed, and a generation is left to give.
    pub open spec fn can_freeze(self) -> bool {
        &&& self.active != Map::<Seq<u8>, MarkerView>::empty()
        &&& self.frozen is None
        &&& self.next_generation < u64::MAX
    }

    /// The store with the active table frozen and an empty one in its
    /// place.
    pub open spec fn freeze(self) -> EngineView {
        EngineView {
            active: Map::empty(),
            active_size: 0,
            frozen: Some(Tier { generation: self.next_generation, map: self.active }),
            next_generation: (self.next_generation + 1) as u64,
            ..self
        }
    }

    /// The store after a write: the entry is recorded, and the active
    /// table is frozen if it is then due.
    pub open spec fn after_write(self, entry: EntryView) -> EngineView {
        let written = self.write(entry);
        if written.should_freeze() {
            written.freeze()
        } else {
            written
        }
    }

    /// The store with the frozen table turned into its newest segment.
    pub open spec fn flush(self) -> EngineView {
        match self.frozen {
            Some(tier) => EngineView { segments: self.segments.push(tier), frozen: None, ..self },
            None => self,
        }
    }

    /// The `count` segments from position `from` on can be compacted.
    pub open spec fn can_compact(self, from: int, count: int) -> bool {
        &&& 0 <= from
        &&& 1 <= count
        &&& from + count <= self.segments.len()
        &&& self.next_generation < u64::MAX
    }

    /// The segment that compacting the `count` segments from position
    /// `from` on gives: the newest of them decides each key, and the
    /// tombstones are dropped where no older segment is left out.
    pub open spec fn compacted(self, from: int, count: int) -> Tier {
        let laid = overlay_all(tier_maps(self.segments.subrange(from, from + count)));
        Tier {
            generation: self.next_generation,
            map: if from == 0 {
                live(laid)
            } else {
                laid
            },
        }
    }

    /// The store with the `count` segments from position `from` on
    /// replaced by the one segment they compact to.
    pub open spec fn compact(self, from: int, count: int) -> EngineView {
        EngineView {
            segments: self.segments.subrange(0, from).push(self.compacted(from, count))
                + self.segments.subrange(from + count, self.segments.len() as int),
            next_generation: (self.next_generation + 1) as u64,
            ..self
        }
    }

    /// The store that opening a data directory gives: the segments as
    /// they are listed, and an active table rebuilt from the logged
    /// mutations.
    pub open spec fn recovered(
        segments: Seq<Tier>,
        ops: Seq<EntryView>,
        flush_threshold: usize,
    ) -> EngineView {
        EngineView {
            active: replayed(ops),
            active_size: replayed_size(ops),
            frozen: None,
            segments,
            next_generation: next_after(tier_generations(segments)) as u64,
            flush_threshold,
        }
    }
}

/// How many of the oldest of `len` segments become one when no more
/// than `max_segments` are to be left.
pub open spec fn cohort_size(len: nat, max_segments: usize) -> usize {
    if max_segments == 0 {
        len as usize
    } else {
        (len - max_segments + 1) as usize
    }
}

/// What a reader is handed for a marker.
pub fn marker_value(marker: Marker) -> (value: Option<Vec<u8>>)
    ensures
        match value {
            Some(v) => marker@.visible() == Some(v@),
            None => marker@.visible() is None,
        },
{
    match marker {
        Marker::Value(value) => Some(value),
        Marker::Tombstone => None,
    }
}

/// The storage engine.
#[derive(Debug)]
pub struct LsmStorage {
    memtable: MemTable,
    frozen: Option<Segment>,
    segments: Vec<Segment>,
    next_generation: u64,
    flush_threshold: usize,
}

impl View for LsmStorage {
    type V = EngineView;

    closed spec fn view(&self) -> EngineView {
        EngineView {
            active: self.memtable@,
            active_size: self.memtable.spec_size(),
            frozen: match self.frozen {
                Some(segment) => Some(tier_of(segment@)),
                None => None,
            },
            segments: segment_tiers(self.segments@),
            next_generation: self.next_generation,
            flush_threshold: self.flush_threshold,
        }
    }
}

impl LsmStorage {
    /// Every table of the engine is well formed, and the generations in
    /// use are fresh.
    pub closed spec fn wf(&self) -> bool {
        &&& self.memtable.wf()
        &&& self.frozen matches Some(segment) ==> segment.wf()
        &&& forall|i: int| 0 <= i < self.segments@.len() ==> (#[trigger] self.segments@[i]).wf()
        &&& self@.generations_fresh()
    }

    /// In a well-formed engine no generation is in use twice.
    pub proof fn lemma_wf_fresh(&self)
        requires
            self.wf(),
        ensures
            self@.generations_fresh(),
    {
    }

    /// An engine over an empty data directory.
    pub fn new(flush_threshold: usize) -> (store: LsmStorage)
        ensures
            store.wf(),
            store@ == EngineView::recovered(Seq::empty(), Seq::empty(), flush_threshold),
    {
        let store = LsmStorage {
            memtable: MemTable::new(),
            frozen: None,
            segments: Vec::new(),
            next_generation: 0,
            flush_threshold,
        };
        proof {
            assert(segment_tiers(store.segments@) =~= Seq::<Tier>::empty());
            assert(tier_generations(Seq::<Tier>::empty()) =~= Seq::<u64>::empty());
            assert(store@.generations() =~= Seq::<u64>::empty());
        }
        store
    }

    /// Opens an engine over what a data directory holds: the segments
    /// that the manifest lists, oldest first, and the bytes of the
    /// write-ahead log. The log is replayed into the active table up to
    /// the first place where no whole record stands; the second result
    /// is the number of bytes that were understood. Segments that share
    /// a generation, or a generation after which none is left, are
    /// reported as corruption.
    pub fn recover(flush_threshold: usize, segments: Vec<Segment>, log: &[u8]) -> (opened: Result<
        (LsmStorage, usize),
        DbError,
    >)
        requires
            forall|i: int| 0 <= i < segments@.len() ==> (#[trigger] segments@[i]).wf(),
        ensures
            match opened {
                Ok((store, end)) => {
                    &&& distinct(tier_generations(segment_tiers(segments@)))
                    &&& next_after(tier_generations(segment_tiers(segments@))) <= u64::MAX
                    &&& store.wf()
                    &&& store@ == EngineView::recovered(
                        segment_tiers(segments@),
                        spec_decode_log(log@),
                        flush_threshold,
                    )
                    &&& end == spec_log_end(log@)
                },
                Err(e) => {
                    &&& e is SerializationError
                    &&& (!distinct(tier_generations(segment_tiers(segments@))) || next_after(
                        tier_generations(segment_tiers(segments@)),
                    ) > u64::MAX)
                },
            },
    {
        let ghost gens = tier_generations(segment_tiers(segments@));
        let mut next: u64 = 0;
        let mut i: usize = 0;
        proof {
            assert(gens.subrange(0, 0) =~= Seq::<u64>::empty());
        }
        while i < segments.len()
            invariant
                gens == tier_generations(segment_tiers(segments@)),
                i <= segments.len(),
                next == next_after(gens.subrange(0, i as int)),
                distinct(gens.subrange(0, i as int)),
            decreases segments.len() - i,
        {
            let generation = segments[i].generation();
            assert(gens[i as int] == generation);
            if generation == u64::MAX {
                proof {
                    lemma_next_after_bounds(gens, i as int);
                }
                return Err(
                    DbError::SerializationError(
                        String::from_str("manifest lists a generation that cannot be followed"),
                    ),
                );
            }
            let mut j: usize = 0;
            while j < i
                invariant
                    gens == tier_generations(segment_tiers(segments@)),
                    j <= i < segments.len(),
                    gens[i as int] == generation,
                    forall|k: int| 0 <= k < j ==> gens[k] != generation,
                decreases i - j,
            {
                assert(gens[j as int] == segments@[j as int]@.generation);
                if segments[j].generation() == generation {
                    return Err(
                        DbError::SerializationError(
                            String::from_str("manifest lists a generation twice"),
                        ),
                    );
                }
                j += 1;
            }
            proof {
                let grown = gens.subrange(0, i + 1);
                assert(grown.drop_last() =~= gens.subrange(0, i as int));
                assert(grown.last() == generation);
                assert forall|a: int, b: int| 0 <= a < b < grown.len() implies grown[a]
                    != grown[b] by {
                    if b < i {
                        assert(gens.subrange(0, i as int)[a] == grown[a]);
                        assert(gens.subrange(0, i as int)[b] == grown[b]);
                    }
                }
            }
            if generation + 1 > next {
                next = generation + 1;
            }
            i += 1;
        }
        proof {
            assert(gens.subrange(0, i as int) =~= gens);
        }
        let (memtable, end) = MemTable::replay(log);
        let store = LsmStorage { memtable, frozen: None, segments, next_generation: next, flush_threshold };
        proof {
            assert(store@.generations() =~= gens);
            assert forall|k: int| 0 <= k < gens.len() implies #[trigger] gens[k] < next by {
                lemma_next_after_bounds(gens, k);
            }
        }
        Ok((store, end))
    }

    /// Records a mutation that the write-ahead log already holds, and
    /// freezes the active table if it is then due. The result tells
    /// whether a table is waiting to be flushed.
    pub fn apply(&mut self, entry: Entry) -> (flush_due: bool)
        requires
            old(self).wf(),
        ensures
            final(self).wf(),
            final(self)@ == old(self)@.after_write(entry@),
            flush_due == final(self)@.frozen is Some,
    {
        let ghost before = self@;
        self.memtable.put(entry);
        proof {
            assert(self@ == before.write(entry@));
            assert(self@.generations() =~= before.generations());
        }
        if self.memtable.size() > self.flush_threshold && self.frozen.is_none()
            && self.next_generation < u64::MAX {
            let ghost written = self@;
            let snapshot = self.memtable.freeze();
            self.frozen = Some(Segment::from_memtable(self.next_generation, snapshot));
            self.next_generation = self.next_generation + 1;
            proof {
                assert(self@ == written.freeze());
                assert(self@.generations() =~= written.generations().push(
                    written.next_generation,
                ));
            }
        }
        self.frozen.is_some()
    }

    /// Records a value for `key`. The caller has made the log record of
    /// the insert durable before.
    pub fn insert(&mut self, key: Vec<u8>, value: Vec<u8>) -> (flush_due: bool)
        requires
            old(self).wf(),
        ensures
            final(self).wf(),
            final(self)@ == old(self)@.after_write(
                EntryView { key: key@, marker: MarkerView::Value(value@) },
            ),
            flush_due == final(self)@.frozen is Some,
    {
        self.apply(Entry { key, marker: Marker::Value(value) })
    }

    /// Records that `key` was deleted. The caller has made the log
    /// record of the delete durable before.
    pub fn delete(&mut self, key: Vec<u8>) -> (flush_due: bool)
        requires
            old(self).wf(),
        ensures
            final(self).wf(),
            final(self)@ == old(self)@.after_write(
                EntryView { key: key@, marker: MarkerView::Tombstone },
            ),
            flush_due == final(self)@.frozen is Some,
    {
        self.apply(Entry { key, marker: Marker::Tombstone })
    }

    /// The value of `key`, or nothing where the key is unknown or
    /// deleted. The active table is asked first, then the table being
    /// flushed, then the segments from the newest to the oldest; the
    /// first that mentions the key decides.
    pub fn get(&self, key: &[u8]) -> (value: Option<Vec<u8>>)
        requires
            self.wf(),
        ensures
            match value {
                Some(v) => self@.read(key@) == Some(v@),
                None => self@.read(key@) is None,
            },
    {
        let ghost tiers = self@.tiers();
        let ghost n = self.segments@.len() as int;
        let ghost top = tiers.len() - 1;
        assert(tiers[top] == self@.active);
        if let Some(marker) = self.memtable.get(key) {
            proof {
                lemma_newest_hit(tiers, top, key@);
            }
            return marker_value(marker);
        }
        if let Some(segment) = &self.frozen {
            assert(tiers[n] == segment@.map());
            if let Some(marker) = segment.lookup(key) {
                proof {
                    lemma_newest_hit(tiers, n, key@);
                }
                return marker_value(marker);
            }
        }
        let mut i: usize = self.segments.len();
        while i > 0
            invariant
                self.wf(),
                tiers == self@.tiers(),
                n == self.segments@.len(),
                i <= n,
                forall|u: int| i <= u < tiers.len() ==> !(#[trigger] tiers[u]).contains_key(key@),
            decreases i,
        {
            i -= 1;
            assert(tiers[i as int] == self.segments@[i as int]@.map());
            if let Some(marker) = self.segments[i].lookup(key) {
                proof {
                    lemma_newest_hit(tiers, i as int, key@);
                }
                return marker_value(marker);
            }
        }
        proof {
            lemma_no_hit(tiers, key@);
        }
        None
    }

    /// The byte count of the active table.
    pub fn memtable_size(&self) -> (size: usize)
        ensures
            size == self@.active_size,
    {
        self.memtable.size()
    }

    /// The generation that the next new segment gets.
    pub fn next_generation(&self) -> (generation: u64)
        ensures
            generation == self@.next_generation,
    {
        self.next_generation
    }

    /// The byte count above which the active table is frozen.
    pub fn flush_threshold(&self) -> (threshold: usize)
        ensures
            threshold == self@.flush_threshold,
    {
        self.flush_threshold
    }

    /// The table that is being flushed, as the segment it is written out
    /// as.
    pub fn frozen(&self) -> (frozen: Option<&Segment>)
        requires
            self.wf(),
        ensures
            match frozen {
                Some(segment) => segment.wf() && self@.frozen == Some(tier_of(segment@)),
                None => self@.frozen is None,
            },
    {
        self.frozen.as_ref()
    }

    /// The segments, oldest first.
    pub fn segments(&self) -> (segments: &Vec<Segment>)
        requires
            self.wf(),
        ensures
            segment_tiers(segments@) == self@.segments,
            forall|i: int| 0 <= i < segments@.len() ==> (#[trigger] segments@[i]).wf(),
    {
        &self.segments
    }

    /// The manifest: the generations of the segments, oldest first.
    pub fn manifest(&self) -> (generations: Vec<u64>)
        ensures
            generations@ == tier_generations(self@.segments),
    {
        let mut generations: Vec<u64> = Vec::new();
        let mut i: usize = 0;
        while i < self.segments.len()
            invariant
                i <= self.segments.len(),
                generations@ == tier_generations(self@.segments).subrange(0, i as int),
            decreases self.segments.len() - i,
        {
            generations.push(self.segments[i].generation());
            proof {
                assert(generations@ =~= tier_generations(self@.segments).subrange(0, i + 1));
            }
            i += 1;
        }
        proof {
            assert(generations@ =~= tier_generations(self@.segments));
        }
        generations
    }

    /// Freezes the active table though it has not passed the threshold,
    /// if it knows of any key, nothing else is being flushed and a
    /// generation is left to give. The result tells whether a table is
    /// waiting to be flushed.
    pub fn freeze(&mut self) -> (flush_due: bool)
        requires
            old(self).wf(),
        ensures
            final(self).wf(),
            final(self)@ == if old(self)@.can_freeze() {
                old(self)@.freeze()
            } else {
                old(self)@
            },
            flush_due == final(self)@.frozen is Some,
    {
        if !self.memtable.is_empty() && self.frozen.is_none() && self.next_generation < u64::MAX {
            let ghost before = self@;
            let snapshot = self.memtable.freeze();
            self.frozen = Some(Segment::from_memtable(self.next_generation, snapshot));
            self.next_generation = self.next_generation + 1;
            proof {
                assert(self@ == before.freeze());
                assert(self@.generations() =~= before.generations().push(
                    before.next_generation,
                ));
            }
        }
        self.frozen.is_some()
    }

    /// Completes a flush: the frozen table, which the caller has written
    /// out and listed in the manifest, becomes the newest segment. The
    /// result is its generation, or nothing where no table was frozen.
    pub fn flush_memtable(&mut self) -> (flushed: Option<u64>)
        requires
            old(self).wf(),
        ensures
            final(self).wf(),
            final(self)@ == old(self)@.flush(),
            match flushed {
                Some(generation) => old(self)@.frozen matches Some(tier) && tier.generation
                    == generation,
                None => old(self)@.frozen is None,
            },
    {
        let ghost before = self@;
        match self.frozen.take() {
            Some(segment) => {
                let generation = segment.generation();
                self.segments.push(segment);
                proof {
                    assert(segment_tiers(self.segments@) =~= before.segments.push(
                        tier_of(segment@),
                    ));
                    assert(self@.generations() =~= before.generations());
                }
                Some(generation)
            },
            None => None,
        }
    }

    /// Whether the engine holds more segments than `max_segments`, so
    /// that a compaction is called for.
    pub fn needs_compaction(&self, max_segments: usize) -> (due: bool)
        ensures
            due == (self@.segments.len() > max_segments),
    {
        self.segments.len() > max_segments
    }

    /// How many of the oldest segments a compaction should take: where
    /// the engine holds more than `max_segments` segments, as many as
    /// must become one for `max_segments` to be left, and all of them
    /// where `max_segments` is zero; nothing where no compaction is
    /// called for.
    pub fn compaction_cohort(&self, max_segments: usize) -> (cohort: Option<usize>)
        ensures
            cohort == if self@.segments.len() > max_segments {
                Some(cohort_size(self@.segments.len(), max_segments))
            } else {
                None
            },
    {
        let len = self.segments.len();
        if len <= max_segments {
            None
        } else if max_segments == 0 {
            Some(len)
        } else {
            Some(len - max_segments + 1)
        }
    }

    /// Compacts the `count` segments from position `from` of the segment
    /// list: they are merged into one segment with a fresh generation,
    /// which takes their place. The result lists the generations of the
    /// segments that were replaced, whose files the caller removes once
    /// the new manifest is durable; it is nothing, and the engine is
    /// unchanged, where there is no such stretch of segments or no
    /// generation is left.
    pub fn compact(&mut self, from: usize, count: usize) -> (retired: Option<Vec<u64>>)
        requires
            old(self).wf(),
        ensures
            final(self).wf(),
            match retired {
                Some(generations) => {
                    &&& old(self)@.can_compact(from as int, count as int)
                    &&& final(self)@ == old(self)@.compact(from as int, count as int)
                    &&& generations@ == tier_generations(
                        old(self)@.segments.subrange(from as int, from + count),
                    )
                },
                None => {
                    &&& !old(self)@.can_compact(from as int, count as int)
                    &&& final(self)@ == old(self)@
                },
            },
    {
        let len = self.segments.len();
        if count == 0 || from > len || count > len - from || self.next_generation == u64::MAX {
            return None;
        }
        let ghost before = self@;
        let ghost old_segments = self.segments@;
        let merged = merge_segments(&self.segments, from, count, self.next_generation, from == 0);
        proof {
            assert(segment_maps(old_segments.subrange(from as int, from + count)) =~= tier_maps(
                before.segments.subrange(from as int, from + count),
            ));
            assert(tier_of(merged@) == before.compacted(from as int, count as int));
        }
        let mut newer = self.segments.split_off(from + count);
        let cohort = self.segments.split_off(from);
        let mut generations: Vec<u64> = Vec::new();
        let mut i: usize = 0;
        while i < cohort.len()
            invariant
                i <= cohort.len(),
                from + count <= old_segments.len(),
                cohort@ == old_segments.subrange(from as int, from + count),
                generations@ == tier_generations(segment_tiers(cohort@)).subrange(0, i as int),
            decreases cohort.len() - i,
        {
            generations.push(cohort[i].generation());
            proof {
                assert(generations@ =~= tier_generations(segment_tiers(cohort@)).subrange(
                    0,
                    i + 1,
                ));
            }
            i += 1;
        }
        self.segments.push(merged);
        self.segments.append(&mut newer);
        self.next_generation = self.next_generation + 1;
        proof {
            assert(generations@ =~= tier_generations(
                before.segments.subrange(from as int, from + count),
            ));
            let after_list = old_segments.subrange(0, from as int).push(merged)
                + old_segments.subrange(from + count, len as int);
            assert(self.segments@ =~= after_list);
            assert(segment_tiers(self.segments@) =~= before.compact(
                from as int,
                count as int,
            ).segments);
            assert(self@ == before.compact(from as int, count as int));
            assert forall|k: int| 0 <= k < self.segments@.len() implies (
            #[trigger] self.segments@[k]).wf() by {
                if k < from {
                    assert(self.segments@[k] == old_segments[k]);
                } else if k > from {
                    assert(self.segments@[k] == old_segments[k + count - 1]);
                }
            }
            let gens = self@.generations();
            let old_gens = before.generations();
            assert forall|k: int| 0 <= k < gens.len() implies #[trigger] gens[k]
                < self.next_generation && (k != from ==> exists|m: int|
                0 <= m < old_gens.len() && old_gens[m] == gens[k] && (k < from ==> m == k) && (k
                    > from ==> m == k + count - 1)) by {
                if k < from {
                    assert(old_gens[k] == gens[k]);
                } else if k > from {
                    assert(old_gens[k + count - 1] == gens[k]);
                }
            }
            assert forall|a: int, b: int| 0 <= a < b < gens.len() implies gens[a] != gens[b] by {
                let ma = if a < from { a } else { a + count - 1 };
                let mb = if b < from { b } else { b + count - 1 };
                if a != from as int && b != from as int {
                    assert(old_gens[ma] == gens[a]);
                    assert(old_gens[mb] == gens[b]);
                } else if a == from as int {
                    assert(old_gens[mb] == gens[b]);
                } else {
                    assert(old_gens[ma] == gens[a]);
                }
            }
        }
        Some(generations)
    }
}

} // verus!
