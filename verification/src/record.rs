//! Log records and table entries, and their framing as bytes.
//!
//! A record is one opcode byte, the key behind its length and, for an
//! insert, the value behind its length. A segment stores its entries in
//! the same framing: the opcode of a delete marks a tombstone.

use crate::error::DbError;
use crate::wire::{
    fits, frame_bytes, lemma_take_framed, lemma_take_truncated, length_prefixed,
    spec_take_bytes, take_bytes,
};
use vstd::prelude::*;
use vstd::slice::*;

verus! {

/// The opcode of a record that writes a value.
pub const OP_INSERT: u8 = 0;

/// The opcode of a record that deletes a key.
pub const OP_DELETE: u8 = 1;

/// What a table knows of a key: a value, or that the key was deleted.
#[derive(Clone, Debug, PartialEq, Eq)]
pub enum Marker {
    Value(Vec<u8>),
    Tombstone,
}

/// The mathematical content of a [`Marker`].
pub enum MarkerView {
    Value(Seq<u8>),
    Tombstone,
}

impl View for Marker {
    type V = MarkerView;

    open spec fn view(&self) -> MarkerView {
        match self {
            Marker::Value(value) => MarkerView::Value(value@),
            Marker::Tombstone => MarkerView::Tombstone,
        }
    }
}

impl MarkerView {
    /// How many bytes the marker adds to a table's size: the length of a
    /// value, nothing for a tombstone.
    pub open spec fn weight(self) -> nat {
        match self {
            MarkerView::Value(value) => value.len(),
            MarkerView::Tombstone => 0,
        }
    }

    /// What a reader is handed for this marker: the value, or nothing for
    /// a deleted key.
    pub open spec fn visible(self) -> Option<Seq<u8>> {
        match self {
            MarkerView::Value(value) => Some(value),
            MarkerView::Tombstone => None,
        }
    }
}

impl Marker {
    /// A copy of the marker.
    pub fn duplicate(&self) -> (copy: Marker)
        ensures
            copy@ == self@,
    {
        match self {
            Marker::Value(value) => Marker::Value(slice_to_vec(value.as_slice())),
            Marker::Tombstone => Marker::Tombstone,
        }
    }
}

/// A key with what a table knows of it.
#[derive(Clone, Debug, PartialEq, Eq)]
pub struct Entry {
    pub key: Vec<u8>,
    pub marker: Marker,
}

/// The mathematical content of an [`Entry`].
pub struct EntryView {
    pub key: Seq<u8>,
    pub marker: MarkerView,
}

impl View for Entry {
    type V = EntryView;

    open spec fn view(&self) -> EntryView {
        EntryView { key: self.key@, marker: self.marker@ }
    }
}

impl Entry {
    /// A copy of the entry.
    pub fn duplicate(&self) -> (copy: Entry)
        ensures
            copy@ == self@,
    {
        Entry { key: slice_to_vec(self.key.as_slice()), marker: self.marker.duplicate() }
    }

    /// Frames the entry as bytes. An entry whose key or value is too
    /// long to be framed is refused, and no other.
    pub fn encode(&self) -> (framed: Result<Vec<u8>, DbError>)
        ensures
            match framed {
                Ok(bytes) => encodable(self@) && bytes@ == spec_frame(self@),
                Err(e) => !encodable(self@) && e is SerializationError,
            },
    {
        encode_record(self.key.as_slice(), &self.marker)
    }
}

/// A mutation as the write-ahead log records it.
#[derive(Clone, Debug, PartialEq, Eq)]
pub enum StorageOp {
    Insert(Vec<u8>, Vec<u8>),
    Delete(Vec<u8>),
}

impl View for StorageOp {
    type V = EntryView;

    /// The entry that the mutation leaves in a table.
    open spec fn view(&self) -> EntryView {
        match self {
            StorageOp::Insert(key, value) => EntryView {
                key: key@,
                marker: MarkerView::Value(value@),
            },
            StorageOp::Delete(key) => EntryView { key: key@, marker: MarkerView::Tombstone },
        }
    }
}

impl StorageOp {
    /// The entry that the mutation leaves in a table.
    pub fn into_entry(self) -> (entry: Entry)
        ensures
            entry@ == self@,
    {
        match self {
            StorageOp::Insert(key, value) => Entry { key, marker: Marker::Value(value) },
            StorageOp::Delete(key) => Entry { key, marker: Marker::Tombstone },
        }
    }

    /// Frames the mutation as a log record. A mutation whose key or
    /// value is too long to be framed is refused, and no other.
    pub fn encode(&self) -> (framed: Result<Vec<u8>, DbError>)
        ensures
            match framed {
                Ok(bytes) => encodable(self@) && bytes@ == spec_frame(self@),
                Err(e) => !encodable(self@) && e is SerializationError,
            },
    {
        match self {
            StorageOp::Insert(key, value) => {
                let key_part = match frame_bytes(key.as_slice()) {
                    Ok(part) => part,
                    Err(e) => { return Err(e); },
                };
                match frame_bytes(value.as_slice()) {
                    Ok(value_part) => Ok(assemble_record(key_part, Some(value_part))),
                    Err(e) => Err(e),
                }
            },
            StorageOp::Delete(key) => match frame_bytes(key.as_slice()) {
                Ok(key_part) => Ok(assemble_record(key_part, None)),
                Err(e) => Err(e),
            },
        }
    }
}

/// The views of a run of entries, one by one.
pub open spec fn entry_views(entries: Seq<Entry>) -> Seq<EntryView> {
    Seq::new(entries.len(), |i: int| entries[i]@)
}

/// The bytes of one record.
pub open spec fn spec_frame(entry: EntryView) -> Seq<u8> {
    match entry.marker {
        MarkerView::Value(value) => seq![OP_INSERT] + length_prefixed(entry.key)
            + length_prefixed(value),
        MarkerView::Tombstone => seq![OP_DELETE] + length_prefixed(entry.key),
    }
}

/// The bytes of a run of records, one after the other.
pub open spec fn spec_frame_all(entries: Seq<EntryView>) -> Seq<u8>
    decreases entries.len(),
{
    if entries.len() == 0 {
        Seq::empty()
    } else {
        spec_frame(entries[0]) + spec_frame_all(entries.skip(1))
    }
}

/// An entry that can be framed: its key and its value are short enough
/// for each to fit in a vector behind its length.
pub open spec fn encodable(entry: EntryView) -> bool {
    &&& fits(entry.key)
    &&& entry.marker matches MarkerView::Value(value) ==> fits(value)
}

/// Every entry of `run` can be framed.
pub open spec fn all_encodable(run: Seq<EntryView>) -> bool {
    forall|i: int| 0 <= i < run.len() ==> encodable(#[trigger] run[i])
}

/// An entry whose key and value are short enough for their lengths to be
/// written in eight bytes.
pub open spec fn frameable(entry: EntryView) -> bool {
    entry.key.len() <= u64::MAX && entry.marker.weight() <= u64::MAX
}

/// The record at the start of `bytes` and its length in bytes; `None`
/// where the opcode is unknown or the bytes end inside the record.
pub open spec fn spec_decode(bytes: Seq<u8>) -> Option<(EntryView, int)> {
    if bytes.len() == 0 {
        None
    } else if bytes[0] == OP_INSERT {
        match spec_take_bytes(bytes.skip(1)) {
            Some((key, used)) => match spec_take_bytes(bytes.skip(1 + used)) {
                Some((value, more)) => Some(
                    (EntryView { key, marker: MarkerView::Value(value) }, 1 + used + more),
                ),
                None => None,
            },
            None => None,
        }
    } else if bytes[0] == OP_DELETE {
        match spec_take_bytes(bytes.skip(1)) {
            Some((key, used)) => Some(
                (EntryView { key, marker: MarkerView::Tombstone }, 1 + used),
            ),
            None => None,
        }
    } else {
        None
    }
}

/// The records that can be read from the start of `bytes`, up to the
/// first place where no whole record stands.
pub open spec fn spec_decode_log(bytes: Seq<u8>) -> Seq<EntryView>
    decreases bytes.len(),
{
    match spec_decode(bytes) {
        Some((entry, used)) => seq![entry] + spec_decode_log(bytes.skip(used)),
        None => Seq::empty(),
    }
}

/// How many bytes the records of [`spec_decode_log`] take up.
pub open spec fn spec_log_end(bytes: Seq<u8>) -> int
    decreases bytes.len(),
{
    match spec_decode(bytes) {
        Some((entry, used)) => used + spec_log_end(bytes.skip(used)),
        None => 0,
    }
}

/// Joins the parts of a record: the opcode, the framed key and, for an
/// insert, the framed value.
pub fn assemble_record(key_part: Vec<u8>, value_part: Option<Vec<u8>>) -> (record: Vec<u8>)
    ensures
        record@ == match value_part {
            Some(value) => seq![OP_INSERT] + key_part@ + value@,
            None => seq![OP_DELETE] + key_part@,
        },
{
    let mut record: Vec<u8> = Vec::new();
    let mut key_part = key_part;
    match value_part {
        Some(value) => {
            let mut value = value;
            record.push(OP_INSERT);
            record.append(&mut key_part);
            record.append(&mut value);
        },
        None => {
            record.push(OP_DELETE);
            record.append(&mut key_part);
        },
    }
    record
}

/// Frames a key and its marker as one record. A key or a value that is
/// too long to be framed is refused, and nothing else is.
pub fn encode_record(key: &[u8], marker: &Marker) -> (framed: Result<Vec<u8>, DbError>)
    ensures
        match framed {
            Ok(bytes) => {
                &&& encodable(EntryView { key: key@, marker: marker@ })
                &&& bytes@ == spec_frame(EntryView { key: key@, marker: marker@ })
            },
            Err(e) => {
                &&& !encodable(EntryView { key: key@, marker: marker@ })
                &&& e is SerializationError
            },
        },
{
    let key_part = match frame_bytes(key) {
        Ok(part) => part,
        Err(e) => { return Err(e); },
    };
    match marker {
        Marker::Value(value) => match frame_bytes(value.as_slice()) {
            Ok(value_part) => Ok(assemble_record(key_part, Some(value_part))),
            Err(e) => Err(e),
        },
        Marker::Tombstone => Ok(assemble_record(key_part, None)),
    }
}

/// Reads the record that starts at `pos`, and tells where it ends.
pub fn decode_record(bytes: &[u8], pos: usize) -> (decoded: Option<(Entry, usize)>)
    ensures
        match decoded {
            Some((entry, next)) => {
                &&& pos < next <= bytes.len()
                &&& spec_decode(bytes@.skip(pos as int)) == Some((entry@, next - pos))
            },
            None => pos >= bytes.len() || spec_decode(bytes@.skip(pos as int)) is None,
        },
{
    if pos >= bytes.len() {
        return None;
    }
    let ghost rest = bytes@.skip(pos as int);
    let opcode = bytes[pos];
    assert(rest[0] == opcode);
    if opcode != OP_INSERT && opcode != OP_DELETE {
        return None;
    }
    assert(rest.skip(1) =~= bytes@.skip(pos + 1));
    let (key, after_key) = match take_bytes(bytes, pos + 1) {
        Some(taken) => taken,
        None => { return None; },
    };
    if opcode == OP_DELETE {
        return Some((Entry { key, marker: Marker::Tombstone }, after_key));
    }
    assert(rest.skip(1 + (after_key - (pos + 1))) =~= bytes@.skip(after_key as int));
    match take_bytes(bytes, after_key) {
        Some((value, after_value)) => Some(
            (Entry { key, marker: Marker::Value(value) }, after_value),
        ),
        None => None,
    }
}

/// Reads the records of a log from its start, up to the first place
/// where no whole record stands, and tells where that is.
pub fn decode_log(bytes: &[u8]) -> (decoded: (Vec<Entry>, usize))
    ensures
        entry_views(decoded.0@) == spec_decode_log(bytes@),
        decoded.1 == spec_log_end(bytes@),
        decoded.1 <= bytes.len(),
{
    let mut entries: Vec<Entry> = Vec::new();
    let mut pos: usize = 0;
    proof {
        assert(bytes@.skip(0) =~= bytes@);
        assert(entry_views(entries@) + spec_decode_log(bytes@) =~= spec_decode_log(bytes@));
    }
    loop
        invariant
            pos <= bytes.len(),
            spec_decode_log(bytes@) == entry_views(entries@) + spec_decode_log(
                bytes@.skip(pos as int),
            ),
            spec_log_end(bytes@) == pos + spec_log_end(bytes@.skip(pos as int)),
        ensures
            pos <= bytes.len(),
            spec_decode_log(bytes@) == entry_views(entries@),
            spec_log_end(bytes@) == pos,
        decreases bytes.len() - pos,
    {
        let ghost rest = bytes@.skip(pos as int);
        match decode_record(bytes, pos) {
            Some((entry, next)) => {
                proof {
                    assert(rest.skip(next - pos) =~= bytes@.skip(next as int));
                    assert(entry_views(entries@.push(entry)) =~= entry_views(entries@)
                        + seq![entry@]);
                }
                entries.push(entry);
                pos = next;
            },
            None => {
                proof {
                    assert(spec_decode(rest) is None);
                }
                break ;
            },
        }
    }
    (entries, pos)
}

/// A framed record is read back whole, whatever follows it.
pub proof fn lemma_decode_framed(entry: EntryView, after: Seq<u8>)
    requires
        frameable(entry),
    ensures
        spec_decode(spec_frame(entry) + after) == Some((entry, spec_frame(entry).len() as int)),
        spec_frame(entry).len() >= 9,
{
    let all = spec_frame(entry) + after;
    match entry.marker {
        MarkerView::Value(value) => {
            lemma_take_framed(entry.key, length_prefixed(value) + after);
            lemma_take_framed(value, after);
            assert(all.skip(1) =~= length_prefixed(entry.key) + (length_prefixed(value)
                + after));
            assert(all.skip(1 + 8 + entry.key.len() as int) =~= length_prefixed(value) + after);
        },
        MarkerView::Tombstone => {
            lemma_take_framed(entry.key, after);
            assert(all.skip(1) =~= length_prefixed(entry.key) + after);
        },
    }
}

/// A framed record that is cut short cannot be read.
pub proof fn lemma_decode_truncated(entry: EntryView, cut: int)
    requires
        frameable(entry),
        0 <= cut < spec_frame(entry).len(),
    ensures
        spec_decode(spec_frame(entry).subrange(0, cut)) is None,
{
    let torn = spec_frame(entry).subrange(0, cut);
    lemma_take_framed(entry.key, Seq::empty());
    if cut > 0 {
        let key_part = length_prefixed(entry.key);
        if cut - 1 < key_part.len() {
            lemma_take_truncated(entry.key, cut - 1);
            assert(torn.skip(1) =~= key_part.subrange(0, cut - 1));
        } else {
            match entry.marker {
                MarkerView::Value(value) => {
                    let value_cut = cut - 1 - key_part.len();
                    lemma_take_framed(value, Seq::empty());
                    lemma_take_framed(entry.key, length_prefixed(value).subrange(0, value_cut));
                    lemma_take_truncated(value, value_cut);
                    assert(torn.skip(1) =~= key_part + length_prefixed(value).subrange(
                        0,
                        value_cut,
                    ));
                    assert(torn.skip(1 + key_part.len() as int) =~= length_prefixed(value).subrange(
                        0,
                        value_cut,
                    ));
                },
                MarkerView::Tombstone => {},
            }
        }
    }
}

/// A run of framed records is read back whole, and reading goes on into
/// whatever follows.
pub proof fn lemma_decode_log_framed(entries: Seq<EntryView>, after: Seq<u8>)
    requires
        forall|i: int| 0 <= i < entries.len() ==> frameable(#[trigger] entries[i]),
    ensures
        spec_decode_log(spec_frame_all(entries) + after) == entries + spec_decode_log(after),
        spec_log_end(spec_frame_all(entries) + after) == spec_frame_all(entries).len()
            + spec_log_end(after),
    decreases entries.len(),
{
    if entries.len() == 0 {
        assert(spec_frame_all(entries) + after =~= after);
        assert(entries + spec_decode_log(after) =~= spec_decode_log(after));
    } else {
        let first = entries[0];
        let rest = entries.skip(1);
        let all = spec_frame_all(entries) + after;
        lemma_decode_framed(first, spec_frame_all(rest) + after);
        assert(all =~= spec_frame(first) + (spec_frame_all(rest) + after));
        assert(all.skip(spec_frame(first).len() as int) =~= spec_frame_all(rest) + after);
        lemma_decode_log_framed(rest, after);
        assert(seq![first] + (rest + spec_decode_log(after)) =~= entries + spec_decode_log(
            after,
        ));
    }
}

} // verus!
