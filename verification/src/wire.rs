//! Byte strings behind their length, laid out by `bincode`.

use crate::error::DbError;
use vstd::bytes::*;
use vstd::prelude::*;
use vstd::slice::*;
use vstd::string::*;

verus! {

/// `bincode::ErrorKind`, the error of the serializer. It is carried
/// through as it is; nothing is known of what it holds.
#[verifier::external_type_specification]
#[verifier::external_body]
pub struct ExErrorKind(bincode::ErrorKind);

/// A byte string behind its length: the length as eight little-endian
/// bytes, then the bytes themselves.
pub open spec fn length_prefixed(data: Seq<u8>) -> Seq<u8> {
    spec_u64_to_le_bytes(data.len() as u64) + data
}

/// A byte string short enough to be framed: with the eight bytes of its
/// length it still fits in a vector.
pub open spec fn fits(data: Seq<u8>) -> bool {
    data.len() + 8 <= isize::MAX
}

/// Calls `bincode::serialize` on a byte slice. With the fixed-width
/// little-endian integers that function uses, a slice comes out as its
/// length in eight bytes followed by its bytes. The call succeeds: the
/// function sets no size limit, a slice knows its length, and it writes
/// into a vector. It reserves room for the whole result before it
/// writes, so the slice must be short enough for eight bytes more to fit
/// in a vector.
#[verifier::external_body]
fn serialize_bytes(data: &[u8]) -> (outcome: Result<Vec<u8>, Box<bincode::ErrorKind>>)
    requires
        fits(data@),
    ensures
        outcome is Ok,
        outcome matches Ok(bytes) ==> bytes@ == length_prefixed(data@),
{
    bincode::serialize(data)
}

/// Calls `to_string` on a `bincode::ErrorKind`. Nothing is claimed of the
/// text.
#[verifier::external_body]
fn error_text(error: &bincode::ErrorKind) -> String {
    error.to_string()
}

/// Turns what the serializer answered into the store's own result: the
/// bytes as they are, a failure as a serialization error.
pub fn framed_or_error(outcome: Result<Vec<u8>, Box<bincode::ErrorKind>>) -> (framed: Result<
    Vec<u8>,
    DbError,
>)
    ensures
        match outcome {
            Ok(bytes) => framed == Ok::<Vec<u8>, DbError>(bytes),
            Err(_) => framed matches Err(e) && e is SerializationError,
        },
{
    match outcome {
        Ok(bytes) => Ok(bytes),
        Err(error) => Err(DbError::SerializationError(error_text(&*error))),
    }
}

/// Puts `data` behind its length. Data too long for the result to fit
/// in a vector is refused, and nothing else is.
pub fn frame_bytes(data: &[u8]) -> (framed: Result<Vec<u8>, DbError>)
    ensures
        match framed {
            Ok(bytes) => fits(data@) && bytes@ == length_prefixed(data@),
            Err(e) => !fits(data@) && e is SerializationError,
        },
{
    if data.len() > isize::MAX as usize - 8 {
        return Err(
            DbError::SerializationError(String::from_str("byte string is too long to frame")),
        );
    }
    framed_or_error(serialize_bytes(data))
}

/// The byte string that stands behind its length at the start of `bytes`,
/// and how many bytes the two take up; `None` where the bytes end too
/// early.
pub open spec fn spec_take_bytes(bytes: Seq<u8>) -> Option<(Seq<u8>, int)> {
    if bytes.len() >= 8 {
        let n = spec_u64_from_le_bytes(bytes.subrange(0, 8)) as int;
        if 8 + n <= bytes.len() {
            Some((bytes.subrange(8, 8 + n), 8 + n))
        } else {
            None
        }
    } else {
        None
    }
}

/// Reads the length-prefixed byte string that starts at `pos`, and tells
/// where it ends.
pub fn take_bytes(bytes: &[u8], pos: usize) -> (taken: Option<(Vec<u8>, usize)>)
    ensures
        match taken {
            Some((data, next)) => {
                &&& pos <= next <= bytes.len()
                &&& spec_take_bytes(bytes@.skip(pos as int)) == Some((data@, next - pos))
            },
            None => pos > bytes.len() || spec_take_bytes(bytes@.skip(pos as int)) is None,
        },
{
    if pos > bytes.len() || bytes.len() - pos < 8 {
        return None;
    }
    let n = u64_from_le_bytes(slice_subrange(bytes, pos, pos + 8));
    let rest = bytes.len() - pos - 8;
    assert(bytes@.skip(pos as int).subrange(0, 8) =~= bytes@.subrange(pos as int, pos + 8));
    if n > rest as u64 {
        return None;
    }
    let n = n as usize;
    let data = slice_to_vec(slice_subrange(bytes, pos + 8, pos + 8 + n));
    assert(bytes@.skip(pos as int).subrange(8, 8 + n) =~= bytes@.subrange(
        pos + 8,
        pos + 8 + n,
    ));
    Some((data, pos + 8 + n))
}

/// What was put behind its length is read back whole, whatever follows.
pub proof fn lemma_take_framed(data: Seq<u8>, after: Seq<u8>)
    requires
        data.len() <= u64::MAX,
    ensures
        length_prefixed(data).len() == 8 + data.len(),
        spec_take_bytes(length_prefixed(data) + after) == Some((data, 8 + data.len() as int)),
{
    lemma_auto_spec_u64_to_from_le_bytes();
    let all = length_prefixed(data) + after;
    let head = spec_u64_to_le_bytes(data.len() as u64);
    assert(all.subrange(0, 8) =~= head);
    assert(all.subrange(8, 8 + data.len() as int) =~= data);
}

/// A length-prefixed byte string that is cut short cannot be read.
pub proof fn lemma_take_truncated(data: Seq<u8>, cut: int)
    requires
        data.len() <= u64::MAX,
        0 <= cut < 8 + data.len(),
    ensures
        spec_take_bytes(length_prefixed(data).subrange(0, cut)) is None,
{
    lemma_auto_spec_u64_to_from_le_bytes();
    let all = length_prefixed(data).subrange(0, cut);
    if cut >= 8 {
        let head = spec_u64_to_le_bytes(data.len() as u64);
        assert(all.subrange(0, 8) =~= head);
    }
}

} // verus!
