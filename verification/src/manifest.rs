//! The manifest: the generations of the active segments, oldest first,
//! as the bytes of the manifest file.
//!
//! Each generation takes eight bytes, least significant byte first.

use crate::error::DbError;
use vstd::bytes::*;
use vstd::prelude::*;
use vstd::slice::*;
use vstd::string::*;

verus! {

/// The bytes of a manifest that lists `generations`.
pub open spec fn spec_manifest(generations: Seq<u64>) -> Seq<u8>
    decreases generations.len(),
{
    if generations.len() == 0 {
        Seq::empty()
    } else {
        spec_manifest(generations.drop_last()) + spec_u64_to_le_bytes(generations.last())
    }
}

/// The generations that the bytes of a manifest list.
pub open spec fn spec_listed(bytes: Seq<u8>) -> Seq<u64> {
    Seq::new(
        (bytes.len() / 8) as nat,
        |i: int| spec_u64_from_le_bytes(bytes.subrange(8 * i, 8 * i + 8)),
    )
}

/// A manifest takes eight bytes for each generation.
pub proof fn lemma_manifest_len(generations: Seq<u64>)
    ensures
        spec_manifest(generations).len() == 8 * generations.len(),
    decreases generations.len(),
{
    lemma_auto_spec_u64_to_from_le_bytes();
    if generations.len() > 0 {
        lemma_manifest_len(generations.drop_last());
    }
}

/// The eight bytes at each place of a manifest are the generation listed
/// there.
pub proof fn lemma_manifest_layout(generations: Seq<u64>, i: int)
    requires
        0 <= i < generations.len(),
    ensures
        spec_manifest(generations).subrange(8 * i, 8 * i + 8) == spec_u64_to_le_bytes(
            generations[i],
        ),
    decreases generations.len(),
{
    lemma_auto_spec_u64_to_from_le_bytes();
    let rest = generations.drop_last();
    lemma_manifest_len(rest);
    lemma_manifest_len(generations);
    if i < rest.len() {
        lemma_manifest_layout(rest, i);
        assert(spec_manifest(generations).subrange(8 * i, 8 * i + 8) =~= spec_manifest(
            rest,
        ).subrange(8 * i, 8 * i + 8));
    } else {
        assert(spec_manifest(generations).subrange(8 * i, 8 * i + 8) =~= spec_u64_to_le_bytes(
            generations.last(),
        ));
    }
}

/// What was written into a manifest is what is read from it.
pub proof fn lemma_manifest_round_trip(generations: Seq<u64>)
    ensures
        spec_manifest(generations).len() == 8 * generations.len(),
        spec_listed(spec_manifest(generations)) == generations,
{
    lemma_auto_spec_u64_to_from_le_bytes();
    lemma_manifest_len(generations);
    assert forall|i: int| 0 <= i < generations.len() implies #[trigger] spec_listed(
        spec_manifest(generations),
    )[i] == generations[i] by {
        lemma_manifest_layout(generations, i);
    }
    assert(spec_listed(spec_manifest(generations)) =~= generations);
}

/// The bytes of the manifest file for a list of generations.
pub fn encode_manifest(generations: &[u64]) -> (bytes: Vec<u8>)
    ensures
        bytes@ == spec_manifest(generations@),
{
    let mut bytes: Vec<u8> = Vec::new();
    let mut i: usize = 0;
    proof {
        assert(generations@.subrange(0, 0) =~= Seq::<u64>::empty());
    }
    while i < generations.len()
        invariant
            i <= generations.len(),
            bytes@ == spec_manifest(generations@.subrange(0, i as int)),
        decreases generations.len() - i,
    {
        let mut chunk = u64_to_le_bytes(generations[i]);
        proof {
            let grown = generations@.subrange(0, i + 1);
            assert(grown.drop_last() =~= generations@.subrange(0, i as int));
            assert(grown.last() == generations@[i as int]);
        }
        bytes.append(&mut chunk);
        i += 1;
    }
    proof {
        assert(generations@.subrange(0, i as int) =~= generations@);
    }
    bytes
}

/// Reads the list of generations from the bytes of the manifest file. A
/// file whose length is no multiple of eight is reported as corruption.
pub fn decode_manifest(bytes: &[u8]) -> (listed: Result<Vec<u64>, DbError>)
    ensures
        match listed {
            Ok(generations) => bytes.len() % 8 == 0 && generations@ == spec_listed(bytes@),
            Err(e) => bytes.len() % 8 != 0 && e is SerializationError,
        },
{
    if bytes.len() % 8 != 0 {
        return Err(
            DbError::SerializationError(String::from_str("manifest ends inside a generation")),
        );
    }
    let count = bytes.len() / 8;
    let mut generations: Vec<u64> = Vec::new();
    let mut i: usize = 0;
    while i < count
        invariant
            count == bytes.len() / 8,
            bytes.len() % 8 == 0,
            i <= count,
            generations@ == spec_listed(bytes@).subrange(0, i as int),
        decreases count - i,
    {
        let generation = u64_from_le_bytes(slice_subrange(bytes, 8 * i, 8 * i + 8));
        generations.push(generation);
        proof {
            assert(generations@ =~= spec_listed(bytes@).subrange(0, i + 1));
        }
        i += 1;
    }
    proof {
        assert(generations@ =~= spec_listed(bytes@));
    }
    Ok(generations)
}

} // verus!
