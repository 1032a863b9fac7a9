//! Tiers: the tables of a store laid over one another, oldest first.
//!
//! A read sees, for each key, what the newest tier that mentions the key
//! says of it.

use crate::record::MarkerView;
use vstd::prelude::*;

verus! {

/// What one tier knows of each key.
pub type TierMap = Map<Seq<u8>, MarkerView>;

/// The tiers laid over one another, each one hiding what older tiers say
/// of the keys it mentions. The oldest tier comes first.
pub open spec fn overlay_all(tiers: Seq<TierMap>) -> TierMap
    decreases tiers.len(),
{
    if tiers.len() == 0 {
        Map::empty()
    } else {
        overlay_all(tiers.drop_last()).union_prefer_right(tiers.last())
    }
}

/// What a reader is handed for `key` from a table: the value, or nothing
/// where the key is unknown or deleted.
pub open spec fn visible(table: TierMap, key: Seq<u8>) -> Option<Seq<u8>> {
    if table.contains_key(key) {
        table[key].visible()
    } else {
        None
    }
}

/// The table without its tombstones.
pub open spec fn live(table: TierMap) -> TierMap {
    Map::new(
        |key: Seq<u8>| table.contains_key(key) && table[key] is Value,
        |key: Seq<u8>| table[key],
    )
}

/// A single tier laid over nothing is that tier.
pub proof fn lemma_overlay_one(tier: TierMap)
    ensures
        overlay_all(seq![tier]) == tier,
{
    let one = seq![tier];
    assert(one.drop_last() =~= Seq::<TierMap>::empty());
    assert(one.last() == tier);
    assert(overlay_all(one.drop_last()) =~= Map::<Seq<u8>, MarkerView>::empty());
    assert(overlay_all(one) == overlay_all(one.drop_last()).union_prefer_right(one.last()));
    assert(overlay_all(one) =~= tier);
}

/// Laying two stacks of tiers over one another is laying the overlay of
/// the newer stack over the overlay of the older one.
pub proof fn lemma_overlay_concat(older: Seq<TierMap>, newer: Seq<TierMap>)
    ensures
        overlay_all(older + newer) == overlay_all(older).union_prefer_right(overlay_all(newer)),
    decreases newer.len(),
{
    if newer.len() == 0 {
        assert(older + newer =~= older);
        assert(overlay_all(older).union_prefer_right(overlay_all(newer)) =~= overlay_all(older));
    } else {
        assert((older + newer).drop_last() =~= older + newer.drop_last());
        lemma_overlay_concat(older, newer.drop_last());
        assert(overlay_all(older + newer) =~= overlay_all(older).union_prefer_right(
            overlay_all(newer),
        ));
    }
}

/// Replacing a stretch of neighbouring tiers by their overlay changes
/// nothing of what the whole stack says.
pub proof fn lemma_overlay_replace(before: Seq<TierMap>, cohort: Seq<TierMap>, after: Seq<TierMap>)
    ensures
        overlay_all(before + seq![overlay_all(cohort)] + after) == overlay_all(
            before + cohort + after,
        ),
{
    lemma_overlay_one(overlay_all(cohort));
    lemma_overlay_concat(before, seq![overlay_all(cohort)]);
    lemma_overlay_concat(before + seq![overlay_all(cohort)], after);
    lemma_overlay_concat(before, cohort);
    lemma_overlay_concat(before + cohort, after);
}

/// Replacing the oldest tiers by their overlay without its tombstones
/// changes nothing of what a reader is shown: a tombstone at the bottom
/// of the stack hides nothing.
pub proof fn lemma_overlay_collect(cohort: Seq<TierMap>, after: Seq<TierMap>, key: Seq<u8>)
    ensures
        visible(overlay_all(seq![live(overlay_all(cohort))] + after), key) == visible(
            overlay_all(cohort + after),
            key,
        ),
{
    lemma_overlay_one(live(overlay_all(cohort)));
    lemma_overlay_concat(seq![live(overlay_all(cohort))], after);
    lemma_overlay_concat(cohort, after);
}

/// An empty tier on top of a stack changes nothing.
pub proof fn lemma_overlay_empty_top(tiers: Seq<TierMap>)
    ensures
        overlay_all(tiers.push(Map::empty())) == overlay_all(tiers),
{
    assert(tiers.push(Map::empty()).drop_last() =~= tiers);
    assert(overlay_all(tiers.push(Map::empty())) =~= overlay_all(tiers));
}

/// The newest tier that mentions a key decides what the stack says of
/// it.
pub proof fn lemma_newest_hit(tiers: Seq<TierMap>, t: int, key: Seq<u8>)
    requires
        0 <= t < tiers.len(),
        tiers[t].contains_key(key),
        forall|u: int| t < u < tiers.len() ==> !(#[trigger] tiers[u]).contains_key(key),
    ensures
        overlay_all(tiers).contains_key(key),
        overlay_all(tiers)[key] == tiers[t][key],
    decreases tiers.len(),
{
    if t < tiers.len() - 1 {
        assert(!tiers[tiers.len() - 1].contains_key(key));
        assert(tiers.drop_last()[t] == tiers[t]);
        assert forall|u: int| t < u < tiers.drop_last().len() implies !(
        #[trigger] tiers.drop_last()[u]).contains_key(key) by {
            assert(tiers.drop_last()[u] == tiers[u]);
        }
        lemma_newest_hit(tiers.drop_last(), t, key);
    }
}

/// A key that no tier mentions is unknown to the stack.
pub proof fn lemma_no_hit(tiers: Seq<TierMap>, key: Seq<u8>)
    requires
        forall|u: int| 0 <= u < tiers.len() ==> !(#[trigger] tiers[u]).contains_key(key),
    ensures
        !overlay_all(tiers).contains_key(key),
    decreases tiers.len(),
{
    if tiers.len() > 0 {
        assert(!tiers[tiers.len() - 1].contains_key(key));
        assert forall|u: int| 0 <= u < tiers.drop_last().len() implies !(
        #[trigger] tiers.drop_last()[u]).contains_key(key) by {
            assert(tiers.drop_last()[u] == tiers[u]);
        }
        lemma_no_hit(tiers.drop_last(), key);
    }
}

/// A key that the stack knows of is mentioned by one of its tiers.
pub proof fn lemma_some_hit(tiers: Seq<TierMap>, key: Seq<u8>)
    requires
        overlay_all(tiers).contains_key(key),
    ensures
        exists|u: int| 0 <= u < tiers.len() && (#[trigger] tiers[u]).contains_key(key),
{
    if forall|u: int| 0 <= u < tiers.len() ==> !(#[trigger] tiers[u]).contains_key(key) {
        lemma_no_hit(tiers, key);
    }
}

} // verus!
