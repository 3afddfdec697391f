//! A hash map from byte strings to numbers, kept in `hashbrown::HashMap`.
use vstd::prelude::*;

verus! {

/// Byte strings with their numbers.
///
/// The map is `hashbrown::HashMap` with an `ahash::RandomState` of fixed seeds.
#[verifier::external_body]
#[derive(Debug)]
pub struct ValueIdMap {
    map: hashbrown::HashMap<Vec<u8>, u32, ahash::RandomState>,
}

/// The entries of the map.
pub uninterp spec fn value_ids(map: ValueIdMap) -> Map<Seq<u8>, u32>;

/// No entries.
pub open spec fn no_ids() -> Map<Seq<u8>, u32> {
    Map::empty()
}

/// `HashMap::with_hasher`: a map without entries.
#[verifier::external_body]
pub(crate) fn empty_map(hasher: ahash::RandomState) -> (result: ValueIdMap)
    ensures
        value_ids(result) == no_ids(),
{
    ValueIdMap { map: hashbrown::HashMap::with_hasher(hasher) }
}

/// `HashMap::get`: the number of `key`, where the map has an entry for it.
#[verifier::external_body]
pub(crate) fn get(map: &ValueIdMap, key: &Vec<u8>) -> (result: Option<u32>)
    ensures
        result == (if value_ids(*map).contains_key(key@) {
            Some(value_ids(*map)[key@])
        } else {
            None
        }),
{
    map.map.get(key).copied()
}

/// `HashMap::insert`: sets the number of `key`.
#[verifier::external_body]
pub(crate) fn insert(map: &mut ValueIdMap, key: Vec<u8>, id: u32)
    ensures
        value_ids(*final(map)) == value_ids(*old(map)).insert(key@, id),
{
    map.map.insert(key, id);
}

/// `HashMap::len`: the number of entries.
#[verifier::external_body]
pub(crate) fn len(map: &ValueIdMap) -> (result: usize)
    ensures
        result == value_ids(*map).dom().len(),
{
    map.map.len()
}

/// `HashMap::allocation_size`: the bytes that the map has allocated. The number
/// is informational, and nothing is claimed of it.
#[verifier::external_body]
pub(crate) fn allocation_size(map: &ValueIdMap) -> usize {
    map.map.allocation_size()
}

} // verus!
