//! The hash map from categories to bin indices.

use ahash::{AHashMap, RandomState};
use vstd::prelude::*;

verus! {

/// ahash's map.
#[verifier::external_type_specification]
#[verifier::external_body]
#[verifier::reject_recursive_types(K)]
#[verifier::reject_recursive_types(V)]
#[verifier::reject_recursive_types(S)]
pub struct ExAHashMap<K, V, S>(AHashMap<K, V, S>);

/// ahash's hasher state, a parameter of the map's type.
#[verifier::external_type_specification]
#[verifier::external_body]
pub struct ExRandomState(RandomState);

/// What a category map holds.
pub uninterp spec fn category_bins(map: AHashMap<String, u8>) -> Map<Seq<char>, u8>;

/// `AHashMap::new`: a map that holds nothing.
#[verifier::external_body]
pub(crate) fn no_categories() -> (map: AHashMap<String, u8>)
    ensures
        category_bins(map) == (Map::<Seq<char>, u8>::empty()),
{
    AHashMap::new()
}

/// `insert` of the map behind an `AHashMap`: the category has the bin afterwards, whether it
/// had one before or not, and nothing else changes.
#[verifier::external_body]
pub(crate) fn set_category(map: &mut AHashMap<String, u8>, category: String, bin: u8)
    ensures
        category_bins(*final(map)) == category_bins(*old(map)).insert(category@, bin),
{
    map.insert(category, bin);
}

/// `get` of the map behind an `AHashMap`: the bin of the category, if it has one.
#[verifier::external_body]
pub(crate) fn lookup_category(map: &AHashMap<String, u8>, category: &str) -> (bin: Option<u8>)
    ensures
        bin == if category_bins(*map).contains_key(category@) {
            Some(category_bins(*map)[category@])
        } else {
            None
        },
{
    map.get(category).copied()
}

/// `len` of the map behind an `AHashMap`: how many categories have a bin.
#[verifier::external_body]
pub(crate) fn count_categories(map: &AHashMap<String, u8>) -> (n: usize)
    ensures
        n == category_bins(*map).len(),
{
    map.len()
}

/// `AHashMap::clone`: a map that holds the same.
#[verifier::external_body]
pub(crate) fn copy_categories(map: &AHashMap<String, u8>) -> (copy: AHashMap<String, u8>)
    ensures
        category_bins(copy) == category_bins(*map),
{
    map.clone()
}

} // verus!
