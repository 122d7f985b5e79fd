//! The hash collections of `rustc_hash` as the library uses them.
//!
//! `FxHashSet` and `FxHashMap` are the standard hash set and hash map with
//! `FxBuildHasher` as their hash builder. The verifier's model of the
//! standard collections covers only hash builders that it knows to be
//! deterministic, and it knows nothing of `FxBuildHasher`. Each function here
//! makes one call on such a collection, keyed by `i32`, and its contract is
//! trusted rather than proved. It states over the collection's view what the
//! standard library documents for the call. That holds of these collections
//! because `FxBuildHasher` builds every hasher in the same state and the
//! hasher's digest depends on nothing but the values written to it, so that
//! equal keys always hash alike.

use rustc_hash::{FxBuildHasher, FxHashMap, FxHashSet};
use vstd::prelude::*;

verus! {

/// The hash builder of `rustc_hash`, a unit struct. Nothing of it is visible
/// to the verifier.
#[verifier::external_type_specification]
#[verifier::external_body]
pub struct ExFxBuildHasher(FxBuildHasher);

/// `HashSet::insert`: adds `value` to the set and tells whether it was new.
#[verifier::external_body]
pub(crate) fn set_insert(set: &mut FxHashSet<i32>, value: i32) -> (fresh: bool)
    ensures
        final(set)@ == old(set)@.insert(value),
        fresh == !old(set)@.contains(value),
{
    set.insert(value)
}

/// `HashSet::clone`: a set with the same elements.
#[verifier::external_body]
pub(crate) fn set_clone(set: &FxHashSet<i32>) -> (copy: FxHashSet<i32>)
    ensures
        copy@ == set@,
{
    set.clone()
}

/// `HashSet::len`: the number of elements.
#[verifier::external_body]
pub(crate) fn set_len(set: &FxHashSet<i32>) -> (len: usize)
    ensures
        len == set@.len(),
{
    set.len()
}

/// `HashSet::iter`, collected: every element of the set once, in the order
/// in which the set happens to hold them.
#[verifier::external_body]
pub(crate) fn set_items(set: &FxHashSet<i32>) -> (items: Vec<i32>)
    ensures
        items@.no_duplicates(),
        items@.to_set() == set@,
{
    set.iter().copied().collect()
}

/// `HashMap::get`: the value stored under `key`, if there is one.
#[verifier::external_body]
pub(crate) fn map_get<V>(map: &FxHashMap<i32, V>, key: i32) -> (value: Option<&V>)
    ensures
        value == if map@.contains_key(key) {
            Some(&map@[key])
        } else {
            None
        },
{
    map.get(&key)
}

/// `HashMap::insert`: stores `value` under `key` and hands back what was
/// stored there before.
#[verifier::external_body]
pub(crate) fn map_insert<V>(map: &mut FxHashMap<i32, V>, key: i32, value: V) -> (previous: Option<V>)
    ensures
        final(map)@ == old(map)@.insert(key, value),
        previous == if old(map)@.contains_key(key) {
            Some(old(map)@[key])
        } else {
            None
        },
{
    map.insert(key, value)
}

/// `HashMap::remove`: takes the entry under `key` out of the map and hands
/// its value back.
#[verifier::external_body]
pub(crate) fn map_remove<V>(map: &mut FxHashMap<i32, V>, key: i32) -> (value: Option<V>)
    ensures
        final(map)@ == old(map)@.remove(key),
        value == if old(map)@.contains_key(key) {
            Some(old(map)@[key])
        } else {
            None
        },
{
    map.remove(&key)
}

} // verus!
