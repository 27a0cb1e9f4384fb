//! Hash maps and hash sets keyed by chunk position.
//!
//! The collections are the ones of `rustc_hash`: the standard hash tables with
//! the Fx hasher. A table is modelled by the map or the set that it holds. The
//! functions of this file make the calls; what they state is believed, not
//! proved. It rests on three facts: `FxBuildHasher` starts every hash from the
//! same state and `FxHasher` is a plain computation on what it is fed, so that
//! equal keys hash alike; two pairs of integers are equal exactly if `==` says
//! so; and a hash table with such keys behaves as the standard library says.
use rustc_hash::{FxHashMap, FxHashSet};
use vstd::prelude::*;

verus! {

/// The hasher of [`FxHashMap`] and [`FxHashSet`].
#[verifier::external_type_specification]
#[verifier::external_body]
pub struct ExFxBuildHasher(rustc_hash::FxBuildHasher);

/// `map` has exactly `count` keys.
pub open spec fn has_key_count<V>(map: Map<(i32, i32), V>, count: nat) -> bool {
    map.dom().finite() && map.dom().len() == count
}

/// `FxHashMap::len`: the number of keys of the map.
#[verifier::external_body]
pub(crate) fn map_len<V>(map: &FxHashMap<(i32, i32), V>) -> (len: usize)
    ensures
        has_key_count(map@, len as nat),
{
    map.len()
}

/// `FxHashMap::get`: the value under `key`, or `None` where the map has none.
#[verifier::external_body]
pub(crate) fn map_get<V>(map: &FxHashMap<(i32, i32), V>, key: (i32, i32)) -> (found: Option<&V>)
    ensures
        match found {
            Some(value) => map@.contains_key(key) && *value == map@[key],
            None => !map@.contains_key(key),
        },
{
    map.get(&key)
}

/// `FxHashMap::insert`: puts `value` under `key` and returns the value that
/// stood there before, if any.
#[verifier::external_body]
pub(crate) fn map_insert<V>(
    map: &mut FxHashMap<(i32, i32), V>,
    key: (i32, i32),
    value: V,
) -> (replaced: Option<V>)
    ensures
        final(map)@ == old(map)@.insert(key, value),
        match replaced {
            Some(earlier) => old(map)@.contains_key(key) && earlier == old(map)@[key],
            None => !old(map)@.contains_key(key),
        },
{
    map.insert(key, value)
}

/// `FxHashMap::remove`: takes `key` out of the map and returns the value that
/// stood under it, if any.
#[verifier::external_body]
pub(crate) fn map_remove<V>(map: &mut FxHashMap<(i32, i32), V>, key: (i32, i32)) -> (removed: Option<
    V,
>)
    ensures
        final(map)@ == old(map)@.remove(key),
        match removed {
            Some(value) => old(map)@.contains_key(key) && value == old(map)@[key],
            None => !old(map)@.contains_key(key),
        },
{
    map.remove(&key)
}

/// `FxHashSet::insert`: adds `key` to the set and says whether it was new.
#[verifier::external_body]
pub(crate) fn set_insert(set: &mut FxHashSet<(i32, i32)>, key: (i32, i32)) -> (added: bool)
    ensures
        final(set)@ == old(set)@.insert(key),
        added == !old(set)@.contains(key),
{
    set.insert(key)
}

/// `FxHashSet::contains`: whether `key` is in the set.
#[verifier::external_body]
pub(crate) fn set_contains(set: &FxHashSet<(i32, i32)>, key: (i32, i32)) -> (found: bool)
    ensures
        found == set@.contains(key),
{
    set.contains(&key)
}

} // verus!
