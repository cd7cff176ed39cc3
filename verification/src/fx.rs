//! Hash maps keyed by dependency name hashes, hashed with `rustc_hash`'s
//! Fx hasher, as the dependency analyzer keeps them.
//!
//! `FxHashMap` is std's `HashMap` with the `FxBuildHasher` of `rustc_hash`.
//! That builder makes a fresh `FxHasher` with the same fixed state each
//! time, so equal keys always hash alike and the map behaves as a map.
//! The items below state that of the three methods the analyzer calls.

use vstd::prelude::*;
use rustc_hash::{FxBuildHasher, FxHashMap};

verus! {

/// The hash builder of `rustc_hash`, a unit struct.
#[verifier::external_type_specification]
#[verifier::external_body]
pub struct ExFxBuildHasher(FxBuildHasher);

/// `HashMap::get` on an `FxHashMap`: the value stored under `key`, if any.
#[verifier::external_body]
pub(crate) fn fx_get<V>(map: &FxHashMap<u64, V>, key: u64) -> (found: Option<&V>)
    ensures
        match found {
            Some(v) => map@.contains_key(key) && *v == map@[key],
            None => !map@.contains_key(key),
        },
{
    map.get(&key)
}

/// `HashMap::insert` on an `FxHashMap`: stores `value` under `key`,
/// replacing what was stored there.
#[verifier::external_body]
pub(crate) fn fx_insert<V>(map: &mut FxHashMap<u64, V>, key: u64, value: V)
    ensures
        final(map)@ == old(map)@.insert(key, value),
{
    map.insert(key, value);
}

/// `HashMap::remove` on an `FxHashMap`: takes out the value stored under
/// `key`, if any.
#[verifier::external_body]
pub(crate) fn fx_remove<V>(map: &mut FxHashMap<u64, V>, key: u64) -> (removed: Option<V>)
    ensures
        final(map)@ == old(map)@.remove(key),
        match removed {
            Some(v) => old(map)@.contains_key(key) && v == old(map)@[key],
            None => !old(map)@.contains_key(key),
        },
{
    map.remove(&key)
}

} // verus!
