//! Trusted access to the Fx hash collections of `rustc_hash`, keyed by `u64`.
use vstd::prelude::*;
use rustc_hash::{FxBuildHasher, FxHashMap, FxHashSet};

verus! {

/// The hash key of a coordinate pair: the two coordinates' bits side by side.
pub open spec fn pair_key(x: i32, y: i32) -> u64 {
    ((#[verifier::truncate] (x as u32) as u64) << 32u64) | (#[verifier::truncate] (y as u32) as u64)
}

/// Distinct pairs have distinct keys.
pub proof fn lemma_pair_key_injective(x1: i32, y1: i32, x2: i32, y2: i32)
    requires
        pair_key(x1, y1) == pair_key(x2, y2),
    ensures
        x1 == x2 && y1 == y2,
{
    assert(x1 == x2 && y1 == y2) by (bit_vector)
        requires
            ((x1 as u32 as u64) << 32u64) | (y1 as u32 as u64) == ((x2 as u32 as u64) << 32u64) | (y2 as u32 as u64),
    ;
}

/// The hash key of a coordinate pair.
pub fn key_of_pair(x: i32, y: i32) -> (k: u64)
    ensures
        k == pair_key(x, y),
{
    ((#[verifier::truncate] (x as u32) as u64) << 32u64) | (#[verifier::truncate] (y as u32) as u64)
}

/// The build-hasher of the Fx hash collections.
#[verifier::external_type_specification]
#[verifier::external_body]
pub struct ExFxBuildHasher(FxBuildHasher);

/// Inserts `key` into an Fx hash set, reporting whether it was new.
#[verifier::external_body]
pub(crate) fn fx_insert(set: &mut FxHashSet<u64>, key: u64) -> (inserted: bool)
    ensures
        final(set)@ == old(set)@.insert(key),
        inserted == !old(set)@.contains(key),
{
    set.insert(key)
}

/// Whether an Fx hash set holds `key`.
#[verifier::external_body]
pub(crate) fn fx_contains(set: &FxHashSet<u64>, key: u64) -> (found: bool)
    ensures
        found == set@.contains(key),
{
    set.contains(&key)
}

/// Maps `key` to `value` in an Fx hash map, replacing what it mapped to.
#[verifier::external_body]
pub(crate) fn fx_map_insert<V>(map: &mut FxHashMap<u64, V>, key: u64, value: V)
    ensures
        final(map)@ == old(map)@.insert(key, value),
{
    map.insert(key, value);
}

/// Takes what an Fx hash map holds for `key` out of it.
#[verifier::external_body]
pub(crate) fn fx_map_remove<V>(map: &mut FxHashMap<u64, V>, key: u64) -> (r: Option<V>)
    ensures
        final(map)@ == old(map)@.remove(key),
        r == (if old(map)@.contains_key(key) { Some(old(map)@[key]) } else { None::<V> }),
{
    map.remove(&key)
}

/// The entries of an Fx hash map, in the map's own (unspecified) order:
/// each key once, with what the map holds for it.
#[verifier::external_body]
pub(crate) fn fx_map_entries<V>(map: FxHashMap<u64, V>) -> (r: Vec<(u64, V)>)
    ensures
        forall|i: int| 0 <= i < r@.len() ==> map@.contains_key((#[trigger] r@[i]).0) && map@[r@[i].0] == r@[i].1,
        forall|k: u64| map@.contains_key(k) ==> exists|i: int| 0 <= i < r@.len() && (#[trigger] r@[i]).0 == k,
        forall|i: int, j: int| 0 <= i < j < r@.len() ==> (#[trigger] r@[i]).0 != (#[trigger] r@[j]).0,
{
    map.into_iter().collect()
}

/// What an Fx hash map holds for `key`.
#[verifier::external_body]
pub(crate) fn fx_map_get<V: Copy>(map: &FxHashMap<u64, V>, key: u64) -> (r: Option<V>)
    ensures
        r == (if map@.contains_key(key) { Some(map@[key]) } else { None::<V> }),
{
    map.get(&key).copied()
}

} // verus!
