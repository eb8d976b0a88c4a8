//! Trusted wrappers around `rustc_hash::FxHashMap`, the hash map that
//! backs both the alive-cell set and the per-tick neighbor count map.
//!
//! `FxHashMap<K, V>` is `std::collections::HashMap<K, V>` with the Fx
//! hasher. The wrappers state its documented map behavior over the
//! map's mathematical view: keyed by `CellPosition`, whose derived
//! `Eq` and `Hash` are structural.

use crate::cellule::CellPosition;
use rustc_hash::FxHashMap;
use vstd::prelude::*;

verus! {

/// The Fx hasher's builder, declared so that `FxHashMap` (a
/// `HashMap` with this hasher) can stand in signatures and fields.
#[verifier::external_type_specification]
#[verifier::external_body]
pub struct ExFxBuildHasher(rustc_hash::FxBuildHasher);

/// Relies on `FxHashMap::default`: a freshly built map is empty.
#[verifier::external_body]
pub(crate) fn fx_map_new<V>() -> (r: FxHashMap<CellPosition, V>)
    ensures
        r@ =~= Map::empty(),
{
    FxHashMap::default()
}

/// Relies on `FxHashMap::with_capacity_and_hasher`: a map pre-sized
/// for `capacity` entries is empty.
#[verifier::external_body]
pub(crate) fn fx_map_with_capacity<V>(capacity: usize) -> (r: FxHashMap<CellPosition, V>)
    ensures
        r@ =~= Map::empty(),
{
    FxHashMap::with_capacity_and_hasher(capacity, rustc_hash::FxBuildHasher)
}

/// Relies on `HashMap::insert`: the entry for `k` is set to `v` and
/// every other entry is kept.
#[verifier::external_body]
pub(crate) fn fx_map_insert<V>(m: &mut FxHashMap<CellPosition, V>, k: CellPosition, v: V)
    ensures
        final (m)@ == old(m)@.insert(k, v),
{
    m.insert(k, v);
}

/// Relies on `HashMap::remove`: the entry for `k`, if any, is taken
/// out and handed back; every other entry is kept.
#[verifier::external_body]
pub(crate) fn fx_map_remove<V>(m: &mut FxHashMap<CellPosition, V>, k: &CellPosition) -> (r: Option<
    V,
>)
    ensures
        final (m)@ == old(m)@.remove(*k),
        r == if old(m)@.contains_key(*k) {
            Some(old(m)@[*k])
        } else {
            None::<V>
        },
{
    m.remove(k)
}

/// Relies on `HashMap::get`: the value stored under `k`, if any.
#[verifier::external_body]
pub(crate) fn fx_map_get_copied<V: Copy>(m: &FxHashMap<CellPosition, V>, k: &CellPosition) -> (r:
    Option<V>)
    ensures
        r == if m@.contains_key(*k) {
            Some(m@[*k])
        } else {
            None::<V>
        },
{
    m.get(k).copied()
}

/// Relies on `HashMap::contains_key`.
#[verifier::external_body]
pub(crate) fn fx_map_contains<V>(m: &FxHashMap<CellPosition, V>, k: &CellPosition) -> (r: bool)
    ensures
        r == m@.contains_key(*k),
{
    m.contains_key(k)
}

/// Relies on `HashMap::len`: the number of entries.
#[verifier::external_body]
pub(crate) fn fx_map_len<V>(m: &FxHashMap<CellPosition, V>) -> (r: usize)
    ensures
        r == m@.dom().len(),
{
    m.len()
}

/// Relies on `HashMap::iter`: every entry is handed out exactly once,
/// in no fixed order.
#[verifier::external_body]
pub(crate) fn fx_map_entries<V: Copy>(m: &FxHashMap<CellPosition, V>) -> (r: Vec<
    (CellPosition, V),
>)
    ensures
        r@.len() == m@.dom().len(),
        forall|j: int|
            0 <= j < r@.len() ==> #[trigger] m@.contains_key(r@[j].0) && m@[r@[j].0] == r@[j].1,
        forall|j: int, l: int| 0 <= j < l < r@.len() ==> r@[j].0 != r@[l].0,
        forall|k: CellPosition|
            #[trigger] m@.contains_key(k) ==> exists|j: int| 0 <= j < r@.len() && r@[j].0 == k,
{
    m.iter().map(|(k, v)| (*k, *v)).collect()
}

} // verus!
