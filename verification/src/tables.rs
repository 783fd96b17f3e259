//! The two tables of the loader, kept in concurrent hash maps of `ccl`.
//!
//! The maps lock themselves, so that their methods take a shared reference. Here each table has one
//! owner, and what changes a table takes it by mutable reference.

use crate::ids::AssetUuid;
use crate::state::AssetLoad;
use ccl::dhashmap::DHashMap;
use std::hash::Hash;
use vstd::prelude::*;

verus! {

/// The concurrent hash map of `ccl`.
#[verifier::external_type_specification]
#[verifier::external_body]
#[verifier::reject_recursive_types(K)]
#[verifier::reject_recursive_types(V)]
pub struct ExDHashMap<K: Hash + Eq, V>(DHashMap<K, V>);

/// What a table of loads holds: the load of each handle.
pub uninterp spec fn load_entries(table: DHashMap<u64, AssetLoad>) -> Map<u64, AssetLoad>;

/// What a table of handles holds: the handle of each asset.
pub uninterp spec fn handle_entries(table: DHashMap<AssetUuid, u64>) -> Map<AssetUuid, u64>;

/// `DHashMap::default` makes an empty map.
#[verifier::external_body]
pub(crate) fn new_load_table() -> (table: DHashMap<u64, AssetLoad>)
    ensures
        (load_entries(table) == Map::<u64, AssetLoad>::empty()),
{
    DHashMap::default()
}

/// `DHashMap::default` makes an empty map.
#[verifier::external_body]
pub(crate) fn new_handle_table() -> (table: DHashMap<AssetUuid, u64>)
    ensures
        (handle_entries(table) == Map::<AssetUuid, u64>::empty()),
{
    DHashMap::default()
}

/// `DHashMap::get` finds the value of a key, here copied out, and nothing for a key that the map
/// does not hold.
#[verifier::external_body]
pub(crate) fn get_load(table: &DHashMap<u64, AssetLoad>, handle: u64) -> (load: Option<AssetLoad>)
    ensures
        load == (if load_entries(*table).contains_key(handle) {
            Some(load_entries(*table)[handle])
        } else {
            None
        }),
{
    table.get(&handle).map(|load| *load)
}

/// `DHashMap::get` finds the value of a key, here copied out, and nothing for a key that the map
/// does not hold.
#[verifier::external_body]
pub(crate) fn get_handle(table: &DHashMap<AssetUuid, u64>, id: &AssetUuid) -> (handle: Option<u64>)
    ensures
        handle == (if handle_entries(*table).contains_key(*id) {
            Some(handle_entries(*table)[*id])
        } else {
            None
        }),
{
    table.get(id).map(|handle| *handle)
}

/// `DHashMap::get_mut` gives access to the value of a key, here to replace it. For a key that the
/// map does not hold nothing happens, and the answer is `false`.
#[verifier::external_body]
pub(crate) fn set_load(table: &mut DHashMap<u64, AssetLoad>, handle: u64, load: AssetLoad) -> (found:
    bool)
    ensures
        found == load_entries(*old(table)).contains_key(handle),
        load_entries(*final(table)) == (if load_entries(*old(table)).contains_key(handle) {
            load_entries(*old(table)).insert(handle, load)
        } else {
            load_entries(*old(table))
        }),
{
    match table.get_mut(&handle) {
        Some(mut place) => {
            *place = load;
            true
        },
        None => false,
    }
}

/// `DHashMap::insert` gives a key a value, whether or not it had one.
#[verifier::external_body]
pub(crate) fn insert_load(table: &mut DHashMap<u64, AssetLoad>, handle: u64, load: AssetLoad)
    ensures
        load_entries(*final(table)) == load_entries(*old(table)).insert(handle, load),
{
    table.insert(handle, load);
}

/// `DHashMap::get_or_insert_with` gives a key that the map does not hold the value that it is
/// handed, and answers with the value that the key then has.
#[verifier::external_body]
pub(crate) fn get_or_insert_handle(
    table: &mut DHashMap<AssetUuid, u64>,
    id: &AssetUuid,
    new_handle: u64,
) -> (handle: u64)
    ensures
        handle == (if handle_entries(*old(table)).contains_key(*id) {
            handle_entries(*old(table))[*id]
        } else {
            new_handle
        }),
        handle_entries(*final(table)) == (if handle_entries(*old(table)).contains_key(*id) {
            handle_entries(*old(table))
        } else {
            handle_entries(*old(table)).insert(*id, new_handle)
        }),
{
    *table.get_or_insert_with(id, || new_handle)
}

/// `DHashMap::remove` takes a key and its value out of the map, if they are in it.
#[verifier::external_body]
pub(crate) fn remove_load(table: &mut DHashMap<u64, AssetLoad>, handle: u64)
    ensures
        load_entries(*final(table)) == load_entries(*old(table)).remove(handle),
{
    table.remove(&handle);
}

/// `DHashMap::iter` walks the map, here for its keys: each key that the map holds comes once. In
/// which order is left open, for it differs from map to map.
#[verifier::external_body]
pub(crate) fn load_handles(table: &DHashMap<u64, AssetLoad>) -> (handles: Vec<u64>)
    ensures
        handles@.no_duplicates(),
        forall|handle: u64| #[trigger]
            handles@.contains(handle) <==> load_entries(*table).contains_key(handle),
{
    table.iter().map(|entry| *entry.key()).collect()
}

} // verus!
