//! The key directory: a concurrent map from each live key to the location
//! of its value, the authoritative index of live data.
//!
//! The map comes from the dashmap crate.  Its contents are named by
//! `key_dir_view`, and what each operation does to them is stated on small
//! trusted wrappers, each clause matching what dashmap's source shows.

use vstd::prelude::*;

use dashmap::DashMap;

use crate::entry::IndexEntry;

verus! {

#[verifier::external_type_specification]
#[verifier::external_body]
#[verifier::reject_recursive_types(K)]
#[verifier::reject_recursive_types(V)]
#[verifier::reject_recursive_types(S)]
pub struct ExDashMap<K, V, S>(DashMap<K, V, S>);

/// The entries a key directory holds, keyed by the key's characters.
pub uninterp spec fn key_dir_view(m: DashMap<String, IndexEntry>) -> Map<Seq<char>, IndexEntry>;

/// The contents of a directory with no entries.
pub open spec fn key_dir_empty() -> Map<Seq<char>, IndexEntry> {
    Map::empty()
}

/// Relies on DashMap::new: a newly created map is empty.
#[verifier::external_body]
pub(crate) fn key_dir_new() -> (m: DashMap<String, IndexEntry>)
    ensures
        key_dir_view(m) == key_dir_empty(),
{
    DashMap::new()
}

/// Relies on DashMap::insert: it maps the key to the new entry and returns
/// the entry the key held before, if there was one.
#[verifier::external_body]
pub(crate) fn key_dir_insert(
    m: &mut DashMap<String, IndexEntry>,
    key: String,
    entry: IndexEntry,
) -> (displaced: Option<IndexEntry>)
    ensures
        key_dir_view(*final(m)) == key_dir_view(*old(m)).insert(key@, entry),
        displaced == if key_dir_view(*old(m)).contains_key(key@) {
            Some(key_dir_view(*old(m))[key@])
        } else {
            None::<IndexEntry>
        },
{
    m.insert(key, entry)
}

/// Relies on DashMap::get: it returns the entry the key holds, if any; the
/// entry is copied out of the returned guard.
#[verifier::external_body]
pub(crate) fn key_dir_get(m: &DashMap<String, IndexEntry>, key: &String) -> (entry: Option<
    IndexEntry,
>)
    ensures
        entry == if key_dir_view(*m).contains_key(key@) {
            Some(key_dir_view(*m)[key@])
        } else {
            None::<IndexEntry>
        },
{
    m.get(key).map(|r| *r)
}

/// Relies on DashMap::remove: it removes the key's entry and returns it, if
/// the key was present.
#[verifier::external_body]
pub(crate) fn key_dir_remove(m: &mut DashMap<String, IndexEntry>, key: &String) -> (displaced:
    Option<IndexEntry>)
    ensures
        key_dir_view(*final(m)) == key_dir_view(*old(m)).remove(key@),
        displaced == if key_dir_view(*old(m)).contains_key(key@) {
            Some(key_dir_view(*old(m))[key@])
        } else {
            None::<IndexEntry>
        },
{
    m.remove(key).map(|kv| kv.1)
}

/// Relies on DashMap::contains_key.
#[verifier::external_body]
pub(crate) fn key_dir_contains(m: &DashMap<String, IndexEntry>, key: &String) -> (present: bool)
    ensures
        present == key_dir_view(*m).contains_key(key@),
{
    m.contains_key(key)
}

} // verus!
