//! The two hash collections that the consolidator keeps for the lifetime of
//! the process, held behind contracts over a `Map` and a `Set`.

use vstd::prelude::*;

verus! {

/// A `bevy::utils::HashMap<u64, u64>` (hashbrown's map with bevy's fixed
/// hasher) from fingerprint to canonical handle. The verifier does not look
/// inside: it knows the contents only as `index_entries`, and only what the
/// functions below claim of them.
#[verifier::external_body]
pub struct FingerprintIndex {
    inner: bevy::utils::HashMap<u64, u64>,
}

/// A `bevy::utils::HashSet<u64>` (hashbrown's set with bevy's fixed hasher)
/// of handles. The verifier knows the contents only as `set_members`, and
/// only what the functions below claim of them.
#[verifier::external_body]
pub struct HandleSet {
    inner: bevy::utils::HashSet<u64>,
}

/// The key-value pairs that the map holds.
pub uninterp spec fn index_entries(m: FingerprintIndex) -> Map<u64, u64>;

/// The handles that the set holds.
pub uninterp spec fn set_members(s: HandleSet) -> Set<u64>;

/// Calls `Default::default` of `bevy::utils::HashMap`. Not proved, taken
/// from its source: the map it gives has no entries.
#[verifier::external_body]
pub(crate) fn index_new() -> (m: FingerprintIndex)
    ensures
        index_entries(m) == (Map::<u64, u64>::empty()),
{
    FingerprintIndex { inner: bevy::utils::HashMap::default() }
}

/// Calls `HashMap::get` of `bevy::utils::HashMap`. Not proved, taken from
/// its source: it gives the value stored under `key`, and `None` exactly
/// when the map has no such key.
#[verifier::external_body]
pub(crate) fn index_get(m: &FingerprintIndex, key: u64) -> (value: Option<u64>)
    ensures
        value == (if index_entries(*m).contains_key(key) {
            Some(index_entries(*m)[key])
        } else {
            None
        }),
{
    m.inner.get(&key).copied()
}

/// Calls `HashMap::insert` of `bevy::utils::HashMap`. Not proved, taken
/// from its source: it stores `value` under `key`, replacing what was stored
/// there, leaves every other entry alone, and gives back the value replaced.
#[verifier::external_body]
pub(crate) fn index_insert(m: &mut FingerprintIndex, key: u64, value: u64) -> (previous: Option<
    u64,
>)
    ensures
        index_entries(*final(m)) == index_entries(*old(m)).insert(key, value),
        previous == (if index_entries(*old(m)).contains_key(key) {
            Some(index_entries(*old(m))[key])
        } else {
            None
        }),
{
    m.inner.insert(key, value)
}

/// Calls `HashMap::len` of `bevy::utils::HashMap`. Not proved, taken from
/// its source: it gives the number of entries.
#[verifier::external_body]
pub(crate) fn index_len(m: &FingerprintIndex) -> (n: usize)
    ensures
        n == index_entries(*m).len(),
{
    m.inner.len()
}

/// Calls `Default::default` of `bevy::utils::HashSet`. Not proved, taken
/// from its source: the set it gives has no members.
#[verifier::external_body]
pub(crate) fn set_new() -> (s: HandleSet)
    ensures
        set_members(s) == Set::<u64>::empty(),
{
    HandleSet { inner: bevy::utils::HashSet::default() }
}

/// Calls `HashSet::contains` of `bevy::utils::HashSet`. Not proved, taken
/// from its source: it tells whether `handle` is a member.
#[verifier::external_body]
pub(crate) fn set_contains(s: &HandleSet, handle: u64) -> (found: bool)
    ensures
        found == set_members(*s).contains(handle),
{
    s.inner.contains(&handle)
}

/// Calls `HashSet::insert` of `bevy::utils::HashSet`. Not proved, taken from
/// its source: it adds `handle`, leaves every other member alone, and tells
/// whether `handle` was new.
#[verifier::external_body]
pub(crate) fn set_insert(s: &mut HandleSet, handle: u64) -> (added: bool)
    ensures
        set_members(*final(s)) == set_members(*old(s)).insert(handle),
        added == !set_members(*old(s)).contains(handle),
{
    s.inner.insert(handle)
}

} // verus!
