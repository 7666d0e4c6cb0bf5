//! The hash maps of `bevy_platform` that glTF unpacking fills: handle to
//! index, and a set of handles. Handles are held by their integer id.
use bevy_platform::collections::HashMap;
use bevy_platform::hash::FixedHasher;
use vstd::prelude::*;

verus! {

/// `bevy_platform::hash::FixedHasher`, the default hasher of its maps.
#[verifier::external_type_specification]
#[verifier::external_body]
pub struct ExFixedHasher(FixedHasher);

/// `bevy_platform::collections::HashMap`, a hash map with a fixed hasher.
#[verifier::external_type_specification]
#[verifier::external_body]
#[verifier::reject_recursive_types(K)]
#[verifier::reject_recursive_types(V)]
#[verifier::reject_recursive_types(S)]
pub struct ExHashMap<K, V, S>(HashMap<K, V, S>);

/// What a handle-to-index map holds.
pub uninterp spec fn index_map_contents(m: HashMap<u64, usize>) -> Map<u64, usize>;

/// The keys that a handle set holds.
pub uninterp spec fn key_set_contents(m: HashMap<u64, ()>) -> Set<u64>;

/// `bevy_platform::collections::HashMap::new`: claimed to give a map with
/// no keys.
#[verifier::external_body]
pub(crate) fn index_map_new() -> (m: HashMap<u64, usize>)
    ensures
        index_map_contents(m).dom() == Set::<u64>::empty(),
{
    HashMap::new()
}

/// `bevy_platform::collections::HashMap::insert`: claimed to map `k` to `v`
/// afterwards, leave every other key as it was, and return the value `k`
/// had before, if any.
#[verifier::external_body]
pub(crate) fn index_map_insert(m: &mut HashMap<u64, usize>, k: u64, v: usize) -> (prev: Option<usize>)
    ensures
        index_map_contents(*final(m)) == index_map_contents(*old(m)).insert(k, v),
        prev == (if index_map_contents(*old(m)).contains_key(k) {
            Some(index_map_contents(*old(m))[k])
        } else {
            None
        }),
{
    m.insert(k, v)
}

/// `bevy_platform::collections::HashMap::get`: claimed to return the value
/// of `k` where `k` is a key, and nothing otherwise.
#[verifier::external_body]
pub(crate) fn index_map_get(m: &HashMap<u64, usize>, k: u64) -> (r: Option<usize>)
    ensures
        r == (if index_map_contents(*m).contains_key(k) {
            Some(index_map_contents(*m)[k])
        } else {
            None
        }),
{
    m.get(&k).copied()
}

/// `bevy_platform::collections::HashMap::new`, used as a set of handles:
/// claimed to hold no key.
#[verifier::external_body]
pub(crate) fn key_set_new() -> (m: HashMap<u64, ()>)
    ensures
        key_set_contents(m) == Set::<u64>::empty(),
{
    HashMap::new()
}

/// `bevy_platform::collections::HashMap::insert` with the unit value:
/// claimed to make `k` a key, leave the other keys as they were, and return
/// a value exactly when `k` was a key before.
#[verifier::external_body]
pub(crate) fn key_set_insert(m: &mut HashMap<u64, ()>, k: u64) -> (was_present: bool)
    ensures
        key_set_contents(*final(m)) == key_set_contents(*old(m)).insert(k),
        was_present == key_set_contents(*old(m)).contains(k),
{
    m.insert(k, ()).is_some()
}

/// `bevy_platform::collections::HashMap::contains_key`: claimed to tell
/// whether `k` is a key.
#[verifier::external_body]
pub(crate) fn key_set_contains(m: &HashMap<u64, ()>, k: u64) -> (r: bool)
    ensures
        r == key_set_contents(*m).contains(k),
{
    m.contains_key(&k)
}

} // verus!
