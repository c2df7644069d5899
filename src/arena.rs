//! The node arena's key issuer, a slot map from the `slotmap` crate that maps
//! each live generational key to the position of its node record.
use slotmap::{DefaultKey, Key, KeyData, SlotMap};
use std::collections::hash_map::RandomState;
use std::hash::BuildHasher;
use vstd::prelude::*;

verus! {

/// Live node keys and the positions of their records, held in a slot map
/// of the `slotmap` crate.
#[verifier::external_body]
pub struct NodeSlots {
    map: SlotMap<DefaultKey, usize>,
}

/// What a slot map of node positions holds: each live key, in its 64-bit
/// form (`KeyData::as_ffi`), with the position stored under it.
pub uninterp spec fn slot_entries(m: NodeSlots) -> Map<u64, usize>;

/// Relies on `SlotMap::new`: the new map is empty.
#[verifier::external_body]
pub(crate) fn slots_new() -> (r: NodeSlots)
    ensures
        slot_entries(r).dom() == Set::<u64>::empty(),
{
    NodeSlots { map: SlotMap::new() }
}

/// Relies on `SlotMap::insert`, which returns a key that no live entry holds
/// and panics only when `u32::MAX` slots are in use, and on
/// `KeyData::as_ffi`, whose value `KeyData::from_ffi` turns back into the key.
#[verifier::external_body]
pub(crate) fn slots_insert(m: &mut NodeSlots, pos: usize) -> (k: u64)
    requires
        slot_entries(*old(m)).dom().finite(),
        slot_entries(*old(m)).dom().len() + 2 < u32::MAX,
    ensures
        !slot_entries(*old(m)).contains_key(k),
        slot_entries(*final(m)) == slot_entries(*old(m)).insert(k, pos),
{
    m.map.insert(pos).data().as_ffi()
}

/// Relies on `SlotMap::get` and `KeyData::from_ffi`: a live key yields its
/// position; any other key yields nothing or the position of a live entry.
#[verifier::external_body]
pub(crate) fn slots_get(m: &NodeSlots, k: u64) -> (r: Option<usize>)
    ensures
        slot_entries(*m).contains_key(k) ==> r == Some(slot_entries(*m)[k]),
        r matches Some(p) ==> exists|k2: u64|
            slot_entries(*m).contains_key(k2) && slot_entries(*m)[k2] == p,
{
    m.map.get(KeyData::from_ffi(k).into()).copied()
}

/// Relies on `SlotMap::remove` and `KeyData::from_ffi`: a live key leaves the map.
#[verifier::external_body]
pub(crate) fn slots_remove(m: &mut NodeSlots, k: u64)
    requires
        slot_entries(*old(m)).contains_key(k),
    ensures
        slot_entries(*final(m)) == slot_entries(*old(m)).remove(k),
{
    m.map.remove(KeyData::from_ffi(k).into());
}

/// Relies on `RandomState::new`: a hasher state with fresh random keys.
#[verifier::external_body]
fn random_state() -> (r: RandomState) {
    RandomState::new()
}

/// Relies on `BuildHasher::hash_one`: a 64-bit hash of a fixed byte under `s`.
#[verifier::external_body]
fn hash_marker(s: &RandomState) -> (r: u64) {
    s.hash_one(0u8)
}

/// A token that tells one graph from another: the hash of a fixed byte under
/// freshly keyed hasher state.
pub(crate) fn fresh_graph_token() -> (r: u64) {
    let s = random_state();
    hash_marker(&s)
}

} // verus!
