//! Weakly held registry of immutable property blobs, keyed by location.
use vstd::prelude::*;
use std::sync::{Arc, Weak};
use dashmap::DashMap;

verus! {

/// An immutable property blob and where it was read from.
#[derive(Debug)]
pub struct NodeProp {
    pub offset: u32,
    pub length: u32,
    pub value: Vec<u8>,
}

/// A blob as plain values: offset, length, bytes.
pub open spec fn prop_view(p: NodeProp) -> (u32, u32, Seq<u8>) {
    (p.offset, p.length, p.value@)
}

/// Blobs by key, held weakly: an entry lives as long as some node holds its blob.
#[verifier::external_body]
pub struct PropRegistry {
    map: DashMap<u64, Weak<NodeProp>>,
}

/// The blob last registered under each key, whether or not it is still alive.
pub uninterp spec fn prop_entries(t: PropRegistry) -> Map<u64, (u32, u32, Seq<u8>)>;

/// Relies on `DashMap::new`: the map starts empty.
#[verifier::external_body]
pub fn prop_registry_new() -> (r: PropRegistry)
    ensures
        prop_entries(r).dom() == Set::<u64>::empty(),
{
    PropRegistry { map: DashMap::new() }
}

/// Relies on `DashMap::get`, then std's `Weak::upgrade`: a live blob is the one
/// registered under `key`; a dead or missing one gives `None`.
#[verifier::external_body]
pub fn prop_registry_lookup(t: &PropRegistry, key: u64) -> (r: Option<Arc<NodeProp>>)
    ensures
        r matches Some(p) ==> prop_entries(*t).contains_key(key) && prop_entries(*t)[key] == prop_view(*p),
{
    t.map.get(&key).and_then(|w| w.upgrade())
}

/// Relies on `DashMap::insert`, with std's `Arc::downgrade`: `key` now maps to a
/// weak handle on `p`, in place of any earlier entry.
#[verifier::external_body]
pub fn prop_registry_insert(t: &mut PropRegistry, key: u64, p: &Arc<NodeProp>)
    ensures
        prop_entries(*final(t)) == prop_entries(*old(t)).insert(key, prop_view(**p)),
{
    t.map.insert(key, Arc::downgrade(p));
}

} // verus!
