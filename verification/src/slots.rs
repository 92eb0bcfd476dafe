//! The DOM arena and the resize-observer registry are `slotmap::SlotMap`s;
//! this module declares them to the verifier and states what each slot-map
//! operation that they use does to the map's contents.

use slotmap::{DefaultKey, Key, KeyData, SlotMap};
use vstd::prelude::*;

use crate::dom::{DomNode, DomNodeView};
use crate::node_id::NodeId;
use crate::resize_observer::{ObserverKey, ObserverState, ObserverStateView};

verus! {

/// The arena of the DOM: a `slotmap::SlotMap` with default keys. Verus cannot
/// take the slot-map type itself (its key bound names an outside trait), so the
/// map sits in the private field of this opaque struct.
#[verifier::external_body]
pub struct DomSlots {
    map: SlotMap<DefaultKey, DomNode>,
}

/// What a DOM slot map holds: each occupied key, in its FFI form, mapped to
/// the view of the node stored under it.
pub uninterp spec fn dom_slots(m: DomSlots) -> Map<NodeId, DomNodeView>;

/// Calls `SlotMap::new`: the map starts empty.
#[verifier::external_body]
pub(crate) fn slots_new() -> (m: DomSlots)
    ensures
        dom_slots(m).dom() == Set::<NodeId>::empty(),
{
    DomSlots { map: SlotMap::new() }
}

/// Calls `SlotMap::len`: the number of occupied slots.
#[verifier::external_body]
pub(crate) fn slots_len(m: &DomSlots) -> (n: usize)
    requires
        dom_slots(*m).dom().finite(),
    ensures
        n == dom_slots(*m).len(),
{
    m.map.len()
}

/// Calls `SlotMap::insert`: the value lands under a key that was not occupied
/// before, and nothing else changes. The map panics once it holds
/// `u32::MAX - 1` values, so the caller stays below that.
#[verifier::external_body]
pub(crate) fn slots_insert(m: &mut DomSlots, node: DomNode) -> (id: NodeId)
    requires
        dom_slots(*old(m)).dom().finite(),
        dom_slots(*old(m)).len() < 0xffff_fffeusize,
    ensures
        !dom_slots(*old(m)).contains_key(id),
        dom_slots(*final(m)) == dom_slots(*old(m)).insert(id, node@),
{
    NodeId { raw: m.map.insert(node).data().as_ffi() }
}

/// Calls `SlotMap::get` with the key whose FFI form is `id`: the stored value
/// when that key is occupied, and nothing otherwise.
#[verifier::external_body]
pub(crate) fn slots_get(m: &DomSlots, id: NodeId) -> (r: Option<&DomNode>)
    ensures
        r is Some <==> dom_slots(*m).contains_key(id),
        r matches Some(node) ==> node@ == dom_slots(*m)[id],
{
    m.map.get(DefaultKey::from(KeyData::from_ffi(id.raw)))
}

/// Calls `IndexMut::index_mut` on an occupied key and stores `node` there.
#[verifier::external_body]
pub(crate) fn slots_set(m: &mut DomSlots, id: NodeId, node: DomNode)
    requires
        dom_slots(*old(m)).contains_key(id),
    ensures
        dom_slots(*final(m)) == dom_slots(*old(m)).insert(id, node@),
{
    m.map[DefaultKey::from(KeyData::from_ffi(id.raw))] = node;
}

/// Calls `SlotMap::remove`: the key is no longer occupied and every other key
/// keeps its value.
#[verifier::external_body]
pub(crate) fn slots_remove(m: &mut DomSlots, id: NodeId) -> (r: Option<DomNode>)
    ensures
        dom_slots(*final(m)) == dom_slots(*old(m)).remove(id),
        r is Some <==> dom_slots(*old(m)).contains_key(id),
        r matches Some(node) ==> node@ == dom_slots(*old(m))[id],
{
    m.map.remove(DefaultKey::from(KeyData::from_ffi(id.raw)))
}

/// Collects `SlotMap::keys`: every occupied key exactly once, in the map's
/// own (unspecified) order.
#[verifier::external_body]
pub(crate) fn slots_keys(m: &DomSlots) -> (r: Vec<NodeId>)
    ensures
        r@.no_duplicates(),
        forall|i: int| 0 <= i < r@.len() ==> dom_slots(*m).contains_key(#[trigger] r@[i]),
        forall|k: NodeId| dom_slots(*m).contains_key(k) ==> r@.contains(k),
{
    let mut keys = Vec::new();
    for key in m.map.keys() {
        keys.push(NodeId { raw: key.data().as_ffi() });
    }
    keys
}

/// Calls `SlotMap::clone`: the copy holds the same values under the same
/// keys.
#[verifier::external_body]
pub(crate) fn slots_clone(m: &DomSlots) -> (r: DomSlots)
    ensures
        dom_slots(r) == dom_slots(*m),
{
    DomSlots { map: m.map.clone() }
}

/// The resize observers of one document, in a `slotmap::SlotMap` with
/// default keys, held in the private field of this opaque struct for the
/// same reason as [`DomSlots`].
#[verifier::external_body]
pub struct ObserverSlots {
    map: SlotMap<DefaultKey, ObserverState>,
}

/// What an observer slot map holds: each occupied key, in its FFI form,
/// mapped to the view of the observer stored under it.
pub uninterp spec fn observer_slots(m: ObserverSlots) -> Map<u64, ObserverStateView>;

/// Calls `SlotMap::new`: the map starts empty.
#[verifier::external_body]
pub(crate) fn observers_new() -> (m: ObserverSlots)
    ensures
        observer_slots(m).dom() == Set::<u64>::empty(),
{
    ObserverSlots { map: SlotMap::new() }
}

/// Calls `SlotMap::len`: the number of occupied slots.
#[verifier::external_body]
pub(crate) fn observers_len(m: &ObserverSlots) -> (n: usize)
    requires
        observer_slots(*m).dom().finite(),
    ensures
        n == observer_slots(*m).len(),
{
    m.map.len()
}

/// Calls `SlotMap::insert`: the value lands under a key that was not occupied
/// before, and nothing else changes. The map panics once it holds
/// `u32::MAX - 1` values, so the caller stays below that.
#[verifier::external_body]
pub(crate) fn observers_insert(m: &mut ObserverSlots, value: ObserverState) -> (id: ObserverKey)
    requires
        observer_slots(*old(m)).dom().finite(),
        observer_slots(*old(m)).len() < 0xffff_fffeusize,
    ensures
        !observer_slots(*old(m)).contains_key(id@),
        observer_slots(*final(m)) == observer_slots(*old(m)).insert(id@, value@),
{
    ObserverKey { raw: m.map.insert(value).data().as_ffi() }
}

/// Calls `SlotMap::get` with the key `id`: the stored value when that key is
/// occupied, and nothing otherwise.
#[verifier::external_body]
pub(crate) fn observers_get(m: &ObserverSlots, id: ObserverKey) -> (r: Option<&ObserverState>)
    ensures
        r is Some <==> observer_slots(*m).contains_key(id@),
        r matches Some(v) ==> v@ == observer_slots(*m)[id@],
{
    m.map.get(DefaultKey::from(KeyData::from_ffi(id.raw)))
}

/// Calls `IndexMut::index_mut` on an occupied key and stores `value` there.
#[verifier::external_body]
pub(crate) fn observers_set(m: &mut ObserverSlots, id: ObserverKey, value: ObserverState)
    requires
        observer_slots(*old(m)).contains_key(id@),
    ensures
        observer_slots(*final(m)) == observer_slots(*old(m)).insert(id@, value@),
{
    m.map[DefaultKey::from(KeyData::from_ffi(id.raw))] = value;
}

/// Calls `SlotMap::remove`: the key is no longer occupied and every other key
/// keeps its value.
#[verifier::external_body]
pub(crate) fn observers_remove(m: &mut ObserverSlots, id: ObserverKey) -> (r: Option<ObserverState>)
    ensures
        observer_slots(*final(m)) == observer_slots(*old(m)).remove(id@),
        r is Some <==> observer_slots(*old(m)).contains_key(id@),
        r matches Some(v) ==> v@ == observer_slots(*old(m))[id@],
{
    m.map.remove(DefaultKey::from(KeyData::from_ffi(id.raw)))
}

/// Collects `SlotMap::keys`: every occupied key exactly once, in the map's
/// own (unspecified) order.
#[verifier::external_body]
pub(crate) fn observers_keys(m: &ObserverSlots) -> (r: Vec<ObserverKey>)
    ensures
        r@.map_values(|k: ObserverKey| k@).no_duplicates(),
        forall|i: int| 0 <= i < r@.len() ==> observer_slots(*m).contains_key(#[trigger] r@[i]@),
        forall|k: u64| observer_slots(*m).contains_key(k) ==> exists|i: int| 0 <= i < r@.len() && #[trigger] r@[i]@ == k,
{
    let mut keys = Vec::new();
    for key in m.map.keys() {
        keys.push(ObserverKey { raw: key.data().as_ffi() });
    }
    keys
}

/// Calls `SlotMap::clear`: the map is empty afterwards.
#[verifier::external_body]
pub(crate) fn observers_clear(m: &mut ObserverSlots)
    ensures
        observer_slots(*final(m)).dom() == Set::<u64>::empty(),
{
    m.map.clear();
}

} // verus!
