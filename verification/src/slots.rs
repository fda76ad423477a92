//! The outside collections the tree is stored in: slot maps and small
//! vectors of the `slotmap` and `smallvec` crates. Each is held in a struct
//! of its own whose contents Verus cannot see; the functions below are the
//! only way in, and their contracts say what the outside code does.
use vstd::prelude::*;
use slotmap::{DefaultKey, Key, KeyData, SecondaryMap, SlotMap};
use smallvec::SmallVec;

use crate::node::{canonical, index_span, slot_index, slot_version, NodeId, UiNode};
use crate::state::TextContent;
use crate::reactive::{Computation, Owner, SignalNode};

verus! {

/// Keys of a live-slot map: every key is canonical, not null, and no two
/// keys share a slot index; there are finitely many.
pub open spec fn slot_keyed<V>(m: Map<u64, V>) -> bool {
    &&& m.dom().finite()
    &&& forall|k: u64| #[trigger] m.dom().contains(k) ==> canonical(k) && slot_index(k) != index_span() - 1
    &&& forall|a: u64, b: u64|
        #[trigger] m.dom().contains(a) && #[trigger] m.dom().contains(b) && slot_index(a) == slot_index(b) ==> a == b
}

/// The slot index of a packed key.
pub open spec fn key_slot(raw: u64) -> u64 {
    slot_index(raw) as u64
}

/// The version a slot moves to when its key `raw` is removed: one more,
/// wrapping around at `u32::MAX`.
pub open spec fn bumped(raw: u64) -> u64 {
    ((slot_version(raw) + 1) % index_span()) as u64
}

/// The slot map of `slotmap` that holds the nodes of a tree, keyed by
/// `DefaultKey`.
#[verifier::external_body]
pub struct NodeSlots {
    inner: SlotMap<DefaultKey, UiNode>,
}

/// What a [`NodeSlots`] holds: each live key, packed by `KeyData::as_ffi`,
/// mapped to its node.
pub uninterp spec fn node_slots(m: NodeSlots) -> Map<u64, UiNode>;

/// The version of each slot of a [`NodeSlots`] but the first, a sentinel that
/// never holds a value, by slot index: odd while the slot holds a value,
/// even while it is free. A removed key's slot moves to the next version,
/// and a free slot is handed out again at the version after that.
pub uninterp spec fn node_slot_versions(m: NodeSlots) -> Map<u64, u64>;

/// `SlotMap::new`: an empty map.
#[verifier::external_body]
pub(crate) fn node_slots_new() -> (result: NodeSlots)
    ensures
        node_slots(result) =~= Map::empty(),
        node_slot_versions(result) =~= Map::empty(),
{
    NodeSlots { inner: SlotMap::new() }
}

/// `SlotMap::insert`: stores the value under a key that was not live,
/// whose version is odd and whose index is not that of the null key. It
/// takes a free slot, at the version after the slot's, or else a new slot,
/// at version 1.
/// It panics where no slot is free and the slot vector, whose first slot
/// is a sentinel, already holds `u32::MAX` slots: that is, with
/// `0xffff_fffe` elements live. `requires` leaves that out.
#[verifier::external_body]
pub(crate) fn node_slots_insert(m: &mut NodeSlots, value: UiNode) -> (key: u64)
    requires
        slot_keyed(node_slots(*old(m))),
        node_slots(*old(m)).dom().len() < 0xffff_fffe,
    ensures
        !node_slots(*old(m)).dom().contains(key),
        canonical(key),
        slot_index(key) != index_span() - 1,
        node_slots(*final(m)) == node_slots(*old(m)).insert(key, value),
        slot_keyed(node_slots(*final(m))),
        node_slot_versions(*final(m)) == node_slot_versions(*old(m)).insert(key_slot(key), slot_version(key) as u64),
        node_slot_versions(*old(m)).dom().contains(key_slot(key)) ==> slot_version(key) == node_slot_versions(*old(m))[key_slot(key)] + 1,
        !node_slot_versions(*old(m)).dom().contains(key_slot(key)) ==> slot_version(key) == 1,
{
    m.inner.insert(value).data().as_ffi()
}

/// `SlotMap::get` on the key `KeyData::from_ffi(key)`, which for a
/// canonical packed key is the key it was packed from.
#[verifier::external_body]
pub(crate) fn node_slots_get(m: &NodeSlots, key: u64) -> (result: Option<&UiNode>)
    requires
        canonical(key),
    ensures
        result == (if node_slots(*m).dom().contains(key) {
            Some(&node_slots(*m)[key])
        } else {
            None
        }),
{
    m.inner.get(KeyData::from_ffi(key).into())
}

/// `SlotMap::index_mut` on a live key: the node, to be changed in place.
#[verifier::external_body]
pub(crate) fn node_slots_get_mut(m: &mut NodeSlots, key: u64) -> (result: &mut UiNode)
    requires
        canonical(key),
        node_slots(*old(m)).dom().contains(key),
    ensures
        *result == node_slots(*old(m))[key],
        node_slots(*final(m)) == node_slots(*old(m)).insert(key, *final(result)),
        node_slot_versions(*final(m)) == node_slot_versions(*old(m)),
{
    &mut m.inner[DefaultKey::from(KeyData::from_ffi(key))]
}

/// `SlotMap::remove`: takes the value out if the key is live, and moves
/// its slot to the next version, so that the key stays dead.
#[verifier::external_body]
pub(crate) fn node_slots_remove(m: &mut NodeSlots, key: u64) -> (result: Option<UiNode>)
    requires
        canonical(key),
    ensures
        result == (if node_slots(*old(m)).dom().contains(key) {
            Some(node_slots(*old(m))[key])
        } else {
            None
        }),
        node_slots(*final(m)) == node_slots(*old(m)).remove(key),
        node_slots(*old(m)).dom().contains(key) ==> node_slot_versions(*final(m)) == node_slot_versions(*old(m)).insert(key_slot(key), bumped(key)),
        !node_slots(*old(m)).dom().contains(key) ==> node_slot_versions(*final(m)) == node_slot_versions(*old(m)),
{
    m.inner.remove(KeyData::from_ffi(key).into())
}

/// `SlotMap::len`: the number of live keys.
#[verifier::external_body]
pub(crate) fn node_slots_len(m: &NodeSlots) -> (result: usize)
    ensures
        result == node_slots(*m).dom().len(),
{
    m.inner.len()
}

/// `SlotMap::keys`, each packed by `KeyData::as_ffi`: every live key once,
/// in an order the contract leaves open.
#[verifier::external_body]
pub(crate) fn node_slots_keys(m: &NodeSlots) -> (result: Vec<u64>)
    ensures
        result@.no_duplicates(),
        forall|i: int| 0 <= i < result@.len() ==> node_slots(*m).dom().contains(#[trigger] result@[i]),
        forall|k: u64| node_slots(*m).dom().contains(k) ==> #[trigger] result@.contains(k),
{
    m.inner.keys().map(|k| k.data().as_ffi()).collect()
}

/// The slot map of `slotmap` that holds the signals of a reactive graph, keyed by `DefaultKey`.
#[verifier::external_body]
pub struct SignalNodeSlots {
    inner: SlotMap<DefaultKey, SignalNode>,
}

/// What a [`SignalNodeSlots`] holds: each live key, packed by `KeyData::as_ffi`,
/// mapped to its value.
pub uninterp spec fn signal_slots(m: SignalNodeSlots) -> Map<u64, SignalNode>;

/// The version of each slot of a [`SignalNodeSlots`] but the first, a sentinel that
/// never holds a value, by slot index: odd while the slot holds a value,
/// even while it is free. A removed key's slot moves to the next version,
/// and a free slot is handed out again at the version after that.
pub uninterp spec fn signal_slot_versions(m: SignalNodeSlots) -> Map<u64, u64>;

/// `SlotMap::new`: an empty map.
#[verifier::external_body]
pub(crate) fn signal_slots_new() -> (result: SignalNodeSlots)
    ensures
        signal_slots(result) =~= Map::empty(),
        signal_slot_versions(result) =~= Map::empty(),
{
    SignalNodeSlots { inner: SlotMap::new() }
}

/// `SlotMap::insert`, as for nodes: a key that was not live, canonical,
/// not the null key; it panics, as for nodes, with `0xffff_fffe` live.
#[verifier::external_body]
pub(crate) fn signal_slots_insert(m: &mut SignalNodeSlots, value: SignalNode) -> (key: u64)
    requires
        slot_keyed(signal_slots(*old(m))),
        signal_slots(*old(m)).dom().len() < 0xffff_fffe,
    ensures
        !signal_slots(*old(m)).dom().contains(key),
        canonical(key),
        slot_index(key) != index_span() - 1,
        signal_slots(*final(m)) == signal_slots(*old(m)).insert(key, value),
        slot_keyed(signal_slots(*final(m))),
        signal_slot_versions(*final(m)) == signal_slot_versions(*old(m)).insert(key_slot(key), slot_version(key) as u64),
        signal_slot_versions(*old(m)).dom().contains(key_slot(key)) ==> slot_version(key) == signal_slot_versions(*old(m))[key_slot(key)] + 1,
        !signal_slot_versions(*old(m)).dom().contains(key_slot(key)) ==> slot_version(key) == 1,
{
    m.inner.insert(value).data().as_ffi()
}

/// `SlotMap::get`.
#[verifier::external_body]
pub(crate) fn signal_slots_get(m: &SignalNodeSlots, key: u64) -> (result: Option<&SignalNode>)
    requires
        canonical(key),
    ensures
        result == (if signal_slots(*m).dom().contains(key) {
            Some(&signal_slots(*m)[key])
        } else {
            None
        }),
{
    m.inner.get(KeyData::from_ffi(key).into())
}

/// `SlotMap::index_mut` on a live key.
#[verifier::external_body]
pub(crate) fn signal_slots_get_mut(m: &mut SignalNodeSlots, key: u64) -> (result: &mut SignalNode)
    requires
        canonical(key),
        signal_slots(*old(m)).dom().contains(key),
    ensures
        *result == signal_slots(*old(m))[key],
        signal_slots(*final(m)) == signal_slots(*old(m)).insert(key, *final(result)),
        signal_slot_versions(*final(m)) == signal_slot_versions(*old(m)),
{
    &mut m.inner[DefaultKey::from(KeyData::from_ffi(key))]
}

/// `SlotMap::len`: the number of live keys.
#[verifier::external_body]
pub(crate) fn signal_slots_len(m: &SignalNodeSlots) -> (result: usize)
    ensures
        result == signal_slots(*m).dom().len(),
{
    m.inner.len()
}

/// `SlotMap::remove`.
#[verifier::external_body]
pub(crate) fn signal_slots_remove(m: &mut SignalNodeSlots, key: u64) -> (result: Option<SignalNode>)
    requires
        canonical(key),
    ensures
        result == (if signal_slots(*old(m)).dom().contains(key) {
            Some(signal_slots(*old(m))[key])
        } else {
            None
        }),
        signal_slots(*final(m)) == signal_slots(*old(m)).remove(key),
        signal_slots(*old(m)).dom().contains(key) ==> signal_slot_versions(*final(m)) == signal_slot_versions(*old(m)).insert(key_slot(key), bumped(key)),
        !signal_slots(*old(m)).dom().contains(key) ==> signal_slot_versions(*final(m)) == signal_slot_versions(*old(m)),
{
    m.inner.remove(KeyData::from_ffi(key).into())
}

/// The slot map of `slotmap` that holds the computations of a reactive graph, keyed by `DefaultKey`.
#[verifier::external_body]
pub struct ComputationSlots {
    inner: SlotMap<DefaultKey, Computation>,
}

/// What a [`ComputationSlots`] holds: each live key, packed by `KeyData::as_ffi`,
/// mapped to its value.
pub uninterp spec fn computation_slots(m: ComputationSlots) -> Map<u64, Computation>;

/// The version of each slot of a [`ComputationSlots`] but the first, a sentinel that
/// never holds a value, by slot index: odd while the slot holds a value,
/// even while it is free. A removed key's slot moves to the next version,
/// and a free slot is handed out again at the version after that.
pub uninterp spec fn computation_slot_versions(m: ComputationSlots) -> Map<u64, u64>;

/// `SlotMap::new`: an empty map.
#[verifier::external_body]
pub(crate) fn computation_slots_new() -> (result: ComputationSlots)
    ensures
        computation_slots(result) =~= Map::empty(),
        computation_slot_versions(result) =~= Map::empty(),
{
    ComputationSlots { inner: SlotMap::new() }
}

/// `SlotMap::insert`, as for nodes: a key that was not live, canonical,
/// not the null key; it panics, as for nodes, with `0xffff_fffe` live.
#[verifier::external_body]
pub(crate) fn computation_slots_insert(m: &mut ComputationSlots, value: Computation) -> (key: u64)
    requires
        slot_keyed(computation_slots(*old(m))),
        computation_slots(*old(m)).dom().len() < 0xffff_fffe,
    ensures
        !computation_slots(*old(m)).dom().contains(key),
        canonical(key),
        slot_index(key) != index_span() - 1,
        computation_slots(*final(m)) == computation_slots(*old(m)).insert(key, value),
        slot_keyed(computation_slots(*final(m))),
        computation_slot_versions(*final(m)) == computation_slot_versions(*old(m)).insert(key_slot(key), slot_version(key) as u64),
        computation_slot_versions(*old(m)).dom().contains(key_slot(key)) ==> slot_version(key) == computation_slot_versions(*old(m))[key_slot(key)] + 1,
        !computation_slot_versions(*old(m)).dom().contains(key_slot(key)) ==> slot_version(key) == 1,
{
    m.inner.insert(value).data().as_ffi()
}

/// `SlotMap::get`.
#[verifier::external_body]
pub(crate) fn computation_slots_get(m: &ComputationSlots, key: u64) -> (result: Option<&Computation>)
    requires
        canonical(key),
    ensures
        result == (if computation_slots(*m).dom().contains(key) {
            Some(&computation_slots(*m)[key])
        } else {
            None
        }),
{
    m.inner.get(KeyData::from_ffi(key).into())
}

/// `SlotMap::index_mut` on a live key.
#[verifier::external_body]
pub(crate) fn computation_slots_get_mut(m: &mut ComputationSlots, key: u64) -> (result: &mut Computation)
    requires
        canonical(key),
        computation_slots(*old(m)).dom().contains(key),
    ensures
        *result == computation_slots(*old(m))[key],
        computation_slots(*final(m)) == computation_slots(*old(m)).insert(key, *final(result)),
        computation_slot_versions(*final(m)) == computation_slot_versions(*old(m)),
{
    &mut m.inner[DefaultKey::from(KeyData::from_ffi(key))]
}

/// `SlotMap::len`: the number of live keys.
#[verifier::external_body]
pub(crate) fn computation_slots_len(m: &ComputationSlots) -> (result: usize)
    ensures
        result == computation_slots(*m).dom().len(),
{
    m.inner.len()
}

/// `SlotMap::remove`.
#[verifier::external_body]
pub(crate) fn computation_slots_remove(m: &mut ComputationSlots, key: u64) -> (result: Option<Computation>)
    requires
        canonical(key),
    ensures
        result == (if computation_slots(*old(m)).dom().contains(key) {
            Some(computation_slots(*old(m))[key])
        } else {
            None
        }),
        computation_slots(*final(m)) == computation_slots(*old(m)).remove(key),
        computation_slots(*old(m)).dom().contains(key) ==> computation_slot_versions(*final(m)) == computation_slot_versions(*old(m)).insert(key_slot(key), bumped(key)),
        !computation_slots(*old(m)).dom().contains(key) ==> computation_slot_versions(*final(m)) == computation_slot_versions(*old(m)),
{
    m.inner.remove(KeyData::from_ffi(key).into())
}

/// The slot map of `slotmap` that holds the owners of a reactive graph, keyed by `DefaultKey`.
#[verifier::external_body]
pub struct OwnerSlots {
    inner: SlotMap<DefaultKey, Owner>,
}

/// What a [`OwnerSlots`] holds: each live key, packed by `KeyData::as_ffi`,
/// mapped to its value.
pub uninterp spec fn owner_slots(m: OwnerSlots) -> Map<u64, Owner>;

/// The version of each slot of a [`OwnerSlots`] but the first, a sentinel that
/// never holds a value, by slot index: odd while the slot holds a value,
/// even while it is free. A removed key's slot moves to the next version,
/// and a free slot is handed out again at the version after that.
pub uninterp spec fn owner_slot_versions(m: OwnerSlots) -> Map<u64, u64>;

/// `SlotMap::new`: an empty map.
#[verifier::external_body]
pub(crate) fn owner_slots_new() -> (result: OwnerSlots)
    ensures
        owner_slots(result) =~= Map::empty(),
        owner_slot_versions(result) =~= Map::empty(),
{
    OwnerSlots { inner: SlotMap::new() }
}

/// `SlotMap::insert`, as for nodes: a key that was not live, canonical,
/// not the null key; it panics, as for nodes, with `0xffff_fffe` live.
#[verifier::external_body]
pub(crate) fn owner_slots_insert(m: &mut OwnerSlots, value: Owner) -> (key: u64)
    requires
        slot_keyed(owner_slots(*old(m))),
        owner_slots(*old(m)).dom().len() < 0xffff_fffe,
    ensures
        !owner_slots(*old(m)).dom().contains(key),
        canonical(key),
        slot_index(key) != index_span() - 1,
        owner_slots(*final(m)) == owner_slots(*old(m)).insert(key, value),
        slot_keyed(owner_slots(*final(m))),
        owner_slot_versions(*final(m)) == owner_slot_versions(*old(m)).insert(key_slot(key), slot_version(key) as u64),
        owner_slot_versions(*old(m)).dom().contains(key_slot(key)) ==> slot_version(key) == owner_slot_versions(*old(m))[key_slot(key)] + 1,
        !owner_slot_versions(*old(m)).dom().contains(key_slot(key)) ==> slot_version(key) == 1,
{
    m.inner.insert(value).data().as_ffi()
}

/// `SlotMap::get`.
#[verifier::external_body]
pub(crate) fn owner_slots_get(m: &OwnerSlots, key: u64) -> (result: Option<&Owner>)
    requires
        canonical(key),
    ensures
        result == (if owner_slots(*m).dom().contains(key) {
            Some(&owner_slots(*m)[key])
        } else {
            None
        }),
{
    m.inner.get(KeyData::from_ffi(key).into())
}

/// `SlotMap::index_mut` on a live key.
#[verifier::external_body]
pub(crate) fn owner_slots_get_mut(m: &mut OwnerSlots, key: u64) -> (result: &mut Owner)
    requires
        canonical(key),
        owner_slots(*old(m)).dom().contains(key),
    ensures
        *result == owner_slots(*old(m))[key],
        owner_slots(*final(m)) == owner_slots(*old(m)).insert(key, *final(result)),
        owner_slot_versions(*final(m)) == owner_slot_versions(*old(m)),
{
    &mut m.inner[DefaultKey::from(KeyData::from_ffi(key))]
}

/// `SlotMap::len`: the number of live keys.
#[verifier::external_body]
pub(crate) fn owner_slots_len(m: &OwnerSlots) -> (result: usize)
    ensures
        result == owner_slots(*m).dom().len(),
{
    m.inner.len()
}

/// `SlotMap::remove`.
#[verifier::external_body]
pub(crate) fn owner_slots_remove(m: &mut OwnerSlots, key: u64) -> (result: Option<Owner>)
    requires
        canonical(key),
    ensures
        result == (if owner_slots(*old(m)).dom().contains(key) {
            Some(owner_slots(*old(m))[key])
        } else {
            None
        }),
        owner_slots(*final(m)) == owner_slots(*old(m)).remove(key),
        owner_slots(*old(m)).dom().contains(key) ==> owner_slot_versions(*final(m)) == owner_slot_versions(*old(m)).insert(key_slot(key), bumped(key)),
        !owner_slots(*old(m)).dom().contains(key) ==> owner_slot_versions(*final(m)) == owner_slot_versions(*old(m)),
{
    m.inner.remove(KeyData::from_ffi(key).into())
}

/// The secondary map of `slotmap` that holds the text of text nodes.
#[verifier::external_body]
pub struct TextSlots {
    inner: SecondaryMap<DefaultKey, TextContent>,
}

/// What a [`TextSlots`] holds, keyed by packed keys.
pub uninterp spec fn text_slots(m: TextSlots) -> Map<u64, TextContent>;

/// `SecondaryMap::new`: an empty map.
#[verifier::external_body]
pub(crate) fn text_slots_new() -> (result: TextSlots)
    ensures
        text_slots(result) =~= Map::empty(),
{
    TextSlots { inner: SecondaryMap::new() }
}

/// `SecondaryMap::insert`. A null key is refused. A key already present
/// has its value replaced and the old one returned. Otherwise the slot of
/// the key's index is taken over, unless it holds an entry of a newer
/// version: when no entry shares the index, the insert always happens;
/// when one does, the contract says only that one of the two outcomes
/// happened, since which one depends on the versions' wrap-around order.
#[verifier::external_body]
pub(crate) fn text_slots_insert(m: &mut TextSlots, key: u64, value: TextContent) -> (result: Option<TextContent>)
    requires
        canonical(key),
        slot_keyed(text_slots(*old(m))),
    ensures
        slot_keyed(text_slots(*final(m))),
        slot_index(key) == index_span() - 1 ==> result is None && text_slots(*final(m)) == text_slots(*old(m)),
        slot_index(key) != index_span() - 1 && text_slots(*old(m)).dom().contains(key) ==> result == Some(
            text_slots(*old(m))[key],
        ) && text_slots(*final(m)) == text_slots(*old(m)).insert(key, value),
        slot_index(key) != index_span() - 1 && !text_slots(*old(m)).dom().contains(key) ==> result is None,
        slot_index(key) != index_span() - 1 && !text_slots(*old(m)).dom().contains(key) && (forall|k: u64|
            #[trigger] text_slots(*old(m)).dom().contains(k) ==> slot_index(k) != slot_index(key))
            ==> text_slots(*final(m)) == text_slots(*old(m)).insert(key, value),
        slot_index(key) != index_span() - 1 && !text_slots(*old(m)).dom().contains(key) && !(forall|k: u64|
            #[trigger] text_slots(*old(m)).dom().contains(k) ==> slot_index(k) != slot_index(key))
            ==> text_slots(*final(m)) == text_slots(*old(m)) || exists|k: u64|
            #[trigger] text_slots(*old(m)).dom().contains(k) && slot_index(k) == slot_index(key)
                && text_slots(*final(m)) == text_slots(*old(m)).remove(k).insert(key, value),
{
    m.inner.insert(KeyData::from_ffi(key).into(), value)
}

/// `SecondaryMap::get`.
#[verifier::external_body]
pub(crate) fn text_slots_get(m: &TextSlots, key: u64) -> (result: Option<&TextContent>)
    requires
        canonical(key),
    ensures
        result == (if text_slots(*m).dom().contains(key) {
            Some(&text_slots(*m)[key])
        } else {
            None
        }),
{
    m.inner.get(KeyData::from_ffi(key).into())
}

/// `SecondaryMap::remove`.
#[verifier::external_body]
pub(crate) fn text_slots_remove(m: &mut TextSlots, key: u64) -> (result: Option<TextContent>)
    requires
        canonical(key),
    ensures
        result == (if text_slots(*old(m)).dom().contains(key) {
            Some(text_slots(*old(m))[key])
        } else {
            None
        }),
        text_slots(*final(m)) == text_slots(*old(m)).remove(key),
{
    m.inner.remove(KeyData::from_ffi(key).into())
}

/// The `SmallVec` of `smallvec` that lists a node's children, one inline.
#[verifier::external_body]
pub struct ChildList {
    inner: SmallVec<[NodeId; 1]>,
}

/// The children a [`ChildList`] holds, in order.
pub uninterp spec fn child_seq(c: ChildList) -> Seq<NodeId>;

impl ChildList {
    /// `SmallVec::new`: no children.
    #[verifier::external_body]
    pub(crate) fn new() -> (result: ChildList)
        ensures
            child_seq(result) == Seq::<NodeId>::empty(),
    {
        ChildList { inner: SmallVec::new() }
    }

    /// `SmallVec::as_slice`: the children in order.
    #[verifier::external_body]
    pub(crate) fn as_slice(&self) -> (result: &[NodeId])
        ensures
            result@ == child_seq(*self),
    {
        self.inner.as_slice()
    }

    /// `SmallVec::insert`, which panics when `index` exceeds the length.
    #[verifier::external_body]
    pub(crate) fn insert(&mut self, index: usize, element: NodeId)
        requires
            index <= child_seq(*old(self)).len(),
            child_seq(*old(self)).len() < usize::MAX,
        ensures
            child_seq(*final(self)) == child_seq(*old(self)).insert(index as int, element),
    {
        self.inner.insert(index, element)
    }

    /// `SmallVec::remove`, which panics when `index` is out of bounds.
    #[verifier::external_body]
    pub(crate) fn remove(&mut self, index: usize) -> (result: NodeId)
        requires
            index < child_seq(*old(self)).len(),
        ensures
            result == child_seq(*old(self))[index as int],
            child_seq(*final(self)) == child_seq(*old(self)).remove(index as int),
    {
        self.inner.remove(index)
    }
}

} // verus!
