use vstd::prelude::*;
use crate::slots::{child_seq, ChildList};

verus! {

/// Number of distinct slot indices: a node id packs a 32-bit slot index
/// below a 32-bit version.
pub open spec fn index_span() -> int {
    0x1_0000_0000
}

/// Slot index of a packed node id.
pub open spec fn slot_index(raw: u64) -> int {
    raw as int % index_span()
}

/// Version half of a packed node id.
pub open spec fn slot_version(raw: u64) -> int {
    raw as int / index_span()
}

/// A packed id whose version is odd: the only ids that name a live slot.
pub open spec fn canonical(raw: u64) -> bool {
    slot_version(raw) % 2 == 1
}

/// The packed id of the null key: slot index `u32::MAX`, version 1.
pub open spec fn null_raw() -> u64 {
    0x1_ffff_ffff
}

/// Whether a packed id has an odd version.
pub(crate) fn is_canonical(raw: u64) -> (r: bool)
    ensures
        r == canonical(raw),
{
    (raw / 0x1_0000_0000) % 2 == 1
}

/// Identifier of a node of a [`crate::UiTree`].
#[derive(Clone, Copy, Debug, PartialEq, Eq, Hash, Structural)]
pub struct NodeId {
    pub raw: u64,
}

impl NodeId {
    pub open spec fn wf(self) -> bool {
        canonical(self.raw)
    }

    /// Whether this id has the form of a key a tree hands out: an odd
    /// version.
    pub fn is_canonical(&self) -> (r: bool)
        ensures
            r == canonical(self.raw),
    {
        is_canonical(self.raw)
    }

    /// The packed value of this id.
    pub fn raw(&self) -> (r: u64)
        ensures
            r == self.raw,
    {
        self.raw
    }
}

impl Default for NodeId {
    /// The null id, which names no node of any tree.
    fn default() -> (r: Self)
        ensures
            r.raw == null_raw(),
    {
        NodeId { raw: 0x1_ffff_ffff }
    }
}

/// The kind of element a node stands for.
#[derive(Debug, Clone, Copy, PartialEq, Eq, Structural)]
pub enum UiNodeTag {
    Root,
    Div,
    Span,
    Text,
    Button,
    Img,
    Fragment,
}

pub open spec fn tag_name(tag: UiNodeTag) -> Seq<char> {
    match tag {
        UiNodeTag::Root => "root"@,
        UiNodeTag::Div => "div"@,
        UiNodeTag::Span => "span"@,
        UiNodeTag::Text => "text"@,
        UiNodeTag::Button => "button"@,
        UiNodeTag::Img => "img"@,
        UiNodeTag::Fragment => "fragment"@,
    }
}

impl UiNodeTag {
    /// The lower-case name used in debug dumps.
    pub fn debug_name(self) -> (r: &'static str)
        ensures
            r@ == tag_name(self),
    {
        match self {
            UiNodeTag::Root => "root",
            UiNodeTag::Div => "div",
            UiNodeTag::Span => "span",
            UiNodeTag::Text => "text",
            UiNodeTag::Button => "button",
            UiNodeTag::Img => "img",
            UiNodeTag::Fragment => "fragment",
        }
    }
}

/// What of a node has to be recomputed, as a set of bits.
#[derive(Debug, Clone, Copy, PartialEq, Eq, Default, Structural)]
pub struct DirtyFlags {
    pub bits: u16,
}

impl DirtyFlags {
    pub fn structure() -> (r: Self)
        ensures
            r.bits == 1,
    {
        DirtyFlags { bits: 1 }
    }

    pub fn style() -> (r: Self)
        ensures
            r.bits == 2,
    {
        DirtyFlags { bits: 2 }
    }

    pub fn layout() -> (r: Self)
        ensures
            r.bits == 4,
    {
        DirtyFlags { bits: 4 }
    }

    pub fn pre_paint() -> (r: Self)
        ensures
            r.bits == 8,
    {
        DirtyFlags { bits: 8 }
    }

    pub fn paint() -> (r: Self)
        ensures
            r.bits == 16,
    {
        DirtyFlags { bits: 16 }
    }

    pub fn composite() -> (r: Self)
        ensures
            r.bits == 32,
    {
        DirtyFlags { bits: 32 }
    }

    pub fn text() -> (r: Self)
        ensures
            r.bits == 64,
    {
        DirtyFlags { bits: 64 }
    }

    pub fn events() -> (r: Self)
        ensures
            r.bits == 128,
    {
        DirtyFlags { bits: 128 }
    }


    pub fn empty() -> (r: Self)
        ensures
            r.bits == 0,
    {
        DirtyFlags { bits: 0 }
    }

    pub fn all() -> (r: Self)
        ensures
            r.bits == 0xff,
    {
        DirtyFlags { bits: 0xff }
    }

    pub fn union(self, other: Self) -> (r: Self)
        ensures
            r.bits == self.bits | other.bits,
    {
        DirtyFlags { bits: self.bits | other.bits }
    }

    pub fn contains(&self, other: Self) -> (r: bool)
        ensures
            r == (self.bits & other.bits == other.bits),
    {
        self.bits & other.bits == other.bits
    }

    pub fn is_empty(&self) -> (r: bool)
        ensures
            r == (self.bits == 0),
    {
        self.bits == 0
    }
}

} // verus!

verus! {

/// Which style side tables a node has entries in, as a set of bits.
#[derive(Debug, Clone, Copy, PartialEq, Eq, Default, Structural)]
pub struct StyleFlags {
    pub bits: u32,
}

/// Which event handlers a node has, as a set of bits.
#[derive(Debug, Clone, Copy, PartialEq, Eq, Default, Structural)]
pub struct EventFlags {
    pub bits: u32,
}

impl StyleFlags {
    pub fn empty() -> (r: Self)
        ensures
            r.bits == 0,
    {
        StyleFlags { bits: 0 }
    }
}

impl EventFlags {
    pub fn empty() -> (r: Self)
        ensures
            r.bits == 0,
    {
        EventFlags { bits: 0 }
    }
}

/// A node of the tree: its tag, its place in the tree and its flags.
pub struct UiNode {
    pub tag: UiNodeTag,
    pub parent: Option<NodeId>,
    pub children: ChildList,
    pub style_flags: StyleFlags,
    pub event_flags: EventFlags,
    pub dirty: DirtyFlags,
}

impl UiNode {
    /// A detached node with no children, every dirty flag set.
    pub fn new(tag: UiNodeTag) -> (r: Self)
        ensures
            r@ == new_node_view(tag),
    {
        UiNode {
            tag,
            parent: None,
            children: ChildList::new(),
            style_flags: StyleFlags::empty(),
            event_flags: EventFlags::empty(),
            dirty: DirtyFlags::all(),
        }
    }
}

} // verus!

verus! {

/// A node as the contracts see it: its children as a sequence.
pub struct NodeView {
    pub tag: UiNodeTag,
    pub parent: Option<NodeId>,
    pub children: Seq<NodeId>,
    pub style_flags: StyleFlags,
    pub event_flags: EventFlags,
    pub dirty: DirtyFlags,
}

impl View for UiNode {
    type V = NodeView;

    open spec fn view(&self) -> NodeView {
        NodeView {
            tag: self.tag,
            parent: self.parent,
            children: child_seq(self.children),
            style_flags: self.style_flags,
            event_flags: self.event_flags,
            dirty: self.dirty,
        }
    }
}

} // verus!

verus! {

/// A fresh node: detached, childless, with every dirty flag set.
pub open spec fn new_node_view(tag: UiNodeTag) -> NodeView {
    NodeView {
        tag,
        parent: None,
        children: Seq::empty(),
        style_flags: StyleFlags { bits: 0 },
        event_flags: EventFlags { bits: 0 },
        dirty: DirtyFlags { bits: 0xff },
    }
}

} // verus!
