//! The tree of UI nodes: structure, text and dirty flags.
use vstd::prelude::*;
use vstd::string::{StrSliceExecFns, StringExecFns};

use crate::node::{new_node_view, canonical, is_canonical, slot_index, slot_version, index_span, tag_name, DirtyFlags, NodeId, NodeView, UiNode, UiNodeTag};
use crate::slots::{bumped, child_seq, key_slot, node_slot_versions, node_slots, node_slots_get, node_slots_get_mut, node_slots_insert, node_slots_keys, node_slots_len, node_slots_new, node_slots_remove, slot_keyed, text_slots, text_slots_get, text_slots_insert, text_slots_new, text_slots_remove, NodeSlots, TextSlots};
use crate::state::TextContent;

verus! {

/// A tree as the contracts see it.
pub struct TreeView {
    pub nodes: Map<u64, NodeView>,
    pub text: Map<u64, TextContent>,
    pub root: NodeId,
}

/// The children of the node keyed `n`.
pub open spec fn kids(t: TreeView, n: u64) -> Seq<NodeId> {
    t.nodes[n].children
}

/// A node's parent, if any, is in the tree and lists it as a child.
pub open spec fn parent_ok(t: TreeView, n: u64) -> bool {
    match t.nodes[n].parent {
        Some(p) => t.nodes.dom().contains(p.raw) && kids(t, p.raw).contains(NodeId { raw: n }),
        None => true,
    }
}

/// A node's children are distinct, in the tree, and name it as parent.
pub open spec fn children_ok(t: TreeView, n: u64) -> bool {
    &&& kids(t, n).no_duplicates()
    &&& forall|i: int|
        0 <= i < kids(t, n).len() ==> t.nodes.dom().contains(#[trigger] kids(t, n)[i].raw)
            && t.nodes[kids(t, n)[i].raw].parent == Some(NodeId { raw: n })
}

/// Parent and child links agree: a node names `q` as its parent exactly
/// where it occurs, once, among the children of `q`; the root is in the
/// tree, and text is held only for nodes.
pub open spec fn links_ok(t: TreeView) -> bool {
    &&& slot_keyed(t.nodes)
    &&& slot_keyed(t.text)
    &&& t.nodes.dom().len() <= 0xffff_ffff
    &&& t.nodes.dom().contains(t.root.raw)
    &&& forall|n: u64| #[trigger] t.nodes.dom().contains(n) ==> parent_ok(t, n)
    &&& forall|n: u64| #[trigger] t.nodes.dom().contains(n) ==> children_ok(t, n)
    &&& forall|n: u64| #[trigger] t.text.dom().contains(n) ==> t.nodes.dom().contains(n)
}

/// The invariant every operation keeps: parent and child links agree, the
/// root is in the tree with no parent, and text is held only for nodes.
pub open spec fn tree_wf(t: TreeView) -> bool {
    &&& slot_keyed(t.nodes)
    &&& slot_keyed(t.text)
    &&& t.nodes.dom().len() <= 0xffff_ffff
    &&& t.nodes.dom().contains(t.root.raw)
    &&& t.nodes[t.root.raw].parent is None
    &&& forall|n: u64| #[trigger] t.nodes.dom().contains(n) ==> parent_ok(t, n)
    &&& forall|n: u64| #[trigger] t.nodes.dom().contains(n) ==> children_ok(t, n)
    &&& forall|n: u64| #[trigger] t.text.dom().contains(n) ==> t.nodes.dom().contains(n)
}

/// A node with `bits` added to its dirty flags.
pub open spec fn dirty_or(v: NodeView, bits: u16) -> NodeView {
    NodeView { dirty: DirtyFlags { bits: v.dirty.bits | bits }, ..v }
}

/// `mark_dirty`: the node, if in the tree, gets `bits` added.
pub open spec fn mark_view(t: TreeView, n: u64, bits: u16) -> TreeView {
    if t.nodes.dom().contains(n) {
        TreeView { nodes: t.nodes.insert(n, dirty_or(t.nodes[n], bits)), ..t }
    } else {
        t
    }
}

/// The structure, layout and paint bits, marked on a parent whose
/// children change.
pub open spec fn structure_bits() -> u16 {
    21
}

/// The text, layout and paint bits, marked on a node whose text changes.
pub open spec fn text_bits() -> u16 {
    84
}

/// The sequence without the first occurrence of `c`.
pub open spec fn without_child(s: Seq<NodeId>, c: NodeId) -> Seq<NodeId> {
    if s.contains(c) {
        s.remove(s.index_of(c))
    } else {
        s
    }
}

/// The links after a node leaves its parent `p`: `p` no longer lists it and
/// it has no parent.
pub open spec fn unlink_view(t: TreeView, c: u64, p: u64) -> TreeView {
    let s1 = if t.nodes.dom().contains(p) {
        t.nodes.insert(p, NodeView { children: without_child(kids(t, p), NodeId { raw: c }), ..t.nodes[p] })
    } else {
        t.nodes
    };
    TreeView { nodes: s1.insert(c, NodeView { parent: None, ..s1[c] }), ..t }
}

/// `detach`: a node other than the root loses its parent, and the parent
/// loses it as a child and is marked dirty.
pub open spec fn detach_view(t: TreeView, c: u64) -> TreeView {
    if c == t.root.raw || !t.nodes.dom().contains(c) {
        t
    } else {
        match t.nodes[c].parent {
            None => t,
            Some(p) => mark_view(unlink_view(t, c, p.raw), p.raw, structure_bits()),
        }
    }
}

/// Where a child goes among `kids`: before `before` where it is one of
/// them, else at the end.
pub open spec fn insert_pos(kids: Seq<NodeId>, before: Option<NodeId>) -> int {
    match before {
        Some(b) => if kids.contains(b) {
            kids.index_of(b)
        } else {
            kids.len() as int
        },
        None => kids.len() as int,
    }
}

/// A detached child linked under `p`: it gets the parent, and the parent
/// gets it among its children, before `before` where that is one of them.
pub open spec fn link_view(t: TreeView, p: u64, c: u64, before: Option<NodeId>) -> TreeView {
    let s1 = t.nodes.insert(c, NodeView { parent: Some(NodeId { raw: p }), ..t.nodes[c] });
    let ks = s1[p].children;
    TreeView {
        nodes: s1.insert(p, NodeView { children: ks.insert(insert_pos(ks, before), NodeId { raw: c }), ..s1[p] }),
        ..t
    }
}

/// The second half of `insert_child_before`: the link, and the parent
/// marked dirty.
pub open spec fn attach_view(t: TreeView, p: u64, c: u64, before: Option<NodeId>) -> TreeView {
    mark_view(link_view(t, p, c, before), p, structure_bits())
}

/// `remove_subtree`: a node other than the root goes with every node below
/// it and their text; its parent loses it and is marked dirty.
pub open spec fn prune_view(t: TreeView, id: u64) -> TreeView {
    if id == t.root.raw || !t.nodes.dom().contains(id) {
        t
    } else {
        let gone = subtree_set(t, id);
        TreeView { nodes: detach_view(t, id).nodes.remove_keys(gone), text: t.text.remove_keys(gone), root: t.root }
    }
}

/// Whether following parent links from `m` at most `k` times reaches `a`.
pub open spec fn reaches_in(nodes: Map<u64, NodeView>, m: u64, a: u64, k: nat) -> bool
    decreases k,
{
    if m == a {
        true
    } else if k == 0 {
        false
    } else {
        nodes.dom().contains(m) && match nodes[m].parent {
            Some(p) => reaches_in(nodes, p.raw, a, (k - 1) as nat),
            None => false,
        }
    }
}

/// Whether `a` is `m` or one of its ancestors.
pub open spec fn in_subtree(nodes: Map<u64, NodeView>, m: u64, a: u64) -> bool {
    exists|k: nat| reaches_in(nodes, m, a, k)
}

/// The nodes of the subtree rooted at `a`: `a` and every node below it.
pub open spec fn subtree_set(t: TreeView, a: u64) -> Set<u64> {
    t.nodes.dom().filter(|m: u64| in_subtree(t.nodes, m, a))
}

/// Two spaces per level of depth.
pub open spec fn indent(depth: nat) -> Seq<char>
    decreases depth,
{
    if depth == 0 {
        Seq::empty()
    } else {
        indent((depth - 1) as nat) + "  "@
    }
}

/// The dump line of node `n`: indent, tag name, `: ` and its text where it
/// has some, and a newline.
pub open spec fn dump_line(t: TreeView, n: u64, depth: nat) -> Seq<char> {
    indent(depth) + tag_name(t.nodes[n].tag) + (if t.text.dom().contains(n) {
        ": "@ + t.text[n].value@
    } else {
        Seq::empty()
    }) + "\n"@
}

/// The dump of the subtree at `n`, depth first, children in order, at
/// most `fuel` levels deep.
pub open spec fn dump_node(t: TreeView, n: NodeId, depth: nat, fuel: nat) -> Seq<char>
    decreases fuel, 0nat,
{
    if fuel == 0 || !t.nodes.dom().contains(n.raw) {
        Seq::empty()
    } else {
        dump_line(t, n.raw, depth) + dump_list(t, kids(t, n.raw), depth + 1, (fuel - 1) as nat)
    }
}

/// The dumps of a list of siblings, one after the other.
pub open spec fn dump_list(t: TreeView, ks: Seq<NodeId>, depth: nat, fuel: nat) -> Seq<char>
    decreases fuel, ks.len(),
{
    if ks.len() == 0 {
        Seq::empty()
    } else {
        dump_list(t, ks.drop_last(), depth, fuel) + dump_node(t, ks.last(), depth, fuel)
    }
}

/// The dirty bits that make a painted subtree stale: structure, style,
/// pre-paint, paint, composite and text.
pub open spec fn render_bits() -> u16 {
    123
}

/// Whether a node of the subtree at `n`, at most `fuel` levels deep, has a
/// dirty bit that makes its paint stale.
pub open spec fn render_dirty_node(t: TreeView, n: NodeId, fuel: nat) -> bool
    decreases fuel, 0nat,
{
    if fuel == 0 || !t.nodes.dom().contains(n.raw) {
        false
    } else {
        t.nodes[n.raw].dirty.bits & render_bits() != 0 || render_dirty_list(t, kids(t, n.raw), (fuel - 1) as nat)
    }
}

/// Whether the subtree of one of `ks` has a stale-paint dirty bit.
pub open spec fn render_dirty_list(t: TreeView, ks: Seq<NodeId>, fuel: nat) -> bool
    decreases fuel, ks.len(),
{
    if ks.len() == 0 {
        false
    } else {
        render_dirty_list(t, ks.drop_last(), fuel) || render_dirty_node(t, ks.last(), fuel)
    }
}

/// The dirty bits that make a node's cached paint stale are exactly
/// structure (1), style (2), pre-paint (8), paint (16), composite (32) and
/// text (64); layout (4) and events (128) do not.
proof fn lemma_render_mask(x: u16)
    by (bit_vector)
    ensures
        (x & render_bits() != 0) == (x & 1 != 0 || x & 2 != 0 || x & 8 != 0 || x & 16 != 0 || x & 32 != 0 || x & 64
            != 0),
{
}

/// A node list has a render-dirty subtree where one of its nodes has.
proof fn lemma_render_dirty_list_member(t: TreeView, ks: Seq<NodeId>, c: NodeId, fuel: nat)
    requires
        ks.contains(c),
        render_dirty_node(t, c, fuel),
    ensures
        render_dirty_list(t, ks, fuel),
    decreases ks.len(),
{
    if ks.last() != c {
        let i = choose|i: int| 0 <= i < ks.len() && ks[i] == c;
        assert(ks.drop_last()[i] == c);
        lemma_render_dirty_list_member(t, ks.drop_last(), c, fuel);
    }
}

/// A node whose dirty bits hold structure, style, pre-paint, paint,
/// composite or text has a render-dirty subtree, and so has every node
/// above it: a parent whose child's subtree is render-dirty is itself,
/// within one more level. A node whose own bits are only layout and
/// events is render-dirty just where one of its children's subtrees is.
pub proof fn lemma_render_dirty_bits(t: TreeView, n: NodeId, c: NodeId, fuel: nat)
    requires
        t.nodes.dom().contains(n.raw),
        fuel > 0,
    ensures
        ({
            let x = t.nodes[n.raw].dirty.bits;
            (x & 1 != 0 || x & 2 != 0 || x & 8 != 0 || x & 16 != 0 || x & 32 != 0 || x & 64 != 0) ==> render_dirty_node(
                t,
                n,
                fuel,
            )
        }),
        t.nodes[n.raw].dirty.bits & 1 == 0 && t.nodes[n.raw].dirty.bits & 2 == 0 && t.nodes[n.raw].dirty.bits & 8 == 0
            && t.nodes[n.raw].dirty.bits & 16 == 0 && t.nodes[n.raw].dirty.bits & 32 == 0 && t.nodes[n.raw].dirty.bits
            & 64 == 0 ==> render_dirty_node(t, n, fuel) == render_dirty_list(t, kids(t, n.raw), (fuel - 1) as nat),
        kids(t, n.raw).contains(c) && render_dirty_node(t, c, (fuel - 1) as nat) ==> render_dirty_node(t, n, fuel),
{
    lemma_render_mask(t.nodes[n.raw].dirty.bits);
    if kids(t, n.raw).contains(c) && render_dirty_node(t, c, (fuel - 1) as nat) {
        lemma_render_dirty_list_member(t, kids(t, n.raw), c, (fuel - 1) as nat);
    }
}

/// The nodes that stand for `n` in layout: `n` itself, or for a fragment
/// the nodes that stand for its children, at most `fuel` levels deep.
pub open spec fn flat_node(t: TreeView, n: NodeId, fuel: nat) -> Seq<NodeId>
    decreases fuel, 0nat,
{
    if fuel == 0 || !t.nodes.dom().contains(n.raw) {
        Seq::empty()
    } else if t.nodes[n.raw].tag == UiNodeTag::Fragment {
        flat_list(t, kids(t, n.raw), (fuel - 1) as nat)
    } else {
        seq![n]
    }
}

/// The nodes that stand for each of `ks` in layout, in order.
pub open spec fn flat_list(t: TreeView, ks: Seq<NodeId>, fuel: nat) -> Seq<NodeId>
    decreases fuel, ks.len(),
{
    if ks.len() == 0 {
        Seq::empty()
    } else {
        flat_list(t, ks.drop_last(), fuel) + flat_node(t, ks.last(), fuel)
    }
}

/// The first node from `cur` up through the parents that is in the tree
/// and not a fragment, looking at most `fuel` nodes.
pub open spec fn nearest_layout(t: TreeView, cur: Option<NodeId>, fuel: nat) -> Option<NodeId>
    decreases fuel,
{
    match cur {
        None => None,
        Some(n) => if fuel == 0 || !t.nodes.dom().contains(n.raw) {
            None
        } else if t.nodes[n.raw].tag != UiNodeTag::Fragment {
            Some(n)
        } else {
            nearest_layout(t, t.nodes[n.raw].parent, (fuel - 1) as nat)
        },
    }
}

/// The tree of nodes: a slot map of nodes, one of which is the root, and
/// the text of text nodes.
pub struct UiTree {
    nodes: NodeSlots,
    root: NodeId,
    text_content: TextSlots,
}

impl View for UiTree {
    type V = TreeView;

    closed spec fn view(&self) -> TreeView {
        TreeView {
            nodes: node_slots(self.nodes).map_values(|n: UiNode| n@),
            text: text_slots(self.text_content),
            root: self.root,
        }
    }
}

/// The index of the first `x` in `s`, if any.
fn position(s: &[NodeId], x: NodeId) -> (r: Option<usize>)
    ensures
        match r {
            Some(i) => i < s@.len() && s@[i as int] == x && forall|j: int| 0 <= j < i ==> s@[j] != x,
            None => !s@.contains(x),
        },
{
    let mut i: usize = 0;
    while i < s.len()
        invariant
            i <= s@.len(),
            forall|j: int| 0 <= j < i ==> s@[j] != x,
        decreases s@.len() - i,
    {
        if s[i] == x {
            return Some(i);
        }
        i = i + 1;
    }
    None
}

proof fn lemma_first_is_index_of(s: Seq<NodeId>, x: NodeId, i: int)
    requires
        0 <= i < s.len(),
        s[i] == x,
        s.no_duplicates(),
    ensures
        s.contains(x),
        s.index_of(x) == i,
{
    assert(s.contains(x));
    let k = s.index_of(x);
    assert(0 <= k < s.len() && s[k] == x);
}

impl UiTree {
    pub open spec fn wf(&self) -> bool {
        tree_wf(self@)
    }

    /// The version of each node slot, by slot index: a removed node's
    /// slot moves on, so that its id is not handed out again at once.
    pub closed spec fn slot_versions(&self) -> Map<u64, u64> {
        node_slot_versions(self.nodes)
    }

    proof fn lemma_view_nodes(&self)
        ensures
            self@.nodes.dom() == node_slots(self.nodes).dom(),
            forall|k: u64| #[trigger] self@.nodes.dom().contains(k) ==> self@.nodes[k] == node_slots(self.nodes)[k]@,
    {
    }

    /// A tree holding only the root node.
    pub fn new() -> (r: Self)
        ensures
            r.wf(),
            r@.nodes.dom() == set![r@.root.raw],
            r@.nodes[r@.root.raw].tag == UiNodeTag::Root,
            r@.nodes[r@.root.raw].parent is None,
            r@.nodes[r@.root.raw].children.len() == 0,
            r@.nodes[r@.root.raw].dirty.bits == 0xff,
            r@.text.dom().is_empty(),
    {
        let mut nodes = node_slots_new();
        let key = node_slots_insert(&mut nodes, UiNode::new(UiNodeTag::Root));
        let r = UiTree { nodes, root: NodeId { raw: key }, text_content: text_slots_new() };
        proof {
            assert(r@.nodes.dom() =~= set![key]);
            assert(r@.text.dom() =~= Set::<u64>::empty());
        }
        r
    }

    /// The number of nodes.
    pub fn node_count(&self) -> (r: usize)
        ensures
            r == self@.nodes.dom().len(),
    {
        proof {
            assert(node_slots(self.nodes).dom() =~= self@.nodes.dom());
        }
        node_slots_len(&self.nodes)
    }

    /// The root node.
    pub fn root(&self) -> (r: NodeId)
        ensures
            r == self@.root,
    {
        self.root
    }

    /// Whether `id` names a node of this tree.
    pub fn contains(&self, id: NodeId) -> (r: bool)
        requires
            self.wf(),
        ensures
            r == self@.nodes.dom().contains(id.raw),
    {
        if !is_canonical(id.raw) {
            return false;
        }
        node_slots_get(&self.nodes, id.raw).is_some()
    }

    /// The node named `id`, if it is in the tree.
    pub fn node(&self, id: NodeId) -> (r: Option<&UiNode>)
        requires
            self.wf(),
        ensures
            match r {
                Some(n) => self@.nodes.dom().contains(id.raw) && n@ == self@.nodes[id.raw],
                None => !self@.nodes.dom().contains(id.raw),
            },
    {
        if !is_canonical(id.raw) {
            return None;
        }
        node_slots_get(&self.nodes, id.raw)
    }

    /// The children of `id`, in order; none where `id` is not in the tree.
    pub fn children(&self, id: NodeId) -> (r: &[NodeId])
        requires
            self.wf(),
        ensures
            r@ == (if self@.nodes.dom().contains(id.raw) {
                self@.nodes[id.raw].children
            } else {
                Seq::empty()
            }),
    {
        match self.node(id) {
            Some(n) => n.children.as_slice(),
            None => &[],
        }
    }

    /// A new node of the given tag, in no parent.
    pub fn create_node(&mut self, tag: UiNodeTag) -> (r: NodeId)
        requires
            old(self).wf(),
            old(self)@.nodes.dom().len() < 0xffff_fffe,
        ensures
            final(self).wf(),
            !old(self)@.nodes.dom().contains(r.raw),
            final(self)@.nodes == old(self)@.nodes.insert(r.raw, new_node_view(tag)),
            final(self)@.text == old(self)@.text,
            final(self)@.root == old(self)@.root,
            old(self).slot_versions().dom().contains(key_slot(r.raw)) ==> slot_version(r.raw)
                == old(self).slot_versions()[key_slot(r.raw)] + 1,
            !old(self).slot_versions().dom().contains(key_slot(r.raw)) ==> slot_version(r.raw) == 1,
    {
        let ghost t0 = self@;
        proof {
            self.lemma_view_nodes();
        }
        let node = UiNode::new(tag);
        let ghost nv = node@;
        let key = node_slots_insert(&mut self.nodes, node);
        let ghost t1 = self@;
        proof {
            assert(t1.nodes =~= t0.nodes.insert(key, nv));
            assert forall|n: u64| #[trigger] t1.nodes.dom().contains(n) implies parent_ok(t1, n) by {
                if n != key {
                    assert(parent_ok(t0, n));
                }
            }
            assert forall|n: u64| #[trigger] t1.nodes.dom().contains(n) implies children_ok(t1, n) by {
                if n != key {
                    assert(children_ok(t0, n));
                    assert forall|i: int| 0 <= i < kids(t1, n).len() implies #[trigger] kids(t1, n)[i].raw != key by {
                        assert(t0.nodes.dom().contains(kids(t0, n)[i].raw));
                    }
                }
            }
        }
        NodeId { raw: key }
    }


    /// Takes a node other than the root out of its parent's children.
    pub fn detach(&mut self, id: NodeId)
        requires
            old(self).wf(),
        ensures
            final(self)@ == detach_view(old(self)@, id.raw),
            final(self).wf(),
            final(self).slot_versions() == old(self).slot_versions(),
    {
        let ghost t0 = self@;
        proof {
            lemma_detach_wf(t0, id.raw);
        }
        if id == self.root {
            return;
        }
        let parent = match self.node(id) {
            Some(n) => n.parent,
            None => return,
        };
        let parent = match parent {
            Some(p) => p,
            None => return,
        };
        proof {
            assert(parent_ok(t0, id.raw));
            assert(children_ok(t0, parent.raw));
        }
        let pn = node_slots_get_mut(&mut self.nodes, parent.raw);
        match position(pn.children.as_slice(), id) {
            Some(i) => {
                proof {
                    lemma_first_is_index_of(t0.nodes[parent.raw].children, id, i as int);
                }
                pn.children.remove(i);
            },
            None => {},
        }
        let ghost t1 = self@;
        let cn = node_slots_get_mut(&mut self.nodes, id.raw);
        cn.parent = None;
        let ghost t2 = self@;
        proof {
            let ks = kids(t0, parent.raw);
            let s1 = t0.nodes.insert(
                parent.raw,
                NodeView { children: without_child(ks, id), ..t0.nodes[parent.raw] },
            );
            assert(t1.nodes =~= s1);
            assert(t2.nodes =~= unlink_view(t0, id.raw, parent.raw).nodes);
        }
        self.mark_dirty(parent, DirtyFlags { bits: 21 });
    }


    /// Makes `child` a child of `parent`, before `before` where that is a
    /// child of `parent`, else last; it first leaves its old parent.
    /// Nothing happens where either is not in the tree or they are equal.
    pub fn insert_child_before(&mut self, parent: NodeId, child: NodeId, before: Option<NodeId>)
        requires
            old(self).wf(),
        ensures
            if old(self)@.nodes.dom().contains(parent.raw) && old(self)@.nodes.dom().contains(child.raw)
                && parent != child {
                final(self)@ == attach_view(detach_view(old(self)@, child.raw), parent.raw, child.raw, before)
            } else {
                final(self)@ == old(self)@
            },
            child != old(self)@.root ==> final(self).wf(),
            links_ok(final(self)@),
    {
        if !self.contains(parent) || !self.contains(child) || parent == child {
            return;
        }
        let ghost t0 = self@;
        self.detach(child);
        let ghost t1 = self@;
        proof {
            lemma_detach_wf(t0, child.raw);
            assert(t1.nodes[child.raw].parent is None) by {
                if child == t0.root {
                } else {
                    assert(t1 == detach_view(t0, child.raw));
                }
            }
            lemma_orphan_not_child(t1, child.raw, parent.raw);
            lemma_kids_len(t1, parent.raw, child.raw);
        }
        let cn = node_slots_get_mut(&mut self.nodes, child.raw);
        cn.parent = Some(parent);
        let ghost t2 = self@;
        let pn = node_slots_get_mut(&mut self.nodes, parent.raw);
        let len = pn.children.as_slice().len();
        let pos = match before {
            Some(b) => match position(pn.children.as_slice(), b) {
                Some(i) => i,
                None => len,
            },
            None => len,
        };
        proof {
            let ks = t2.nodes[parent.raw].children;
            assert(ks == kids(t1, parent.raw));
            match before {
                Some(b) => if ks.contains(b) {
                    assert(children_ok(t1, parent.raw));
                    let i = choose|i: int| 0 <= i < ks.len() && ks[i] == b;
                    if (pos as int) < ks.len() {
                        lemma_first_is_index_of(ks, b, pos as int);
                    }
                },
                None => {},
            }
            assert(pos as int == insert_pos(ks, before));
        }
        pn.children.insert(pos, child);
        pn.dirty = DirtyFlags { bits: pn.dirty.bits | 21 };
        proof {
            let t3 = self@;
            let lv = link_view(t1, parent.raw, child.raw, before);
            assert(t3.nodes =~= mark_view(lv, parent.raw, structure_bits()).nodes);
            lemma_link_wf(t1, parent.raw, child.raw, before);
            lemma_mark_links(lv, parent.raw, structure_bits());
            if child != t0.root {
                lemma_mark_wf(lv, parent.raw, structure_bits());
            }
        }
    }

    /// Makes `child` the last child of `parent`.
    pub fn append_child(&mut self, parent: NodeId, child: NodeId)
        requires
            old(self).wf(),
        ensures
            if old(self)@.nodes.dom().contains(parent.raw) && old(self)@.nodes.dom().contains(child.raw)
                && parent != child {
                final(self)@ == attach_view(detach_view(old(self)@, child.raw), parent.raw, child.raw, None)
            } else {
                final(self)@ == old(self)@
            },
            child != old(self)@.root ==> final(self).wf(),
            links_ok(final(self)@),
    {
        self.insert_child_before(parent, child, None)
    }


    /// The text of `id`, if it has any.
    pub fn text(&self, id: NodeId) -> (r: Option<&str>)
        requires
            self.wf(),
        ensures
            match r {
                Some(v) => self@.text.dom().contains(id.raw) && v@ == self@.text[id.raw].value@,
                None => !self@.text.dom().contains(id.raw),
            },
    {
        if !is_canonical(id.raw) {
            return None;
        }
        match text_slots_get(&self.text_content, id.raw) {
            Some(t) => Some(t.value.as_str()),
            None => None,
        }
    }

    /// Sets the text of `id`. Returns false, changing nothing, where the
    /// text is already `value`; else stores it, marks `id` dirty for text,
    /// layout and paint, and returns true. For an id no longer in the tree
    /// the text map, as the secondary slot map does, either keeps the text
    /// against the dead id or leaves it out; no node changes, and the tree
    /// then holds text for a node it does not have.
    pub fn set_text(&mut self, id: NodeId, value: &str) -> (r: bool)
        requires
            old(self).wf(),
            canonical(id.raw),
        ensures
            r == !(old(self)@.text.dom().contains(id.raw) && old(self)@.text[id.raw].value@ == value@),
            !r ==> final(self)@ == old(self)@,
            r && old(self)@.nodes.dom().contains(id.raw) ==> {
                &&& final(self)@.nodes == mark_view(old(self)@, id.raw, text_bits()).nodes
                &&& final(self)@.text.dom() == old(self)@.text.dom().insert(id.raw)
                &&& final(self)@.text[id.raw].value@ == value@
                &&& forall|k: u64| k != id.raw && #[trigger] old(self)@.text.dom().contains(k) ==> final(self)@.text[k]
                    == old(self)@.text[k]
                &&& final(self).wf()
            },
            !old(self)@.nodes.dom().contains(id.raw) ==> final(self)@.nodes == old(self)@.nodes,
            !old(self)@.nodes.dom().contains(id.raw) ==> {
                &&& r
                &&& slot_keyed(final(self)@.text)
                &&& final(self)@.text == old(self)@.text || {
                    &&& final(self)@.text.dom().contains(id.raw)
                    &&& final(self)@.text[id.raw].value@ == value@
                    &&& forall|k: u64| k != id.raw && #[trigger] final(self)@.text.dom().contains(k)
                        ==> old(self)@.text.dom().contains(k) && final(self)@.text[k] == old(self)@.text[k]
                }
            },
            final(self)@.root == old(self)@.root,
    {
        let ghost t0 = self@;
        let same = match text_slots_get(&self.text_content, id.raw) {
            Some(t) => str_equal(t.value.as_str(), value),
            None => false,
        };
        if same {
            return false;
        }
        let live = self.contains(id);
        let ghost k = id.raw;
        proof {
            if live {
                assert forall|j: u64| #[trigger] t0.text.dom().contains(j) implies slot_index(j) != slot_index(k)
                    || j == k by {
                    assert(t0.nodes.dom().contains(j));
                }
            }
        }
        let _ = text_slots_insert(&mut self.text_content, id.raw, TextContent { value: value.to_string() });
        let ghost t1 = self@;
        if live {
            let n = node_slots_get_mut(&mut self.nodes, id.raw);
            n.dirty = DirtyFlags { bits: n.dirty.bits | 84 };
            proof {
                let t2 = self@;
                assert(t2.nodes =~= mark_view(t0, k, text_bits()).nodes);
                lemma_mark_wf(t0, k, text_bits());
                assert forall|j: u64| #[trigger] t2.text.dom().contains(j) implies t2.nodes.dom().contains(j) by {
                    if j != k {
                        assert(t0.text.dom().contains(j));
                    }
                }
                assert(t2.text.dom() =~= t0.text.dom().insert(k));
                assert(tree_wf(t2)) by {
                    let m = mark_view(t0, k, text_bits());
                    assert forall|j: u64| #[trigger] t2.nodes.dom().contains(j) implies parent_ok(t2, j) by {
                        assert(parent_ok(m, j));
                    }
                    assert forall|j: u64| #[trigger] t2.nodes.dom().contains(j) implies children_ok(t2, j) by {
                        assert(children_ok(m, j));
                    }
                }
            }
        }
        true
    }

    /// Takes away the text of `id`. Returns whether it had some; where it
    /// had, the node is marked dirty for text, layout and paint.
    pub fn remove_text(&mut self, id: NodeId) -> (r: bool)
        requires
            old(self).wf(),
            canonical(id.raw),
        ensures
            r == old(self)@.text.dom().contains(id.raw),
            final(self)@.text == old(self)@.text.remove(id.raw),
            final(self)@.nodes == (if r { mark_view(old(self)@, id.raw, text_bits()).nodes } else { old(self)@.nodes }),
            final(self)@.root == old(self)@.root,
            final(self).wf(),
    {
        let ghost t0 = self@;
        let removed = text_slots_remove(&mut self.text_content, id.raw);
        let ghost t1 = self@;
        proof {
            assert(t1.text == t0.text.remove(id.raw));
            assert(t1.nodes == t0.nodes);
            assert forall|n: u64| #[trigger] t1.nodes.dom().contains(n) implies parent_ok(t1, n) by {
                assert(parent_ok(t0, n));
            }
            assert forall|n: u64| #[trigger] t1.nodes.dom().contains(n) implies children_ok(t1, n) by {
                assert(children_ok(t0, n));
            }
            assert forall|n: u64| #[trigger] t1.text.dom().contains(n) implies t1.nodes.dom().contains(n) by {
                assert(t0.text.dom().contains(n));
            }
            lemma_slot_keyed_text(t0.text, t1.text);
        }
        match removed {
            Some(_) => {
                self.mark_dirty(id, DirtyFlags { bits: 84 });
                true
            },
            None => false,
        }
    }

    /// Clears the dirty flags of every node.
    pub fn clear_dirty(&mut self)
        requires
            old(self).wf(),
        ensures
            final(self)@.nodes == old(self)@.nodes.map_values(|v: NodeView| NodeView { dirty: DirtyFlags { bits: 0 }, ..v }),
            final(self)@.text == old(self)@.text,
            final(self)@.root == old(self)@.root,
            final(self).wf(),
    {
        let ghost t0 = self@;
        let keys = node_slots_keys(&self.nodes);
        let ghost target = t0.nodes.map_values(|v: NodeView| NodeView { dirty: DirtyFlags { bits: 0 }, ..v });
        let mut i: usize = 0;
        proof {
            assert(node_slots(self.nodes).dom() =~= t0.nodes.dom());
        }
        while i < keys.len()
            invariant
                i <= keys@.len(),
                keys@.no_duplicates(),
                forall|j: int| 0 <= j < keys@.len() ==> t0.nodes.dom().contains(#[trigger] keys@[j]),
                forall|k: u64| t0.nodes.dom().contains(k) ==> #[trigger] keys@.contains(k),
                tree_wf(t0),
                target == t0.nodes.map_values(|v: NodeView| NodeView { dirty: DirtyFlags { bits: 0 }, ..v }),
                self@.nodes.dom() == t0.nodes.dom(),
                self@.text == t0.text,
                self@.root == t0.root,
                slot_keyed(node_slots(self.nodes)),
                forall|k: u64| #[trigger] self@.nodes.dom().contains(k) ==> (if (exists|j: int| 0 <= j < i && keys@[j] == k) {
                    self@.nodes[k] == target[k]
                } else {
                    self@.nodes[k] == t0.nodes[k]
                }),
            decreases keys@.len() - i,
        {
            let key = keys[i];
            proof {
                assert(t0.nodes.dom().contains(key));
            }
            let ghost before = self@;
            let n = node_slots_get_mut(&mut self.nodes, key);
            n.dirty = DirtyFlags { bits: 0 };
            proof {
                let after = self@;
                assert forall|k: u64| #[trigger] after.nodes.dom().contains(k) implies (if (exists|j: int|
                    0 <= j < i + 1 && keys@[j] == k) {
                    after.nodes[k] == target[k]
                } else {
                    after.nodes[k] == t0.nodes[k]
                }) by {
                    assert(before.nodes.dom().contains(k));
                    if k == key {
                        if exists|j: int| 0 <= j < i && keys@[j] == k {
                            let j = choose|j: int| 0 <= j < i && keys@[j] == k;
                            assert(keys@[j] == keys@[i as int]);
                        }
                        assert(before.nodes[key] == t0.nodes[key]);
                        assert(target.dom().contains(key));
                        assert(target[key] == NodeView { dirty: DirtyFlags { bits: 0 }, ..t0.nodes[key] });
                        assert(after.nodes[key] == NodeView { dirty: DirtyFlags { bits: 0 }, ..before.nodes[key] });
                        assert(exists|j: int| 0 <= j < i + 1 && keys@[j] == k) by {
                            assert(keys@[i as int] == k);
                        }
                        assert(after.nodes[key] == target[key]);
                    } else {
                        assert(before.nodes[k] == after.nodes[k]);
                        if exists|j: int| 0 <= j < i + 1 && keys@[j] == k {
                            let j = choose|j: int| 0 <= j < i + 1 && keys@[j] == k;
                            assert(j < i);
                            assert(exists|j: int| 0 <= j < i && keys@[j] == k);
                        } else {
                            assert(!exists|j: int| 0 <= j < i && keys@[j] == k) by {
                                if exists|j: int| 0 <= j < i && keys@[j] == k {
                                    let j = choose|j: int| 0 <= j < i && keys@[j] == k;
                                    assert(0 <= j < i + 1 && keys@[j] == k);
                                }
                            }
                        }
                    }
                }
            }
            i = i + 1;
        }
        proof {
            let t1 = self@;
            assert forall|k: u64| #[trigger] t1.nodes.dom().contains(k) implies t1.nodes[k] == target[k] by {
                assert(keys@.contains(k));
                let j = choose|j: int| 0 <= j < keys@.len() && keys@[j] == k;
                assert(0 <= j < i && keys@[j] == k);
            }
            assert(t1.nodes =~= target);
            assert forall|k: u64| #[trigger] t1.nodes.dom().contains(k) implies parent_ok(t1, k) by {
                assert(parent_ok(t0, k));
            }
            assert forall|k: u64| #[trigger] t1.nodes.dom().contains(k) implies children_ok(t1, k) by {
                assert(children_ok(t0, k));
            }
        }
    }

    /// Clears the given dirty flags of every node, keeping the others.
    pub fn clear_dirty_flags(&mut self, flags: DirtyFlags)
        requires
            old(self).wf(),
        ensures
            final(self)@.nodes == old(self)@.nodes.map_values(|v: NodeView| NodeView { dirty: DirtyFlags { bits: (v.dirty.bits & !flags.bits) as u16 }, ..v }),
            final(self)@.text == old(self)@.text,
            final(self)@.root == old(self)@.root,
            final(self).wf(),
    {
        let ghost t0 = self@;
        let keys = node_slots_keys(&self.nodes);
        let ghost target = t0.nodes.map_values(|v: NodeView| NodeView { dirty: DirtyFlags { bits: (v.dirty.bits & !flags.bits) as u16 }, ..v });
        let mut i: usize = 0;
        proof {
            assert(node_slots(self.nodes).dom() =~= t0.nodes.dom());
        }
        while i < keys.len()
            invariant
                i <= keys@.len(),
                keys@.no_duplicates(),
                forall|j: int| 0 <= j < keys@.len() ==> t0.nodes.dom().contains(#[trigger] keys@[j]),
                forall|k: u64| t0.nodes.dom().contains(k) ==> #[trigger] keys@.contains(k),
                tree_wf(t0),
                target == t0.nodes.map_values(|v: NodeView| NodeView { dirty: DirtyFlags { bits: (v.dirty.bits & !flags.bits) as u16 }, ..v }),
                self@.nodes.dom() == t0.nodes.dom(),
                self@.text == t0.text,
                self@.root == t0.root,
                slot_keyed(node_slots(self.nodes)),
                forall|k: u64| #[trigger] self@.nodes.dom().contains(k) ==> (if (exists|j: int| 0 <= j < i && keys@[j] == k) {
                    self@.nodes[k] == target[k]
                } else {
                    self@.nodes[k] == t0.nodes[k]
                }),
            decreases keys@.len() - i,
        {
            let key = keys[i];
            proof {
                assert(t0.nodes.dom().contains(key));
            }
            let ghost before = self@;
            let n = node_slots_get_mut(&mut self.nodes, key);
            n.dirty = DirtyFlags { bits: n.dirty.bits & !flags.bits };
            proof {
                let after = self@;
                assert forall|k: u64| #[trigger] after.nodes.dom().contains(k) implies (if (exists|j: int|
                    0 <= j < i + 1 && keys@[j] == k) {
                    after.nodes[k] == target[k]
                } else {
                    after.nodes[k] == t0.nodes[k]
                }) by {
                    assert(before.nodes.dom().contains(k));
                    if k == key {
                        if exists|j: int| 0 <= j < i && keys@[j] == k {
                            let j = choose|j: int| 0 <= j < i && keys@[j] == k;
                            assert(keys@[j] == keys@[i as int]);
                        }
                        assert(before.nodes[key] == t0.nodes[key]);
                        assert(target.dom().contains(key));
                        assert(target[key] == NodeView { dirty: DirtyFlags { bits: (t0.nodes[key].dirty.bits & !flags.bits) as u16 }, ..t0.nodes[key] });
                        assert(after.nodes[key] == NodeView { dirty: DirtyFlags { bits: (before.nodes[key].dirty.bits & !flags.bits) as u16 }, ..before.nodes[key] });
                        assert(exists|j: int| 0 <= j < i + 1 && keys@[j] == k) by {
                            assert(keys@[i as int] == k);
                        }
                        assert(after.nodes[key] == target[key]);
                    } else {
                        assert(before.nodes[k] == after.nodes[k]);
                        if exists|j: int| 0 <= j < i + 1 && keys@[j] == k {
                            let j = choose|j: int| 0 <= j < i + 1 && keys@[j] == k;
                            assert(j < i);
                            assert(exists|j: int| 0 <= j < i && keys@[j] == k);
                        } else {
                            assert(!exists|j: int| 0 <= j < i && keys@[j] == k) by {
                                if exists|j: int| 0 <= j < i && keys@[j] == k {
                                    let j = choose|j: int| 0 <= j < i && keys@[j] == k;
                                    assert(0 <= j < i + 1 && keys@[j] == k);
                                }
                            }
                        }
                    }
                }
            }
            i = i + 1;
        }
        proof {
            let t1 = self@;
            assert forall|k: u64| #[trigger] t1.nodes.dom().contains(k) implies t1.nodes[k] == target[k] by {
                assert(keys@.contains(k));
                let j = choose|j: int| 0 <= j < keys@.len() && keys@[j] == k;
                assert(0 <= j < i && keys@[j] == k);
            }
            assert(t1.nodes =~= target);
            assert forall|k: u64| #[trigger] t1.nodes.dom().contains(k) implies parent_ok(t1, k) by {
                assert(parent_ok(t0, k));
            }
            assert forall|k: u64| #[trigger] t1.nodes.dom().contains(k) implies children_ok(t1, k) by {
                assert(children_ok(t0, k));
            }
        }
    }


    /// Removes a node other than the root, with every node below it, and
    /// their text. Returns the removed nodes. Nothing happens where `id`
    /// is the root or not in the tree.
    pub fn remove_subtree(&mut self, id: NodeId) -> (removed: Vec<NodeId>)
        requires
            old(self).wf(),
        ensures
            final(self).wf(),
            final(self)@ == prune_view(old(self)@, id.raw),
            if id == old(self)@.root || !old(self)@.nodes.dom().contains(id.raw) {
                final(self)@ == old(self)@ && removed@.len() == 0
            } else {
                let gone = subtree_set(old(self)@, id.raw);
                &&& final(self)@.nodes == detach_view(old(self)@, id.raw).nodes.remove_keys(gone)
                &&& final(self)@.text == old(self)@.text.remove_keys(gone)
                &&& final(self)@.root == old(self)@.root
                &&& !final(self)@.nodes.dom().contains(id.raw)
                &&& removed@.no_duplicates()
                &&& forall|x: NodeId| #[trigger] removed@.contains(x) <==> gone.contains(x.raw)
                &&& final(self).slot_versions().dom().contains(key_slot(id.raw))
                &&& final(self).slot_versions()[key_slot(id.raw)] == bumped(id.raw)
            },
    {
        let ghost t0 = self@;
        if id == self.root || !self.contains(id) {
            return Vec::new();
        }
        let parent = match self.node(id) {
            Some(n) => n.parent,
            None => None,
        };
        self.detach(id);
        let ghost t1 = self@;
        let ghost st = subtree_set(t1, id.raw);
        proof {
            lemma_detach_wf(t0, id.raw);
            assert forall|m: u64| #[trigger] t0.nodes.dom().contains(m) implies in_subtree(t0.nodes, m, id.raw)
                == in_subtree(t1.nodes, m, id.raw) by {
                if in_subtree(t0.nodes, m, id.raw) {
                    let k = choose|k: nat| reaches_in(t0.nodes, m, id.raw, k);
                    lemma_reaches_same(t0.nodes, t1.nodes, m, id.raw, k);
                }
                if in_subtree(t1.nodes, m, id.raw) {
                    let k = choose|k: nat| reaches_in(t1.nodes, m, id.raw, k);
                    lemma_reaches_same(t0.nodes, t1.nodes, m, id.raw, k);
                }
            }
            assert(st =~= subtree_set(t0, id.raw));
            assert(st.contains(id.raw)) by {
                assert(reaches_in(t1.nodes, id.raw, id.raw, 0));
            }
            assert(node_slots(self.nodes).dom() =~= t1.nodes.dom());
        }
        let mut stack: Vec<NodeId> = Vec::new();
        stack.push(id);
        proof {
            assert(stack@[0] == id);
        }
        let mut removed: Vec<NodeId> = Vec::new();
        let ghost mut gone: Set<u64> = Set::empty();
        while stack.len() > 0
            invariant
                tree_wf(t1),
                st == subtree_set(t1, id.raw),
                st.contains(id.raw),
                gone.subset_of(st),
                self@.root == t1.root,
                self@.nodes == t1.nodes.remove_keys(gone),
                self@.text == t1.text.remove_keys(gone),
                slot_keyed(node_slots(self.nodes)),
                node_slots(self.nodes).dom().finite(),
                forall|i: int| 0 <= i < stack@.len() ==> st.contains(#[trigger] stack@[i].raw),
                forall|r: u64, j: int|
                    #[trigger] gone.contains(r) && 0 <= j < kids(t1, r).len() ==> gone.contains(
                        #[trigger] kids(t1, r)[j].raw,
                    ) || stack@.contains(kids(t1, r)[j]),
                gone.contains(id.raw) || stack@.contains(id),
                removed@.no_duplicates(),
                forall|x: NodeId| #[trigger] removed@.contains(x) <==> gone.contains(x.raw),
                t1.nodes.dom().contains(id.raw),
                gone.contains(id.raw) ==> node_slot_versions(self.nodes).dom().contains(key_slot(id.raw))
                    && node_slot_versions(self.nodes)[key_slot(id.raw)] == bumped(id.raw),
            decreases node_slots(self.nodes).dom().len(), stack@.len(),
        {
            let ghost stack0 = stack@;
            let n = stack.pop().unwrap();
            let ghost stack_rest = stack@;
            let ghost v_before = self@;
            proof {
                assert(stack0 == stack_rest.push(n));
                assert(stack0[stack0.len() - 1] == n);
                assert(st.contains(n.raw));
                assert(t1.nodes.dom().contains(n.raw));
                assert(node_slots(self.nodes).dom() == v_before.nodes.dom());
            }
            let ghost dom_before = node_slots(self.nodes).dom();
            match node_slots_remove(&mut self.nodes, n.raw) {
                Some(node) => {
                    let ghost before_text = self@.text;
                    let _ = text_slots_remove(&mut self.text_content, n.raw);
                    let ks = node.children.as_slice();
                    proof {
                        assert(dom_before.contains(n.raw));
                        assert(v_before.nodes.dom().contains(n.raw));
                        assert(!gone.contains(n.raw));
                        assert(v_before.nodes[n.raw] == node@);
                        assert(node@ == t1.nodes[n.raw]);
                        assert(children_ok(t1, n.raw));
                    }
                    let mut j: usize = 0;
                    while j < ks.len()
                        invariant
                            j <= ks@.len(),
                            ks@ == kids(t1, n.raw),
                            stack@ == stack_rest + ks@.subrange(0, j as int),
                        decreases ks@.len() - j,
                    {
                        stack.push(ks[j]);
                        proof {
                            assert(ks@.subrange(0, j + 1) =~= ks@.subrange(0, j as int).push(ks@[j as int]));
                        }
                        j = j + 1;
                    }
                    let ghost removed0 = removed@;
                    removed.push(n);
                    proof {
                        assert(ks@.subrange(0, j as int) =~= ks@);
                        let g2 = gone.insert(n.raw);
                        assert(self@.nodes =~= v_before.nodes.remove(n.raw));
                        assert(self@.nodes =~= t1.nodes.remove_keys(g2));
                        assert(self@.text =~= t1.text.remove_keys(g2));
                        assert forall|i: int| 0 <= i < stack@.len() implies st.contains(#[trigger] stack@[i].raw) by {
                            if i >= stack_rest.len() {
                                let c = ks@[i - stack_rest.len()];
                                assert(stack@[i] == c);
                                let k = choose|k: nat| reaches_in(t1.nodes, n.raw, id.raw, k);
                                lemma_reaches_up(t1.nodes, c.raw, n.raw, id.raw, k);
                                assert(in_subtree(t1.nodes, c.raw, id.raw));
                            } else {
                                assert(stack@[i] == stack_rest[i]);
                            }
                        }
                        assert forall|r: u64, jj: int|
                            #[trigger] g2.contains(r) && 0 <= jj < kids(t1, r).len() implies g2.contains(
                                #[trigger] kids(t1, r)[jj].raw,
                            ) || stack@.contains(kids(t1, r)[jj]) by {
                            let c = kids(t1, r)[jj];
                            if r == n.raw {
                                assert(stack@[stack_rest.len() + jj] == c);
                            } else {
                                if !gone.contains(c.raw) {
                                    assert((stack_rest.push(n)).contains(c));
                                    let q = choose|q: int| 0 <= q < stack_rest.len() + 1 && (stack_rest.push(n))[q] == c;
                                    if q < stack_rest.len() {
                                        assert(stack@[q] == c);
                                    }
                                }
                            }
                        }
                        if !gone.contains(id.raw) && id != n {
                            let q = choose|q: int| 0 <= q < stack_rest.len() + 1 && (stack_rest.push(n))[q] == id;
                            assert(stack@[q] == id);
                        }
                        assert(removed@ == removed0.push(n));
                        assert(!removed0.contains(n));
                        assert forall|x: NodeId| #[trigger] removed@.contains(x) <==> g2.contains(x.raw) by {
                            if removed@.contains(x) && x != n {
                                let q = choose|q: int| 0 <= q < removed@.len() && removed@[q] == x;
                                assert(removed0[q] == x);
                                assert(removed0.contains(x));
                            }
                            if g2.contains(x.raw) && x != n {
                                assert(x.raw != n.raw);
                                assert(removed0.contains(x));
                                let q = choose|q: int| 0 <= q < removed0.len() && removed0[q] == x;
                                assert(removed@[q] == x);
                            }
                            if x == n {
                                assert(removed@[removed@.len() - 1] == n);
                            }
                            if x.raw == n.raw {
                                assert(x == n);
                            }
                        }
                        assert forall|a: int, b: int| 0 <= a < b < removed@.len() implies removed@[a] != removed@[b] by {
                            if b == removed@.len() - 1 {
                                assert(removed0[a] == removed@[a]);
                            } else {
                                assert(removed0[a] == removed@[a]);
                                assert(removed0[b] == removed@[b]);
                            }
                        }
                        gone = g2;
                        assert(node_slots(self.nodes).dom() =~= dom_before.remove(n.raw));
                    }
                },
                None => {
                    proof {
                        assert(!v_before.nodes.dom().contains(n.raw));
                        assert(gone.contains(n.raw));
                        assert forall|r: u64, jj: int|
                            #[trigger] gone.contains(r) && 0 <= jj < kids(t1, r).len() implies gone.contains(
                                #[trigger] kids(t1, r)[jj].raw,
                            ) || stack@.contains(kids(t1, r)[jj]) by {
                            let c = kids(t1, r)[jj];
                            if !gone.contains(c.raw) {
                                assert((stack_rest.push(n)).contains(c));
                                let q = choose|q: int| 0 <= q < stack_rest.len() + 1 && (stack_rest.push(n))[q] == c;
                                if q < stack_rest.len() {
                                    assert(stack@[q] == c);
                                }
                            }
                        }
                        if !gone.contains(id.raw) {
                            let q = choose|q: int| 0 <= q < stack_rest.len() + 1 && (stack_rest.push(n))[q] == id;
                            assert(stack@[q] == id);
                        }
                    }
                },
            }
        }
        proof {
            assert forall|m: u64| st.contains(m) implies gone.contains(m) by {
                if !gone.contains(m) {
                    let k = choose|k: nat| reaches_in(t1.nodes, m, id.raw, k);
                    lemma_stacked_ancestor(t1, gone, stack@, m, id.raw, k);
                }
            }
            assert(gone =~= st);
            lemma_remove_subtree_wf(t1, id.raw);
            assert(t1.text == t0.text);
        }
        match parent {
            Some(p) => {
                let ghost t2 = self@;
                self.mark_dirty(p, DirtyFlags { bits: 21 });
                proof {
                    if t2.nodes.dom().contains(p.raw) {
                        let b = t2.nodes[p.raw].dirty.bits;
                        let b0 = t0.nodes[p.raw].dirty.bits;
                        assert(b == b0 | 21);
                        assert((b0 | 21u16) | 21u16 == b0 | 21u16) by (bit_vector);
                        assert(self@.nodes =~= t2.nodes);
                    }
                }
            },
            None => {},
        }
        removed
    }


    /// Whether a node of the subtree at `id` has a dirty bit that makes its
    /// paint stale, looking as many levels deep as the tree has nodes.
    pub fn subtree_has_render_dirty(&self, id: NodeId) -> (r: bool)
        requires
            self.wf(),
        ensures
            r == render_dirty_node(self@, id, self@.nodes.dom().len()),
    {
        let fuel = node_slots_len(&self.nodes);
        proof {
            assert(node_slots(self.nodes).dom() =~= self@.nodes.dom());
        }
        self.render_dirty_in(id, fuel)
    }

    fn render_dirty_in(&self, id: NodeId, fuel: usize) -> (r: bool)
        requires
            self.wf(),
        ensures
            r == render_dirty_node(self@, id, fuel as nat),
        decreases fuel,
    {
        if fuel == 0 {
            return false;
        }
        let node = match self.node(id) {
            Some(n) => n,
            None => {
                return false;
            },
        };
        if node.dirty.bits & 123 != 0 {
            return true;
        }
        let ks = node.children.as_slice();
        let mut j: usize = 0;
        proof {
            assert(ks@ == kids(self@, id.raw));
        }
        while j < ks.len()
            invariant
                self.wf(),
                j <= ks@.len(),
                fuel > 0,
                self@.nodes.dom().contains(id.raw),
                ks@ == kids(self@, id.raw),
                self@.nodes[id.raw].dirty.bits & render_bits() == 0,
                !render_dirty_list(self@, ks@.take(j as int), (fuel - 1) as nat),
            decreases ks@.len() - j,
        {
            let found = self.render_dirty_in(ks[j], fuel - 1);
            proof {
                let tk = ks@.take(j + 1);
                assert(tk.drop_last() =~= ks@.take(j as int));
                assert(tk.last() == ks@[j as int]);
            }
            if found {
                proof {
                    assert(ks@.take(j + 1) =~= ks@.take(j as int).push(ks@[j as int]));
                    lemma_render_dirty_prefix(self@, ks@, j as int + 1, (fuel - 1) as nat);
                }
                return true;
            }
            j = j + 1;
        }
        proof {
            assert(ks@.take(j as int) =~= ks@);
            assert(ks@ == kids(self@, id.raw));
        }
        false
    }

    /// The children of `id` as layout sees them: each child, or for a
    /// fragment child the children it stands for, in order.
    pub fn flattened_layout_children(&self, id: NodeId) -> (r: Vec<NodeId>)
        requires
            self.wf(),
        ensures
            r@ == if self@.nodes.dom().contains(id.raw) {
                flat_list(self@, kids(self@, id.raw), self@.nodes.dom().len())
            } else {
                Seq::empty()
            },
    {
        let mut out: Vec<NodeId> = Vec::new();
        let fuel = node_slots_len(&self.nodes);
        proof {
            assert(node_slots(self.nodes).dom() =~= self@.nodes.dom());
        }
        let node = match self.node(id) {
            Some(n) => n,
            None => {
                return out;
            },
        };
        let ks = node.children.as_slice();
        let mut j: usize = 0;
        while j < ks.len()
            invariant
                self.wf(),
                j <= ks@.len(),
                out@ == flat_list(self@, ks@.take(j as int), fuel as nat),
            decreases ks@.len() - j,
        {
            self.push_flattened(ks[j], fuel, &mut out);
            proof {
                let tk = ks@.take(j + 1);
                assert(tk.drop_last() =~= ks@.take(j as int));
                assert(tk.last() == ks@[j as int]);
            }
            j = j + 1;
        }
        proof {
            assert(ks@.take(j as int) =~= ks@);
        }
        out
    }

    fn push_flattened(&self, id: NodeId, fuel: usize, out: &mut Vec<NodeId>)
        requires
            self.wf(),
        ensures
            final(out)@ == old(out)@ + flat_node(self@, id, fuel as nat),
        decreases fuel,
    {
        if fuel == 0 {
            proof {
                assert(old(out)@ =~= old(out)@ + flat_node(self@, id, fuel as nat));
            }
            return;
        }
        let node = match self.node(id) {
            Some(n) => n,
            None => {
                proof {
                    assert(old(out)@ =~= old(out)@ + flat_node(self@, id, fuel as nat));
                }
                return;
            },
        };
        if node.tag != UiNodeTag::Fragment {
            out.push(id);
            proof {
                assert(out@ =~= old(out)@ + seq![id]);
            }
            return;
        }
        let ghost start = out@;
        let ks = node.children.as_slice();
        let mut j: usize = 0;
        proof {
            assert(out@ =~= start + flat_list(self@, ks@.take(0), (fuel - 1) as nat));
        }
        while j < ks.len()
            invariant
                self.wf(),
                j <= ks@.len(),
                fuel > 0,
                out@ == start + flat_list(self@, ks@.take(j as int), (fuel - 1) as nat),
            decreases ks@.len() - j,
        {
            self.push_flattened(ks[j], fuel - 1, out);
            proof {
                let tk = ks@.take(j + 1);
                assert(tk.drop_last() =~= ks@.take(j as int));
                assert(tk.last() == ks@[j as int]);
                assert(out@ =~= start + flat_list(self@, tk, (fuel - 1) as nat));
            }
            j = j + 1;
        }
        proof {
            assert(ks@.take(j as int) =~= ks@);
            assert(ks@ == kids(self@, id.raw));
        }
    }

    /// The first node from `current` up through the parents that is in the
    /// tree and not a fragment, looking at as many nodes as the tree has.
    pub fn nearest_layout_node_from(&self, current: Option<NodeId>) -> (r: Option<NodeId>)
        requires
            self.wf(),
        ensures
            r == nearest_layout(self@, current, self@.nodes.dom().len()),
    {
        let fuel0 = node_slots_len(&self.nodes);
        proof {
            assert(node_slots(self.nodes).dom() =~= self@.nodes.dom());
        }
        let mut fuel = fuel0;
        let mut cur = current;
        while fuel > 0
            invariant
                self.wf(),
                fuel0 == self@.nodes.dom().len(),
                nearest_layout(self@, cur, fuel as nat) == nearest_layout(self@, current, fuel0 as nat),
            decreases fuel,
        {
            let n = match cur {
                Some(n) => n,
                None => {
                    proof {
                        assert(nearest_layout(self@, cur, fuel as nat) == None::<NodeId>);
                    }
                    return None;
                },
            };
            let node = match self.node(n) {
                Some(node) => node,
                None => {
                    proof {
                        assert(nearest_layout(self@, cur, fuel as nat) == None::<NodeId>);
                    }
                    return None;
                },
            };
            if node.tag != UiNodeTag::Fragment {
                return Some(n);
            }
            cur = node.parent;
            fuel = fuel - 1;
        }
        proof {
            assert(nearest_layout(self@, cur, 0) == None::<NodeId>) by {
                match cur {
                    Some(n) => {},
                    None => {},
                }
            }
        }
        None
    }

    /// The nearest node above `id` that is in the tree and not a fragment.
    pub fn nearest_layout_parent(&self, id: NodeId) -> (r: Option<NodeId>)
        requires
            self.wf(),
        ensures
            r == if self@.nodes.dom().contains(id.raw) {
                nearest_layout(self@, self@.nodes[id.raw].parent, self@.nodes.dom().len())
            } else {
                None
            },
    {
        match self.node(id) {
            Some(n) => self.nearest_layout_node_from(n.parent),
            None => None,
        }
    }

    /// A dump of the tree, one line per node, children indented under
    /// their parent: `root\n  div\n    text: Save\n`.
    pub fn debug_dump(&self) -> (r: String)
        requires
            self.wf(),
        ensures
            r@ == dump_node(self@, self@.root, 0, self@.nodes.dom().len()),
    {
        let mut out = String::new();
        let fuel = node_slots_len(&self.nodes);
        proof {
            assert(node_slots(self.nodes).dom() =~= self@.nodes.dom());
        }
        self.debug_node(self.root, 0, fuel, &mut out);
        proof {
            assert(out@ =~= dump_node(self@, self@.root, 0, self@.nodes.dom().len()));
        }
        out
    }

    fn debug_node(&self, id: NodeId, depth: usize, fuel: usize, out: &mut String)
        requires
            self.wf(),
            depth + fuel <= usize::MAX,
        ensures
            final(out)@ == old(out)@ + dump_node(self@, id, depth as nat, fuel as nat),
        decreases fuel,
    {
        if fuel == 0 {
            proof {
                assert(old(out)@ =~= old(out)@ + dump_node(self@, id, depth as nat, fuel as nat));
            }
            return;
        }
        let node = match self.node(id) {
            Some(n) => n,
            None => {
                proof {
                    assert(old(out)@ =~= old(out)@ + dump_node(self@, id, depth as nat, fuel as nat));
                }
                return;
            },
        };
        let ghost start = out@;
        let mut i: usize = 0;
        while i < depth
            invariant
                i <= depth,
                out@ == start + indent(i as nat),
            decreases depth - i,
        {
            out.append("  ");
            proof {
                assert(out@ =~= start + indent((i + 1) as nat));
            }
            i = i + 1;
        }
        out.append(node.tag.debug_name());
        match self.text(id) {
            Some(text) => {
                out.append(": ");
                out.append(text);
            },
            None => {},
        }
        out.append("\n");
        proof {
            assert(out@ =~= start + dump_line(self@, id.raw, depth as nat));
        }
        let ghost line_end = out@;
        let ks = node.children.as_slice();
        let mut j: usize = 0;
        while j < ks.len()
            invariant
                self.wf(),
                j <= ks@.len(),
                depth + fuel <= usize::MAX,
                fuel > 0,
                out@ == line_end + dump_list(self@, ks@.take(j as int), (depth + 1) as nat, (fuel - 1) as nat),
            decreases ks@.len() - j,
        {
            let ghost before = out@;
            self.debug_node(ks[j], depth + 1, fuel - 1, out);
            proof {
                let tk = ks@.take(j + 1);
                assert(tk.drop_last() =~= ks@.take(j as int));
                assert(tk.last() == ks@[j as int]);
                assert(out@ =~= line_end + dump_list(self@, tk, (depth + 1) as nat, (fuel - 1) as nat));
            }
            j = j + 1;
        }
        proof {
            assert(ks@.take(j as int) =~= ks@);
            assert(ks@ == kids(self@, id.raw));
            assert(out@ =~= old(out)@ + dump_node(self@, id, depth as nat, fuel as nat));
        }
    }


    /// The node named `id`, to be changed in place; `None` where `id` is
    /// not in the tree.
    pub fn node_mut(&mut self, id: NodeId) -> (r: Option<&mut UiNode>)
        requires
            old(self).wf(),
        ensures
            r is Some <==> old(self)@.nodes.dom().contains(id.raw),
            r is None ==> final(self)@ == old(self)@,
            match r {
                Some(n) => {
                    &&& n@ == old(self)@.nodes[id.raw]
                    &&& final(self)@.nodes == old(self)@.nodes.insert(id.raw, final(n)@)
                    &&& final(self)@.text == old(self)@.text
                    &&& final(self)@.root == old(self)@.root
                },
                None => true,
            },
    {
        if !self.contains(id) {
            return None;
        }
        let ghost t0 = self@;
        let n = node_slots_get_mut(&mut self.nodes, id.raw);
        Some(n)
    }

    /// Adds `dirty` to the flags of `id`; nothing where `id` is not in the tree.
    pub fn mark_dirty(&mut self, id: NodeId, dirty: DirtyFlags)
        requires
            old(self).wf(),
        ensures
            final(self)@ == mark_view(old(self)@, id.raw, dirty.bits),
            final(self).wf(),
            final(self).slot_versions() == old(self).slot_versions(),
    {
        if !self.contains(id) {
            return;
        }
        let ghost t0 = self@;
        let n = node_slots_get_mut(&mut self.nodes, id.raw);
        n.dirty = DirtyFlags { bits: n.dirty.bits | dirty.bits };
        proof {
            let t1 = self@;
            assert(t1.nodes =~= mark_view(t0, id.raw, dirty.bits).nodes);
            assert forall|k: u64| #[trigger] t1.nodes.dom().contains(k) implies parent_ok(t1, k) by {
                assert(parent_ok(t0, k));
            }
            assert forall|k: u64| #[trigger] t1.nodes.dom().contains(k) implies children_ok(t1, k) by {
                assert(children_ok(t0, k));
            }
        }
    }
}


proof fn lemma_mark_wf(t: TreeView, n: u64, bits: u16)
    requires
        tree_wf(t),
    ensures
        tree_wf(mark_view(t, n, bits)),
        mark_view(t, n, bits).nodes.dom() == t.nodes.dom(),
        forall|k: u64| #[trigger] t.nodes.dom().contains(k) ==> mark_view(t, n, bits).nodes[k].parent == t.nodes[k].parent
            && mark_view(t, n, bits).nodes[k].children == t.nodes[k].children,
{
    let t1 = mark_view(t, n, bits);
    assert forall|k: u64| #[trigger] t1.nodes.dom().contains(k) implies parent_ok(t1, k) by {
        assert(parent_ok(t, k));
    }
    assert forall|k: u64| #[trigger] t1.nodes.dom().contains(k) implies children_ok(t1, k) by {
        assert(children_ok(t, k));
    }
}

/// Marking a node dirty keeps its links.
proof fn lemma_mark_links(t: TreeView, n: u64, bits: u16)
    requires
        links_ok(t),
    ensures
        links_ok(mark_view(t, n, bits)),
{
    let t1 = mark_view(t, n, bits);
    assert forall|k: u64| #[trigger] t1.nodes.dom().contains(k) implies parent_ok(t1, k) by {
        assert(parent_ok(t, k));
    }
    assert forall|k: u64| #[trigger] t1.nodes.dom().contains(k) implies children_ok(t1, k) by {
        assert(children_ok(t, k));
    }
}

/// Once a node has no parent, no node lists it as a child.
proof fn lemma_orphan_not_child(t: TreeView, c: u64, n: u64)
    requires
        tree_wf(t),
        t.nodes.dom().contains(c),
        t.nodes[c].parent is None,
        t.nodes.dom().contains(n),
    ensures
        !kids(t, n).contains(NodeId { raw: c }),
{
    assert(children_ok(t, n));
    if kids(t, n).contains(NodeId { raw: c }) {
        let i = choose|i: int| 0 <= i < kids(t, n).len() && kids(t, n)[i] == NodeId { raw: c };
        assert(t.nodes[kids(t, n)[i].raw].parent == Some(NodeId { raw: n }));
    }
}

/// Detaching keeps the invariant and leaves the node parentless and in
/// no child list; nothing but links and dirty flags change.
proof fn lemma_detach_wf(t: TreeView, c: u64)
    requires
        tree_wf(t),
    ensures
        t.nodes.dom().contains(c) && c != t.root.raw && t.nodes[c].parent is Some ==> tree_wf(
            unlink_view(t, c, t.nodes[c].parent->0.raw),
        ),
        tree_wf(detach_view(t, c)),
        detach_view(t, c).nodes.dom() == t.nodes.dom(),
        detach_view(t, c).text == t.text,
        detach_view(t, c).root == t.root,
        t.nodes.dom().contains(c) ==> detach_view(t, c).nodes[c].parent is None,
        forall|k: u64| #[trigger] t.nodes.dom().contains(k) ==> detach_view(t, c).nodes[k].tag == t.nodes[k].tag,
        forall|k: u64| #[trigger] t.nodes.dom().contains(k) && k != c ==> detach_view(t, c).nodes[k].parent
            == t.nodes[k].parent,
{
    if c == t.root.raw || !t.nodes.dom().contains(c) {
    } else {
        match t.nodes[c].parent {
            None => {},
            Some(p) => {
                assert(parent_ok(t, c));
                assert(children_ok(t, p.raw));
                let ks = kids(t, p.raw);
                let cid = NodeId { raw: c };
                let ks2 = without_child(ks, cid);
                let m = unlink_view(t, c, p.raw);
                let i = ks.index_of(cid);
                assert(0 <= i < ks.len() && ks[i] == cid);
                assert(ks2 == ks.remove(i));
                assert forall|a: int, b: int| 0 <= a < b < ks2.len() implies ks2[a] != ks2[b] by {
                    let a0 = if a < i { a } else { a + 1 };
                    let b0 = if b < i { b } else { b + 1 };
                    assert(ks2[a] == ks[a0] && ks2[b] == ks[b0]);
                }
                assert(!ks2.contains(cid)) by {
                    if ks2.contains(cid) {
                        let j = choose|j: int| 0 <= j < ks2.len() && ks2[j] == cid;
                        let j0 = if j < i { j } else { j + 1 };
                        assert(ks[j0] == cid);
                    }
                }
                assert forall|k: u64| #[trigger] m.nodes.dom().contains(k) implies parent_ok(m, k) by {
                    assert(parent_ok(t, k));
                    if k != c {
                        match t.nodes[k].parent {
                            Some(q) => {
                                if q.raw == p.raw {
                                    let j = choose|j: int| 0 <= j < ks.len() && ks[j] == NodeId { raw: k };
                                    assert(j != i);
                                    let j2 = if j < i { j } else { j - 1 };
                                    assert(ks2[j2] == NodeId { raw: k });
                                }
                            },
                            None => {},
                        }
                    }
                }
                assert forall|k: u64| #[trigger] m.nodes.dom().contains(k) implies children_ok(m, k) by {
                    assert(children_ok(t, k));
                    if k == p.raw {
                        assert forall|j: int| 0 <= j < kids(m, k).len() implies m.nodes.dom().contains(
                            #[trigger] kids(m, k)[j].raw,
                        ) && m.nodes[kids(m, k)[j].raw].parent == Some(NodeId { raw: k }) by {
                            let j0 = if j < i { j } else { j + 1 };
                            assert(kids(m, k)[j] == ks[j0]);
                        }
                    } else {
                        assert forall|j: int| 0 <= j < kids(m, k).len() implies m.nodes.dom().contains(
                            #[trigger] kids(m, k)[j].raw,
                        ) && m.nodes[kids(m, k)[j].raw].parent == Some(NodeId { raw: k }) by {
                            assert(kids(t, k)[j] != cid);
                        }
                    }
                }
                lemma_mark_wf(m, p.raw, structure_bits());
            },
        }
    }
}


/// A node's children are distinct nodes of the tree other than `c`, so
/// there are fewer of them than nodes.
proof fn lemma_kids_len(t: TreeView, n: u64, c: u64)
    requires
        tree_wf(t),
        t.nodes.dom().contains(n),
        t.nodes.dom().contains(c),
        !kids(t, n).contains(NodeId { raw: c }),
    ensures
        kids(t, n).len() < t.nodes.dom().len(),
{
    assert(children_ok(t, n));
    let ks = kids(t, n);
    let rs = ks.map_values(|x: NodeId| x.raw);
    assert forall|a: int, b: int| 0 <= a < rs.len() && 0 <= b < rs.len() && a != b implies rs[a] != rs[b] by {
        assert(ks[a] != ks[b]);
    }
    assert(rs.no_duplicates());
    rs.unique_seq_to_set();
    let d = t.nodes.dom().remove(c);
    assert forall|k: u64| rs.to_set().contains(k) implies d.contains(k) by {
        let j = choose|j: int| 0 <= j < rs.len() && rs[j] == k;
        assert(t.nodes.dom().contains(ks[j].raw));
        if k == c {
            assert(ks[j] == NodeId { raw: c });
        }
    }
    vstd::set_lib::lemma_len_subset(rs.to_set(), d);
}

/// Linking a parentless node under another keeps the invariant.
proof fn lemma_link_wf(t: TreeView, p: u64, c: u64, before: Option<NodeId>)
    requires
        tree_wf(t),
        t.nodes.dom().contains(p),
        t.nodes.dom().contains(c),
        p != c,
        t.nodes[c].parent is None,
    ensures
        links_ok(link_view(t, p, c, before)),
        c != t.root.raw ==> tree_wf(link_view(t, p, c, before)),
        link_view(t, p, c, before).nodes.dom() == t.nodes.dom(),
{
    let m = link_view(t, p, c, before);
    let cid = NodeId { raw: c };
    let ks = kids(t, p);
    let pos = insert_pos(ks, before);
    lemma_orphan_not_child(t, c, p);
    assert(0 <= pos <= ks.len()) by {
        match before {
            Some(b) => if ks.contains(b) {
                let i = ks.index_of(b);
            },
            None => {},
        }
    }
    let ks2 = ks.insert(pos, cid);
    assert(kids(m, p) == ks2);
    assert(children_ok(t, p));
    assert forall|k: u64| #[trigger] m.nodes.dom().contains(k) implies parent_ok(m, k) by {
        assert(parent_ok(t, k));
        if k == c {
            assert(ks2[pos] == cid);
        } else {
            match t.nodes[k].parent {
                Some(q) => if q.raw == p {
                    let j = choose|j: int| 0 <= j < ks.len() && ks[j] == NodeId { raw: k };
                    let j2 = if j < pos { j } else { j + 1 };
                    assert(ks2[j2] == NodeId { raw: k });
                },
                None => {},
            }
        }
    }
    assert forall|k: u64| #[trigger] m.nodes.dom().contains(k) implies children_ok(m, k) by {
        assert(children_ok(t, k));
        if k == p {
            assert forall|a: int, b: int| 0 <= a < b < ks2.len() implies ks2[a] != ks2[b] by {
                if a == pos {
                    assert(ks2[b] == ks[b - 1]);
                } else if b == pos {
                    assert(ks2[a] == ks[a]);
                } else {
                    let a0 = if a < pos { a } else { a - 1 };
                    let b0 = if b < pos { b } else { b - 1 };
                    assert(ks2[a] == ks[a0] && ks2[b] == ks[b0]);
                }
            }
            assert forall|j: int| 0 <= j < ks2.len() implies m.nodes.dom().contains(#[trigger] ks2[j].raw)
                && m.nodes[ks2[j].raw].parent == Some(NodeId { raw: k }) by {
                if j != pos {
                    let j0 = if j < pos { j } else { j - 1 };
                    assert(ks2[j] == ks[j0]);
                    assert(ks[j0] != cid);
                }
            }
        } else {
            lemma_orphan_not_child(t, c, k);
            assert forall|j: int| 0 <= j < kids(m, k).len() implies m.nodes.dom().contains(
                #[trigger] kids(m, k)[j].raw,
            ) && m.nodes[kids(m, k)[j].raw].parent == Some(NodeId { raw: k }) by {
                assert(kids(t, k)[j] != cid);
            }
        }
    }
}

/// A node other than `a` whose chain reaches `a` does so through a child
/// of `a`.
proof fn lemma_reaches_down(nodes: Map<u64, NodeView>, m: u64, a: u64, k: nat) -> (c: u64)
    requires
        reaches_in(nodes, m, a, k),
        m != a,
    ensures
        nodes.dom().contains(c),
        nodes[c].parent == Some(NodeId { raw: a }),
        reaches_in(nodes, m, c, (k - 1) as nat),
        k > 0,
    decreases k,
{
    let p = nodes[m].parent->0.raw;
    if p == a {
        m
    } else {
        let c = lemma_reaches_down(nodes, p, a, (k - 1) as nat);
        lemma_reaches_up(nodes, m, p, c, (k - 2) as nat);
        c
    }
}

/// A chain from a node's parent extends to the node.
proof fn lemma_reaches_up(nodes: Map<u64, NodeView>, c: u64, p: u64, a: u64, k: nat)
    requires
        nodes.dom().contains(c),
        nodes[c].parent == Some(NodeId { raw: p }),
        reaches_in(nodes, p, a, k),
    ensures
        reaches_in(nodes, c, a, k + 1),
{
}

/// Chains that stop at `a` only read the parents of other nodes.
proof fn lemma_reaches_same(n0: Map<u64, NodeView>, n1: Map<u64, NodeView>, m: u64, a: u64, k: nat)
    requires
        n0.dom() == n1.dom(),
        forall|x: u64| #[trigger] n0.dom().contains(x) && x != a ==> n0[x].parent == n1[x].parent,
    ensures
        reaches_in(n0, m, a, k) == reaches_in(n1, m, a, k),
    decreases k,
{
    if m == a || k == 0 {
    } else if n0.dom().contains(m) {
        match n0[m].parent {
            Some(p) => lemma_reaches_same(n0, n1, p.raw, a, (k - 1) as nat),
            None => {},
        }
    }
}

/// Every node below `a` that is not yet removed has an ancestor-or-self on
/// the stack, when every child of a removed node is removed or stacked.
proof fn lemma_stacked_ancestor(
    t: TreeView,
    gone: Set<u64>,
    stack: Seq<NodeId>,
    m: u64,
    a: u64,
    k: nat,
)
    requires
        tree_wf(t),
        reaches_in(t.nodes, m, a, k),
        !gone.contains(m),
        gone.contains(a) || stack.contains(NodeId { raw: a }),
        forall|r: u64, j: int|
            #[trigger] gone.contains(r) && 0 <= j < kids(t, r).len() ==> gone.contains(#[trigger] kids(t, r)[j].raw)
                || stack.contains(kids(t, r)[j]),
    ensures
        exists|x: NodeId| #[trigger] stack.contains(x) && in_subtree(t.nodes, m, x.raw),
    decreases k,
{
    if stack.contains(NodeId { raw: a }) {
        assert(in_subtree(t.nodes, m, a));
        assert(stack.contains(NodeId { raw: a }) && in_subtree(t.nodes, m, NodeId { raw: a }.raw));
    } else {
        let c = lemma_reaches_down(t.nodes, m, a, k);
        assert(parent_ok(t, c));
        let ks = kids(t, a);
        let j = choose|j: int| 0 <= j < ks.len() && ks[j] == NodeId { raw: c };
        assert(gone.contains(ks[j].raw) || stack.contains(ks[j]));
        lemma_stacked_ancestor(t, gone, stack, m, c, (k - 1) as nat);
    }
}

/// Removing a subtree from a tree in which its top has no parent keeps
/// the invariant.
proof fn lemma_remove_subtree_wf(t: TreeView, a: u64)
    requires
        tree_wf(t),
        t.nodes.dom().contains(a),
        t.nodes[a].parent is None,
        a != t.root.raw,
    ensures
        tree_wf(TreeView {
            nodes: t.nodes.remove_keys(subtree_set(t, a)),
            text: t.text.remove_keys(subtree_set(t, a)),
            root: t.root,
        }),
{
    let st = subtree_set(t, a);
    let f = TreeView { nodes: t.nodes.remove_keys(st), text: t.text.remove_keys(st), root: t.root };
    assert(f.nodes.dom() =~= t.nodes.dom().difference(st));
    assert(f.text.dom() =~= t.text.dom().difference(st));
    vstd::set_lib::lemma_len_subset(f.nodes.dom(), t.nodes.dom());
    vstd::set_lib::lemma_len_subset(f.text.dom(), t.text.dom());
    assert(!st.contains(t.root.raw)) by {
        if st.contains(t.root.raw) {
            let k = choose|k: nat| reaches_in(t.nodes, t.root.raw, a, k);
        }
    }
    assert forall|n: u64| #[trigger] f.nodes.dom().contains(n) implies parent_ok(f, n) by {
        assert(parent_ok(t, n));
        match t.nodes[n].parent {
            Some(p) => {
                if st.contains(p.raw) {
                    let k = choose|k: nat| reaches_in(t.nodes, p.raw, a, k);
                    lemma_reaches_up(t.nodes, n, p.raw, a, k);
                    assert(in_subtree(t.nodes, n, a));
                }
            },
            None => {},
        }
    }
    assert forall|n: u64| #[trigger] f.nodes.dom().contains(n) implies children_ok(f, n) by {
        assert(children_ok(t, n));
        assert forall|j: int| 0 <= j < kids(f, n).len() implies f.nodes.dom().contains(#[trigger] kids(f, n)[j].raw)
            && f.nodes[kids(f, n)[j].raw].parent == Some(NodeId { raw: n }) by {
            let c = kids(t, n)[j].raw;
            if st.contains(c) {
                let k = choose|k: nat| reaches_in(t.nodes, c, a, k);
                assert(c != a);
                assert(reaches_in(t.nodes, n, a, (k - 1) as nat));
                assert(in_subtree(t.nodes, n, a));
            }
        }
    }
    assert forall|n: u64| #[trigger] f.text.dom().contains(n) implies f.nodes.dom().contains(n) by {
        assert(t.text.dom().contains(n));
    }
}

/// Whether two strings are equal, character by character.
pub(crate) fn str_equal(a: &str, b: &str) -> (r: bool)
    ensures
        r == (a@ == b@),
{
    let n = a.unicode_len();
    if n != b.unicode_len() {
        return false;
    }
    let mut i: usize = 0;
    while i < n
        invariant
            n == a@.len(),
            n == b@.len(),
            i <= n,
            forall|j: int| 0 <= j < i ==> a@[j] == b@[j],
        decreases n - i,
    {
        if a.get_char(i) != b.get_char(i) {
            return false;
        }
        i = i + 1;
    }
    assert(a@ =~= b@);
    true
}


/// A child appended to a parent ends up as its parent's last child, with
/// that parent, and in no other node's children: appending moves a node
/// out of its old parent.
pub proof fn lemma_append_child_links(t: TreeView, p: u64, c: u64)
    requires
        tree_wf(t),
        t.nodes.dom().contains(p),
        t.nodes.dom().contains(c),
        p != c,
        c != t.root.raw,
    ensures
        ({
            let t2 = attach_view(detach_view(t, c), p, c, None);
            &&& tree_wf(t2)
            &&& t2.nodes[c].parent == Some(NodeId { raw: p })
            &&& kids(t2, p).len() > 0
            &&& kids(t2, p).last() == NodeId { raw: c }
            &&& forall|q: u64| #[trigger] t2.nodes.dom().contains(q) && q != p ==> !kids(t2, q).contains(NodeId { raw: c })
        }),
{
    let t1 = detach_view(t, c);
    lemma_detach_wf(t, c);
    lemma_link_wf(t1, p, c, None);
    let lv = link_view(t1, p, c, None);
    lemma_mark_wf(lv, p, structure_bits());
    let t2 = attach_view(t1, p, c, None);
    let ks = kids(t1, p);
    assert(kids(lv, p) == ks.insert(ks.len() as int, NodeId { raw: c }));
    assert(kids(t2, p).last() == NodeId { raw: c });
    assert forall|q: u64| #[trigger] t2.nodes.dom().contains(q) && q != p implies !kids(t2, q).contains(NodeId { raw: c }) by {
        lemma_orphan_not_child(t1, c, q);
        if q == c {
            assert(kids(t2, c) == kids(t1, c));
        } else {
            assert(kids(t2, q) == kids(t1, q));
        }
    }
}

/// Inserting `c` under `p`, the root too: `c` names `p` as its parent;
/// `p`'s children are its other children, in their order, with `c` right
/// before `before` where that is one of them, else last; no other node
/// lists `c`; and parent and child links agree, the tree staying a tree
/// where `c` is not the root.
pub proof fn lemma_insert_child_placement(t: TreeView, p: u64, c: u64, before: Option<NodeId>)
    requires
        tree_wf(t),
        t.nodes.dom().contains(p),
        t.nodes.dom().contains(c),
        p != c,
    ensures
        ({
            let t2 = attach_view(detach_view(t, c), p, c, before);
            let others = without_child(kids(t, p), NodeId { raw: c });
            &&& links_ok(t2)
            &&& (c != t.root.raw ==> tree_wf(t2))
            &&& t2.nodes[c].parent == Some(NodeId { raw: p })
            &&& kids(t2, p) == others.insert(insert_pos(others, before), NodeId { raw: c })
            &&& forall|q: u64| #[trigger] t2.nodes.dom().contains(q) && q != p ==> !kids(t2, q).contains(NodeId { raw: c })
            &&& t2.nodes.dom() == t.nodes.dom()
            &&& t2.root == t.root
        }),
{
    let cid = NodeId { raw: c };
    let t1 = detach_view(t, c);
    lemma_detach_wf(t, c);
    let others = without_child(kids(t, p), cid);
    assert(kids(t1, p) == others) by {
        assert(children_ok(t, p));
        if kids(t, p).contains(cid) {
            let i = choose|i: int| 0 <= i < kids(t, p).len() && kids(t, p)[i] == cid;
            assert(t.nodes.dom().contains(kids(t, p)[i].raw));
            assert(t.nodes[c].parent == Some(NodeId { raw: p }));
        } else {
            assert(others == kids(t, p));
            if c != t.root.raw {
                match t.nodes[c].parent {
                    Some(q) => {
                        assert(q.raw != p);
                    },
                    None => {},
                }
            }
        }
    }
    lemma_link_wf(t1, p, c, before);
    let lv = link_view(t1, p, c, before);
    lemma_mark_links(lv, p, structure_bits());
    if c != t.root.raw {
        lemma_mark_wf(lv, p, structure_bits());
    }
    let t2 = attach_view(t1, p, c, before);
    assert(kids(t2, p) == kids(lv, p));
    assert forall|q: u64| #[trigger] t2.nodes.dom().contains(q) && q != p implies !kids(t2, q).contains(cid) by {
        lemma_orphan_not_child(t1, c, q);
        if q == c {
            assert(kids(t2, c) == kids(t1, c));
        } else {
            assert(kids(t2, q) == kids(t1, q));
        }
    }
}

/// A child inserted before a child `b` of the parent ends up right before
/// `b`, with that parent.
pub proof fn lemma_insert_before_links(t: TreeView, p: u64, c: u64, b: NodeId)
    requires
        tree_wf(t),
        t.nodes.dom().contains(p),
        t.nodes.dom().contains(c),
        p != c,
        c != t.root.raw,
        b.raw != c,
        kids(t, p).contains(b),
    ensures
        ({
            let t2 = attach_view(detach_view(t, c), p, c, Some(b));
            &&& tree_wf(t2)
            &&& t2.nodes[c].parent == Some(NodeId { raw: p })
            &&& exists|i: int| 0 <= i && i + 1 < kids(t2, p).len() && kids(t2, p)[i] == NodeId { raw: c }
                && #[trigger] kids(t2, p)[i + 1] == b
        }),
{
    let t1 = detach_view(t, c);
    lemma_detach_wf(t, c);
    lemma_link_wf(t1, p, c, Some(b));
    let lv = link_view(t1, p, c, Some(b));
    lemma_mark_wf(lv, p, structure_bits());
    let t2 = attach_view(t1, p, c, Some(b));
    let ks0 = kids(t, p);
    let ks = kids(t1, p);
    assert(ks.contains(b)) by {
        let j = choose|j: int| 0 <= j < ks0.len() && ks0[j] == b;
        match t.nodes[c].parent {
            Some(q) => {
                if q.raw == p {
                    if ks0.contains(NodeId { raw: c }) {
                        let i = ks0.index_of(NodeId { raw: c });
                        assert(ks == ks0.remove(i));
                        if j < i {
                            assert(ks[j] == b);
                        } else {
                            assert(j != i);
                            assert(ks[j - 1] == b);
                        }
                    } else {
                        assert(ks == ks0);
                    }
                } else {
                    assert(ks == ks0);
                }
            },
            None => {
                assert(ks == ks0);
            },
        }
    }
    let pos = ks.index_of(b);
    assert(0 <= pos < ks.len() && ks[pos] == b);
    let nk = ks.insert(pos, NodeId { raw: c });
    assert(kids(t2, p) == nk);
    assert(nk[pos] == NodeId { raw: c });
    assert(nk[pos + 1] == b);
}


/// Once one of the first `j` siblings has a stale subtree, the whole list
/// has.
proof fn lemma_render_dirty_prefix(t: TreeView, ks: Seq<NodeId>, j: int, fuel: nat)
    requires
        0 <= j <= ks.len(),
        render_dirty_list(t, ks.take(j), fuel),
    ensures
        render_dirty_list(t, ks, fuel),
    decreases ks.len() - j,
{
    if j < ks.len() {
        let tk = ks.take(j + 1);
        assert(tk.drop_last() =~= ks.take(j));
        lemma_render_dirty_prefix(t, ks, j + 1, fuel);
    } else {
        assert(ks.take(j) =~= ks);
    }
}


impl Default for UiTree {
    /// A tree holding only the root node.
    fn default() -> (r: Self)
        ensures
            r.wf(),
            r@.nodes.dom() == set![r@.root.raw],
            r@.nodes[r@.root.raw].tag == UiNodeTag::Root,
            r@.nodes[r@.root.raw].parent is None,
            r@.nodes[r@.root.raw].children.len() == 0,
            r@.nodes[r@.root.raw].dirty.bits == 0xff,
            r@.text.dom().is_empty(),
    {
        UiTree::new()
    }
}


/// A slot-keyed text table stays slot-keyed when entries leave it.
proof fn lemma_slot_keyed_text(m: Map<u64, TextContent>, m2: Map<u64, TextContent>)
    requires
        slot_keyed(m),
        m2.dom().subset_of(m.dom()),
    ensures
        slot_keyed(m2),
{
    vstd::set_lib::lemma_set_subset_finite(m.dom(), m2.dom());
}

} // verus!
