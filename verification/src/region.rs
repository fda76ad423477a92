//! Regions: runs of sibling nodes that mounted content owns, and the tree
//! work done when content is mounted again or taken away.
use vstd::prelude::*;
use std::collections::HashMap;

use crate::node::{new_node_view, slot_version, NodeId, UiNodeTag};
use crate::slots::{bumped, key_slot};
use crate::reactive::{both, dispose_view, lemma_filter_no_dup, lemma_filter_twice, OwnerId, ReactiveGraph};
use crate::ui_tree::{attach_view, children_ok, reaches_in, subtree_set, unlink_view, detach_view, insert_pos, kids, lemma_insert_child_placement, prune_view, str_equal, tree_wf, without_child, TreeView, UiTree};

verus! {

/// The nodes a piece of dynamic content put under `parent`, and the owner
/// of the effects it made.
pub struct RegionState {
    pub parent: Option<NodeId>,
    pub nodes: Vec<NodeId>,
    pub owner: Option<OwnerId>,
}

impl RegionState {
    /// An empty region under `parent`, with no owner yet.
    pub fn new(parent: NodeId) -> (r: Self)
        ensures
            r.parent == Some(parent),
            r.nodes@ == Seq::<NodeId>::empty(),
            r.owner is None,
    {
        RegionState { parent: Some(parent), nodes: Vec::new(), owner: None }
    }
}

impl Default for RegionState {
    /// An empty region under no parent.
    fn default() -> (r: Self)
        ensures
            r.parent is None,
            r.nodes@ == Seq::<NodeId>::empty(),
            r.owner is None,
    {
        RegionState { parent: None, nodes: Vec::new(), owner: None }
    }
}

/// The nodes that mounted content put under `parent`.
pub struct MountedRegion {
    pub parent: NodeId,
    pub nodes: Vec<NodeId>,
}

impl MountedRegion {
    /// An empty region under `parent`.
    pub fn new(parent: NodeId) -> (r: Self)
        ensures
            r.parent == parent,
            r.nodes@ == Seq::<NodeId>::empty(),
    {
        MountedRegion { parent, nodes: Vec::new() }
    }
}

/// The regions of a keyed list: one per row key, and one for the content
/// shown while the list is empty.
pub struct ForEachState {
    pub rows: HashMap<String, RegionState>,
    pub empty: Option<RegionState>,
}

impl ForEachState {
    /// No rows and no empty-list region.
    pub fn new() -> (r: Self)
        ensures
            r.rows@ == Map::<String, RegionState>::empty(),
            r.empty is None,
    {
        ForEachState { rows: HashMap::new(), empty: None }
    }
}

/// `insert_child_before` on a tree: `c` goes under `p`, before `before`
/// where that is a child of `p`, where both are in the tree and differ.
pub open spec fn insert_view(t: TreeView, p: u64, c: u64, before: Option<NodeId>) -> TreeView {
    if t.nodes.dom().contains(p) && t.nodes.dom().contains(c) && p != c {
        attach_view(detach_view(t, c), p, c, before)
    } else {
        t
    }
}

/// `remove_subtree` on each of `ids` in order.
pub open spec fn prune_all(t: TreeView, ids: Seq<NodeId>) -> TreeView
    decreases ids.len(),
{
    if ids.len() == 0 {
        t
    } else {
        prune_view(prune_all(t, ids.drop_last()), ids.last().raw)
    }
}

/// `remove_subtree` on each of `ids` in order that is, when its turn
/// comes, in the tree as a child of `p`.
pub open spec fn prune_children_of(t: TreeView, p: NodeId, ids: Seq<NodeId>) -> TreeView
    decreases ids.len(),
{
    if ids.len() == 0 {
        t
    } else {
        let t1 = prune_children_of(t, p, ids.drop_last());
        let c = ids.last().raw;
        if t1.nodes.dom().contains(c) && t1.nodes[c].parent == Some(p) {
            prune_view(t1, c)
        } else {
            t1
        }
    }
}

/// Each of `ids` in order made the last child of `p`.
pub open spec fn append_all(t: TreeView, p: u64, ids: Seq<NodeId>) -> TreeView
    decreases ids.len(),
{
    if ids.len() == 0 {
        t
    } else {
        insert_view(append_all(t, p, ids.drop_last()), p, ids.last().raw, None)
    }
}

/// A disposal takes nodes away and adds none.
proof fn lemma_prune_shrinks(t: TreeView, id: u64)
    ensures
        prune_view(t, id).nodes.dom().subset_of(t.nodes.dom()),
        prune_view(t, id).root == t.root,
{
    if id == t.root.raw || !t.nodes.dom().contains(id) {
    } else {
        match t.nodes[id].parent {
            Some(p) => {
                assert(detach_view(t, id).nodes.dom() =~= t.nodes.dom());
            },
            None => {},
        }
    }
}

/// Taking away a subtree removes its top node, adds none, and leaves every
/// node that stays with the parent it had.
proof fn lemma_prune_keeps_parents(t: TreeView, x: u64)
    ensures
        prune_view(t, x).nodes.dom().subset_of(t.nodes.dom()),
        prune_view(t, x).root == t.root,
        forall|m: u64| #[trigger] prune_view(t, x).nodes.dom().contains(m) ==> prune_view(t, x).nodes[m].parent
            == t.nodes[m].parent,
        t.nodes.dom().contains(x) && x != t.root.raw ==> !prune_view(t, x).nodes.dom().contains(x),
{
    if x != t.root.raw && t.nodes.dom().contains(x) {
        let gone = subtree_set(t, x);
        assert(gone.contains(x)) by {
            assert(reaches_in(t.nodes, x, x, 0));
        }
        let d = detach_view(t, x);
        assert forall|m: u64| #[trigger] d.nodes.dom().contains(m) && m != x implies d.nodes[m].parent == t.nodes[m].parent
            && t.nodes.dom().contains(m) by {
            match t.nodes[x].parent {
                Some(q) => {
                    let u = unlink_view(t, x, q.raw);
                    assert(u.nodes[m].parent == t.nodes[m].parent);
                },
                None => {},
            }
        }
        assert(d.nodes.dom() =~= t.nodes.dom()) by {
            match t.nodes[x].parent {
                Some(q) => {
                    assert(unlink_view(t, x, q.raw).nodes.dom() =~= t.nodes.dom());
                },
                None => {},
            }
        }
    }
}

/// Taking away the stale children `ids` of `p`: afterwards none of `ids`
/// is a child of `p`, each of them that was a child of `p` is gone from
/// the tree, no node is added, and every node that stays keeps its parent.
pub proof fn lemma_stale_children_gone(t: TreeView, p: NodeId, ids: Seq<NodeId>)
    requires
        t.nodes[t.root.raw].parent is None,
    ensures
        ({
            let f = prune_children_of(t, p, ids);
            &&& f.nodes.dom().subset_of(t.nodes.dom())
            &&& f.root == t.root
            &&& forall|m: u64| #[trigger] f.nodes.dom().contains(m) ==> f.nodes[m].parent == t.nodes[m].parent
            &&& forall|j: int| 0 <= j < ids.len() ==> !(f.nodes.dom().contains(#[trigger] ids[j].raw)
                && f.nodes[ids[j].raw].parent == Some(p))
            &&& forall|j: int| 0 <= j < ids.len() && t.nodes.dom().contains(#[trigger] ids[j].raw) && t.nodes[ids[j].raw].parent
                == Some(p) ==> !f.nodes.dom().contains(ids[j].raw)
        }),
    decreases ids.len(),
{
    if ids.len() > 0 {
        let pre = ids.drop_last();
        lemma_stale_children_gone(t, p, pre);
        let t1 = prune_children_of(t, p, pre);
        let c = ids.last().raw;
        let f = prune_children_of(t, p, ids);
        lemma_prune_keeps_parents(t1, c);
        let is_child = t1.nodes.dom().contains(c) && t1.nodes[c].parent == Some(p);
        if is_child {
            assert(c != t1.root.raw) by {
                if c == t1.root.raw {
                    assert(t1.nodes[c].parent == t.nodes[t.root.raw].parent);
                }
            }
        }
        assert forall|m: u64| #[trigger] f.nodes.dom().contains(m) implies f.nodes[m].parent == t.nodes[m].parent by {
            assert(t1.nodes.dom().contains(m));
        }
        assert forall|j: int| 0 <= j < ids.len() implies !(f.nodes.dom().contains(#[trigger] ids[j].raw)
            && f.nodes[ids[j].raw].parent == Some(p)) by {
            if j < pre.len() {
                assert(pre[j] == ids[j]);
                if f.nodes.dom().contains(ids[j].raw) {
                    assert(t1.nodes.dom().contains(ids[j].raw));
                }
            }
        }
        assert forall|j: int| 0 <= j < ids.len() && t.nodes.dom().contains(#[trigger] ids[j].raw) && t.nodes[ids[j].raw].parent
            == Some(p) implies !f.nodes.dom().contains(ids[j].raw) by {
            if j < pre.len() {
                assert(pre[j] == ids[j]);
            } else {
                if t1.nodes.dom().contains(c) {
                    assert(t1.nodes[c].parent == t.nodes[c].parent);
                }
            }
        }
    }
}

/// Keeps `existing` where it is a node of `tag`; otherwise takes it, if
/// any, out of the tree with its subtree, and makes a new node of `tag`
/// under `parent`, before `before`.
pub fn reuse_or_create(
    tree: &mut UiTree,
    parent: NodeId,
    existing: Option<NodeId>,
    before: Option<NodeId>,
    tag: UiNodeTag,
) -> (r: NodeId)
    requires
        old(tree).wf(),
        old(tree)@.nodes.dom().len() < 0xffff_fffe,
    ensures
        final(tree).wf(),
        match existing {
            Some(e) => old(tree)@.nodes.dom().contains(e.raw) && old(tree)@.nodes[e.raw].tag == tag,
            None => false,
        } ==> r == existing->0 && final(tree)@ == old(tree)@,
        !match existing {
            Some(e) => old(tree)@.nodes.dom().contains(e.raw) && old(tree)@.nodes[e.raw].tag == tag,
            None => false,
        } ==> {
            let t1 = match existing {
                Some(e) => prune_view(old(tree)@, e.raw),
                None => old(tree)@,
            };
            &&& !t1.nodes.dom().contains(r.raw)
            &&& final(tree)@ == insert_view(
                TreeView { nodes: t1.nodes.insert(r.raw, new_node_view(tag)), ..t1 },
                parent.raw,
                r.raw,
                before,
            )
        },
        match existing {
            Some(e) => old(tree)@.nodes.dom().contains(e.raw) && old(tree)@.nodes[e.raw].tag != tag ==> {
                &&& r != e
                &&& (e != old(tree)@.root ==> !final(tree)@.nodes.dom().contains(e.raw))
            },
            None => true,
        },
{
    let ghost t0 = tree@;
    match existing {
        Some(e) => {
            match tree.node(e) {
                Some(n) => {
                    if n.tag == tag {
                        return e;
                    }
                },
                None => {},
            }
            let _ = tree.remove_subtree(e);
            proof {
                lemma_prune_shrinks(t0, e.raw);
                vstd::set_lib::lemma_len_subset(tree@.nodes.dom(), t0.nodes.dom());
            }
        },
        None => {},
    }
    let ghost t1 = tree@;
    let ghost v1 = tree.slot_versions();
    let node = tree.create_node(tag);
    let ghost t2 = tree@;
    proof {
        assert(t2 == TreeView { nodes: t1.nodes.insert(node.raw, new_node_view(tag)), ..t1 });
        assert(node != t2.root);
        match existing {
            Some(e) => if t0.nodes.dom().contains(e.raw) && t0.nodes[e.raw].tag != tag {
                if e == t0.root {
                    assert(t1.nodes.dom().contains(e.raw));
                } else if key_slot(node.raw) == key_slot(e.raw) {
                    assert(slot_version(node.raw) == bumped(e.raw) + 1);
                    assert(slot_version(node.raw) != slot_version(e.raw));
                }
            },
            None => {},
        }
    }
    tree.insert_child_before(parent, node, before);
    proof {
        match existing {
            Some(e) => if t0.nodes.dom().contains(e.raw) && t0.nodes[e.raw].tag != tag && e != t0.root {
                assert(!t1.nodes.dom().contains(e.raw));
                assert(!t2.nodes.dom().contains(e.raw));
            },
            None => {},
        }
    }
    node
}

/// The node to insert before at `index` of a list of children being
/// rebuilt: the next old child, where it is still a child of `parent`.
pub fn sibling_anchor(tree: &UiTree, parent: NodeId, old_children: &Vec<NodeId>, index: usize) -> (r: Option<NodeId>)
    requires
        tree.wf(),
    ensures
        r == (if index + 1 < old_children@.len() && tree@.nodes.dom().contains(old_children@[index + 1].raw)
            && tree@.nodes[old_children@[index + 1].raw].parent == Some(parent) {
            Some(old_children@[index + 1])
        } else {
            None
        }),
{
    if old_children.len() == 0 || index >= old_children.len() - 1 {
        return None;
    }
    let next = old_children[index + 1];
    match tree.node(next) {
        Some(n) => {
            if n.parent == Some(parent) {
                Some(next)
            } else {
                None
            }
        },
        None => None,
    }
}

/// The old children from index `keep` on that are still children of
/// `parent` leave the tree with their subtrees, in order.
pub fn remove_stale_children(tree: &mut UiTree, parent: NodeId, old_children: &Vec<NodeId>, keep: usize)
    requires
        old(tree).wf(),
    ensures
        final(tree).wf(),
        final(tree)@ == prune_children_of(
            old(tree)@,
            parent,
            if keep < old_children@.len() { old_children@.subrange(keep as int, old_children@.len() as int) } else { Seq::empty() },
        ),
        forall|i: int| keep <= i < old_children@.len() ==> !(final(tree)@.nodes.dom().contains(#[trigger] old_children@[i].raw)
            && final(tree)@.nodes[old_children@[i].raw].parent == Some(parent)),
        forall|i: int| keep <= i < old_children@.len() && old(tree)@.nodes.dom().contains(#[trigger] old_children@[i].raw)
            && old(tree)@.nodes[old_children@[i].raw].parent == Some(parent) ==> !final(tree)@.nodes.dom().contains(
            old_children@[i].raw,
        ),
{
    let ghost t0 = tree@;
    if keep >= old_children.len() {
        return;
    }
    let ghost ids = old_children@.subrange(keep as int, old_children@.len() as int);
    let mut i: usize = keep;
    proof {
        assert(ids.subrange(0, 0) =~= Seq::<NodeId>::empty());
    }
    while i < old_children.len()
        invariant
            keep <= i <= old_children@.len(),
            ids == old_children@.subrange(keep as int, old_children@.len() as int),
            tree.wf(),
            tree@ == prune_children_of(t0, parent, ids.subrange(0, i - keep)),
        decreases old_children@.len() - i,
    {
        let c = old_children[i];
        proof {
            assert(ids.subrange(0, i + 1 - keep).drop_last() =~= ids.subrange(0, i - keep));
            assert(ids.subrange(0, i + 1 - keep).last() == c);
        }
        let is_child = match tree.node(c) {
            Some(n) => n.parent == Some(parent),
            None => false,
        };
        if is_child {
            let _ = tree.remove_subtree(c);
        }
        i = i + 1;
    }
    proof {
        assert(ids.subrange(0, i - keep) =~= ids);
        lemma_stale_children_gone(t0, parent, ids);
        assert forall|k: int| keep <= k < old_children@.len() implies !(tree@.nodes.dom().contains(#[trigger] old_children@[k].raw)
            && tree@.nodes[old_children@[k].raw].parent == Some(parent)) by {
            assert(ids[k - keep] == old_children@[k]);
        }
        assert forall|k: int| keep <= k < old_children@.len() && t0.nodes.dom().contains(#[trigger] old_children@[k].raw)
            && t0.nodes[old_children@[k].raw].parent == Some(parent) implies !tree@.nodes.dom().contains(old_children@[k].raw) by {
            assert(ids[k - keep] == old_children@[k]);
        }
    }
}

/// Takes a region away: its owner, if any, is disposed, and each of its
/// nodes leaves the tree with its subtree.
pub fn dispose_region(tree: &mut UiTree, graph: &mut ReactiveGraph, region: &mut RegionState)
    requires
        old(tree).wf(),
        old(graph).wf(),
    ensures
        final(tree).wf(),
        final(graph).wf(),
        final(graph)@ == match old(region).owner {
            Some(o) => dispose_view(old(graph)@, o.raw),
            None => old(graph)@,
        },
        final(tree)@ == prune_all(old(tree)@, old(region).nodes@),
        final(region).owner is None,
        final(region).nodes@ == Seq::<NodeId>::empty(),
        final(region).parent == old(region).parent,
{
    match region.owner {
        Some(o) => {
            graph.dispose_owner(o);
        },
        None => {},
    }
    region.owner = None;
    let mut nodes: Vec<NodeId> = Vec::new();
    std::mem::swap(&mut nodes, &mut region.nodes);
    let ghost t0 = tree@;
    let mut i: usize = 0;
    proof {
        assert(nodes@.subrange(0, 0) =~= Seq::<NodeId>::empty());
    }
    while i < nodes.len()
        invariant
            i <= nodes@.len(),
            tree.wf(),
            tree@ == prune_all(t0, nodes@.subrange(0, i as int)),
        decreases nodes@.len() - i,
    {
        proof {
            assert(nodes@.subrange(0, i + 1).drop_last() =~= nodes@.subrange(0, i as int));
        }
        let _ = tree.remove_subtree(nodes[i]);
        i = i + 1;
    }
    proof {
        assert(nodes@.subrange(0, i as int) =~= nodes@);
    }
}

/// Makes each of `ordered`, in order, the last child of `parent`: the
/// rows of a keyed list end up in list order.
pub fn reorder_nodes(tree: &mut UiTree, parent: NodeId, ordered: &Vec<NodeId>)
    requires
        old(tree).wf(),
        forall|i: int| 0 <= i < ordered@.len() ==> #[trigger] ordered@[i] != old(tree)@.root,
    ensures
        final(tree).wf(),
        final(tree)@ == append_all(old(tree)@, parent.raw, ordered@),
{
    let ghost t0 = tree@;
    let mut i: usize = 0;
    proof {
        assert(ordered@.subrange(0, 0) =~= Seq::<NodeId>::empty());
    }
    while i < ordered.len()
        invariant
            i <= ordered@.len(),
            tree.wf(),
            tree@.root == t0.root,
            forall|j: int| 0 <= j < ordered@.len() ==> #[trigger] ordered@[j] != t0.root,
            tree@ == append_all(t0, parent.raw, ordered@.subrange(0, i as int)),
        decreases ordered@.len() - i,
    {
        proof {
            assert(ordered@.subrange(0, i + 1).drop_last() =~= ordered@.subrange(0, i as int));
            assert(ordered@[i as int] != t0.root);
        }
        tree.insert_child_before(parent, ordered[i], None);
        i = i + 1;
    }
    proof {
        assert(ordered@.subrange(0, i as int) =~= ordered@);
    }
}

/// The keys of strings, as character sequences.
pub open spec fn key_views(s: Seq<String>) -> Seq<Seq<char>> {
    s.map_values(|x: String| x@)
}

/// The keys of the rows a keyed list shows, in list order: the items that
/// are not the empty-list content.
pub open spec fn row_keys(items: Seq<(String, bool)>) -> Seq<Seq<char>>
    decreases items.len(),
{
    if items.len() == 0 {
        Seq::empty()
    } else {
        let rest = row_keys(items.drop_last());
        if items.last().1 {
            rest
        } else {
            rest.push(items.last().0@)
        }
    }
}

/// The predicate "is not one of `ks`".
pub open spec fn absent_from(ks: Seq<Seq<char>>) -> spec_fn(Seq<char>) -> bool {
    |k: Seq<char>| !ks.contains(k)
}

/// The keys of `ks` that `old` lacks, each once, in order of first
/// occurrence.
pub open spec fn fresh_keys(ks: Seq<Seq<char>>, old: Seq<Seq<char>>) -> Seq<Seq<char>>
    decreases ks.len(),
{
    if ks.len() == 0 {
        Seq::empty()
    } else {
        let rest = fresh_keys(ks.drop_last(), old);
        let k = ks.last();
        if old.contains(k) || rest.contains(k) {
            rest
        } else {
            rest.push(k)
        }
    }
}

/// Whether some item is the empty-list content.
pub open spec fn any_empty(items: Seq<(String, bool)>) -> bool {
    exists|i: int| 0 <= i < items.len() && #[trigger] items[i].1
}

/// What becomes of the region of the content shown while a list is empty.
#[derive(Debug, Clone, Copy, PartialEq, Eq, Structural)]
pub enum EmptyPlan {
    /// It is wanted and there: it stays.
    Keep,
    /// It is wanted and not there: it is made.
    Create,
    /// It is there and not wanted: it is disposed of.
    Dispose,
    /// It is neither wanted nor there.
    Absent,
}

/// The plan for the empty-list region, from whether it is wanted and
/// whether it is there.
pub open spec fn empty_plan(wanted: bool, present: bool) -> EmptyPlan {
    if wanted {
        if present { EmptyPlan::Keep } else { EmptyPlan::Create }
    } else {
        if present { EmptyPlan::Dispose } else { EmptyPlan::Absent }
    }
}

/// What a keyed list does when its items change: the rows to dispose of,
/// the rows to make, the order of the rows, and the empty-list region.
pub struct ForEachPlan {
    pub dispose: Vec<String>,
    pub create: Vec<String>,
    pub order: Vec<String>,
    pub empty: EmptyPlan,
}

/// Whether `k` is one of `v`.
fn has_key(v: &Vec<String>, k: &String) -> (r: bool)
    ensures
        r == key_views(v@).contains(k@),
{
    let mut i: usize = 0;
    while i < v.len()
        invariant
            i <= v@.len(),
            forall|j: int| 0 <= j < i ==> v@[j]@ != k@,
        decreases v@.len() - i,
    {
        if str_equal(v[i].as_str(), k.as_str()) {
            proof {
                assert(key_views(v@)[i as int] == k@);
            }
            return true;
        }
        i = i + 1;
    }
    proof {
        if key_views(v@).contains(k@) {
            let j = choose|j: int| 0 <= j < key_views(v@).len() && key_views(v@)[j] == k@;
            assert(v@[j]@ == k@);
        }
    }
    false
}

/// `old_rows` are the keys of the rows a keyed list shows, `items` its new
/// items, each with its key and whether it is the empty-list content, and
/// `has_empty` whether the empty-list region is there. The rows whose key
/// no row item has are disposed of, in the order of `old_rows`; a row is
/// made for each new key, once, in order of first occurrence; the rows
/// are ordered as the row items are; and the empty-list region is wanted
/// where some item is the empty-list content.
pub fn plan_for_each(old_rows: &Vec<String>, items: &Vec<(String, bool)>, has_empty: bool) -> (p: ForEachPlan)
    ensures
        key_views(p.order@) == row_keys(items@),
        key_views(p.dispose@) == key_views(old_rows@).filter(absent_from(row_keys(items@))),
        key_views(p.create@) == fresh_keys(row_keys(items@), key_views(old_rows@)),
        p.empty == empty_plan(any_empty(items@), has_empty),
{
    let mut order: Vec<String> = Vec::new();
    let mut create: Vec<String> = Vec::new();
    let mut wanted = false;
    let mut i: usize = 0;
    while i < items.len()
        invariant
            i <= items@.len(),
            key_views(order@) == row_keys(items@.subrange(0, i as int)),
            key_views(create@) == fresh_keys(row_keys(items@.subrange(0, i as int)), key_views(old_rows@)),
            wanted == exists|j: int| 0 <= j < i && #[trigger] items@[j].1,
        decreases items@.len() - i,
    {
        let ghost pre = items@.subrange(0, i as int);
        proof {
            assert(items@.subrange(0, i + 1).drop_last() =~= pre);
            assert(items@.subrange(0, i + 1).last() == items@[i as int]);
        }
        let is_empty = items[i].1;
        if is_empty {
            wanted = true;
            proof {
                assert(row_keys(items@.subrange(0, i + 1)) == row_keys(pre));
            }
        } else {
            let key = items[i].0.clone();
            let fresh = !has_key(old_rows, &key) && !has_key(&create, &key);
            proof {
                let post = items@.subrange(0, i + 1);
                assert(row_keys(post) == row_keys(pre).push(key@));
                assert(row_keys(post).drop_last() =~= row_keys(pre));
                assert(row_keys(post).last() == key@);
            }
            let ghost before = order@;
            order.push(key.clone());
            proof {
                assert(key_views(order@) =~= key_views(before).push(key@));
            }
            if fresh {
                let ghost before_c = create@;
                create.push(key);
                proof {
                    assert(key_views(create@) =~= key_views(before_c).push(items@[i as int].0@));
                }
            }
        }
        i = i + 1;
    }
    proof {
        assert(items@.subrange(0, i as int) =~= items@);
    }
    let mut dispose: Vec<String> = Vec::new();
    let mut j: usize = 0;
    while j < old_rows.len()
        invariant
            j <= old_rows@.len(),
            key_views(order@) == row_keys(items@),
            key_views(dispose@) == key_views(old_rows@.subrange(0, j as int)).filter(absent_from(row_keys(items@))),
        decreases old_rows@.len() - j,
    {
        proof {
            assert(key_views(old_rows@.subrange(0, j + 1)) =~= key_views(old_rows@.subrange(0, j as int)).push(
                old_rows@[j as int]@,
            ));
            key_views(old_rows@.subrange(0, j as int)).lemma_filter_push(old_rows@[j as int]@, absent_from(row_keys(items@)));
        }
        if !has_key(&order, &old_rows[j]) {
            let ghost before = dispose@;
            dispose.push(old_rows[j].clone());
            proof {
                assert(key_views(dispose@) =~= key_views(before).push(old_rows@[j as int]@));
            }
        }
        j = j + 1;
    }
    proof {
        assert(old_rows@.subrange(0, j as int) =~= old_rows@);
    }
    let empty = if wanted {
        if has_empty { EmptyPlan::Keep } else { EmptyPlan::Create }
    } else {
        if has_empty { EmptyPlan::Dispose } else { EmptyPlan::Absent }
    };
    ForEachPlan { dispose, create, order, empty }
}

/// The predicate "is not one of `o`".
pub open spec fn not_among(o: Seq<NodeId>) -> spec_fn(NodeId) -> bool {
    |x: NodeId| !o.contains(x)
}

/// The predicate "is not `c`".
pub open spec fn not_node(c: NodeId) -> spec_fn(NodeId) -> bool {
    |x: NodeId| x != c
}

/// A filter that keeps every element changes nothing.
proof fn lemma_filter_keeps(s: Seq<NodeId>, f: spec_fn(NodeId) -> bool)
    requires
        forall|i: int| 0 <= i < s.len() ==> f(#[trigger] s[i]),
    ensures
        s.filter(f) == s,
    decreases s.len(),
{
    if s.len() == 0 {
        reveal(Seq::filter);
    } else {
        let t = s.drop_last();
        assert forall|i: int| 0 <= i < t.len() implies f(#[trigger] t[i]) by {
            assert(t[i] == s[i]);
        }
        lemma_filter_keeps(t, f);
        t.lemma_filter_push(s.last(), f);
        assert(s =~= t.push(s.last()));
        assert(f(s[s.len() - 1]));
    }
}

/// Leaving out a `c` that is the last element of a list without repeats.
proof fn lemma_without_last(t: Seq<NodeId>, c: NodeId)
    requires
        t.push(c).no_duplicates(),
    ensures
        without_child(t.push(c), c) == t,
        !t.contains(c),
{
    let s = t.push(c);
    assert(!t.contains(c)) by {
        if t.contains(c) {
            let i = choose|i: int| 0 <= i < t.len() && t[i] == c;
            assert(s[i] == s[t.len() as int]);
        }
    }
    assert(s[t.len() as int] == c);
    assert(s.contains(c));
    let k = s.index_of(c);
    assert(s[k] == c);
    assert(k == t.len());
    assert(s.remove(k) =~= t);
}

/// Leaving out `c` from a list without repeats that ends in another
/// element.
proof fn lemma_without_push_other(t: Seq<NodeId>, y: NodeId, c: NodeId)
    requires
        y != c,
        t.push(y).no_duplicates(),
    ensures
        without_child(t.push(y), c) == without_child(t, c).push(y),
{
    let s = t.push(y);
    if t.contains(c) {
        let k = t.index_of(c);
        assert(s[k] == c);
        let k2 = s.index_of(c);
        assert(s[k2] == c);
        assert(k2 == k);
        assert(s.remove(k) =~= t.remove(k).push(y));
    } else {
        assert(!s.contains(c)) by {
            if s.contains(c) {
                let i = choose|i: int| 0 <= i < s.len() && s[i] == c;
                assert(t[i] == c);
            }
        }
    }
}

/// In a list without repeats, leaving out the first `c` leaves out every
/// `c`.
#[verifier::spinoff_prover]
proof fn lemma_without_child_filter(s: Seq<NodeId>, c: NodeId)
    requires
        s.no_duplicates(),
    ensures
        without_child(s, c) == s.filter(not_node(c)),
    decreases s.len(),
{
    if s.len() == 0 {
        reveal(Seq::filter);
        assert(!s.contains(c));
    } else {
        let t = s.drop_last();
        let y = s.last();
        assert(s == t.push(y));
        t.lemma_filter_push(y, not_node(c));
        if y == c {
            lemma_without_last(t, c);
            assert forall|i: int| 0 <= i < t.len() implies not_node(c)(#[trigger] t[i]) by {
                assert(t.contains(t[i]));
            }
            lemma_filter_keeps(t, not_node(c));
        } else {
            assert(t.no_duplicates());
            lemma_without_child_filter(t, c);
            lemma_without_push_other(t, y, c);
        }
    }
}

/// Appending each of `o` in turn as the last child of `p` leaves `p`'s
/// other children first, in their order, and then `o`, in order: the rows
/// of a keyed list end up as the concatenation of their nodes. Where every
/// child of `p` is one of `o`, `p`'s children are exactly `o`. The tree
/// stays a tree, with the same nodes.
#[verifier::spinoff_prover]
#[verifier::rlimit(40)]
pub proof fn lemma_reorder_lists_rows(t: TreeView, p: u64, o: Seq<NodeId>)
    requires
        tree_wf(t),
        t.nodes.dom().contains(p),
        o.no_duplicates(),
        forall|i: int| 0 <= i < o.len() ==> t.nodes.dom().contains(#[trigger] o[i].raw) && o[i].raw != p && o[i]
            != t.root,
    ensures
        tree_wf(append_all(t, p, o)),
        append_all(t, p, o).nodes.dom() == t.nodes.dom(),
        append_all(t, p, o).root == t.root,
        kids(append_all(t, p, o), p) == kids(t, p).filter(not_among(o)) + o,
        (forall|x: NodeId| #[trigger] kids(t, p).contains(x) ==> o.contains(x)) ==> kids(append_all(t, p, o), p) == o,
    decreases o.len(),
{
    if o.len() == 0 {
        assert forall|i: int| 0 <= i < kids(t, p).len() implies not_among(o)(#[trigger] kids(t, p)[i]) by {}
        lemma_filter_keeps(kids(t, p), not_among(o));
        assert(kids(t, p) + o =~= kids(t, p));
        if forall|x: NodeId| #[trigger] kids(t, p).contains(x) ==> o.contains(x) {
            if kids(t, p).len() > 0 {
                assert(kids(t, p).contains(kids(t, p)[0]));
            }
            assert(kids(t, p) =~= o);
        }
    } else {
        let o1 = o.drop_last();
        let c = o.last();
        assert forall|i: int| 0 <= i < o1.len() implies t.nodes.dom().contains(#[trigger] o1[i].raw) && o1[i].raw != p
            && o1[i] != t.root by {
            assert(o1[i] == o[i]);
        }
        assert(o1.no_duplicates());
        lemma_reorder_lists_rows(t, p, o1);
        let t1 = append_all(t, p, o1);
        assert(o[o.len() - 1] == c);
        assert(!o1.contains(c)) by {
            if o1.contains(c) {
                let i = choose|i: int| 0 <= i < o1.len() && o1[i] == c;
                assert(o[i] == o[o.len() - 1]);
            }
        }
        lemma_insert_child_placement(t1, p, c.raw, None);
        let t2 = append_all(t, p, o);
        assert(t2 == attach_view(detach_view(t1, c.raw), p, c.raw, None));
        let k = kids(t, p);
        let a1 = k.filter(not_among(o1));
        assert(children_ok(t, p));
        lemma_filter_no_dup(k, not_among(o1));
        // p's children before: a1 + o1; c is among a1 or not at all.
        let before = a1 + o1;
        assert(kids(t1, p) == before);
        let a2 = a1.filter(not_node(c));
        lemma_without_child_filter(a1, c);
        lemma_filter_twice(k, not_among(o1), not_node(c));
        assert(both(not_among(o1), not_node(c)) =~= not_among(o)) by {
            assert forall|x: NodeId| #[trigger] both(not_among(o1), not_node(c))(x) == not_among(o)(x) by {
                assert(o =~= o1.push(c));
                if o.contains(x) {
                    let i = choose|i: int| 0 <= i < o.len() && o[i] == x;
                    if i < o1.len() {
                        assert(o1[i] == x);
                    }
                }
                if o1.contains(x) {
                    let i = choose|i: int| 0 <= i < o1.len() && o1[i] == x;
                    assert(o[i] == x);
                }
            }
        }
        assert(a2 == k.filter(not_among(o)));
        assert(without_child(before, c) == without_child(a1, c) + o1) by {
            if a1.contains(c) {
                let i = a1.index_of(c);
                assert(a1[i] == c);
                assert(before[i] == c);
                assert(before.contains(c));
                let j = before.index_of(c);
                assert(before[j] == c);
                assert(j < a1.len()) by {
                    if j >= a1.len() {
                        assert(o1[j - a1.len()] == c);
                    }
                }
                assert(a1[j] == c);
                assert(j == i);
                assert(before.remove(i) =~= a1.remove(i) + o1);
            } else {
                assert(!before.contains(c)) by {
                    if before.contains(c) {
                        let j = choose|j: int| 0 <= j < before.len() && before[j] == c;
                        if j < a1.len() {
                            assert(a1[j] == c);
                        } else {
                            assert(o1[j - a1.len()] == c);
                        }
                    }
                }
            }
        }
        let others = without_child(before, c);
        assert(insert_pos(others, None) == others.len());
        assert(others.insert(others.len() as int, c) =~= a2 + o);
        if forall|x: NodeId| #[trigger] k.contains(x) ==> o.contains(x) {
            lemma_filter_no_dup(k, not_among(o));
            assert(k.filter(not_among(o)) =~= Seq::<NodeId>::empty()) by {
                if k.filter(not_among(o)).len() > 0 {
                    let x = k.filter(not_among(o))[0];
                    assert(k.filter(not_among(o)).contains(x));
                }
            }
            assert(a2 + o =~= o);
        }
    }
}

} // verus!
