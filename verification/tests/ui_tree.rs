use ui0::node::{DirtyFlags, NodeId, UiNodeTag};
use ui0::ui_tree::UiTree;

#[test]
fn new_tree_has_root() {
    let tree = UiTree::new();
    let root = tree.root();

    assert_eq!(tree.node(root).map(|node| node.tag), Some(UiNodeTag::Root));
    assert_eq!(tree.node(root).unwrap().parent, None);
    assert!(tree.children(root).is_empty());
}

#[test]
fn append_child_sets_parent_and_children() {
    let mut tree = UiTree::new();
    let div = tree.create_node(UiNodeTag::Div);

    tree.append_child(tree.root(), div);

    assert_eq!(tree.node(div).unwrap().parent, Some(tree.root()));
    assert_eq!(tree.children(tree.root()), &[div]);
}

#[test]
fn append_child_moves_from_old_parent() {
    let mut tree = UiTree::new();
    let old_parent = tree.create_node(UiNodeTag::Div);
    let new_parent = tree.create_node(UiNodeTag::Div);
    let child = tree.create_node(UiNodeTag::Span);
    tree.append_child(tree.root(), old_parent);
    tree.append_child(tree.root(), new_parent);
    tree.append_child(old_parent, child);

    tree.append_child(new_parent, child);

    assert!(tree.children(old_parent).is_empty());
    assert_eq!(tree.children(new_parent), &[child]);
    assert_eq!(tree.node(child).unwrap().parent, Some(new_parent));
}

#[test]
fn insert_child_before_orders_children() {
    let mut tree = UiTree::new();
    let parent = tree.create_node(UiNodeTag::Div);
    let first = tree.create_node(UiNodeTag::Span);
    let second = tree.create_node(UiNodeTag::Button);
    tree.append_child(tree.root(), parent);
    tree.append_child(parent, second);

    tree.insert_child_before(parent, first, Some(second));

    assert_eq!(tree.children(parent), &[first, second]);
}

#[test]
fn remove_subtree_cleans_side_tables() {
    let mut tree = UiTree::new();
    let parent = tree.create_node(UiNodeTag::Div);
    let text = tree.create_node(UiNodeTag::Text);
    tree.append_child(tree.root(), parent);
    tree.append_child(parent, text);
    tree.set_text(text, "Save");

    // The size, layout and other float side tables live with the runtime,
    // outside this library, and are cleared of exactly the returned ids;
    // here the text table, which the library holds, and those ids are
    // checked.
    let removed = tree.remove_subtree(parent);

    assert!(tree.node(parent).is_none());
    assert!(tree.node(text).is_none());
    assert!(tree.text(text).is_none());
    assert!(removed.contains(&parent));
    assert!(removed.contains(&text));
    assert!(tree.children(tree.root()).is_empty());
}

#[test]
fn set_text_marks_text_layout_paint_dirty() {
    let mut tree = UiTree::new();
    let text = tree.create_node(UiNodeTag::Text);
    tree.clear_dirty();

    assert!(tree.set_text(text, "Hello"));
    let dirty = tree.node(text).unwrap().dirty;
    assert!(dirty.contains(DirtyFlags::text()));
    assert!(dirty.contains(DirtyFlags::layout()));
    assert!(dirty.contains(DirtyFlags::paint()));

    tree.clear_dirty();
    assert!(!tree.set_text(text, "Hello"));
    assert!(tree.node(text).unwrap().dirty.is_empty());
}

#[test]
fn mark_dirty_sets_flags_on_node() {
    let mut tree = UiTree::new();
    let div = tree.create_node(UiNodeTag::Div);
    tree.clear_dirty();

    tree.mark_dirty(div, DirtyFlags::style().union(DirtyFlags::paint()));

    assert_eq!(
        tree.node(div).unwrap().dirty,
        DirtyFlags::style().union(DirtyFlags::paint())
    );
}

#[test]
fn debug_dump_outputs_stable_web_like_tree() {
    let mut tree = UiTree::new();
    let div = tree.create_node(UiNodeTag::Div);
    let button = tree.create_node(UiNodeTag::Button);
    let text = tree.create_node(UiNodeTag::Text);
    tree.append_child(tree.root(), div);
    tree.append_child(div, button);
    tree.append_child(button, text);
    tree.set_text(text, "Save");

    assert_eq!(
        tree.debug_dump(),
        "root\n  div\n    button\n      text: Save\n"
    );
}

#[test]
fn new_node_is_fully_dirty_and_detached() {
    let mut tree = UiTree::new();
    let span = tree.create_node(UiNodeTag::Span);
    let node = tree.node(span).unwrap();
    assert_eq!(node.tag, UiNodeTag::Span);
    assert_eq!(node.parent, None);
    assert_eq!(node.dirty, DirtyFlags::all());
    assert!(tree.children(span).is_empty());
    assert!(tree.contains(span));
    assert!(!tree.children(tree.root()).contains(&span));
}

#[test]
fn appended_child_is_last_and_parent_is_marked() {
    let mut tree = UiTree::new();
    let a = tree.create_node(UiNodeTag::Div);
    let b = tree.create_node(UiNodeTag::Div);
    let c = tree.create_node(UiNodeTag::Div);
    tree.append_child(tree.root(), a);
    tree.append_child(tree.root(), b);
    tree.clear_dirty();
    tree.append_child(tree.root(), c);
    assert_eq!(tree.children(tree.root()), &[a, b, c]);
    let dirty = tree.node(tree.root()).unwrap().dirty;
    assert_eq!(dirty.bits, 21);
    assert!(dirty.contains(DirtyFlags::structure()));
    assert!(dirty.contains(DirtyFlags::layout()));
    assert!(dirty.contains(DirtyFlags::paint()));
}

#[test]
fn insert_before_a_stranger_appends() {
    let mut tree = UiTree::new();
    let a = tree.create_node(UiNodeTag::Div);
    let b = tree.create_node(UiNodeTag::Div);
    let stranger = tree.create_node(UiNodeTag::Div);
    tree.append_child(tree.root(), a);
    tree.insert_child_before(tree.root(), b, Some(stranger));
    assert_eq!(tree.children(tree.root()), &[a, b]);
}

#[test]
fn reinserting_a_child_moves_it_within_its_parent() {
    let mut tree = UiTree::new();
    let a = tree.create_node(UiNodeTag::Div);
    let b = tree.create_node(UiNodeTag::Div);
    let c = tree.create_node(UiNodeTag::Div);
    tree.append_child(tree.root(), a);
    tree.append_child(tree.root(), b);
    tree.append_child(tree.root(), c);
    tree.insert_child_before(tree.root(), c, Some(a));
    assert_eq!(tree.children(tree.root()), &[c, a, b]);
    tree.append_child(tree.root(), c);
    assert_eq!(tree.children(tree.root()), &[a, b, c]);
}

#[test]
fn linking_a_node_to_itself_or_a_missing_node_does_nothing() {
    let mut tree = UiTree::new();
    let a = tree.create_node(UiNodeTag::Div);
    tree.append_child(a, a);
    assert_eq!(tree.node(a).unwrap().parent, None);
    tree.append_child(tree.root(), a);
    let gone = tree.create_node(UiNodeTag::Div);
    tree.remove_subtree(gone);
    tree.append_child(gone, a);
    assert_eq!(tree.node(a).unwrap().parent, Some(tree.root()));
    tree.append_child(tree.root(), gone);
    assert_eq!(tree.children(tree.root()), &[a]);
}

#[test]
fn detach_leaves_node_parentless() {
    let mut tree = UiTree::new();
    let a = tree.create_node(UiNodeTag::Div);
    let b = tree.create_node(UiNodeTag::Span);
    tree.append_child(tree.root(), a);
    tree.append_child(a, b);
    tree.detach(b);
    assert_eq!(tree.node(b).unwrap().parent, None);
    assert!(tree.children(a).is_empty());
    assert!(tree.contains(b));
    let root = tree.root();
    tree.detach(root);
    assert_eq!(tree.children(root), &[a]);
}

#[test]
fn removing_the_root_or_a_missing_node_does_nothing() {
    let mut tree = UiTree::new();
    let a = tree.create_node(UiNodeTag::Div);
    tree.append_child(tree.root(), a);
    let root = tree.root();
    let removed = tree.remove_subtree(root);
    assert!(removed.is_empty());
    assert!(tree.contains(root));
    assert_eq!(tree.children(root), &[a]);
    let removed = tree.remove_subtree(NodeId::default());
    assert!(removed.is_empty());
}

#[test]
fn remove_subtree_takes_every_descendant_and_marks_parent() {
    let mut tree = UiTree::new();
    let a = tree.create_node(UiNodeTag::Div);
    let b = tree.create_node(UiNodeTag::Div);
    let c = tree.create_node(UiNodeTag::Text);
    let d = tree.create_node(UiNodeTag::Div);
    let keep = tree.create_node(UiNodeTag::Span);
    tree.append_child(tree.root(), a);
    tree.append_child(tree.root(), keep);
    tree.append_child(a, b);
    tree.append_child(b, c);
    tree.append_child(a, d);
    tree.set_text(c, "x");
    tree.clear_dirty();
    let removed = tree.remove_subtree(a);
    assert_eq!(removed.len(), 4);
    for n in [a, b, c, d] {
        assert!(removed.contains(&n));
        assert!(!tree.contains(n));
    }
    assert!(tree.text(c).is_none());
    assert_eq!(tree.children(tree.root()), &[keep]);
    assert_eq!(tree.node(tree.root()).unwrap().dirty.bits, 21);
    assert!(tree.contains(keep));
}

#[test]
fn text_is_read_back_and_replaced() {
    let mut tree = UiTree::new();
    let t = tree.create_node(UiNodeTag::Text);
    assert_eq!(tree.text(t), None);
    assert!(tree.set_text(t, "one"));
    assert_eq!(tree.text(t), Some("one"));
    assert!(tree.set_text(t, "two"));
    assert_eq!(tree.text(t), Some("two"));
    assert!(!tree.set_text(t, "two"));
    assert_eq!(tree.node(t).unwrap().dirty.bits, 0xff);
}

#[test]
fn clear_dirty_clears_every_node() {
    let mut tree = UiTree::new();
    let a = tree.create_node(UiNodeTag::Div);
    let b = tree.create_node(UiNodeTag::Img);
    tree.append_child(tree.root(), a);
    tree.append_child(a, b);
    tree.clear_dirty();
    for n in [tree.root(), a, b] {
        assert!(tree.node(n).unwrap().dirty.is_empty());
    }
    tree.mark_dirty(b, DirtyFlags::events());
    tree.mark_dirty(b, DirtyFlags::events());
    assert_eq!(tree.node(b).unwrap().dirty, DirtyFlags::events());
    assert!(tree.node(a).unwrap().dirty.is_empty());
}

#[test]
fn node_mut_changes_a_node_in_place() {
    let mut tree = UiTree::new();
    let a = tree.create_node(UiNodeTag::Div);
    tree.clear_dirty();
    if let Some(node) = tree.node_mut(a) {
        node.dirty = DirtyFlags::composite();
    }
    assert_eq!(tree.node(a).unwrap().dirty, DirtyFlags::composite());
    assert!(tree.node_mut(NodeId::default()).is_none());
}

#[test]
fn debug_dump_of_fragments_and_empty_text() {
    let mut tree = UiTree::new();
    let frag = tree.create_node(UiNodeTag::Fragment);
    let text = tree.create_node(UiNodeTag::Text);
    let img = tree.create_node(UiNodeTag::Img);
    tree.append_child(tree.root(), frag);
    tree.append_child(frag, text);
    tree.append_child(tree.root(), img);
    assert_eq!(tree.debug_dump(), "root\n  fragment\n    text\n  img\n");
    tree.set_text(text, "on");
    assert_eq!(tree.debug_dump(), "root\n  fragment\n    text: on\n  img\n");
}

#[test]
fn tag_names_are_lower_case() {
    assert_eq!(UiNodeTag::Root.debug_name(), "root");
    assert_eq!(UiNodeTag::Div.debug_name(), "div");
    assert_eq!(UiNodeTag::Span.debug_name(), "span");
    assert_eq!(UiNodeTag::Text.debug_name(), "text");
    assert_eq!(UiNodeTag::Button.debug_name(), "button");
    assert_eq!(UiNodeTag::Img.debug_name(), "img");
    assert_eq!(UiNodeTag::Fragment.debug_name(), "fragment");
}

#[test]
fn dirty_flag_bits() {
    assert_eq!(DirtyFlags::structure().bits, 1);
    assert_eq!(DirtyFlags::style().bits, 2);
    assert_eq!(DirtyFlags::layout().bits, 4);
    assert_eq!(DirtyFlags::pre_paint().bits, 8);
    assert_eq!(DirtyFlags::paint().bits, 16);
    assert_eq!(DirtyFlags::composite().bits, 32);
    assert_eq!(DirtyFlags::text().bits, 64);
    assert_eq!(DirtyFlags::events().bits, 128);
    assert_eq!(DirtyFlags::all().bits, 0xff);
    assert!(DirtyFlags::empty().is_empty());
    let both = DirtyFlags::style().union(DirtyFlags::text());
    assert!(both.contains(DirtyFlags::text()));
    assert!(!both.contains(DirtyFlags::paint()));
    assert_eq!(NodeId::default().raw(), 0x1_ffff_ffff);
}

#[test]
fn default_tree_is_a_new_tree() {
    let tree = UiTree::default();
    assert_eq!(tree.debug_dump(), "root\n");
}

#[test]
fn stale_paint_is_found_anywhere_below() {
    let mut tree = UiTree::new();
    let a = tree.create_node(UiNodeTag::Div);
    let b = tree.create_node(UiNodeTag::Div);
    let c = tree.create_node(UiNodeTag::Span);
    tree.append_child(tree.root(), a);
    tree.append_child(a, b);
    tree.append_child(b, c);
    tree.clear_dirty();
    assert!(!tree.subtree_has_render_dirty(tree.root()));
    tree.mark_dirty(c, DirtyFlags::events());
    tree.mark_dirty(c, DirtyFlags::layout());
    assert!(!tree.subtree_has_render_dirty(tree.root()));
    tree.mark_dirty(c, DirtyFlags::text());
    assert!(tree.subtree_has_render_dirty(tree.root()));
    assert!(tree.subtree_has_render_dirty(b));
    assert!(!tree.subtree_has_render_dirty(NodeId::default()));
}

#[test]
fn fragments_are_flattened_for_layout() {
    let mut tree = UiTree::new();
    let root = tree.root();
    let a = tree.create_node(UiNodeTag::Div);
    let frag = tree.create_node(UiNodeTag::Fragment);
    let inner = tree.create_node(UiNodeTag::Fragment);
    let b = tree.create_node(UiNodeTag::Text);
    let c = tree.create_node(UiNodeTag::Span);
    let d = tree.create_node(UiNodeTag::Div);
    let below_d = tree.create_node(UiNodeTag::Span);
    tree.append_child(root, a);
    tree.append_child(root, frag);
    tree.append_child(frag, b);
    tree.append_child(frag, inner);
    tree.append_child(inner, c);
    tree.append_child(root, d);
    tree.append_child(d, below_d);
    assert_eq!(tree.flattened_layout_children(root), vec![a, b, c, d]);
    assert_eq!(tree.flattened_layout_children(frag), vec![b, c]);
    assert!(tree.flattened_layout_children(NodeId::default()).is_empty());

    assert_eq!(tree.nearest_layout_node_from(Some(c)), Some(c));
    assert_eq!(tree.nearest_layout_node_from(Some(inner)), Some(root));
    assert_eq!(tree.nearest_layout_node_from(None), None);
    assert_eq!(tree.nearest_layout_parent(c), Some(root));
    assert_eq!(tree.nearest_layout_parent(below_d), Some(d));
    assert_eq!(tree.nearest_layout_parent(root), None);
}

#[test]
fn clearing_some_dirty_flags_keeps_the_others() {
    let mut tree = UiTree::new();
    let a = tree.create_node(UiNodeTag::Div);
    tree.append_child(tree.root(), a);
    let render = DirtyFlags::structure()
        .union(DirtyFlags::style())
        .union(DirtyFlags::pre_paint())
        .union(DirtyFlags::paint())
        .union(DirtyFlags::composite())
        .union(DirtyFlags::text());
    tree.clear_dirty_flags(render);
    assert_eq!(
        tree.node(a).unwrap().dirty,
        DirtyFlags::layout().union(DirtyFlags::events())
    );
    assert!(!tree.subtree_has_render_dirty(tree.root()));
    tree.clear_dirty_flags(DirtyFlags::layout());
    assert_eq!(tree.node(a).unwrap().dirty, DirtyFlags::events());
}

#[test]
fn removing_text_marks_the_node() {
    let mut tree = UiTree::new();
    let t = tree.create_node(UiNodeTag::Text);
    tree.append_child(tree.root(), t);
    tree.set_text(t, "gone");
    tree.clear_dirty();
    assert!(tree.remove_text(t));
    assert_eq!(tree.text(t), None);
    assert_eq!(tree.node(t).unwrap().dirty.bits, 84);
    tree.clear_dirty();
    assert!(!tree.remove_text(t));
    assert!(tree.node(t).unwrap().dirty.is_empty());
    assert_eq!(tree.debug_dump(), "root\n  text\n");
}

#[test]
fn root_moved_under_detached_node_keeps_links_in_agreement() {
    let mut tree = UiTree::new();
    let root = tree.root();
    let holder = tree.create_node(UiNodeTag::Div);
    tree.insert_child_before(holder, root, None);
    assert_eq!(tree.node(root).unwrap().parent, Some(holder));
    assert_eq!(tree.children(holder), &[root]);
    assert_eq!(tree.node(holder).unwrap().parent, None);
}

#[test]
fn set_text_on_a_removed_node_changes_no_node() {
    let mut tree = UiTree::new();
    let root = tree.root();
    let gone = tree.create_node(UiNodeTag::Text);
    tree.append_child(root, gone);
    tree.remove_subtree(gone);
    let count = tree.node_count();
    assert!(tree.set_text(gone, "late"));
    assert!(tree.node(gone).is_none());
    assert_eq!(tree.node_count(), count);
    assert!(tree.children(root).is_empty());
}
