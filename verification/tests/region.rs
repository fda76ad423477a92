use ui0::node::{NodeId, UiNodeTag};
use ui0::reactive::{FlushStep, ReactiveGraph};
use ui0::region::{
    dispose_region, plan_for_each, remove_stale_children, reorder_nodes, reuse_or_create,
    sibling_anchor, EmptyPlan, ForEachState, MountedRegion, RegionState,
};
use ui0::ui_tree::UiTree;

#[test]
fn new_regions_are_empty() {
    let tree = UiTree::new();
    let region = RegionState::new(tree.root());
    assert_eq!(region.parent, Some(tree.root()));
    assert!(region.nodes.is_empty());
    assert_eq!(region.owner, None);
    let default = RegionState::default();
    assert_eq!(default.parent, None);
    let mounted = MountedRegion::new(tree.root());
    assert_eq!(mounted.parent, tree.root());
    assert!(mounted.nodes.is_empty());
    let state = ForEachState::new();
    assert!(state.rows.is_empty());
    assert!(state.empty.is_none());
}

#[test]
fn a_node_of_the_same_tag_is_reused() {
    let mut tree = UiTree::new();
    let root = tree.root();
    let div = reuse_or_create(&mut tree, root, None, None, UiNodeTag::Div);
    assert_eq!(tree.children(root), &[div]);
    let again = reuse_or_create(&mut tree, root, Some(div), None, UiNodeTag::Div);
    assert_eq!(again, div);
    assert_eq!(tree.children(root), &[div]);
}

#[test]
fn a_node_of_another_tag_is_replaced_in_place() {
    let mut tree = UiTree::new();
    let root = tree.root();
    let first = reuse_or_create(&mut tree, root, None, None, UiNodeTag::Div);
    let second = reuse_or_create(&mut tree, root, None, None, UiNodeTag::Span);
    let inner = tree.create_node(UiNodeTag::Text);
    tree.append_child(first, inner);
    let replaced = reuse_or_create(&mut tree, root, Some(first), Some(second), UiNodeTag::Button);
    assert_ne!(replaced, first);
    assert!(!tree.contains(first));
    assert!(!tree.contains(inner));
    assert_eq!(tree.children(root), &[replaced, second]);
    assert_eq!(tree.node(replaced).unwrap().tag, UiNodeTag::Button);
}

#[test]
fn the_anchor_is_the_next_old_child_still_in_place() {
    let mut tree = UiTree::new();
    let root = tree.root();
    let a = tree.create_node(UiNodeTag::Div);
    let b = tree.create_node(UiNodeTag::Div);
    tree.append_child(root, a);
    tree.append_child(root, b);
    let old = vec![a, b];
    assert_eq!(sibling_anchor(&tree, root, &old, 0), Some(b));
    assert_eq!(sibling_anchor(&tree, root, &old, 1), None);
    assert_eq!(sibling_anchor(&tree, root, &old, 5), None);
    tree.detach(b);
    assert_eq!(sibling_anchor(&tree, root, &old, 0), None);
    assert_eq!(sibling_anchor(&tree, root, &Vec::new(), 0), None);
}

#[test]
fn stale_children_past_the_new_length_are_removed() {
    let mut tree = UiTree::new();
    let root = tree.root();
    let a = tree.create_node(UiNodeTag::Div);
    let b = tree.create_node(UiNodeTag::Div);
    let c = tree.create_node(UiNodeTag::Div);
    let elsewhere = tree.create_node(UiNodeTag::Div);
    tree.append_child(root, a);
    tree.append_child(root, b);
    tree.append_child(root, c);
    tree.append_child(root, elsewhere);
    tree.append_child(elsewhere, c);
    let old = vec![a, b, c];
    remove_stale_children(&mut tree, root, &old, 1);
    assert!(tree.contains(a));
    assert!(!tree.contains(b));
    // c moved under another parent: it is not this list's to remove
    assert!(tree.contains(c));
    assert_eq!(tree.children(root), &[a, elsewhere]);
    remove_stale_children(&mut tree, root, &old, 9);
    assert!(tree.contains(a));
}

#[test]
fn disposing_a_region_takes_its_nodes_and_effects() {
    let mut tree = UiTree::new();
    let mut graph = ReactiveGraph::new();
    let root = tree.root();
    let frag = tree.create_node(UiNodeTag::Fragment);
    tree.append_child(root, frag);
    let mut region = RegionState::new(frag);
    let owner = graph.create_owner(Some(graph.root_owner()));
    region.owner = Some(owner);
    let effect = graph.create_computation(owner);
    let a = tree.create_node(UiNodeTag::Text);
    let b = tree.create_node(UiNodeTag::Div);
    let b_child = tree.create_node(UiNodeTag::Span);
    tree.append_child(frag, a);
    tree.append_child(frag, b);
    tree.append_child(b, b_child);
    region.nodes = vec![a, b];

    dispose_region(&mut tree, &mut graph, &mut region);

    assert!(region.nodes.is_empty());
    assert_eq!(region.owner, None);
    assert_eq!(region.parent, Some(frag));
    assert!(!tree.contains(a));
    assert!(!tree.contains(b));
    assert!(!tree.contains(b_child));
    assert!(tree.children(frag).is_empty());
    assert!(!graph.is_active(effect));
    assert_eq!(graph.flush_step(&Vec::new()), FlushStep::Skipped(effect));
}

#[test]
fn reordering_appends_in_list_order() {
    let mut tree = UiTree::new();
    let root = tree.root();
    let frag = tree.create_node(UiNodeTag::Fragment);
    tree.append_child(root, frag);
    let one = tree.create_node(UiNodeTag::Text);
    let two = tree.create_node(UiNodeTag::Text);
    tree.append_child(frag, one);
    tree.append_child(frag, two);
    tree.set_text(one, "row 1");
    tree.set_text(two, "row 2");
    assert_eq!(
        tree.debug_dump(),
        "root\n  fragment\n    text: row 1\n    text: row 2\n"
    );
    reorder_nodes(&mut tree, frag, &vec![two, one]);
    assert_eq!(
        tree.debug_dump(),
        "root\n  fragment\n    text: row 2\n    text: row 1\n"
    );
    reorder_nodes(&mut tree, frag, &vec![NodeId::default()]);
    assert_eq!(tree.children(frag), &[two, one]);
}

fn keys(v: &[&str]) -> Vec<String> {
    v.iter().map(|k| k.to_string()).collect()
}

#[test]
fn keyed_plan_disposes_creates_and_orders_rows() {
    let old_rows = keys(&["a", "b", "c"]);
    let items = vec![
        ("c".to_string(), false),
        ("d".to_string(), false),
        ("a".to_string(), false),
        ("d".to_string(), false),
    ];
    let plan = plan_for_each(&old_rows, &items, false);
    assert_eq!(plan.dispose, keys(&["b"]));
    assert_eq!(plan.create, keys(&["d"]));
    assert_eq!(plan.order, keys(&["c", "d", "a", "d"]));
    assert_eq!(plan.empty, EmptyPlan::Absent);
}

#[test]
fn keyed_plan_shows_empty_view_only_while_wanted() {
    let items = vec![("empty".to_string(), true)];
    let plan = plan_for_each(&keys(&["a"]), &items, false);
    assert_eq!(plan.dispose, keys(&["a"]));
    assert!(plan.create.is_empty());
    assert!(plan.order.is_empty());
    assert_eq!(plan.empty, EmptyPlan::Create);

    let again = plan_for_each(&Vec::new(), &items, true);
    assert_eq!(again.empty, EmptyPlan::Keep);

    let rows = vec![("x".to_string(), false)];
    let back = plan_for_each(&Vec::new(), &rows, true);
    assert_eq!(back.empty, EmptyPlan::Dispose);
    assert_eq!(back.create, keys(&["x"]));
}

#[test]
fn reordering_rows_leaves_other_children_first() {
    let mut tree = UiTree::new();
    let root = tree.root();
    let x = tree.create_node(UiNodeTag::Div);
    let a = tree.create_node(UiNodeTag::Div);
    let b = tree.create_node(UiNodeTag::Div);
    tree.append_child(root, a);
    tree.append_child(root, x);
    tree.append_child(root, b);
    reorder_nodes(&mut tree, root, &vec![b, a]);
    assert_eq!(tree.children(root), &[x, b, a]);
    reorder_nodes(&mut tree, root, &vec![a, x, b]);
    assert_eq!(tree.children(root), &[a, x, b]);
}

#[test]
fn a_replacing_node_never_takes_the_replaced_id() {
    let mut tree = UiTree::new();
    let root = tree.root();
    let mut current = reuse_or_create(&mut tree, root, None, None, UiNodeTag::Div);
    for round in 0..6 {
        let tag = if round % 2 == 0 { UiNodeTag::Span } else { UiNodeTag::Div };
        let next = reuse_or_create(&mut tree, root, Some(current), None, tag);
        assert_ne!(next, current);
        assert!(!tree.contains(current));
        assert_eq!(tree.children(root), &[next]);
        current = next;
    }
}
