use ui0::control_flow::{for_each, show};
use ui0::reactive::{effect, ComputationId, FlushStep, Owner, OwnerId, ReactiveGraph, SignalId};

fn drain(graph: &mut ReactiveGraph) -> Vec<FlushStep> {
    let mut steps = Vec::new();
    loop {
        let step = graph.flush_step(&Vec::new());
        if step == FlushStep::Idle {
            return steps;
        }
        steps.push(step);
    }
}

#[test]
fn new_graph_has_only_its_root_owner() {
    let mut graph = ReactiveGraph::new();
    let root = graph.root_owner();
    assert_eq!(graph.batch_depth(), 0);
    assert_eq!(graph.flush_step(&Vec::new()), FlushStep::Idle);
    let child = graph.create_owner(Some(root));
    assert_ne!(child, root);
}

#[test]
fn new_computation_runs_once_under_its_owner() {
    let mut graph = ReactiveGraph::new();
    let root = graph.root_owner();
    let c = graph.create_computation(root);
    assert!(graph.is_active(c));
    assert_eq!(drain(&mut graph), vec![FlushStep::Run(c, root)]);
    assert!(graph.is_active(c));
}

#[test]
fn reading_then_changing_a_signal_reruns_the_reader() {
    let mut graph = ReactiveGraph::new();
    let root = graph.root_owner();
    let s = graph.create_signal(root);
    let c = graph.create_computation(root);
    assert_eq!(drain(&mut graph), vec![FlushStep::Run(c, root)]);
    graph.track_signal(Some(c), s);
    graph.mark_signal_changed(s);
    assert_eq!(drain(&mut graph), vec![FlushStep::Run(c, root)]);
    // the run forgot the read: a change without a new read queues nothing
    graph.mark_signal_changed(s);
    assert_eq!(drain(&mut graph), vec![]);
}

#[test]
fn a_change_queues_each_reader_once() {
    let mut graph = ReactiveGraph::new();
    let root = graph.root_owner();
    let s = graph.create_signal(root);
    let t = graph.create_signal(root);
    let a = graph.create_computation(root);
    let b = graph.create_computation(root);
    drain(&mut graph);
    graph.track_signal(Some(a), s);
    graph.track_signal(Some(a), s);
    graph.track_signal(Some(b), s);
    graph.track_signal(Some(a), t);
    graph.mark_signal_changed(s);
    graph.mark_signal_changed(s);
    graph.mark_signal_changed(t);
    assert_eq!(drain(&mut graph), vec![FlushStep::Run(a, root), FlushStep::Run(b, root)]);
}

#[test]
fn reads_outside_a_computation_are_not_tracked() {
    let mut graph = ReactiveGraph::new();
    let root = graph.root_owner();
    let s = graph.create_signal(root);
    let c = graph.create_computation(root);
    drain(&mut graph);
    graph.track_signal(None, s);
    graph.mark_signal_changed(s);
    assert_eq!(drain(&mut graph), vec![]);
    assert!(graph.is_active(c));
}

#[test]
fn disposing_an_owner_stops_its_effects_and_children() {
    let mut graph = ReactiveGraph::new();
    let root = graph.root_owner();
    let parent = graph.create_owner(Some(root));
    let child = graph.create_owner(Some(parent));
    let s = graph.create_signal(root);
    let kept = graph.create_computation(root);
    let c1 = graph.create_computation(parent);
    let c2 = graph.create_computation(child);
    drain(&mut graph);
    graph.track_signal(Some(c1), s);
    graph.track_signal(Some(c2), s);
    graph.track_signal(Some(kept), s);

    graph.dispose_owner(parent);

    assert!(!graph.is_active(c1));
    assert!(!graph.is_active(c2));
    assert!(graph.is_active(kept));
    graph.mark_signal_changed(s);
    assert_eq!(drain(&mut graph), vec![FlushStep::Run(kept, root)]);
    // gone owners take nothing new
    let late = graph.create_computation(child);
    assert_eq!(drain(&mut graph), vec![FlushStep::Run(late, child)]);
    graph.dispose_owner(child);
    assert!(graph.is_active(late));
}

#[test]
fn a_queued_computation_disposed_before_flush_is_skipped() {
    let mut graph = ReactiveGraph::new();
    let root = graph.root_owner();
    let owner = graph.create_owner(Some(root));
    let c = graph.create_computation(owner);
    graph.dispose_owner(owner);
    assert_eq!(graph.flush_step(&Vec::new()), FlushStep::Skipped(c));
    assert_eq!(graph.flush_step(&Vec::new()), FlushStep::Idle);
}

#[test]
fn disposing_a_signal_owner_drops_the_signal() {
    let mut graph = ReactiveGraph::new();
    let root = graph.root_owner();
    let owner = graph.create_owner(Some(root));
    let s = graph.create_signal(owner);
    let c = graph.create_computation(root);
    drain(&mut graph);
    graph.dispose_owner(owner);
    graph.track_signal(Some(c), s);
    graph.mark_signal_changed(s);
    assert_eq!(drain(&mut graph), vec![]);
}

#[test]
fn dispose_all_clears_everything_but_keeps_the_root() {
    let mut graph = ReactiveGraph::new();
    let root = graph.root_owner();
    let owner = graph.create_owner(Some(root));
    let a = graph.create_computation(root);
    let b = graph.create_computation(owner);
    drain(&mut graph);
    graph.dispose_all();
    assert!(!graph.is_active(a));
    assert!(!graph.is_active(b));
    assert_eq!(graph.root_owner(), root);
    let c = graph.create_computation(root);
    assert_eq!(drain(&mut graph), vec![FlushStep::Run(c, root)]);
    let stale = graph.create_computation(owner);
    assert_eq!(drain(&mut graph), vec![FlushStep::Run(stale, owner)]);
}

#[test]
fn disposing_an_unknown_owner_does_nothing() {
    let mut graph = ReactiveGraph::new();
    let root = graph.root_owner();
    let c = graph.create_computation(root);
    graph.dispose_owner(OwnerId { raw: 7 });
    graph.dispose_owner(OwnerId { raw: 0x1_0000_0005 });
    assert_eq!(drain(&mut graph), vec![FlushStep::Run(c, root)]);
}

#[test]
fn a_computation_queues_again_only_after_it_ran() {
    let mut graph = ReactiveGraph::new();
    let root = graph.root_owner();
    let s = graph.create_signal(root);
    let c = graph.create_computation(root);
    graph.track_signal(Some(c), s);
    graph.mark_signal_changed(s);
    assert_eq!(drain(&mut graph), vec![FlushStep::Run(c, root)]);
}

#[test]
fn unknown_ids_are_ignored() {
    let mut graph = ReactiveGraph::new();
    let root = graph.root_owner();
    graph.track_signal(Some(ComputationId { raw: 3 }), SignalId { raw: 3 });
    graph.mark_signal_changed(SignalId { raw: 0x1_0000_0001 });
    assert!(!graph.is_active(ComputationId { raw: 0x1_0000_0001 }));
    assert_eq!(drain(&mut graph), vec![]);
    let _ = root;
}

#[test]
fn batches_nest_and_never_go_below_zero() {
    let mut graph = ReactiveGraph::new();
    graph.begin_batch();
    graph.begin_batch();
    assert_eq!(graph.batch_depth(), 2);
    graph.end_batch();
    graph.end_batch();
    assert_eq!(graph.batch_depth(), 0);
    graph.end_batch();
    assert_eq!(graph.batch_depth(), 0);
}

#[test]
fn effect_handle_names_a_queued_computation() {
    let mut graph = ReactiveGraph::new();
    let root = graph.root_owner();
    let owner = graph.create_owner(Some(root));
    let h = effect(&mut graph, owner);
    assert!(graph.is_active(h.id));
    assert_eq!(drain(&mut graph), vec![FlushStep::Run(h.id, owner)]);
    graph.dispose_owner(owner);
    assert!(!graph.is_active(h.id));
}

#[test]
fn fresh_owner_is_empty() {
    let owner = Owner::new(Some(OwnerId { raw: 5 }));
    assert_eq!(owner.parent, Some(OwnerId { raw: 5 }));
    assert!(owner.children.is_empty());
    assert!(owner.computations.is_empty());
    assert!(owner.signals.is_empty());
    assert!(!owner.disposed);
}

#[test]
fn builders_carry_their_closures() {
    let mut cond = show(|| true);
    assert!((cond.condition)());
    let list = for_each(|| vec![3u32, 1, 2]).key(|item: &u32| item.to_string());
    let mut source = list.source;
    let items = source();
    assert_eq!(items, vec![3, 1, 2]);
    assert_eq!((list.key)(&items[0]), "3");
}

#[test]
fn many_changes_before_a_flush_run_the_reader_once() {
    let mut graph = ReactiveGraph::new();
    let root = graph.root_owner();
    let s = graph.create_signal(root);
    let t = graph.create_signal(root);
    let c = graph.create_computation(root);
    assert_eq!(drain(&mut graph), vec![FlushStep::Run(c, root)]);
    graph.track_signal(Some(c), s);
    graph.track_signal(Some(c), t);
    graph.mark_signal_changed(s);
    graph.mark_signal_changed(t);
    graph.mark_signal_changed(s);
    assert_eq!(drain(&mut graph), vec![FlushStep::Run(c, root)]);
}

#[test]
fn a_reader_due_while_it_runs_keeps_its_subscriptions() {
    let mut graph = ReactiveGraph::new();
    let root = graph.root_owner();
    let s = graph.create_signal(root);
    let c = graph.create_computation(root);
    assert_eq!(drain(&mut graph), vec![FlushStep::Run(c, root)]);
    graph.track_signal(Some(c), s);
    graph.mark_signal_changed(s);
    assert_eq!(graph.flush_step(&vec![c]), FlushStep::Busy(c));
    assert_eq!(graph.flush_step(&vec![c]), FlushStep::Idle);
    // the signal still lists the reader, so a later change queues it again
    graph.mark_signal_changed(s);
    assert_eq!(drain(&mut graph), vec![FlushStep::Run(c, root)]);
}
