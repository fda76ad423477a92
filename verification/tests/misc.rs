use ui0::paint_plan::{closing_commands, plan_node_paint, NodeFacts, NodePaint};
use ui0::scene::PaintCommand;
use ui0::board::{BoardOrder, ObjectKind};
use ui0::cache::RenderNodeState;
use ui0::history::History;
use ui0::style::{Display, FlexDirection, FlexStyle, Overflow, OverflowStyle, Position, PositionStyle};
use ui0::tools::ToolKind;
use ui0::window::{AppEvent, AppOptions, TaskOptions, WindowDesc, WindowId};

#[test]
fn window_desc_builders() {
    let desc = WindowDesc::new("Main");
    assert_eq!(desc.title, "Main");
    assert_eq!((desc.width, desc.height), (1024, 768));
    assert!(desc.resizable);
    assert!(!desc.transparent);
    let desc = desc.size(640, 480).resizable(false).transparent(true);
    assert_eq!((desc.width, desc.height), (640, 480));
    assert!(!desc.resizable);
    assert!(desc.transparent);
    assert_eq!(desc.title, "Main");
    let default = WindowDesc::default();
    assert_eq!(default.title, "ui0");
}

#[test]
fn app_options_default_leaves_threads_open() {
    let options = AppOptions::default();
    assert_eq!(options.task.worker_threads, None);
    assert_eq!(TaskOptions::default().worker_threads, None);
    let event = AppEvent::WindowResized { window: WindowId { raw: 1 }, width: 3, height: 4 };
    assert_ne!(event, AppEvent::Resumed);
}

#[test]
fn tool_labels() {
    let tools = [
        (ToolKind::Select, "Select"),
        (ToolKind::Pan, "Pan"),
        (ToolKind::Rect, "Rect"),
        (ToolKind::Ellipse, "Ellipse"),
        (ToolKind::Line, "Line"),
        (ToolKind::Arrow, "Arrow"),
        (ToolKind::Text, "Text"),
        (ToolKind::Image, "Image"),
    ];
    for (tool, label) in tools {
        assert_eq!(tool.label(), label);
    }
}

#[test]
fn cached_subtree_needs_commands() {
    let mut state = RenderNodeState::default();
    assert!(!state.has_cached_subtree());
    assert!(!state.paint_dirty);
    state.subtree_commands = 2..5;
    assert!(state.has_cached_subtree());
    state.subtree_commands = 5..5;
    assert!(!state.has_cached_subtree());
}

#[test]
fn style_defaults() {
    assert_eq!(Display::default(), Display::Block);
    let flex = FlexStyle::default();
    assert_eq!(flex.display, Display::Block);
    assert_eq!(flex.direction, FlexDirection::Row);
    assert_eq!(PositionStyle::default().position, Position::Relative);
    let overflow = OverflowStyle::default();
    assert_eq!((overflow.x, overflow.y), (Overflow::Visible, Overflow::Visible));
}

#[test]
fn undo_then_redo_replays_a_step() {
    let mut doc: i64 = 0;
    let mut history: History<i64> = History::new(10);
    history.apply(5, |delta| {
        doc += *delta;
        Some(-*delta)
    });
    assert_eq!(doc, 5);
    assert!(history.undo(|delta| {
        doc += *delta;
        true
    }));
    assert_eq!(doc, 0);
    assert!(history.redo(|delta| {
        doc += *delta;
        true
    }));
    assert_eq!(doc, 5);
    assert!(!history.redo(|_| true));
}

#[test]
fn a_new_step_clears_redo_and_the_oldest_step_drops_at_capacity() {
    let mut log: Vec<i64> = Vec::new();
    let mut history: History<i64> = History::new(2);
    for step in [1, 2, 3] {
        history.apply(step, |c| Some(-*c));
    }
    // only the two latest steps can be undone
    assert!(history.undo(|c| {
        log.push(*c);
        true
    }));
    assert!(history.undo(|c| {
        log.push(*c);
        true
    }));
    assert!(!history.undo(|_| true));
    assert_eq!(log, vec![-3, -2]);
    history.apply(7, |c| Some(-*c));
    assert!(!history.redo(|_| true));
}

#[test]
fn a_step_that_does_not_apply_is_not_recorded_or_is_dropped() {
    let mut history: History<i64> = History::new(0);
    history.apply(1, |_| None);
    assert!(!history.undo(|_| true));
    history.apply(1, |c| Some(-*c));
    assert!(!history.undo(|_| false));
    assert!(!history.redo(|_| true));
    assert!(!history.undo(|_| true));
}

#[test]
fn board_order_tracks_ids() {
    let mut order = BoardOrder::new();
    let a = order.alloc_id();
    let b = order.alloc_id();
    assert_eq!((a, b), (1, 2));
    order.insert_id(a);
    order.insert_id(b);
    order.insert_id(a);
    assert_eq!(order.z_order, vec![1, 2]);
    order.set_selection(vec![2, 1]);
    order.remove_id(2);
    assert_eq!(order.z_order, vec![1]);
    assert_eq!(order.selection, vec![1]);
    order.clear_selection();
    assert!(order.selection.is_empty());
    order.next_id = u64::MAX;
    assert_eq!(order.alloc_id(), u64::MAX);
    assert_eq!(order.next_id, u64::MAX);
    assert_ne!(ObjectKind::Rect, ObjectKind::Ellipse);
}

#[test]
fn paint_plan_decides_replay_hide_and_scopes() {
    let facts = NodeFacts { fragment: false, display_none: false, clips: true, translucent: true, replayable: false };
    assert_eq!(plan_node_paint(facts), NodePaint::Paint { clip: true, opacity: true });
    assert_eq!(plan_node_paint(NodeFacts { replayable: true, ..facts }), NodePaint::Replay);
    assert_eq!(plan_node_paint(NodeFacts { display_none: true, ..facts }), NodePaint::Hidden);
    assert_eq!(
        plan_node_paint(NodeFacts { fragment: true, display_none: true, ..facts }),
        NodePaint::Paint { clip: false, opacity: false }
    );
    assert_eq!(closing_commands(true, true), vec![PaintCommand::PopOpacity, PaintCommand::PopClip]);
    assert_eq!(closing_commands(true, false), vec![PaintCommand::PopClip]);
    assert!(closing_commands(false, false).is_empty());
}
