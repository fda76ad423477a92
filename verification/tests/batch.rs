use ui0::batch::{BatchCompiler, BatchKind, PrimitiveRange};
use ui0::node::NodeId;
use ui0::scene::{ClipId, PaintCommand, PaintScene, ScenePrimitives};

#[derive(Debug, Clone, Copy, PartialEq)]
struct LayoutRect {
    x: f32,
    y: f32,
    width: f32,
    height: f32,
}

#[derive(Debug, Clone)]
struct RectPrimitive {
    node: NodeId,
    rect: LayoutRect,
    radius: f32,
    opacity: f32,
}

#[derive(Debug, Clone)]
struct TextPrimitive {
    node: NodeId,
    rect: LayoutRect,
    text: String,
    font_size: f32,
    opacity: f32,
}

#[derive(Debug, Clone, Copy)]
struct ClipState {
    rect: LayoutRect,
}

struct TestScene;

impl ScenePrimitives for TestScene {
    type Rect = RectPrimitive;
    type Text = TextPrimitive;
    type Image = ();
    type Surface = ();
    type Clip = ClipState;
    type Transform = ();
    type Opacity = f32;
    type Layer = ();
}

fn rect(node: NodeId) -> RectPrimitive {
    RectPrimitive {
        node,
        rect: LayoutRect { x: 0.0, y: 0.0, width: 10.0, height: 10.0 },
        radius: 0.0,
        opacity: 1.0,
    }
}

fn text(node: NodeId) -> TextPrimitive {
    TextPrimitive {
        node,
        rect: LayoutRect { x: 0.0, y: 0.0, width: 10.0, height: 10.0 },
        text: "x".to_string(),
        font_size: 12.0,
        opacity: 1.0,
    }
}

#[test]
fn continuous_rects_batch_even_when_they_may_overlap() {
    let mut scene: PaintScene<TestScene> = PaintScene::new();
    let node = NodeId::default();
    let a = scene.push_rect(rect(node));
    let b = scene.push_rect(rect(node));
    scene.commands.push(PaintCommand::DrawRect(a));
    scene.commands.push(PaintCommand::DrawRect(b));

    let batches = BatchCompiler::compile(&scene);

    assert_eq!(batches.batches.len(), 1);
    assert_eq!(batches.batches[0].range, PrimitiveRange::Rects(0..2));
}

#[test]
fn text_between_rects_prevents_rect_batch_merging() {
    let mut scene: PaintScene<TestScene> = PaintScene::new();
    let node = NodeId::default();
    let a = scene.push_rect(rect(node));
    let t = scene.push_text(text(node));
    let b = scene.push_rect(rect(node));
    scene.commands.push(PaintCommand::DrawRect(a));
    scene.commands.push(PaintCommand::DrawText(t));
    scene.commands.push(PaintCommand::DrawRect(b));

    let batches = BatchCompiler::compile(&scene);

    assert_eq!(batches.batches.len(), 3);
    assert_eq!(batches.batches[0].range, PrimitiveRange::Rects(0..1));
    assert_eq!(batches.batches[1].range, PrimitiveRange::Texts(0..1));
    assert_eq!(batches.batches[2].range, PrimitiveRange::Rects(1..2));
}

#[test]
fn clip_is_batch_barrier() {
    let mut scene: PaintScene<TestScene> = PaintScene::new();
    let node = NodeId::default();
    let clip = scene.push_clip(ClipState {
        rect: LayoutRect { x: 0.0, y: 0.0, width: 10.0, height: 10.0 },
    });
    let a = scene.push_rect(rect(node));
    let b = scene.push_rect(rect(node));
    scene.commands.push(PaintCommand::DrawRect(a));
    scene.commands.push(PaintCommand::PushClip(clip));
    scene.commands.push(PaintCommand::DrawRect(b));
    scene.commands.push(PaintCommand::PopClip);

    let batches = BatchCompiler::compile(&scene);

    assert_eq!(batches.batches.len(), 2);
    assert_eq!(batches.batches[0].range, PrimitiveRange::Rects(0..1));
    assert_eq!(batches.batches[1].range, PrimitiveRange::Rects(1..2));
}

#[test]
fn clip_id_is_part_of_the_batch_key() {
    let mut scene: PaintScene<TestScene> = PaintScene::new();
    let node = NodeId::default();
    let clip = scene.push_clip(ClipState {
        rect: LayoutRect { x: 1.0, y: 1.0, width: 5.0, height: 5.0 },
    });
    let a = scene.push_rect(rect(node));
    scene.commands.push(PaintCommand::PushClip(clip));
    scene.commands.push(PaintCommand::DrawRect(a));
    scene.commands.push(PaintCommand::PopClip);
    let batches = BatchCompiler::compile(&scene);
    assert_eq!(batches.batches.len(), 1);
    assert_eq!(batches.batches[0].key.kind, BatchKind::Rect);
    assert_eq!(batches.batches[0].key.clip, Some(ClipId(0)));
    assert_eq!(scene.clips[0].rect.width, 5.0);
}

#[test]
fn non_adjacent_rects_split_batches() {
    let mut scene: PaintScene<TestScene> = PaintScene::new();
    let node = NodeId::default();
    let a = scene.push_rect(rect(node));
    let b = scene.push_rect(rect(node));
    scene.commands.push(PaintCommand::DrawRect(b));
    scene.commands.push(PaintCommand::DrawRect(a));
    let batches = BatchCompiler::compile(&scene);
    assert_eq!(batches.batches.len(), 2);
    assert_eq!(batches.batches[0].range, PrimitiveRange::Rects(1..2));
    assert_eq!(batches.batches[1].range, PrimitiveRange::Rects(0..1));
}

#[test]
fn empty_scene_has_no_batches() {
    let scene: PaintScene<TestScene> = PaintScene::new();
    let batches = BatchCompiler::compile(&scene);
    assert!(batches.batches.is_empty());
    assert_eq!(scene.command_len(), 0);
}

#[test]
fn texts_merge_into_one_batch() {
    let mut scene: PaintScene<TestScene> = PaintScene::new();
    let node = NodeId::default();
    let t0 = scene.push_text(text(node));
    let t1 = scene.push_text(text(node));
    let t2 = scene.push_text(text(node));
    scene.commands.push(PaintCommand::DrawText(t0));
    scene.commands.push(PaintCommand::DrawText(t1));
    scene.commands.push(PaintCommand::DrawText(t2));
    let batches = BatchCompiler::compile(&scene);
    assert_eq!(batches.batches.len(), 1);
    assert_eq!(batches.batches[0].range, PrimitiveRange::Texts(0..3));
    assert_eq!(batches.batches[0].key.kind, BatchKind::Text);
    assert_eq!(scene.texts[2].text, "x");
    assert_eq!(scene.rects.len(), 0);
    let _ = (&scene.texts[0].node, scene.texts[0].rect, scene.texts[0].font_size, scene.texts[0].opacity);
}

#[test]
fn replay_copies_commands_and_their_primitives() {
    let mut previous: PaintScene<TestScene> = PaintScene::new();
    let node = NodeId::default();
    let a = previous.push_rect(rect(node));
    let t = previous.push_text(text(node));
    previous.commands.push(PaintCommand::DrawRect(a));
    previous.commands.push(PaintCommand::DrawText(t));

    let mut next: PaintScene<TestScene> = PaintScene::new();
    let first = next.push_rect(rect(node));
    next.commands.push(PaintCommand::DrawRect(first));
    next.replay_range(&previous, 0..2);

    assert_eq!(next.command_len(), 3);
    assert_eq!(next.commands[1], PaintCommand::DrawRect(ui0::scene::RectId(1)));
    assert_eq!(next.commands[2], PaintCommand::DrawText(ui0::scene::TextId(0)));
    assert_eq!(next.rects.len(), 2);
    assert_eq!(next.texts.len(), 1);
    let _ = (next.rects[1].radius, next.rects[1].opacity, next.rects[1].rect, &next.rects[1].node);
}

#[test]
fn replayed_scene_names_only_entries_it_holds() {
    let node = NodeId::default();
    let mut previous: PaintScene<TestScene> = PaintScene::new();
    let c = previous.push_clip(ClipState { rect: LayoutRect { x: 0.0, y: 0.0, width: 5.0, height: 5.0 } });
    let t = previous.push_text(text(node));
    let r = previous.push_rect(rect(node));
    previous.commands.push(PaintCommand::PushClip(c));
    previous.commands.push(PaintCommand::DrawText(t));
    previous.commands.push(PaintCommand::PopClip);
    previous.commands.push(PaintCommand::DrawRect(r));

    let mut next: PaintScene<TestScene> = PaintScene::new();
    let t0 = next.push_text(text(node));
    let t1 = next.push_text(text(node));
    next.commands.push(PaintCommand::DrawText(t0));
    next.commands.push(PaintCommand::DrawText(t1));
    next.replay_range(&previous, 1..4);

    assert_eq!(next.command_len(), 5);
    assert_eq!(next.commands[2], PaintCommand::DrawText(ui0::scene::TextId(2)));
    assert_eq!(next.commands[3], PaintCommand::PopClip);
    assert_eq!(next.commands[4], PaintCommand::DrawRect(ui0::scene::RectId(0)));
    for command in &next.commands {
        match *command {
            PaintCommand::DrawText(id) => assert!(id.0 < next.texts.len()),
            PaintCommand::DrawRect(id) => assert!(id.0 < next.rects.len()),
            PaintCommand::PushClip(id) => assert!(id.0 < next.clips.len()),
            _ => {}
        }
    }
}

#[test]
fn replay_copies_clip_states_unchanged() {
    let mut previous: PaintScene<TestScene> = PaintScene::new();
    let clip_rect = LayoutRect { x: 3.0, y: 4.0, width: 50.0, height: 60.0 };
    let c = previous.push_clip(ClipState { rect: clip_rect });
    let o = previous.push_opacity(0.5);
    previous.commands.push(PaintCommand::PushClip(c));
    previous.commands.push(PaintCommand::PushOpacity(o));
    previous.commands.push(PaintCommand::PopOpacity);
    previous.commands.push(PaintCommand::PopClip);

    let mut next: PaintScene<TestScene> = PaintScene::new();
    let first = next.push_clip(ClipState { rect: LayoutRect { x: 0.0, y: 0.0, width: 1.0, height: 1.0 } });
    next.commands.push(PaintCommand::PushClip(first));
    next.replay_range(&previous, 0..4);

    assert_eq!(next.commands[1], PaintCommand::PushClip(ClipId(1)));
    assert_eq!(next.clips[1].rect, clip_rect);
    assert_eq!(next.clips[0].rect.width, 1.0);
    assert_eq!(next.opacities[0], 0.5);
}
