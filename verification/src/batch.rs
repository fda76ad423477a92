//! Grouping the draw commands of a scene into batches: runs of draws of
//! one kind, under one clip, transform, opacity and layer, naming
//! consecutive primitives.
use vstd::prelude::*;
use core::ops::Range;

use crate::paint_plan::{balanced, open_scopes, step_scope, Scope};
use crate::scene::{ClipId, LayerId, OpacityId, PaintCommand, RectId, PaintScene, ScenePrimitives, TransformId};

verus! {

#[derive(Debug, Clone, Copy, PartialEq, Eq, Structural)]
pub enum BatchKind {
    Rect,
    Text,
    Image,
    Surface,
}

/// What every draw of a batch shares.
#[derive(Debug, Clone, Copy, PartialEq, Eq, Structural)]
pub struct BatchKey {
    pub kind: BatchKind,
    pub clip: Option<ClipId>,
    pub transform: Option<TransformId>,
    pub opacity: Option<OpacityId>,
    pub layer: Option<LayerId>,
    pub texture: Option<u64>,
}

/// The primitives of a batch: a range of entries of one table.
#[derive(Debug, PartialEq, Eq)]
pub enum PrimitiveRange {
    Rects(Range<usize>),
    Texts(Range<usize>),
    Images(Range<usize>),
    Surfaces(Range<usize>),
}

#[derive(Debug, PartialEq, Eq)]
pub struct RenderBatch {
    pub key: BatchKey,
    pub range: PrimitiveRange,
}

#[derive(Debug)]
pub struct RenderBatchList {
    pub batches: Vec<RenderBatch>,
}

#[derive(Debug)]
struct OpenBatch {
    key: BatchKey,
    range: PrimitiveRange,
}

/// Turns a command stream into batches, keeping the clip, transform,
/// opacity and layer stacks and the batch still open.
#[derive(Debug)]
pub struct BatchCompiler {
    clip_stack: Vec<ClipId>,
    transform_stack: Vec<TransformId>,
    opacity_stack: Vec<OpacityId>,
    layer_stack: Vec<LayerId>,
    current: Option<OpenBatch>,
}

/// The compiler's state as the contracts see it.
pub struct CompilerState {
    pub clip: Seq<ClipId>,
    pub transform: Seq<TransformId>,
    pub opacity: Seq<OpacityId>,
    pub layer: Seq<LayerId>,
    pub current: Option<RenderBatch>,
    pub out: Seq<RenderBatch>,
}

pub open spec fn top<A>(s: Seq<A>) -> Option<A> {
    if s.len() > 0 {
        Some(s.last())
    } else {
        None
    }
}

pub open spec fn popped<A>(s: Seq<A>) -> Seq<A> {
    if s.len() > 0 {
        s.drop_last()
    } else {
        s
    }
}

/// The key of a draw of `kind` under the current stacks.
pub open spec fn key_in(st: CompilerState, kind: BatchKind) -> BatchKey {
    BatchKey {
        kind,
        clip: top(st.clip),
        transform: top(st.transform),
        opacity: top(st.opacity),
        layer: top(st.layer),
        texture: None,
    }
}

/// The open batch, if any, moved to the output.
pub open spec fn flushed(st: CompilerState) -> CompilerState {
    match st.current {
        Some(b) => CompilerState { current: None, out: st.out.push(b), ..st },
        None => st,
    }
}

pub open spec fn range_of(kind: BatchKind, r: Range<usize>) -> PrimitiveRange {
    match kind {
        BatchKind::Rect => PrimitiveRange::Rects(r),
        BatchKind::Text => PrimitiveRange::Texts(r),
        BatchKind::Image => PrimitiveRange::Images(r),
        BatchKind::Surface => PrimitiveRange::Surfaces(r),
    }
}

pub open spec fn kind_of(r: PrimitiveRange) -> BatchKind {
    match r {
        PrimitiveRange::Rects(_) => BatchKind::Rect,
        PrimitiveRange::Texts(_) => BatchKind::Text,
        PrimitiveRange::Images(_) => BatchKind::Image,
        PrimitiveRange::Surfaces(_) => BatchKind::Surface,
    }
}

pub open spec fn bounds(r: PrimitiveRange) -> Range<usize> {
    match r {
        PrimitiveRange::Rects(x) => x,
        PrimitiveRange::Texts(x) => x,
        PrimitiveRange::Images(x) => x,
        PrimitiveRange::Surfaces(x) => x,
    }
}

/// `next` joined onto `cur` where both are of one table and `next` starts
/// where `cur` ends.
pub open spec fn joined(cur: PrimitiveRange, next: PrimitiveRange) -> Option<PrimitiveRange> {
    if kind_of(cur) == kind_of(next) && bounds(cur).end == bounds(next).start {
        Some(range_of(kind_of(cur), Range { start: bounds(cur).start, end: bounds(next).end }))
    } else {
        None
    }
}

/// A draw of primitive `index` of `kind`: it joins the open batch where
/// the key is the same and the primitive follows on; else the open batch
/// is closed and a new one opened.
pub open spec fn push_prim(st: CompilerState, kind: BatchKind, index: usize) -> CompilerState {
    let key = key_in(st, kind);
    let next = range_of(kind, Range { start: index, end: (index + 1) as usize });
    match st.current {
        Some(b) => if b.key == key && joined(b.range, next) is Some {
            CompilerState { current: Some(RenderBatch { key, range: joined(b.range, next)->0 }), ..st }
        } else {
            CompilerState { current: Some(RenderBatch { key, range: next }), ..flushed(st) }
        },
        None => CompilerState { current: Some(RenderBatch { key, range: next }), ..flushed(st) },
    }
}

/// One command. A surface is always a batch of its own; every change of
/// clip, transform, opacity or layer closes the open batch.
pub open spec fn step(st: CompilerState, c: PaintCommand) -> CompilerState {
    match c {
        PaintCommand::DrawRect(id) => push_prim(st, BatchKind::Rect, id.0),
        PaintCommand::DrawText(id) => push_prim(st, BatchKind::Text, id.0),
        PaintCommand::DrawImage(id) => push_prim(st, BatchKind::Image, id.0),
        PaintCommand::DrawSurface(id) => {
            let f = flushed(st);
            CompilerState {
                out: f.out.push(
                    RenderBatch {
                        key: key_in(f, BatchKind::Surface),
                        range: PrimitiveRange::Surfaces(Range { start: id.0, end: (id.0 + 1) as usize }),
                    },
                ),
                ..f
            }
        },
        PaintCommand::PushClip(id) => CompilerState { clip: flushed(st).clip.push(id), ..flushed(st) },
        PaintCommand::PopClip => CompilerState { clip: popped(st.clip), ..flushed(st) },
        PaintCommand::PushTransform(id) => CompilerState { transform: st.transform.push(id), ..flushed(st) },
        PaintCommand::PopTransform => CompilerState { transform: popped(st.transform), ..flushed(st) },
        PaintCommand::PushOpacity(id) => CompilerState { opacity: st.opacity.push(id), ..flushed(st) },
        PaintCommand::PopOpacity => CompilerState { opacity: popped(st.opacity), ..flushed(st) },
        PaintCommand::BeginLayer(id) => CompilerState { layer: st.layer.push(id), ..flushed(st) },
        PaintCommand::EndLayer => CompilerState { layer: popped(st.layer), ..flushed(st) },
    }
}

pub open spec fn initial() -> CompilerState {
    CompilerState {
        clip: Seq::empty(),
        transform: Seq::empty(),
        opacity: Seq::empty(),
        layer: Seq::empty(),
        current: None,
        out: Seq::empty(),
    }
}

/// The state after the commands, in order, from the initial state.
pub open spec fn run(cmds: Seq<PaintCommand>) -> CompilerState
    decreases cmds.len(),
{
    if cmds.len() == 0 {
        initial()
    } else {
        step(run(cmds.drop_last()), cmds.last())
    }
}

/// The batches of a command stream.
pub open spec fn compiled(cmds: Seq<PaintCommand>) -> Seq<RenderBatch> {
    flushed(run(cmds)).out
}

/// A pop closes the scope the matching push opened: after a push and its
/// pop, of a clip, transform, opacity or layer, the four stacks are as
/// they were before the push.
pub proof fn lemma_pop_restores_scope(st: CompilerState, c: ClipId, tr: TransformId, o: OpacityId, l: LayerId)
    ensures
        ({
            let a = step(step(st, PaintCommand::PushClip(c)), PaintCommand::PopClip);
            a.clip == st.clip && a.transform == st.transform && a.opacity == st.opacity && a.layer == st.layer
        }),
        ({
            let a = step(step(st, PaintCommand::PushTransform(tr)), PaintCommand::PopTransform);
            a.clip == st.clip && a.transform == st.transform && a.opacity == st.opacity && a.layer == st.layer
        }),
        ({
            let a = step(step(st, PaintCommand::PushOpacity(o)), PaintCommand::PopOpacity);
            a.clip == st.clip && a.transform == st.transform && a.opacity == st.opacity && a.layer == st.layer
        }),
        ({
            let a = step(step(st, PaintCommand::BeginLayer(l)), PaintCommand::EndLayer);
            a.clip == st.clip && a.transform == st.transform && a.opacity == st.opacity && a.layer == st.layer
        }),
{
    assert(flushed(st).clip.push(c).drop_last() =~= st.clip);
    assert(st.transform.push(tr).drop_last() =~= st.transform);
    assert(st.opacity.push(o).drop_last() =~= st.opacity);
    assert(st.layer.push(l).drop_last() =~= st.layer);
}

/// A draw is batched under the clip in force where it is drawn: a rect
/// drawn right after a clip is pushed and popped again ends the batches
/// in a batch of rects whose clip is the one in force before the push
/// (none where no clip was pushed before), and so are the other keys.
pub proof fn lemma_draw_after_popped_clip(cs: Seq<PaintCommand>, c: ClipId, r: RectId)
    ensures
        ({
            let out = compiled(cs + seq![PaintCommand::PushClip(c), PaintCommand::PopClip, PaintCommand::DrawRect(r)]);
            let before = run(cs);
            &&& out.len() > 0
            &&& out.last().key.kind == BatchKind::Rect
            &&& out.last().key.clip == top(before.clip)
            &&& out.last().key.transform == top(before.transform)
            &&& out.last().key.opacity == top(before.opacity)
            &&& out.last().key.layer == top(before.layer)
        }),
{
    let p = PaintCommand::PushClip(c);
    let q = PaintCommand::PopClip;
    let d = PaintCommand::DrawRect(r);
    let x = cs + seq![p, q, d];
    assert(x.drop_last() =~= cs + seq![p, q]);
    assert((cs + seq![p, q]).drop_last() =~= cs + seq![p]);
    assert((cs + seq![p]).drop_last() =~= cs);
    assert(x.last() == d);
    assert((cs + seq![p, q]).last() == q);
    assert((cs + seq![p]).last() == p);
    let before = run(cs);
    let st2 = step(step(before, p), q);
    assert(run(cs + seq![p]) == step(before, p));
    assert(run(cs + seq![p, q]) == st2);
    assert(run(x) == step(st2, d));
    lemma_pop_restores_scope(before, c, TransformId(0), OpacityId(0), LayerId(0));
    assert(run(x).current is Some);
    assert(run(x).current->0.key == key_in(st2, BatchKind::Rect));
}

/// The state after the commands, in order, from `st`.
pub open spec fn run_from(st: CompilerState, cmds: Seq<PaintCommand>) -> CompilerState
    decreases cmds.len(),
{
    if cmds.len() == 0 {
        st
    } else {
        step(run_from(st, cmds.drop_last()), cmds.last())
    }
}

/// How many scopes of kind `k` are open in `sc`.
pub open spec fn scope_count(sc: Seq<Scope>, k: Scope) -> nat
    decreases sc.len(),
{
    if sc.len() == 0 {
        0
    } else {
        scope_count(sc.drop_last(), k) + if sc.last() == k { 1nat } else { 0nat }
    }
}

/// `a` is `base` with `n` more entries on top.
pub open spec fn stacked_on<A>(a: Seq<A>, base: Seq<A>, n: nat) -> bool {
    a.len() == base.len() + n && a.subrange(0, base.len() as int) == base
}

/// Running `cs` then `x` from the start is running `x` from where `cs`
/// left the compiler.
proof fn lemma_run_concat(cs: Seq<PaintCommand>, x: Seq<PaintCommand>)
    ensures
        run(cs + x) == run_from(run(cs), x),
    decreases x.len(),
{
    if x.len() == 0 {
        assert(cs + x =~= cs);
    } else {
        lemma_run_concat(cs, x.drop_last());
        assert((cs + x).drop_last() =~= cs + x.drop_last());
        assert((cs + x).last() == x.last());
    }
}

/// Popping a stack that has entries above `base` leaves `base` below one
/// fewer of them.
proof fn lemma_pop_above<A>(a: Seq<A>, base: Seq<A>, n: nat)
    requires
        stacked_on(a, base, n),
        n > 0,
    ensures
        stacked_on(popped(a), base, (n - 1) as nat),
{
    assert(popped(a).subrange(0, base.len() as int) =~= a.subrange(0, base.len() as int));
}

/// Pushing onto a stack keeps what is below.
proof fn lemma_push_above<A>(a: Seq<A>, base: Seq<A>, n: nat, x: A)
    requires
        stacked_on(a, base, n),
    ensures
        stacked_on(a.push(x), base, n + 1),
{
    assert(a.push(x).subrange(0, base.len() as int) =~= a.subrange(0, base.len() as int));
}

/// Commands that close only scopes they opened leave each of the
/// compiler's stacks as it was, with one entry on top for each scope of
/// that kind still open.
proof fn lemma_stacks_follow_scopes(st: CompilerState, cmds: Seq<PaintCommand>)
    requires
        open_scopes(Seq::empty(), cmds) is Some,
    ensures
        ({
            let sc = open_scopes(Seq::empty(), cmds)->0;
            let r = run_from(st, cmds);
            &&& stacked_on(r.clip, st.clip, scope_count(sc, Scope::Clip))
            &&& stacked_on(r.transform, st.transform, scope_count(sc, Scope::Transform))
            &&& stacked_on(r.opacity, st.opacity, scope_count(sc, Scope::Opacity))
            &&& stacked_on(r.layer, st.layer, scope_count(sc, Scope::Layer))
        }),
    decreases cmds.len(),
{
    if cmds.len() == 0 {
        assert(st.clip.subrange(0, st.clip.len() as int) =~= st.clip);
        assert(st.transform.subrange(0, st.transform.len() as int) =~= st.transform);
        assert(st.opacity.subrange(0, st.opacity.len() as int) =~= st.opacity);
        assert(st.layer.subrange(0, st.layer.len() as int) =~= st.layer);
    } else {
        let pre = cmds.drop_last();
        let c = cmds.last();
        assert(open_scopes(Seq::empty(), pre) is Some);
        lemma_stacks_follow_scopes(st, pre);
        let sc0 = open_scopes(Seq::empty(), pre)->0;
        let sc = open_scopes(Seq::empty(), cmds)->0;
        assert(step_scope(sc0, c) == Some(sc));
        let r0 = run_from(st, pre);
        let r = run_from(st, cmds);
        assert(r == step(r0, c));
        match c {
            PaintCommand::PushClip(id) => {
                assert(sc.drop_last() =~= sc0);
                lemma_push_above(r0.clip, st.clip, scope_count(sc0, Scope::Clip), id);
            },
            PaintCommand::PushTransform(id) => {
                assert(sc.drop_last() =~= sc0);
                lemma_push_above(r0.transform, st.transform, scope_count(sc0, Scope::Transform), id);
            },
            PaintCommand::PushOpacity(id) => {
                assert(sc.drop_last() =~= sc0);
                lemma_push_above(r0.opacity, st.opacity, scope_count(sc0, Scope::Opacity), id);
            },
            PaintCommand::BeginLayer(id) => {
                assert(sc.drop_last() =~= sc0);
                lemma_push_above(r0.layer, st.layer, scope_count(sc0, Scope::Layer), id);
            },
            PaintCommand::PopClip => {
                assert(sc0.drop_last() =~= sc);
                lemma_pop_above(r0.clip, st.clip, scope_count(sc0, Scope::Clip));
            },
            PaintCommand::PopTransform => {
                assert(sc0.drop_last() =~= sc);
                lemma_pop_above(r0.transform, st.transform, scope_count(sc0, Scope::Transform));
            },
            PaintCommand::PopOpacity => {
                assert(sc0.drop_last() =~= sc);
                lemma_pop_above(r0.opacity, st.opacity, scope_count(sc0, Scope::Opacity));
            },
            PaintCommand::EndLayer => {
                assert(sc0.drop_last() =~= sc);
                lemma_pop_above(r0.layer, st.layer, scope_count(sc0, Scope::Layer));
            },
            _ => {},
        }
    }
}

/// Balanced commands leave the clip, transform, opacity and layer stacks
/// as they found them.
pub proof fn lemma_balanced_keeps_stacks(st: CompilerState, body: Seq<PaintCommand>)
    requires
        balanced(body),
    ensures
        run_from(st, body).clip == st.clip,
        run_from(st, body).transform == st.transform,
        run_from(st, body).opacity == st.opacity,
        run_from(st, body).layer == st.layer,
{
    lemma_stacks_follow_scopes(st, body);
    let r = run_from(st, body);
    assert(r.clip =~= r.clip.subrange(0, st.clip.len() as int));
    assert(r.transform =~= r.transform.subrange(0, st.transform.len() as int));
    assert(r.opacity =~= r.opacity.subrange(0, st.opacity.len() as int));
    assert(r.layer =~= r.layer.subrange(0, st.layer.len() as int));
}

/// A pop restores the scope around any balanced body: for any commands
/// `cs`, a rect drawn after `PushClip(c)`, a balanced body and `PopClip`
/// ends the batches in a batch of rects keyed by the clip, transform,
/// opacity and layer in force after `cs`, before the push.
pub proof fn lemma_draw_after_closed_clip(cs: Seq<PaintCommand>, c: ClipId, body: Seq<PaintCommand>, r: RectId)
    requires
        balanced(body),
    ensures
        ({
            let out = compiled(
                cs + seq![PaintCommand::PushClip(c)] + body + seq![PaintCommand::PopClip, PaintCommand::DrawRect(r)],
            );
            let before = run(cs);
            &&& out.len() > 0
            &&& out.last().key.kind == BatchKind::Rect
            &&& out.last().key.clip == top(before.clip)
            &&& out.last().key.transform == top(before.transform)
            &&& out.last().key.opacity == top(before.opacity)
            &&& out.last().key.layer == top(before.layer)
        }),
{
    let p = PaintCommand::PushClip(c);
    let q = PaintCommand::PopClip;
    let d = PaintCommand::DrawRect(r);
    let a = cs + seq![p];
    let b = a + body;
    let x = cs + seq![p] + body + seq![q, d];
    assert(x =~= b + seq![q, d]);
    lemma_run_concat(cs, seq![p]);
    assert(run_from(run(cs), seq![p]) == step(run(cs), p)) by {
        reveal_with_fuel(run_from, 2);
        assert(seq![p].drop_last() =~= Seq::<PaintCommand>::empty());
        assert(seq![p].last() == p);
    }
    let s1 = step(run(cs), p);
    lemma_run_concat(a, body);
    lemma_balanced_keeps_stacks(s1, body);
    let s2 = run(b);
    lemma_run_concat(b, seq![q, d]);
    assert(run_from(s2, seq![q, d]) == step(step(s2, q), d)) by {
        reveal_with_fuel(run_from, 3);
        assert(seq![q, d].drop_last() =~= seq![q]);
        assert(seq![q, d].last() == d);
        assert(seq![q].drop_last() =~= Seq::<PaintCommand>::empty());
        assert(seq![q].last() == q);
    }
    let s3 = step(s2, q);
    assert(flushed(run(cs)).clip.push(c).drop_last() =~= run(cs).clip);
    assert(s3.clip == run(cs).clip);
    assert(run(x).current is Some);
    assert(run(x).current->0.key == key_in(s3, BatchKind::Rect));
}

/// Draw commands name a primitive below `usize::MAX`.
pub open spec fn draw_ids_bounded(cmds: Seq<PaintCommand>) -> bool {
    forall|i: int|
        0 <= i < cmds.len() ==> match #[trigger] cmds[i] {
            PaintCommand::DrawRect(id) => id.0 < usize::MAX,
            PaintCommand::DrawText(id) => id.0 < usize::MAX,
            PaintCommand::DrawImage(id) => id.0 < usize::MAX,
            PaintCommand::DrawSurface(id) => id.0 < usize::MAX,
            _ => true,
        }
}

impl BatchCompiler {
    pub closed spec fn state(&self, out: Seq<RenderBatch>) -> CompilerState {
        CompilerState {
            clip: self.clip_stack@,
            transform: self.transform_stack@,
            opacity: self.opacity_stack@,
            layer: self.layer_stack@,
            current: match self.current {
                Some(b) => Some(RenderBatch { key: b.key, range: b.range }),
                None => None,
            },
            out,
        }
    }

    fn new() -> (r: Self)
        ensures
            r.state(Seq::empty()) == initial(),
    {
        BatchCompiler {
            clip_stack: Vec::new(),
            transform_stack: Vec::new(),
            opacity_stack: Vec::new(),
            layer_stack: Vec::new(),
            current: None,
        }
    }

    /// The batches of the scene's commands.
    pub fn compile<P: ScenePrimitives>(scene: &PaintScene<P>) -> (r: RenderBatchList)
        requires
            draw_ids_bounded(scene.commands@),
        ensures
            r.batches@ == compiled(scene.commands@),
    {
        let mut compiler = Self::new();
        let mut out = RenderBatchList { batches: Vec::new() };
        let mut i: usize = 0;
        while i < scene.commands.len()
            invariant
                i <= scene.commands@.len(),
                draw_ids_bounded(scene.commands@),
                compiler.state(out.batches@) == run(scene.commands@.take(i as int)),
            decreases scene.commands@.len() - i,
        {
            let ghost pre = scene.commands@.take(i as int);
            proof {
                let post = scene.commands@.take(i + 1);
                assert(post.drop_last() =~= pre);
                assert(post.last() == scene.commands@[i as int]);
            }
            compiler.push_command(&scene.commands[i], &mut out);
            i = i + 1;
        }
        proof {
            assert(scene.commands@.take(i as int) =~= scene.commands@);
        }
        compiler.flush(&mut out);
        out
    }

    fn push_command(&mut self, command: &PaintCommand, out: &mut RenderBatchList)
        requires
            match *command {
                PaintCommand::DrawRect(id) => id.0 < usize::MAX,
                PaintCommand::DrawText(id) => id.0 < usize::MAX,
                PaintCommand::DrawImage(id) => id.0 < usize::MAX,
                PaintCommand::DrawSurface(id) => id.0 < usize::MAX,
                _ => true,
            },
        ensures
            final(self).state(final(out).batches@) == step(old(self).state(old(out).batches@), *command),
    {
        match *command {
            PaintCommand::DrawRect(id) => self.push_primitive(BatchKind::Rect, id.0, out),
            PaintCommand::DrawText(id) => self.push_primitive(BatchKind::Text, id.0, out),
            PaintCommand::DrawImage(id) => self.push_primitive(BatchKind::Image, id.0, out),
            PaintCommand::DrawSurface(id) => {
                self.flush(out);
                let key = self.key(BatchKind::Surface);
                out.batches.push(RenderBatch { key, range: PrimitiveRange::Surfaces(id.0..id.0 + 1) });
            },
            PaintCommand::PushClip(id) => {
                self.flush(out);
                self.clip_stack.push(id);
            },
            PaintCommand::PopClip => {
                self.flush(out);
                self.clip_stack.pop();
            },
            PaintCommand::PushTransform(id) => {
                self.flush(out);
                self.transform_stack.push(id);
            },
            PaintCommand::PopTransform => {
                self.flush(out);
                self.transform_stack.pop();
            },
            PaintCommand::PushOpacity(id) => {
                self.flush(out);
                self.opacity_stack.push(id);
            },
            PaintCommand::PopOpacity => {
                self.flush(out);
                self.opacity_stack.pop();
            },
            PaintCommand::BeginLayer(id) => {
                self.flush(out);
                self.layer_stack.push(id);
            },
            PaintCommand::EndLayer => {
                self.flush(out);
                self.layer_stack.pop();
            },
        }
    }

    fn push_primitive(&mut self, kind: BatchKind, index: usize, out: &mut RenderBatchList)
        requires
            index < usize::MAX,
        ensures
            final(self).state(final(out).batches@) == push_prim(old(self).state(old(out).batches@), kind, index),
    {
        let key = self.key(kind);
        let next_range = primitive_range(kind, index..index + 1);
        match &mut self.current {
            Some(current) => {
                if current.key == key && extend_if_adjacent(&mut current.range, &next_range) {
                    return;
                }
            },
            None => {},
        }
        self.flush(out);
        self.current = Some(OpenBatch { key, range: next_range });
    }

    fn key(&self, kind: BatchKind) -> (r: BatchKey)
        ensures
            r == key_in(self.state(Seq::empty()), kind),
    {
        BatchKey {
            kind,
            clip: last_of(&self.clip_stack),
            transform: last_of(&self.transform_stack),
            opacity: last_of(&self.opacity_stack),
            layer: last_of(&self.layer_stack),
            texture: None,
        }
    }

    fn flush(&mut self, out: &mut RenderBatchList)
        ensures
            final(self).state(final(out).batches@) == flushed(old(self).state(old(out).batches@)),
    {
        match self.current.take() {
            Some(current) => {
                out.batches.push(RenderBatch { key: current.key, range: current.range });
            },
            None => {},
        }
    }
}

fn last_of<A: Copy>(v: &Vec<A>) -> (r: Option<A>)
    ensures
        r == top(v@),
{
    if v.len() > 0 {
        Some(v[v.len() - 1])
    } else {
        None
    }
}

fn primitive_range(kind: BatchKind, range: Range<usize>) -> (r: PrimitiveRange)
    ensures
        r == range_of(kind, range),
{
    match kind {
        BatchKind::Rect => PrimitiveRange::Rects(range),
        BatchKind::Text => PrimitiveRange::Texts(range),
        BatchKind::Image => PrimitiveRange::Images(range),
        BatchKind::Surface => PrimitiveRange::Surfaces(range),
    }
}

/// Joins `next` onto `current` where both name one table and `next`
/// starts where `current` ends; says whether it did.
fn extend_if_adjacent(current: &mut PrimitiveRange, next: &PrimitiveRange) -> (r: bool)
    ensures
        r == (joined(*old(current), *next) is Some),
        r ==> *final(current) == joined(*old(current), *next)->0,
        !r ==> *final(current) == *old(current),
{
    match current {
        PrimitiveRange::Rects(c) => match next {
            PrimitiveRange::Rects(n) => if c.end == n.start {
                c.end = n.end;
                true
            } else {
                false
            },
            _ => false,
        },
        PrimitiveRange::Texts(c) => match next {
            PrimitiveRange::Texts(n) => if c.end == n.start {
                c.end = n.end;
                true
            } else {
                false
            },
            _ => false,
        },
        PrimitiveRange::Images(c) => match next {
            PrimitiveRange::Images(n) => if c.end == n.start {
                c.end = n.end;
                true
            } else {
                false
            },
            _ => false,
        },
        PrimitiveRange::Surfaces(c) => match next {
            PrimitiveRange::Surfaces(n) => if c.end == n.start {
                c.end = n.end;
                true
            } else {
                false
            },
            _ => false,
        },
    }
}

} // verus!

verus! {

/// The primitive a command draws, if it draws one.
pub open spec fn draw_of(c: PaintCommand) -> Option<(BatchKind, usize)> {
    match c {
        PaintCommand::DrawRect(id) => Some((BatchKind::Rect, id.0)),
        PaintCommand::DrawText(id) => Some((BatchKind::Text, id.0)),
        PaintCommand::DrawImage(id) => Some((BatchKind::Image, id.0)),
        PaintCommand::DrawSurface(id) => Some((BatchKind::Surface, id.0)),
        _ => None,
    }
}

/// The primitives the commands draw, in order.
pub open spec fn draws(cmds: Seq<PaintCommand>) -> Seq<(BatchKind, usize)>
    decreases cmds.len(),
{
    if cmds.len() == 0 {
        Seq::empty()
    } else {
        match draw_of(cmds.last()) {
            Some(d) => draws(cmds.drop_last()).push(d),
            None => draws(cmds.drop_last()),
        }
    }
}

/// The primitives a range names, in order.
pub open spec fn expand_range(r: PrimitiveRange) -> Seq<(BatchKind, usize)> {
    Seq::new((bounds(r).end - bounds(r).start) as nat, |j: int| (kind_of(r), (bounds(r).start + j) as usize))
}

/// The primitives the batches draw, batch after batch.
pub open spec fn expand(bs: Seq<RenderBatch>) -> Seq<(BatchKind, usize)>
    decreases bs.len(),
{
    if bs.len() == 0 {
        Seq::empty()
    } else {
        expand(bs.drop_last()) + expand_range(bs.last().range)
    }
}

/// A batch names at least one primitive, of the kind its key says.
pub open spec fn batch_ok(b: RenderBatch) -> bool {
    &&& bounds(b.range).start < bounds(b.range).end
    &&& kind_of(b.range) == b.key.kind
}

pub open spec fn expand_state(st: CompilerState) -> Seq<(BatchKind, usize)> {
    expand(st.out) + match st.current {
        Some(b) => expand_range(b.range),
        None => Seq::empty(),
    }
}

pub open spec fn state_ok(st: CompilerState) -> bool {
    &&& forall|i: int| 0 <= i < st.out.len() ==> batch_ok(#[trigger] st.out[i])
    &&& match st.current {
        Some(b) => batch_ok(b),
        None => true,
    }
}

proof fn lemma_flushed(st: CompilerState)
    requires
        state_ok(st),
    ensures
        state_ok(flushed(st)),
        expand_state(flushed(st)) == expand_state(st),
        flushed(st).current is None,
{
    match st.current {
        Some(b) => {
            let f = flushed(st);
            assert(f.out.drop_last() =~= st.out);
            assert forall|i: int| 0 <= i < f.out.len() implies batch_ok(#[trigger] f.out[i]) by {
                if i < st.out.len() {
                    assert(f.out[i] == st.out[i]);
                }
            }
            assert(expand_state(f) =~= expand_state(st));
        },
        None => {},
    }
}

proof fn lemma_step(st: CompilerState, c: PaintCommand)
    requires
        state_ok(st),
        match c {
            PaintCommand::DrawRect(id) => id.0 < usize::MAX,
            PaintCommand::DrawText(id) => id.0 < usize::MAX,
            PaintCommand::DrawImage(id) => id.0 < usize::MAX,
            PaintCommand::DrawSurface(id) => id.0 < usize::MAX,
            _ => true,
        },
    ensures
        state_ok(step(st, c)),
        expand_state(step(st, c)) == expand_state(st) + match draw_of(c) {
            Some(d) => seq![d],
            None => Seq::empty(),
        },
{
    lemma_flushed(st);
    let f = flushed(st);
    match draw_of(c) {
        Some((kind, index)) => {
            let key = key_in(st, kind);
            let next = range_of(kind, Range { start: index, end: (index + 1) as usize });
            assert(expand_range(next) =~= seq![(kind, index)]);
            if kind == BatchKind::Surface {
                let s2 = step(st, c);
                let b = RenderBatch { key: key_in(f, BatchKind::Surface), range: next };
                assert(s2.out == f.out.push(b));
                assert(s2.out.drop_last() =~= f.out);
                assert forall|i: int| 0 <= i < s2.out.len() implies batch_ok(#[trigger] s2.out[i]) by {
                    if i < f.out.len() {
                        assert(s2.out[i] == f.out[i]);
                    }
                }
                assert(expand_state(s2) =~= expand_state(st) + seq![(kind, index)]);
            } else {
                assert(step(st, c) == push_prim(st, kind, index));
                match st.current {
                    Some(b) => {
                        if b.key == key && joined(b.range, next) is Some {
                            let j = joined(b.range, next)->0;
                            assert(expand_range(j) =~= expand_range(b.range) + seq![(kind, index)]);
                            assert(expand_state(step(st, c)) =~= expand_state(st) + seq![(kind, index)]);
                        } else {
                            assert(expand_state(step(st, c)) =~= expand_state(f) + seq![(kind, index)]);
                        }
                    },
                    None => {
                        assert(expand_state(step(st, c)) =~= expand_state(f) + seq![(kind, index)]);
                    },
                }
            }
        },
        None => {
            assert(expand_state(step(st, c)) =~= expand_state(f));
            assert(expand_state(st) + Seq::<(BatchKind, usize)>::empty() =~= expand_state(st));
        },
    }
}

proof fn lemma_run(cmds: Seq<PaintCommand>)
    requires
        draw_ids_bounded(cmds),
    ensures
        state_ok(run(cmds)),
        expand_state(run(cmds)) == draws(cmds),
    decreases cmds.len(),
{
    if cmds.len() == 0 {
        assert(expand_state(run(cmds)) =~= draws(cmds));
    } else {
        let pre = cmds.drop_last();
        assert forall|i: int| 0 <= i < pre.len() implies match #[trigger] pre[i] {
            PaintCommand::DrawRect(id) => id.0 < usize::MAX,
            PaintCommand::DrawText(id) => id.0 < usize::MAX,
            PaintCommand::DrawImage(id) => id.0 < usize::MAX,
            PaintCommand::DrawSurface(id) => id.0 < usize::MAX,
            _ => true,
        } by {
            assert(pre[i] == cmds[i]);
        }
        lemma_run(pre);
        assert(cmds[cmds.len() - 1] == cmds.last());
        lemma_step(run(pre), cmds.last());
        match draw_of(cmds.last()) {
            Some(d) => {},
            None => {
                assert(draws(pre) + Seq::<(BatchKind, usize)>::empty() =~= draws(pre));
            },
        }
    }
}

/// Batching neither drops, repeats nor reorders a draw: the batches, one
/// after the other, draw exactly the primitives the commands draw, in
/// command order; and every batch names at least one primitive, of the
/// kind its key says.
pub proof fn lemma_batches_cover_draws(cmds: Seq<PaintCommand>)
    requires
        draw_ids_bounded(cmds),
    ensures
        expand(compiled(cmds)) == draws(cmds),
        forall|i: int| 0 <= i < compiled(cmds).len() ==> batch_ok(#[trigger] compiled(cmds)[i]),
{
    lemma_run(cmds);
    lemma_flushed(run(cmds));
    let f = flushed(run(cmds));
    assert(expand_state(f) =~= expand(f.out));
}

/// A change of clip, transform, opacity or layer closes the open batch, so
/// no batch spans one.
pub proof fn lemma_state_change_closes_batch(st: CompilerState, c: PaintCommand)
    requires
        draw_of(c) is None,
    ensures
        step(st, c).current is None,
        step(st, c).out == flushed(st).out,
{
}

} // verus!
