//! The paint scene: a stream of paint commands that name primitives kept
//! in typed tables, one table per kind of primitive.
use vstd::prelude::*;
use core::ops::Range;

verus! {

#[derive(Debug, Clone, Copy, PartialEq, Eq, Hash, Structural)]
pub struct RectId(pub usize);

#[derive(Debug, Clone, Copy, PartialEq, Eq, Hash, Structural)]
pub struct TextId(pub usize);

#[derive(Debug, Clone, Copy, PartialEq, Eq, Hash, Structural)]
pub struct ImageId(pub usize);

#[derive(Debug, Clone, Copy, PartialEq, Eq, Hash, Structural)]
pub struct SurfaceId(pub usize);

#[derive(Debug, Clone, Copy, PartialEq, Eq, Hash, Structural)]
pub struct ClipId(pub usize);

#[derive(Debug, Clone, Copy, PartialEq, Eq, Hash, Structural)]
pub struct TransformId(pub usize);

#[derive(Debug, Clone, Copy, PartialEq, Eq, Hash, Structural)]
pub struct OpacityId(pub usize);

#[derive(Debug, Clone, Copy, PartialEq, Eq, Hash, Structural)]
pub struct LayerId(pub usize);

/// One step of painting: draw a primitive, or enter or leave a clip,
/// transform, opacity or layer.
#[derive(Debug, Clone, Copy, PartialEq, Eq, Structural)]
pub enum PaintCommand {
    DrawRect(RectId),
    DrawText(TextId),
    DrawImage(ImageId),
    DrawSurface(SurfaceId),
    PushClip(ClipId),
    PopClip,
    PushTransform(TransformId),
    PopTransform,
    PushOpacity(OpacityId),
    PopOpacity,
    BeginLayer(LayerId),
    EndLayer,
}

/// The tables of a scene.
#[derive(Debug, Clone, Copy, PartialEq, Eq, Structural)]
pub enum Table {
    Rects,
    Texts,
    Images,
    Surfaces,
    Clips,
    Transforms,
    Opacities,
    Layers,
}

/// The table a command names an entry of, and the entry; none for pops.
pub open spec fn cmd_entry(c: PaintCommand) -> Option<(Table, usize)> {
    match c {
        PaintCommand::DrawRect(id) => Some((Table::Rects, id.0)),
        PaintCommand::DrawText(id) => Some((Table::Texts, id.0)),
        PaintCommand::DrawImage(id) => Some((Table::Images, id.0)),
        PaintCommand::DrawSurface(id) => Some((Table::Surfaces, id.0)),
        PaintCommand::PushClip(id) => Some((Table::Clips, id.0)),
        PaintCommand::PushTransform(id) => Some((Table::Transforms, id.0)),
        PaintCommand::PushOpacity(id) => Some((Table::Opacities, id.0)),
        PaintCommand::BeginLayer(id) => Some((Table::Layers, id.0)),
        _ => None,
    }
}

/// The same command naming entry `id` of its table.
pub open spec fn with_entry(c: PaintCommand, id: usize) -> PaintCommand {
    match c {
        PaintCommand::DrawRect(_) => PaintCommand::DrawRect(RectId(id)),
        PaintCommand::DrawText(_) => PaintCommand::DrawText(TextId(id)),
        PaintCommand::DrawImage(_) => PaintCommand::DrawImage(ImageId(id)),
        PaintCommand::DrawSurface(_) => PaintCommand::DrawSurface(SurfaceId(id)),
        PaintCommand::PushClip(_) => PaintCommand::PushClip(ClipId(id)),
        PaintCommand::PushTransform(_) => PaintCommand::PushTransform(TransformId(id)),
        PaintCommand::PushOpacity(_) => PaintCommand::PushOpacity(OpacityId(id)),
        PaintCommand::BeginLayer(_) => PaintCommand::BeginLayer(LayerId(id)),
        _ => c,
    }
}

/// The entries of table `k` that `cmds` name, in order.
pub open spec fn entries(cmds: Seq<PaintCommand>, k: Table) -> Seq<usize>
    decreases cmds.len(),
{
    if cmds.len() == 0 {
        Seq::empty()
    } else {
        let rest = entries(cmds.drop_last(), k);
        match cmd_entry(cmds.last()) {
            Some((t, id)) => if t == k {
                rest.push(id)
            } else {
                rest
            },
            None => rest,
        }
    }
}

/// `cmds` with each named entry renumbered to follow on from `base`: the
/// n-th command naming table `k` names entry `base(k) + n`.
pub open spec fn renumber(cmds: Seq<PaintCommand>, base: spec_fn(Table) -> nat) -> Seq<PaintCommand>
    decreases cmds.len(),
{
    if cmds.len() == 0 {
        Seq::empty()
    } else {
        let rest = renumber(cmds.drop_last(), base);
        let c = cmds.last();
        match cmd_entry(c) {
            Some((t, _)) => rest.push(with_entry(c, (base(t) + entries(cmds.drop_last(), t).len()) as usize)),
            None => rest.push(c),
        }
    }
}

/// Every command of `cmds` names an entry that its table has.
pub open spec fn entries_in(cmds: Seq<PaintCommand>, len: spec_fn(Table) -> nat) -> bool {
    forall|i: int|
        0 <= i < cmds.len() ==> match cmd_entry(#[trigger] cmds[i]) {
            Some((t, id)) => id < len(t),
            None => true,
        }
}

/// A table grown by clones of the entries `ids` of `source`.
pub open spec fn grown_by<V: Clone>(old: Seq<V>, new: Seq<V>, source: Seq<V>, ids: Seq<usize>) -> bool {
    &&& new.len() == old.len() + ids.len()
    &&& forall|j: int| 0 <= j < old.len() ==> new[j] == old[j]
    &&& forall|j: int| 0 <= j < ids.len() ==> cloned(source[ids[j] as int], #[trigger] new[old.len() + j])
}

/// A table grown by copies of the entries `ids` of `source`.
pub open spec fn grown_copy<V>(old: Seq<V>, new: Seq<V>, source: Seq<V>, ids: Seq<usize>) -> bool {
    &&& new.len() == old.len() + ids.len()
    &&& forall|j: int| 0 <= j < old.len() ==> new[j] == old[j]
    &&& forall|j: int| 0 <= j < ids.len() ==> #[trigger] new[old.len() + j] == source[ids[j] as int]
}

/// The types of the primitives a scene holds, one per table. Surfaces and
/// the clip, transform, opacity and layer states are plain values, copied
/// as they are.
pub trait ScenePrimitives {
    type Rect: Clone;
    type Text: Clone;
    type Image: Clone;
    type Surface: Copy;
    type Clip: Copy;
    type Transform: Copy;
    type Opacity: Copy;
    type Layer: Copy;
}

/// A paint scene: commands, and the tables of primitives they name.
pub struct PaintScene<P: ScenePrimitives> {
    pub commands: Vec<PaintCommand>,
    pub rects: Vec<P::Rect>,
    pub texts: Vec<P::Text>,
    pub images: Vec<P::Image>,
    pub surfaces: Vec<P::Surface>,
    pub clips: Vec<P::Clip>,
    pub transforms: Vec<P::Transform>,
    pub opacities: Vec<P::Opacity>,
    pub layers: Vec<P::Layer>,
}

impl<P: ScenePrimitives> PaintScene<P> {
    /// The number of entries of table `k`.
    pub open spec fn table_len(&self, k: Table) -> nat {
        match k {
            Table::Rects => self.rects@.len(),
            Table::Texts => self.texts@.len(),
            Table::Images => self.images@.len(),
            Table::Surfaces => self.surfaces@.len(),
            Table::Clips => self.clips@.len(),
            Table::Transforms => self.transforms@.len(),
            Table::Opacities => self.opacities@.len(),
            Table::Layers => self.layers@.len(),
        }
    }

    /// Every command names an entry its table has.
    pub open spec fn well_formed(&self) -> bool {
        entries_in(self.commands@, |k: Table| self.table_len(k))
    }

    /// An empty scene.
    pub fn new() -> (r: Self)
        ensures
            r.commands@.len() == 0,
            forall|k: Table| #[trigger] r.table_len(k) == 0,
            r.well_formed(),
    {
        PaintScene {
            commands: Vec::new(),
            rects: Vec::new(),
            texts: Vec::new(),
            images: Vec::new(),
            surfaces: Vec::new(),
            clips: Vec::new(),
            transforms: Vec::new(),
            opacities: Vec::new(),
            layers: Vec::new(),
        }
    }

    /// The number of commands.
    pub fn command_len(&self) -> (r: usize)
        ensures
            r == self.commands@.len(),
    {
        self.commands.len()
    }

    /// Adds a rectangle; returns its id, the old number of rectangles.
    pub fn push_rect(&mut self, primitive: P::Rect) -> (r: RectId)
        ensures
            r.0 == old(self).rects@.len(),
            final(self).rects@ == old(self).rects@.push(primitive),
            final(self).commands@ == old(self).commands@,
            final(self).texts@ == old(self).texts@,
            final(self).images@ == old(self).images@,
            final(self).surfaces@ == old(self).surfaces@,
            final(self).clips@ == old(self).clips@,
            final(self).transforms@ == old(self).transforms@,
            final(self).opacities@ == old(self).opacities@,
            final(self).layers@ == old(self).layers@,
            old(self).well_formed() ==> final(self).well_formed(),
    {
        let ghost before = *self;
        let id = RectId(self.rects.len());
        self.rects.push(primitive);
        proof {
            lemma_entries_in_grow(self.commands@, |k: Table| before.table_len(k), |k: Table| self.table_len(k));
        }
        id
    }

    /// Adds a text run; returns its id, the old number of texts.
    pub fn push_text(&mut self, primitive: P::Text) -> (r: TextId)
        ensures
            r.0 == old(self).texts@.len(),
            final(self).texts@ == old(self).texts@.push(primitive),
            final(self).commands@ == old(self).commands@,
            final(self).rects@ == old(self).rects@,
            final(self).images@ == old(self).images@,
            final(self).surfaces@ == old(self).surfaces@,
            final(self).clips@ == old(self).clips@,
            final(self).transforms@ == old(self).transforms@,
            final(self).opacities@ == old(self).opacities@,
            final(self).layers@ == old(self).layers@,
            old(self).well_formed() ==> final(self).well_formed(),
    {
        let ghost before = *self;
        let id = TextId(self.texts.len());
        self.texts.push(primitive);
        proof {
            lemma_entries_in_grow(self.commands@, |k: Table| before.table_len(k), |k: Table| self.table_len(k));
        }
        id
    }

    /// Adds an image; returns its id, the old number of images.
    pub fn push_image(&mut self, primitive: P::Image) -> (r: ImageId)
        ensures
            r.0 == old(self).images@.len(),
            final(self).images@ == old(self).images@.push(primitive),
            final(self).commands@ == old(self).commands@,
            final(self).rects@ == old(self).rects@,
            final(self).texts@ == old(self).texts@,
            final(self).surfaces@ == old(self).surfaces@,
            final(self).clips@ == old(self).clips@,
            final(self).transforms@ == old(self).transforms@,
            final(self).opacities@ == old(self).opacities@,
            final(self).layers@ == old(self).layers@,
            old(self).well_formed() ==> final(self).well_formed(),
    {
        let ghost before = *self;
        let id = ImageId(self.images.len());
        self.images.push(primitive);
        proof {
            lemma_entries_in_grow(self.commands@, |k: Table| before.table_len(k), |k: Table| self.table_len(k));
        }
        id
    }

    /// Adds a surface; returns its id, the old number of surfaces.
    pub fn push_surface(&mut self, primitive: P::Surface) -> (r: SurfaceId)
        ensures
            r.0 == old(self).surfaces@.len(),
            final(self).surfaces@ == old(self).surfaces@.push(primitive),
            final(self).commands@ == old(self).commands@,
            final(self).rects@ == old(self).rects@,
            final(self).texts@ == old(self).texts@,
            final(self).images@ == old(self).images@,
            final(self).clips@ == old(self).clips@,
            final(self).transforms@ == old(self).transforms@,
            final(self).opacities@ == old(self).opacities@,
            final(self).layers@ == old(self).layers@,
            old(self).well_formed() ==> final(self).well_formed(),
    {
        let ghost before = *self;
        let id = SurfaceId(self.surfaces.len());
        self.surfaces.push(primitive);
        proof {
            lemma_entries_in_grow(self.commands@, |k: Table| before.table_len(k), |k: Table| self.table_len(k));
        }
        id
    }

    /// Adds a clip state; returns its id, the old number of clips.
    pub fn push_clip(&mut self, state: P::Clip) -> (r: ClipId)
        ensures
            r.0 == old(self).clips@.len(),
            final(self).clips@ == old(self).clips@.push(state),
            final(self).commands@ == old(self).commands@,
            final(self).rects@ == old(self).rects@,
            final(self).texts@ == old(self).texts@,
            final(self).images@ == old(self).images@,
            final(self).surfaces@ == old(self).surfaces@,
            final(self).transforms@ == old(self).transforms@,
            final(self).opacities@ == old(self).opacities@,
            final(self).layers@ == old(self).layers@,
            old(self).well_formed() ==> final(self).well_formed(),
    {
        let ghost before = *self;
        let id = ClipId(self.clips.len());
        self.clips.push(state);
        proof {
            lemma_entries_in_grow(self.commands@, |k: Table| before.table_len(k), |k: Table| self.table_len(k));
        }
        id
    }

    /// Adds a transform state; returns its id, the old number of transforms.
    pub fn push_transform(&mut self, state: P::Transform) -> (r: TransformId)
        ensures
            r.0 == old(self).transforms@.len(),
            final(self).transforms@ == old(self).transforms@.push(state),
            final(self).commands@ == old(self).commands@,
            final(self).rects@ == old(self).rects@,
            final(self).texts@ == old(self).texts@,
            final(self).images@ == old(self).images@,
            final(self).surfaces@ == old(self).surfaces@,
            final(self).clips@ == old(self).clips@,
            final(self).opacities@ == old(self).opacities@,
            final(self).layers@ == old(self).layers@,
            old(self).well_formed() ==> final(self).well_formed(),
    {
        let ghost before = *self;
        let id = TransformId(self.transforms.len());
        self.transforms.push(state);
        proof {
            lemma_entries_in_grow(self.commands@, |k: Table| before.table_len(k), |k: Table| self.table_len(k));
        }
        id
    }

    /// Adds an opacity state; returns its id, the old number of opacities.
    pub fn push_opacity(&mut self, state: P::Opacity) -> (r: OpacityId)
        ensures
            r.0 == old(self).opacities@.len(),
            final(self).opacities@ == old(self).opacities@.push(state),
            final(self).commands@ == old(self).commands@,
            final(self).rects@ == old(self).rects@,
            final(self).texts@ == old(self).texts@,
            final(self).images@ == old(self).images@,
            final(self).surfaces@ == old(self).surfaces@,
            final(self).clips@ == old(self).clips@,
            final(self).transforms@ == old(self).transforms@,
            final(self).layers@ == old(self).layers@,
            old(self).well_formed() ==> final(self).well_formed(),
    {
        let ghost before = *self;
        let id = OpacityId(self.opacities.len());
        self.opacities.push(state);
        proof {
            lemma_entries_in_grow(self.commands@, |k: Table| before.table_len(k), |k: Table| self.table_len(k));
        }
        id
    }

    /// Adds a layer state; returns its id, the old number of layers.
    pub fn push_layer(&mut self, state: P::Layer) -> (r: LayerId)
        ensures
            r.0 == old(self).layers@.len(),
            final(self).layers@ == old(self).layers@.push(state),
            final(self).commands@ == old(self).commands@,
            final(self).rects@ == old(self).rects@,
            final(self).texts@ == old(self).texts@,
            final(self).images@ == old(self).images@,
            final(self).surfaces@ == old(self).surfaces@,
            final(self).clips@ == old(self).clips@,
            final(self).transforms@ == old(self).transforms@,
            final(self).opacities@ == old(self).opacities@,
            old(self).well_formed() ==> final(self).well_formed(),
    {
        let ghost before = *self;
        let id = LayerId(self.layers.len());
        self.layers.push(state);
        proof {
            lemma_entries_in_grow(self.commands@, |k: Table| before.table_len(k), |k: Table| self.table_len(k));
        }
        id
    }

    /// Appends the commands `range` of `previous`, copying each primitive
    /// they name into this scene's tables and renumbering the commands to
    /// name the copies.
    pub fn replay_range(&mut self, previous: &PaintScene<P>, range: Range<usize>)
        requires
            range.start <= range.end <= previous.commands@.len(),
            entries_in(previous.commands@.subrange(range.start as int, range.end as int), |k: Table| previous.table_len(k)),
        ensures
            final(self).commands@ == old(self).commands@ + renumber(
                previous.commands@.subrange(range.start as int, range.end as int),
                |k: Table| old(self).table_len(k),
            ),
            grown_by(old(self).rects@, final(self).rects@, previous.rects@, entries(previous.commands@.subrange(range.start as int, range.end as int), Table::Rects)),
            grown_by(old(self).texts@, final(self).texts@, previous.texts@, entries(previous.commands@.subrange(range.start as int, range.end as int), Table::Texts)),
            grown_by(old(self).images@, final(self).images@, previous.images@, entries(previous.commands@.subrange(range.start as int, range.end as int), Table::Images)),
            grown_copy(old(self).surfaces@, final(self).surfaces@, previous.surfaces@, entries(previous.commands@.subrange(range.start as int, range.end as int), Table::Surfaces)),
            grown_copy(old(self).clips@, final(self).clips@, previous.clips@, entries(previous.commands@.subrange(range.start as int, range.end as int), Table::Clips)),
            grown_copy(old(self).transforms@, final(self).transforms@, previous.transforms@, entries(previous.commands@.subrange(range.start as int, range.end as int), Table::Transforms)),
            grown_copy(old(self).opacities@, final(self).opacities@, previous.opacities@, entries(previous.commands@.subrange(range.start as int, range.end as int), Table::Opacities)),
            grown_copy(old(self).layers@, final(self).layers@, previous.layers@, entries(previous.commands@.subrange(range.start as int, range.end as int), Table::Layers)),
            old(self).well_formed() ==> final(self).well_formed(),
    {
        let ghost old_scene = *self;
        let ghost base = |k: Table| old_scene.table_len(k);
        let start = range.start;
        let end = range.end;
        let mut i = start;
        proof {
            assert(previous.commands@.subrange(start as int, start as int) =~= Seq::<PaintCommand>::empty());
        }
        while i < end
            invariant
                start <= i <= end <= previous.commands@.len(),
                base == (|k: Table| old_scene.table_len(k)),
                entries_in(previous.commands@.subrange(start as int, end as int), |k: Table| previous.table_len(k)),
                self.commands@ == old_scene.commands@ + renumber(previous.commands@.subrange(start as int, i as int), base),
                forall|k: Table| #[trigger] self.table_len(k) == base(k) + entries(previous.commands@.subrange(start as int, i as int), k).len(),
                grown_by(old_scene.rects@, self.rects@, previous.rects@, entries(previous.commands@.subrange(start as int, i as int), Table::Rects)),
                grown_by(old_scene.texts@, self.texts@, previous.texts@, entries(previous.commands@.subrange(start as int, i as int), Table::Texts)),
                grown_by(old_scene.images@, self.images@, previous.images@, entries(previous.commands@.subrange(start as int, i as int), Table::Images)),
                grown_copy(old_scene.surfaces@, self.surfaces@, previous.surfaces@, entries(previous.commands@.subrange(start as int, i as int), Table::Surfaces)),
                grown_copy(old_scene.clips@, self.clips@, previous.clips@, entries(previous.commands@.subrange(start as int, i as int), Table::Clips)),
                grown_copy(old_scene.transforms@, self.transforms@, previous.transforms@, entries(previous.commands@.subrange(start as int, i as int), Table::Transforms)),
                grown_copy(old_scene.opacities@, self.opacities@, previous.opacities@, entries(previous.commands@.subrange(start as int, i as int), Table::Opacities)),
                grown_copy(old_scene.layers@, self.layers@, previous.layers@, entries(previous.commands@.subrange(start as int, i as int), Table::Layers)),
            decreases end - i,
        {
            let command = previous.commands[i];
            let ghost pre = previous.commands@.subrange(start as int, i as int);
            let ghost post = previous.commands@.subrange(start as int, i + 1);
            proof {
                assert(post.drop_last() =~= pre);
                assert(post.last() == command);
                assert(previous.commands@.subrange(start as int, end as int)[i - start] == command);
                assert(forall|k: Table| #[trigger] self.table_len(k) == base(k) + entries(pre, k).len());
            }
            let next = match command {
                PaintCommand::DrawRect(id) => {
                    let next = self.push_rect(previous.rects[id.0].clone());
                    PaintCommand::DrawRect(next)
                },
                PaintCommand::DrawText(id) => {
                    let next = self.push_text(previous.texts[id.0].clone());
                    PaintCommand::DrawText(next)
                },
                PaintCommand::DrawImage(id) => {
                    let next = self.push_image(previous.images[id.0].clone());
                    PaintCommand::DrawImage(next)
                },
                PaintCommand::DrawSurface(id) => {
                    let next = self.push_surface(previous.surfaces[id.0]);
                    PaintCommand::DrawSurface(next)
                },
                PaintCommand::PushClip(id) => {
                    let next = self.push_clip(previous.clips[id.0]);
                    PaintCommand::PushClip(next)
                },
                PaintCommand::PushTransform(id) => {
                    let next = self.push_transform(previous.transforms[id.0]);
                    PaintCommand::PushTransform(next)
                },
                PaintCommand::PushOpacity(id) => {
                    let next = self.push_opacity(previous.opacities[id.0]);
                    PaintCommand::PushOpacity(next)
                },
                PaintCommand::BeginLayer(id) => {
                    let next = self.push_layer(previous.layers[id.0]);
                    PaintCommand::BeginLayer(next)
                },
                PaintCommand::PopClip => PaintCommand::PopClip,
                PaintCommand::PopTransform => PaintCommand::PopTransform,
                PaintCommand::PopOpacity => PaintCommand::PopOpacity,
                PaintCommand::EndLayer => PaintCommand::EndLayer,
            };
            self.commands.push(next);
            proof {
                assert(renumber(post, base) == renumber(pre, base).push(next));
                assert(self.commands@ =~= old_scene.commands@ + renumber(post, base));
                assert forall|k: Table| #[trigger] self.table_len(k) == base(k) + entries(post, k).len() by {
                    assert(entries(post, k) == (match cmd_entry(command) {
                        Some((t, id)) => if t == k { entries(pre, k).push(id) } else { entries(pre, k) },
                        None => entries(pre, k),
                    }));
                }
            }
            i = i + 1;
        }
        proof {
            let sub = previous.commands@.subrange(start as int, end as int);
            let new_len = |k: Table| self.table_len(k);
            assert forall|k: Table| #[trigger] new_len(k) <= usize::MAX by {
                assert(self.rects@.len() == self.rects.len());
                assert(self.texts@.len() == self.texts.len());
                assert(self.images@.len() == self.images.len());
                assert(self.surfaces@.len() == self.surfaces.len());
                assert(self.clips@.len() == self.clips.len());
                assert(self.transforms@.len() == self.transforms.len());
                assert(self.opacities@.len() == self.opacities.len());
                assert(self.layers@.len() == self.layers.len());
            }
            assert forall|k: Table| #[trigger] new_len(k) == base(k) + entries(sub, k).len() by {
                assert(self.table_len(k) == base(k) + entries(sub, k).len());
            }
            if old_scene.well_formed() {
                lemma_replay_keeps_well_formed(old_scene.commands@, sub, base, new_len);
                assert(entries_in(self.commands@, new_len));
            }
        }
    }
}

/// Commands that name entries below some table lengths still do so when
/// the tables grow.
proof fn lemma_entries_in_grow(cmds: Seq<PaintCommand>, a: spec_fn(Table) -> nat, b: spec_fn(Table) -> nat)
    requires
        forall|k: Table| #[trigger] a(k) <= b(k),
    ensures
        entries_in(cmds, a) ==> entries_in(cmds, b),
{
    if entries_in(cmds, a) {
        assert forall|i: int| 0 <= i < cmds.len() implies match cmd_entry(#[trigger] cmds[i]) {
            Some((t, id)) => id < b(t),
            None => true,
        } by {
            match cmd_entry(cmds[i]) {
                Some((t, id)) => {
                    assert(a(t) <= b(t));
                },
                None => {},
            }
        }
    }
}

/// The commands of `cmds`, renumbered to follow on from `base`, name
/// entries below `base` grown by the entries `cmds` names.
proof fn lemma_renumber_in(cmds: Seq<PaintCommand>, base: spec_fn(Table) -> nat)
    requires
        forall|k: Table| #[trigger] base(k) + entries(cmds, k).len() <= usize::MAX,
    ensures
        renumber(cmds, base).len() == cmds.len(),
        entries_in(renumber(cmds, base), |k: Table| base(k) + entries(cmds, k).len()),
    decreases cmds.len(),
{
    if cmds.len() > 0 {
        let pre = cmds.drop_last();
        let c = cmds.last();
        assert forall|k: Table| #[trigger] entries(pre, k).len() <= entries(cmds, k).len() by {
            assert(entries(cmds, k) == (match cmd_entry(c) {
                Some((t, id)) => if t == k { entries(pre, k).push(id) } else { entries(pre, k) },
                None => entries(pre, k),
            }));
        }
        assert forall|k: Table| #[trigger] base(k) + entries(pre, k).len() <= usize::MAX by {
            assert(entries(pre, k).len() <= entries(cmds, k).len());
        }
        lemma_renumber_in(pre, base);
        let r = renumber(cmds, base);
        let rp = renumber(pre, base);
        let bound = |k: Table| base(k) + entries(cmds, k).len();
        let bound_pre = |k: Table| base(k) + entries(pre, k).len();
        assert forall|i: int| 0 <= i < r.len() implies match cmd_entry(#[trigger] r[i]) {
            Some((t, id)) => id < bound(t),
            None => true,
        } by {
            if i < rp.len() {
                assert(r[i] == rp[i]);
                match cmd_entry(rp[i]) {
                    Some((t, id)) => {
                        assert(id < bound_pre(t));
                        assert(entries(pre, t).len() <= entries(cmds, t).len());
                    },
                    None => {},
                }
            } else {
                match cmd_entry(c) {
                    Some((t, e)) => {
                        assert(entries(cmds, t) == entries(pre, t).push(e));
                        let n = base(t) + entries(pre, t).len();
                        assert(r[i] == with_entry(c, n as usize));
                        assert(cmd_entry(with_entry(c, n as usize)) == Some((t, n as usize)));
                    },
                    None => {},
                }
            }
        }
    }
}

/// Replaying commands into a well-formed scene leaves it well formed: the
/// old commands still name entries the grown tables hold, and each
/// replayed command names the copy made for it.
pub proof fn lemma_replay_keeps_well_formed(
    old_cmds: Seq<PaintCommand>,
    replayed: Seq<PaintCommand>,
    old_len: spec_fn(Table) -> nat,
    new_len: spec_fn(Table) -> nat,
)
    requires
        entries_in(old_cmds, old_len),
        forall|k: Table| #[trigger] new_len(k) == old_len(k) + entries(replayed, k).len(),
        forall|k: Table| #[trigger] new_len(k) <= usize::MAX,
    ensures
        entries_in(old_cmds + renumber(replayed, old_len), new_len),
{
    assert forall|k: Table| #[trigger] old_len(k) + entries(replayed, k).len() <= usize::MAX by {
        assert(new_len(k) <= usize::MAX);
    }
    lemma_renumber_in(replayed, old_len);
    let all = old_cmds + renumber(replayed, old_len);
    let rn = renumber(replayed, old_len);
    let bound = |k: Table| old_len(k) + entries(replayed, k).len();
    assert forall|i: int| 0 <= i < all.len() implies match cmd_entry(#[trigger] all[i]) {
        Some((t, id)) => id < new_len(t),
        None => true,
    } by {
        if i < old_cmds.len() {
            assert(all[i] == old_cmds[i]);
            match cmd_entry(old_cmds[i]) {
                Some((t, id)) => {
                    assert(id < old_len(t));
                    assert(new_len(t) == old_len(t) + entries(replayed, t).len());
                },
                None => {},
            }
        } else {
            let j = i - old_cmds.len();
            assert(all[i] == rn[j]);
            match cmd_entry(rn[j]) {
                Some((t, id)) => {
                    assert(id < bound(t));
                    assert(new_len(t) == old_len(t) + entries(replayed, t).len());
                },
                None => {},
            }
        }
    }
}

} // verus!

verus! {

/// Each table's entries are named once each, in the order they were added:
/// the n-th command naming table `k` names entry n. A scene built by
/// pushing a primitive and then the command that names it is so.
pub open spec fn sequential(cmds: Seq<PaintCommand>) -> bool {
    forall|k: Table, j: int| 0 <= j < entries(cmds, k).len() ==> #[trigger] entries(cmds, k)[j] == j
}

/// Replaying every command of a sequential scene into an empty scene
/// gives back the same commands.
pub proof fn lemma_replay_sequential_is_identity(cmds: Seq<PaintCommand>)
    requires
        sequential(cmds),
    ensures
        renumber(cmds, |k: Table| 0nat) == cmds,
    decreases cmds.len(),
{
    if cmds.len() > 0 {
        let pre = cmds.drop_last();
        let c = cmds.last();
        assert forall|k: Table, j: int| 0 <= j < entries(pre, k).len() implies #[trigger] entries(pre, k)[j] == j by {
            assert(entries(cmds, k)[j] == entries(pre, k)[j]);
        }
        lemma_replay_sequential_is_identity(pre);
        match cmd_entry(c) {
            Some((t, id)) => {
                assert(entries(cmds, t) == entries(pre, t).push(id));
                assert(entries(cmds, t)[entries(pre, t).len() as int] == id);
                assert(with_entry(c, id) == c);
            },
            None => {},
        }
        assert(cmds =~= pre.push(c));
    }
}

} // verus!
