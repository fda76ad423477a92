//! The decisions the paint walk takes at each node, from plain facts about
//! it: whether its cached commands are replayed, whether it is skipped as
//! not displayed, and which clip and opacity scopes it opens and closes.
use vstd::prelude::*;

use crate::scene::{ClipId, OpacityId, PaintCommand};

verus! {

/// What the paint walk knows of a node before painting it.
#[derive(Debug, Clone, Copy, PartialEq, Eq, Structural)]
pub struct NodeFacts {
    /// The node is a fragment: it paints nothing of its own.
    pub fragment: bool,
    /// Its display style is none.
    pub display_none: bool,
    /// Its overflow is not visible on some axis and it has a layout rect.
    pub clips: bool,
    /// Its opacity is set and below one.
    pub translucent: bool,
    /// There is a previous scene, nothing in its subtree needs painting
    /// again, and the previous scene holds its subtree's commands.
    pub replayable: bool,
}

/// What the paint walk does with a node.
#[derive(Debug, Clone, Copy, PartialEq, Eq, Structural)]
pub enum NodePaint {
    /// Copy its subtree's commands from the previous scene.
    Replay,
    /// Paint nothing of it or below it.
    Hidden,
    /// Paint it and its children, inside a clip scope and an opacity scope
    /// where these say so.
    Paint { clip: bool, opacity: bool },
}

/// The plan for a node: replay where it can be replayed; else nothing
/// where it is displayed as none and is no fragment; else paint it, a
/// fragment with no scope of its own.
pub open spec fn node_paint(f: NodeFacts) -> NodePaint {
    if f.replayable {
        NodePaint::Replay
    } else if !f.fragment && f.display_none {
        NodePaint::Hidden
    } else if f.fragment {
        NodePaint::Paint { clip: false, opacity: false }
    } else {
        NodePaint::Paint { clip: f.clips, opacity: f.translucent }
    }
}

/// What each plan is owed to: a replayable node is replayed; else a
/// displayed-none node that is no fragment is hidden; else it is painted,
/// a fragment with no scope of its own and any other node with a clip
/// scope exactly where it clips and an opacity scope exactly where it is
/// translucent, the one independent of the other.
pub proof fn lemma_plan_follows_facts(f: NodeFacts)
    ensures
        f.replayable ==> node_paint(f) == NodePaint::Replay,
        !f.replayable && !f.fragment && f.display_none ==> node_paint(f) == NodePaint::Hidden,
        !f.replayable && f.fragment ==> node_paint(f) == (NodePaint::Paint { clip: false, opacity: false }),
        !f.replayable && !f.fragment && !f.display_none ==> node_paint(f) == (NodePaint::Paint {
            clip: f.clips,
            opacity: f.translucent,
        }),
{
}

/// The commands that close a painted node's scopes, innermost first: the
/// opacity scope, opened last, closes first.
pub open spec fn closing(clip: bool, opacity: bool) -> Seq<PaintCommand> {
    let o = if opacity { seq![PaintCommand::PopOpacity] } else { Seq::empty() };
    let c = if clip { seq![PaintCommand::PopClip] } else { Seq::empty() };
    o + c
}

/// Decides what the paint walk does with a node.
pub fn plan_node_paint(facts: NodeFacts) -> (r: NodePaint)
    ensures
        r == node_paint(facts),
{
    if facts.replayable {
        NodePaint::Replay
    } else if !facts.fragment && facts.display_none {
        NodePaint::Hidden
    } else if facts.fragment {
        NodePaint::Paint { clip: false, opacity: false }
    } else {
        NodePaint::Paint { clip: facts.clips, opacity: facts.translucent }
    }
}

/// The commands that close the scopes a painted node opened.
pub fn closing_commands(clip: bool, opacity: bool) -> (r: Vec<PaintCommand>)
    ensures
        r@ == closing(clip, opacity),
{
    let mut r: Vec<PaintCommand> = Vec::new();
    if opacity {
        r.push(PaintCommand::PopOpacity);
    }
    if clip {
        r.push(PaintCommand::PopClip);
    }
    proof {
        assert(r@ =~= closing(clip, opacity));
    }
    r
}

/// A fragment never opens a scope, and a node opens a scope only where its
/// facts ask for one; what it opens it closes, each scope once.
pub proof fn lemma_scopes_close(f: NodeFacts)
    ensures
        node_paint(f) matches NodePaint::Paint { clip, opacity } ==> {
            &&& (f.fragment ==> !clip && !opacity)
            &&& (clip ==> f.clips)
            &&& (opacity ==> f.translucent)
            &&& closing(clip, opacity).len() == (if clip { 1int } else { 0 }) + (if opacity { 1int } else { 0 })
            &&& (clip ==> closing(clip, opacity).last() == PaintCommand::PopClip)
            &&& (opacity ==> closing(clip, opacity)[0] == PaintCommand::PopOpacity)
        },
{
}

/// The kinds of scope a paint command opens or closes.
#[derive(Debug, Clone, Copy, PartialEq, Eq, Structural)]
pub enum Scope {
    Clip,
    Transform,
    Opacity,
    Layer,
}

/// The scopes open after one command, innermost last; none where the
/// command closes a scope other than the innermost open one.
pub open spec fn step_scope(s: Seq<Scope>, c: PaintCommand) -> Option<Seq<Scope>> {
    let close = |k: Scope| if s.len() > 0 && s.last() == k { Some(s.drop_last()) } else { None };
    match c {
        PaintCommand::PushClip(_) => Some(s.push(Scope::Clip)),
        PaintCommand::PushTransform(_) => Some(s.push(Scope::Transform)),
        PaintCommand::PushOpacity(_) => Some(s.push(Scope::Opacity)),
        PaintCommand::BeginLayer(_) => Some(s.push(Scope::Layer)),
        PaintCommand::PopClip => close(Scope::Clip),
        PaintCommand::PopTransform => close(Scope::Transform),
        PaintCommand::PopOpacity => close(Scope::Opacity),
        PaintCommand::EndLayer => close(Scope::Layer),
        _ => Some(s),
    }
}

/// The scopes open after `cmds`, starting from the open scopes `st`; none
/// where some command closes a scope that is not the innermost open one.
pub open spec fn open_scopes(st: Seq<Scope>, cmds: Seq<PaintCommand>) -> Option<Seq<Scope>>
    decreases cmds.len(),
{
    if cmds.len() == 0 {
        Some(st)
    } else {
        match open_scopes(st, cmds.drop_last()) {
            Some(s) => step_scope(s, cmds.last()),
            None => None,
        }
    }
}

/// Every scope `cmds` opens it closes, innermost first, and it closes no
/// scope it did not open.
pub open spec fn balanced(cmds: Seq<PaintCommand>) -> bool {
    open_scopes(Seq::empty(), cmds) == Some(Seq::<Scope>::empty())
}

/// The commands that open a painted node's scopes: the clip, then the
/// opacity.
pub open spec fn opening(clip: bool, opacity: bool, c: ClipId, o: OpacityId) -> Seq<PaintCommand> {
    let cs = if clip { seq![PaintCommand::PushClip(c)] } else { Seq::empty() };
    let os = if opacity { seq![PaintCommand::PushOpacity(o)] } else { Seq::empty() };
    cs + os
}

/// Running commands after more open scopes leaves those scopes open below
/// what the commands open.
proof fn lemma_open_scopes_frame(st: Seq<Scope>, cmds: Seq<PaintCommand>)
    requires
        open_scopes(Seq::empty(), cmds) is Some,
    ensures
        open_scopes(st, cmds) == Some(st + open_scopes(Seq::empty(), cmds)->0),
    decreases cmds.len(),
{
    if cmds.len() > 0 {
        let pre = cmds.drop_last();
        assert(open_scopes(Seq::empty(), pre) is Some);
        lemma_open_scopes_frame(st, pre);
        let s0 = open_scopes(Seq::empty(), pre)->0;
        let s1 = st + s0;
        if s0.len() > 0 {
            assert(s1.last() == s0.last());
            assert(s1.drop_last() =~= st + s0.drop_last());
        }
        match cmds.last() {
            PaintCommand::PushClip(_) => assert(s1.push(Scope::Clip) =~= st + s0.push(Scope::Clip)),
            PaintCommand::PushTransform(_) => assert(s1.push(Scope::Transform) =~= st + s0.push(Scope::Transform)),
            PaintCommand::PushOpacity(_) => assert(s1.push(Scope::Opacity) =~= st + s0.push(Scope::Opacity)),
            PaintCommand::BeginLayer(_) => assert(s1.push(Scope::Layer) =~= st + s0.push(Scope::Layer)),
            _ => {},
        }
    }
}

/// Running `a` then `b` is running `a`, then `b` from what `a` left open.
proof fn lemma_open_scopes_concat(st: Seq<Scope>, a: Seq<PaintCommand>, b: Seq<PaintCommand>)
    ensures
        open_scopes(st, a + b) == match open_scopes(st, a) {
            Some(s) => open_scopes(s, b),
            None => None,
        },
    decreases b.len(),
{
    if b.len() == 0 {
        assert(a + b =~= a);
    } else {
        lemma_open_scopes_concat(st, a, b.drop_last());
        assert((a + b).drop_last() =~= a + b.drop_last());
        assert((a + b).last() == b.last());
    }
}

/// Two balanced runs of commands, one after the other, are balanced.
pub proof fn lemma_balanced_concat(a: Seq<PaintCommand>, b: Seq<PaintCommand>)
    requires
        balanced(a),
        balanced(b),
    ensures
        balanced(a + b),
{
    lemma_open_scopes_concat(Seq::empty(), a, b);
}

/// A painted node's commands are balanced where what it paints inside its
/// scopes is: it opens its clip, then its opacity, and closes them in
/// reverse. With balanced children, by induction, the paint walk's
/// commands for every node are balanced.
pub proof fn lemma_node_scopes_balance(clip: bool, opacity: bool, c: ClipId, o: OpacityId, body: Seq<PaintCommand>)
    requires
        balanced(body),
    ensures
        balanced(opening(clip, opacity, c, o) + body + closing(clip, opacity)),
{
    let op = opening(clip, opacity, c, o);
    let cl = closing(clip, opacity);
    let e = Seq::<Scope>::empty();
    let cs = if clip { seq![Scope::Clip] } else { e };
    let open = if opacity { cs.push(Scope::Opacity) } else { cs };
    reveal_with_fuel(open_scopes, 3);
    assert(open_scopes(e, op) == Some(open)) by {
        if clip && opacity {
            assert(op.drop_last() =~= seq![PaintCommand::PushClip(c)]);
            assert(seq![PaintCommand::PushClip(c)].drop_last() =~= Seq::<PaintCommand>::empty());
        } else if clip {
            assert(op.drop_last() =~= Seq::<PaintCommand>::empty());
        } else if opacity {
            assert(op.drop_last() =~= Seq::<PaintCommand>::empty());
        } else {
            assert(op =~= Seq::<PaintCommand>::empty());
        }
    }
    lemma_open_scopes_concat(e, op, body);
    lemma_open_scopes_frame(open, body);
    assert(open + e =~= open);
    assert(open_scopes(e, op + body) == Some(open));
    assert(open_scopes(open, cl) == Some(e)) by {
        if clip && opacity {
            assert(cl.drop_last() =~= seq![PaintCommand::PopOpacity]);
            assert(seq![PaintCommand::PopOpacity].drop_last() =~= Seq::<PaintCommand>::empty());
            assert(open.drop_last() =~= seq![Scope::Clip]);
            assert(seq![Scope::Clip].drop_last() =~= e);
        } else if clip {
            assert(cl.drop_last() =~= Seq::<PaintCommand>::empty());
            assert(open.drop_last() =~= e);
        } else if opacity {
            assert(cl.drop_last() =~= Seq::<PaintCommand>::empty());
            assert(open.drop_last() =~= e);
        } else {
            assert(cl =~= Seq::<PaintCommand>::empty());
        }
    }
    lemma_open_scopes_concat(e, op + body, cl);
}

} // verus!
