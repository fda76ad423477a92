//! What the painter keeps of a node between frames.
use vstd::prelude::*;
use core::ops::Range;

verus! {

/// The command and primitive ranges a node painted into the last scene.
#[derive(Debug, PartialEq, Eq)]
pub struct RenderNodeState {
    pub paint_dirty: bool,
    pub subtree_paint_dirty: bool,
    pub self_commands: Range<usize>,
    pub subtree_commands: Range<usize>,
    pub rect_instances: Range<usize>,
    pub text_runs: Range<usize>,
    pub surface_range: Range<usize>,
}

impl RenderNodeState {
    /// Whether the node's subtree painted at least one command that can be
    /// replayed.
    pub fn has_cached_subtree(&self) -> (r: bool)
        ensures
            r == (self.subtree_commands.start < self.subtree_commands.end),
    {
        self.subtree_commands.start < self.subtree_commands.end
    }
}

impl Default for RenderNodeState {
    fn default() -> (r: Self)
        ensures
            !r.paint_dirty,
            !r.subtree_paint_dirty,
            r.self_commands == (Range { start: 0usize, end: 0usize }),
            r.subtree_commands == (Range { start: 0usize, end: 0usize }),
            r.rect_instances == (Range { start: 0usize, end: 0usize }),
            r.text_runs == (Range { start: 0usize, end: 0usize }),
            r.surface_range == (Range { start: 0usize, end: 0usize }),
    {
        RenderNodeState {
            paint_dirty: false,
            subtree_paint_dirty: false,
            self_commands: 0..0,
            subtree_commands: 0..0,
            rect_instances: 0..0,
            text_runs: 0..0,
            surface_range: 0..0,
        }
    }
}

} // verus!
