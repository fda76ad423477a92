# ui0

A retained-mode UI runtime: a node tree with dirty tracking, a reactive
graph of signals, computations and owners, keyed and conditional regions,
a paint scene compiled into draw batches, pointer-event decisions, and a
whiteboard document's id bookkeeping and undo history.

## Layout

- `src/` is the library, verified with Verus. Each public function states
  in its contract what it returns and how it changes its arguments; the
  laws that relate several operations are public proof functions.
  - `node`, `ui_tree`: node ids, tags, dirty flags and the tree.
  - `reactive`: the signal graph and its flush queue.
  - `control_flow`, `region`: show and keyed-list builders, region reuse
    and the keyed-list plan.
  - `scene`, `batch`, `paint_plan`, `cache`: paint commands, their replay,
    batching and the per-node paint decisions.
  - `event`, `window`, `state`, `style`, `tools`: events and plain data.
  - `history`, `board`: undo and redo, and whiteboard ids.
  - `slots`: the slot maps and small vectors the library stores things in,
    behind trusted wrappers whose contracts restate the crates' behaviour.
- `app/` is ordinary Rust around the library: windows (winit), the GPU
  renderer (wgpu, glyphon), layout (taffy), the async runtime (tokio),
  element building with user closures, floating-point styles and geometry,
  and the whiteboard document.
- `tests/` exercises the library from outside.
