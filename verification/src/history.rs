//! Undo and redo of document commands.
use vstd::prelude::*;

verus! {

/// A command that was applied, and the command that undoes it.
pub struct CommandPair<C> {
    pub redo: C,
    pub undo: C,
}

/// Bounded undo history with a redo stack. The document and its commands
/// are the caller's: each method takes the step that applies a command to
/// the document, which reports whether it applied (for `apply`, the
/// command that undoes it).
pub struct History<C> {
    undo_stack: Vec<CommandPair<C>>,
    redo_stack: Vec<CommandPair<C>>,
    capacity: usize,
}

/// A history as the contracts see it.
pub struct HistoryView<C> {
    pub undo: Seq<CommandPair<C>>,
    pub redo: Seq<CommandPair<C>>,
    pub capacity: nat,
}

impl<C> View for History<C> {
    type V = HistoryView<C>;

    closed spec fn view(&self) -> HistoryView<C> {
        HistoryView { undo: self.undo_stack@, redo: self.redo_stack@, capacity: self.capacity as nat }
    }
}

/// The undo stack once `pair` is recorded: the oldest entry is dropped when
/// the stack is full.
pub open spec fn recorded<C>(h: HistoryView<C>, pair: CommandPair<C>) -> HistoryView<C> {
    HistoryView {
        undo: (if h.undo.len() >= h.capacity {
            h.undo.drop_first()
        } else {
            h.undo
        }).push(pair),
        redo: Seq::empty(),
        capacity: h.capacity,
    }
}

/// The capacity is at least one and the two stacks together stay within it.
pub open spec fn history_ok<C>(h: HistoryView<C>) -> bool {
    1 <= h.capacity && h.undo.len() + h.redo.len() <= h.capacity
}

/// The history after a step moves from the undo stack to the redo stack.
pub open spec fn undone<C>(h: HistoryView<C>) -> HistoryView<C> {
    HistoryView { undo: h.undo.drop_last(), redo: h.redo.push(h.undo.last()), capacity: h.capacity }
}

/// The history after a step moves from the redo stack back to the undo stack.
pub open spec fn redone<C>(h: HistoryView<C>) -> HistoryView<C> {
    HistoryView { undo: h.undo.push(h.redo.last()), redo: h.redo.drop_last(), capacity: h.capacity }
}

/// Undoing a step and redoing it gives back the same history.
pub proof fn lemma_undo_then_redo<C>(h: HistoryView<C>)
    requires
        h.undo.len() > 0,
    ensures
        redone(undone(h)) == h,
{
    assert(redone(undone(h)).undo =~= h.undo);
    assert(redone(undone(h)).redo =~= h.redo);
}

/// After a step is recorded it is the first to be undone, and nothing is
/// left to redo.
pub proof fn lemma_recorded_is_next_undo<C>(h: HistoryView<C>, pair: CommandPair<C>)
    requires
        history_ok(h),
    ensures
        recorded(h, pair).undo.last() == pair,
        recorded(h, pair).redo.len() == 0,
        history_ok(recorded(h, pair)),
{
}

impl<C> History<C> {
    /// An empty history keeping at most `capacity` undo steps, and at least one.
    pub fn new(capacity: usize) -> (r: Self)
        ensures
            r@.undo.len() == 0,
            r@.redo.len() == 0,
            r@.capacity == if capacity >= 1 { capacity as nat } else { 1 },
            history_ok(r@),
    {
        History {
            undo_stack: Vec::new(),
            redo_stack: Vec::new(),
            capacity: if capacity >= 1 { capacity } else { 1 },
        }
    }

    /// Applies `command` with `run`. Where it applies, `run` returns the
    /// command that undoes it: the pair is recorded, the oldest undo step
    /// dropped if the history is full, and the redo stack cleared. Where it
    /// does not, nothing changes.
    pub fn apply<F: FnOnce(&C) -> Option<C>>(&mut self, command: C, run: F)
        requires
            history_ok(old(self)@),
            run.requires((&command,)),
        ensures
            history_ok(final(self)@),
            exists|out: Option<C>| #[trigger] run.ensures((&command,), out) && match out {
                Some(u) => final(self)@ == recorded(old(self)@, CommandPair { redo: command, undo: u }),
                None => final(self)@ == old(self)@,
            },
            (forall|u: Option<C>| #[trigger] run.ensures((&command,), u) ==> u is None) ==> final(self)@
                == old(self)@,
    {
        let out = run(&command);
        let ghost h0 = self@;
        let undo = match out {
            Some(u) => u,
            None => return,
        };
        if self.undo_stack.len() >= self.capacity {
            self.undo_stack.remove(0);
        }
        self.undo_stack.push(CommandPair { redo: command, undo });
        self.redo_stack.clear();
        proof {
            let h1 = self@;
            assert(h1.undo =~= recorded(h0, CommandPair { redo: command, undo }).undo);
            assert(h1.redo =~= Seq::<CommandPair<C>>::empty());
            assert(run.ensures((&command,), Some(undo)));
        }
    }

    /// Undoes the latest step with `run`, which says whether it applied.
    /// Returns false where there is nothing to undo, or where it did not
    /// apply, in which case the step is dropped; else the step moves to
    /// the redo stack.
    pub fn undo<F: FnOnce(&C) -> bool>(&mut self, run: F) -> (r: bool)
        requires
            history_ok(old(self)@),
            old(self)@.undo.len() > 0 ==> run.requires((&old(self)@.undo.last().undo,)),
        ensures
            history_ok(final(self)@),
            old(self)@.undo.len() == 0 ==> !r && final(self)@ == old(self)@,
            old(self)@.undo.len() > 0 ==> {
                &&& run.ensures((&old(self)@.undo.last().undo,), r)
                &&& final(self)@.undo == old(self)@.undo.drop_last()
                &&& final(self)@.capacity == old(self)@.capacity
                &&& final(self)@.redo == if r {
                    old(self)@.redo.push(old(self)@.undo.last())
                } else {
                    old(self)@.redo
                }
            },
    {
        let ghost h0 = self@;
        let pair = match self.undo_stack.pop() {
            Some(p) => p,
            None => return false,
        };
        if !run(&pair.undo) {
            return false;
        }
        self.redo_stack.push(pair);
        true
    }

    /// Redoes the latest undone step with `run`, which says whether it
    /// applied. Returns false where there is nothing to redo, or where it
    /// did not apply, in which case the step is dropped; else the step
    /// moves back to the undo stack.
    pub fn redo<F: FnOnce(&C) -> bool>(&mut self, run: F) -> (r: bool)
        requires
            history_ok(old(self)@),
            old(self)@.redo.len() > 0 ==> run.requires((&old(self)@.redo.last().redo,)),
        ensures
            history_ok(final(self)@),
            old(self)@.redo.len() == 0 ==> !r && final(self)@ == old(self)@,
            old(self)@.redo.len() > 0 ==> {
                &&& run.ensures((&old(self)@.redo.last().redo,), r)
                &&& final(self)@.redo == old(self)@.redo.drop_last()
                &&& final(self)@.capacity == old(self)@.capacity
                &&& final(self)@.undo == if r {
                    old(self)@.undo.push(old(self)@.redo.last())
                } else {
                    old(self)@.undo
                }
            },
    {
        let pair = match self.redo_stack.pop() {
            Some(p) => p,
            None => return false,
        };
        if !run(&pair.redo) {
            return false;
        }
        self.undo_stack.push(pair);
        true
    }
}

} // verus!
