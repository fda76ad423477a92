//! Pointer events: buttons, modifiers and hit-test results.
use vstd::prelude::*;

use crate::node::{EventFlags, NodeId};

verus! {

/// Whether a handler runs on the target itself or on an ancestor.
#[derive(Debug, Clone, Copy, PartialEq, Eq, Structural)]
pub enum EventPhase {
    Target,
    Bubble,
}

/// A pointer button.
#[derive(Debug, Clone, Copy, PartialEq, Eq, Structural)]
pub enum PointerButton {
    Primary,
    Secondary,
    Auxiliary,
    Back,
    Forward,
    Other(u16),
}

/// The set of pointer buttons held down, as bits.
#[derive(Debug, Clone, Copy, PartialEq, Eq, Default, Structural)]
pub struct PointerButtons {
    pub bits: u16,
}

/// The set of modifier keys held down, as bits: shift 1, ctrl 2, alt 4,
/// super 8.
#[derive(Debug, Clone, Copy, PartialEq, Eq, Default, Structural)]
pub struct KeyModifiers {
    pub bits: u16,
}

/// The bit of each button: primary 1, secondary 2, auxiliary 4, back 8,
/// forward 16; other buttons have none.
pub open spec fn button_bit(button: PointerButton) -> u16 {
    match button {
        PointerButton::Primary => 1,
        PointerButton::Secondary => 2,
        PointerButton::Auxiliary => 4,
        PointerButton::Back => 8,
        PointerButton::Forward => 16,
        PointerButton::Other(_) => 0,
    }
}

/// The set holding just `button`, empty for other buttons.
pub fn buttons_flag(button: PointerButton) -> (r: PointerButtons)
    ensures
        r.bits == button_bit(button),
{
    match button {
        PointerButton::Primary => PointerButtons { bits: 1 },
        PointerButton::Secondary => PointerButtons { bits: 2 },
        PointerButton::Auxiliary => PointerButtons { bits: 4 },
        PointerButton::Back => PointerButtons { bits: 8 },
        PointerButton::Forward => PointerButtons { bits: 16 },
        PointerButton::Other(_) => PointerButtons { bits: 0 },
    }
}

impl PointerButtons {
    pub fn empty() -> (r: Self)
        ensures
            r.bits == 0,
    {
        PointerButtons { bits: 0 }
    }

    /// Adds the buttons of `other`.
    pub fn insert(&mut self, other: PointerButtons)
        ensures
            final(self).bits == old(self).bits | other.bits,
    {
        self.bits = self.bits | other.bits;
    }

    /// Takes away the buttons of `other`.
    pub fn remove(&mut self, other: PointerButtons)
        ensures
            final(self).bits == old(self).bits & !other.bits,
    {
        self.bits = self.bits & !other.bits;
    }

    pub fn contains(&self, other: PointerButtons) -> (r: bool)
        ensures
            r == (self.bits & other.bits == other.bits),
    {
        self.bits & other.bits == other.bits
    }
}

impl KeyModifiers {
    pub fn empty() -> (r: Self)
        ensures
            r.bits == 0,
    {
        KeyModifiers { bits: 0 }
    }
}

/// The modifiers held, from whether shift, ctrl, alt and the logo key are
/// down: shift 1, ctrl 2, alt 4, logo 8.
pub fn key_modifiers(shift: bool, ctrl: bool, alt: bool, logo: bool) -> (r: KeyModifiers)
    ensures
        r.bits == (if shift { 1u16 } else { 0u16 }) | (if ctrl { 2u16 } else { 0u16 }) | (if alt { 4u16 } else {
            0u16
        }) | (if logo { 8u16 } else { 0u16 }),
{
    let s: u16 = if shift { 1 } else { 0 };
    let c: u16 = if ctrl { 2 } else { 0 };
    let a: u16 = if alt { 4 } else { 0 };
    let l: u16 = if logo { 8 } else { 0 };
    KeyModifiers { bits: s | c | a | l }
}

/// The node a point hits, and the path from the outermost hit node down to it.
#[derive(Debug, Clone, PartialEq, Eq)]
pub struct HitTestResult {
    pub target: Option<NodeId>,
    pub path: Vec<NodeId>,
}

impl Default for HitTestResult {
    /// Nothing hit.
    fn default() -> (r: Self)
        ensures
            r.target is None,
            r.path@.len() == 0,
    {
        HitTestResult { target: None, path: Vec::new() }
    }
}


/// The handlers a node has for each kind of event; the handler types are
/// the caller's.
pub struct EventHandlers<C, P> {
    pub click: Option<C>,
    pub pointer_down: Option<P>,
    pub pointer_up: Option<P>,
    pub pointer_move: Option<P>,
    pub pointer_enter: Option<P>,
    pub pointer_leave: Option<P>,
}

impl<C, P> Default for EventHandlers<C, P> {
    /// No handlers.
    fn default() -> (r: Self)
        ensures
            r.click is None,
            r.pointer_down is None,
            r.pointer_up is None,
            r.pointer_move is None,
            r.pointer_enter is None,
            r.pointer_leave is None,
    {
        EventHandlers {
            click: None,
            pointer_down: None,
            pointer_up: None,
            pointer_move: None,
            pointer_enter: None,
            pointer_leave: None,
        }
    }
}

/// The event bits of the handlers present: click 1, pointer down 2, up 4,
/// move 8, enter 512, leave 1024.
pub open spec fn handler_bits(click: bool, down: bool, up: bool, mv: bool, enter: bool, leave: bool) -> u32 {
    (if click { 1u32 } else { 0u32 }) | (if down { 2u32 } else { 0u32 }) | (if up { 4u32 } else { 0u32 }) | (if mv {
        8u32
    } else {
        0u32
    }) | (if enter { 512u32 } else { 0u32 }) | (if leave { 1024u32 } else { 0u32 })
}

impl<C, P> EventHandlers<C, P> {
    /// The event flags of the handlers present.
    pub fn flags(&self) -> (r: EventFlags)
        ensures
            r.bits == handler_bits(
                self.click is Some,
                self.pointer_down is Some,
                self.pointer_up is Some,
                self.pointer_move is Some,
                self.pointer_enter is Some,
                self.pointer_leave is Some,
            ),
    {
        let click: u32 = if self.click.is_some() { 1 } else { 0 };
        let down: u32 = if self.pointer_down.is_some() { 2 } else { 0 };
        let up: u32 = if self.pointer_up.is_some() { 4 } else { 0 };
        let mv: u32 = if self.pointer_move.is_some() { 8 } else { 0 };
        let enter: u32 = if self.pointer_enter.is_some() { 512 } else { 0 };
        let leave: u32 = if self.pointer_leave.is_some() { 1024 } else { 0 };
        EventFlags { bits: click | down | up | mv | enter | leave }
    }
}

/// Which pointer handler an event goes to.
#[derive(Debug, Clone, Copy, PartialEq, Eq, Structural)]
pub enum PointerDispatch {
    Down,
    Up,
    Move,
    Enter,
    Leave,
}

/// The pointer handler for `dispatch`, if present.
pub open spec fn handler_slot<C, P>(h: EventHandlers<C, P>, dispatch: PointerDispatch) -> Option<P> {
    match dispatch {
        PointerDispatch::Down => h.pointer_down,
        PointerDispatch::Up => h.pointer_up,
        PointerDispatch::Move => h.pointer_move,
        PointerDispatch::Enter => h.pointer_enter,
        PointerDispatch::Leave => h.pointer_leave,
    }
}

/// The handlers with the one for `dispatch` replaced by `v`.
pub open spec fn with_handler_slot<C, P>(h: EventHandlers<C, P>, dispatch: PointerDispatch, v: Option<P>) -> EventHandlers<C, P> {
    match dispatch {
        PointerDispatch::Down => EventHandlers { pointer_down: v, ..h },
        PointerDispatch::Up => EventHandlers { pointer_up: v, ..h },
        PointerDispatch::Move => EventHandlers { pointer_move: v, ..h },
        PointerDispatch::Enter => EventHandlers { pointer_enter: v, ..h },
        PointerDispatch::Leave => EventHandlers { pointer_leave: v, ..h },
    }
}

/// Each dispatch reaches the handler field of its own name: down, up,
/// move, enter and leave go to `pointer_down`, `pointer_up`,
/// `pointer_move`, `pointer_enter` and `pointer_leave`. Writing through the
/// handler a dispatch reaches changes that field and no other.
pub proof fn lemma_dispatch_reaches_own_handler<C, P>(h: EventHandlers<C, P>, d: PointerDispatch, v: Option<P>)
    ensures
        handler_slot(h, PointerDispatch::Down) == h.pointer_down,
        handler_slot(h, PointerDispatch::Up) == h.pointer_up,
        handler_slot(h, PointerDispatch::Move) == h.pointer_move,
        handler_slot(h, PointerDispatch::Enter) == h.pointer_enter,
        handler_slot(h, PointerDispatch::Leave) == h.pointer_leave,
        ({
            let w = with_handler_slot(h, d, v);
            &&& w.click == h.click
            &&& w.pointer_down == (if d == PointerDispatch::Down { v } else { h.pointer_down })
            &&& w.pointer_up == (if d == PointerDispatch::Up { v } else { h.pointer_up })
            &&& w.pointer_move == (if d == PointerDispatch::Move { v } else { h.pointer_move })
            &&& w.pointer_enter == (if d == PointerDispatch::Enter { v } else { h.pointer_enter })
            &&& w.pointer_leave == (if d == PointerDispatch::Leave { v } else { h.pointer_leave })
        }),
{
}

/// The handler `dispatch` goes to, to be called in place.
pub fn pointer_handler<C, P>(handlers: &mut EventHandlers<C, P>, dispatch: PointerDispatch) -> (r: Option<&mut P>)
    ensures
        match handler_slot(*old(handlers), dispatch) {
            None => r is None && *final(handlers) == *old(handlers),
            Some(p) => {
                &&& r is Some
                &&& *r.unwrap() == p
                &&& *final(handlers) == with_handler_slot(*old(handlers), dispatch, Some(*final(r.unwrap())))
            },
        },
{
    match dispatch {
        PointerDispatch::Down => handlers.pointer_down.as_mut(),
        PointerDispatch::Up => handlers.pointer_up.as_mut(),
        PointerDispatch::Move => handlers.pointer_move.as_mut(),
        PointerDispatch::Enter => handlers.pointer_enter.as_mut(),
        PointerDispatch::Leave => handlers.pointer_leave.as_mut(),
    }
}

/// The length of the longest common prefix of `a` and `b`, as
/// characterized by its three properties.
pub open spec fn is_common_prefix_len(a: Seq<NodeId>, b: Seq<NodeId>, n: int) -> bool {
    &&& 0 <= n <= a.len()
    &&& n <= b.len()
    &&& forall|i: int| 0 <= i < n ==> a[i] == b[i]
    &&& (n < a.len() && n < b.len() ==> a[n] != b[n])
}

/// What moving the pointer from the hover path `old_path` to `new_path`
/// dispatches: the nodes that are left, innermost first, and the nodes
/// that are entered, outermost first. Nodes in the common prefix of both
/// paths get neither.
pub fn hover_changes(old_path: &[NodeId], new_path: &[NodeId]) -> (r: (Vec<NodeId>, Vec<NodeId>))
    ensures
        exists|n: int| {
            &&& #[trigger] is_common_prefix_len(old_path@, new_path@, n)
            &&& r.0@ == old_path@.subrange(n, old_path@.len() as int).reverse()
            &&& r.1@ == new_path@.subrange(n, new_path@.len() as int)
        },
{
    let mut n: usize = 0;
    while n < old_path.len() && n < new_path.len() && old_path[n] == new_path[n]
        invariant
            n <= old_path@.len(),
            n <= new_path@.len(),
            forall|i: int| 0 <= i < n ==> old_path@[i] == new_path@[i],
        decreases old_path@.len() - n,
    {
        n = n + 1;
    }
    let mut leave: Vec<NodeId> = Vec::new();
    let mut i: usize = old_path.len();
    while i > n
        invariant
            n <= i <= old_path@.len(),
            leave@ == old_path@.subrange(i as int, old_path@.len() as int).reverse(),
        decreases i,
    {
        i = i - 1;
        leave.push(old_path[i]);
        proof {
            let t = old_path@.subrange(i as int, old_path@.len() as int);
            let t1 = old_path@.subrange(i + 1, old_path@.len() as int);
            assert(t =~= seq![old_path@[i as int]] + t1);
            assert(t.reverse() =~= t1.reverse().push(old_path@[i as int])) by {
                assert forall|k: int| 0 <= k < t.len() implies t.reverse()[k] == t1.reverse().push(old_path@[i as int])[k] by {
                    if k < t1.len() {
                        assert(t.reverse()[k] == t[t.len() - 1 - k]);
                        assert(t1.reverse()[k] == t1[t1.len() - 1 - k]);
                    }
                }
            }
        }
    }
    let mut enter: Vec<NodeId> = Vec::new();
    let mut j: usize = n;
    while j < new_path.len()
        invariant
            n <= j <= new_path@.len(),
            enter@ == new_path@.subrange(n as int, j as int),
        decreases new_path@.len() - j,
    {
        enter.push(new_path[j]);
        proof {
            assert(new_path@.subrange(n as int, j + 1) =~= new_path@.subrange(n as int, j as int).push(new_path@[j as int]));
        }
        j = j + 1;
    }
    proof {
        assert(is_common_prefix_len(old_path@, new_path@, n as int));
    }
    (leave, enter)
}

/// The pointer buttons held and the node the primary button went down on.
#[derive(Debug, Clone, Copy, PartialEq, Eq, Structural)]
pub struct PointerState {
    pub buttons: PointerButtons,
    pub pressed_target: Option<NodeId>,
}

/// What a button change dispatches: the down or up handlers of the hit
/// node, if any, and a click on it where it completes one.
#[derive(Debug, Clone, Copy, PartialEq, Eq, Structural)]
pub struct ButtonOutcome {
    pub dispatch: Option<NodeId>,
    pub click: Option<NodeId>,
}

/// A button going down over `hit`: it joins the held buttons, and `hit`
/// becomes the node pressed on.
pub open spec fn press_view(s: PointerState, button: PointerButton, hit: Option<NodeId>) -> (PointerState, ButtonOutcome) {
    (
        PointerState { buttons: PointerButtons { bits: s.buttons.bits | button_bit(button) }, pressed_target: hit },
        ButtonOutcome { dispatch: hit, click: None },
    )
}

/// A button going up over `hit`: it leaves the held buttons; the primary
/// button clicks `hit` where it went down on that same node, and forgets
/// the node pressed on.
pub open spec fn release_view(s: PointerState, button: PointerButton, hit: Option<NodeId>) -> (PointerState, ButtonOutcome) {
    let primary = button == PointerButton::Primary;
    (
        PointerState {
            buttons: PointerButtons { bits: s.buttons.bits & !button_bit(button) },
            pressed_target: if primary { None } else { s.pressed_target },
        },
        ButtonOutcome {
            dispatch: hit,
            click: if hit is Some && hit == s.pressed_target && primary { hit } else { None },
        },
    )
}

impl PointerState {
    /// No button held, nothing pressed on.
    pub fn new() -> (r: Self)
        ensures
            r.buttons.bits == 0,
            r.pressed_target is None,
    {
        PointerState { buttons: PointerButtons::empty(), pressed_target: None }
    }

    /// A button went down (`pressed`) or up over the node `hit`.
    pub fn button_change(&mut self, pressed: bool, button: PointerButton, hit: Option<NodeId>) -> (r: ButtonOutcome)
        ensures
            pressed ==> (*final(self), r) == press_view(*old(self), button, hit),
            !pressed ==> (*final(self), r) == release_view(*old(self), button, hit),
    {
        let flag = buttons_flag(button);
        if pressed {
            self.buttons.insert(flag);
            self.pressed_target = hit;
            ButtonOutcome { dispatch: hit, click: None }
        } else {
            self.buttons.remove(flag);
            let primary = match button {
                PointerButton::Primary => true,
                _ => false,
            };
            let same = match (hit, self.pressed_target) {
                (Some(a), Some(b)) => a == b,
                _ => false,
            };
            let click = if same && primary { hit } else { None };
            if primary {
                self.pressed_target = None;
            }
            ButtonOutcome { dispatch: hit, click }
        }
    }
}

/// A primary press and release over the same node click it; released
/// over another node, nothing is clicked.
pub proof fn lemma_click_needs_same_target(s: PointerState, t: NodeId, u: Option<NodeId>)
    ensures
        release_view(press_view(s, PointerButton::Primary, Some(t)).0, PointerButton::Primary, Some(t)).1.click == Some(t),
        u != Some(t) ==> release_view(press_view(s, PointerButton::Primary, Some(t)).0, PointerButton::Primary, u).1.click is None,
        release_view(press_view(s, PointerButton::Primary, Some(t)).0, PointerButton::Primary, u).0.pressed_target is None,
{
}

/// Pressing and releasing a button leaves the other held buttons as they
/// were, and that button not held.
pub proof fn lemma_press_release_buttons(s: PointerState, button: PointerButton, hit: Option<NodeId>, hit2: Option<NodeId>)
    ensures
        ({
            let b = release_view(press_view(s, button, hit).0, button, hit2).0.buttons.bits;
            let f = button_bit(button);
            &&& b & f == 0
            &&& b == s.buttons.bits & !f
        }),
{
    let f = button_bit(button);
    let x = s.buttons.bits;
    assert((x | f) & !f == x & !f) by (bit_vector);
    assert((x & !f) & f == 0) by (bit_vector);
}

} // verus!
