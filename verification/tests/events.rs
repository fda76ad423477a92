use ui0::event::{
    buttons_flag, hover_changes, key_modifiers, pointer_handler, ButtonOutcome, EventHandlers,
    EventPhase, HitTestResult, KeyModifiers, PointerButton, PointerButtons, PointerDispatch,
    PointerState,
};
use ui0::node::NodeId;
use ui0::window::{EventCx, WindowId};

fn id(raw: u32) -> NodeId {
    NodeId { raw: (1u64 << 32) | raw as u64 }
}

#[test]
fn button_bits() {
    assert_eq!(buttons_flag(PointerButton::Primary).bits, 1);
    assert_eq!(buttons_flag(PointerButton::Secondary).bits, 2);
    assert_eq!(buttons_flag(PointerButton::Auxiliary).bits, 4);
    assert_eq!(buttons_flag(PointerButton::Back).bits, 8);
    assert_eq!(buttons_flag(PointerButton::Forward).bits, 16);
    assert_eq!(buttons_flag(PointerButton::Other(9)).bits, 0);
}

#[test]
fn held_buttons_insert_and_remove() {
    let mut held = PointerButtons::empty();
    held.insert(buttons_flag(PointerButton::Primary));
    held.insert(buttons_flag(PointerButton::Back));
    assert!(held.contains(buttons_flag(PointerButton::Primary)));
    assert_eq!(held.bits, 9);
    held.remove(buttons_flag(PointerButton::Primary));
    assert!(!held.contains(buttons_flag(PointerButton::Primary)));
    assert!(held.contains(buttons_flag(PointerButton::Back)));
}

#[test]
fn modifier_bits() {
    assert_eq!(key_modifiers(false, false, false, false), KeyModifiers::empty());
    assert_eq!(key_modifiers(true, false, false, false).bits, 1);
    assert_eq!(key_modifiers(false, true, false, false).bits, 2);
    assert_eq!(key_modifiers(false, false, true, false).bits, 4);
    assert_eq!(key_modifiers(false, false, false, true).bits, 8);
    assert_eq!(key_modifiers(true, true, true, true).bits, 15);
}

#[test]
fn hover_changes_leave_inner_first_and_enter_outer_first() {
    let old = vec![id(0), id(1), id(2), id(3)];
    let new = vec![id(0), id(1), id(5), id(6)];
    let (leave, enter) = hover_changes(&old, &new);
    assert_eq!(leave, vec![id(3), id(2)]);
    assert_eq!(enter, vec![id(5), id(6)]);
}

#[test]
fn hovering_the_same_path_changes_nothing() {
    let path = vec![id(0), id(4)];
    let (leave, enter) = hover_changes(&path, &path);
    assert!(leave.is_empty());
    assert!(enter.is_empty());
    let (leave, enter) = hover_changes(&[], &path);
    assert!(leave.is_empty());
    assert_eq!(enter, path);
    let (leave, enter) = hover_changes(&path, &[id(0)]);
    assert_eq!(leave, vec![id(4)]);
    assert!(enter.is_empty());
}

#[test]
fn click_needs_press_and_release_on_the_same_node() {
    let mut state = PointerState::new();
    let down = state.button_change(true, PointerButton::Primary, Some(id(1)));
    assert_eq!(down, ButtonOutcome { dispatch: Some(id(1)), click: None });
    assert_eq!(state.buttons.bits, 1);
    let up = state.button_change(false, PointerButton::Primary, Some(id(1)));
    assert_eq!(up, ButtonOutcome { dispatch: Some(id(1)), click: Some(id(1)) });
    assert_eq!(state.buttons.bits, 0);
    assert_eq!(state.pressed_target, None);

    state.button_change(true, PointerButton::Primary, Some(id(1)));
    let up = state.button_change(false, PointerButton::Primary, Some(id(2)));
    assert_eq!(up.click, None);
    assert_eq!(up.dispatch, Some(id(2)));
}

#[test]
fn only_the_primary_button_clicks() {
    let mut state = PointerState::new();
    state.button_change(true, PointerButton::Secondary, Some(id(1)));
    let up = state.button_change(false, PointerButton::Secondary, Some(id(1)));
    assert_eq!(up.click, None);
    // a secondary release keeps what the primary pressed on
    state.button_change(true, PointerButton::Primary, Some(id(3)));
    state.button_change(false, PointerButton::Secondary, Some(id(3)));
    assert_eq!(state.pressed_target, Some(id(3)));
    let up = state.button_change(false, PointerButton::Primary, None);
    assert_eq!(up, ButtonOutcome { dispatch: None, click: None });
}

#[test]
fn handler_flags_follow_the_handlers_present() {
    let mut handlers: EventHandlers<u8, u16> = EventHandlers::default();
    assert_eq!(handlers.flags().bits, 0);
    handlers.click = Some(1);
    handlers.pointer_move = Some(2);
    handlers.pointer_leave = Some(3);
    assert_eq!(handlers.flags().bits, 1 | 8 | 1024);
    handlers.pointer_down = Some(4);
    handlers.pointer_up = Some(5);
    handlers.pointer_enter = Some(6);
    assert_eq!(handlers.flags().bits, 1 | 2 | 4 | 8 | 512 | 1024);
}

#[test]
fn the_pointer_handler_is_changed_in_place() {
    let mut handlers: EventHandlers<u8, u16> = EventHandlers::default();
    handlers.pointer_up = Some(10);
    assert!(pointer_handler(&mut handlers, PointerDispatch::Down).is_none());
    if let Some(h) = pointer_handler(&mut handlers, PointerDispatch::Up) {
        *h += 1;
    }
    assert_eq!(handlers.pointer_up, Some(11));
    assert_eq!(handlers.pointer_down, None);
}

#[test]
fn plain_event_values() {
    let hit = HitTestResult::default();
    assert_eq!(hit.target, None);
    assert!(hit.path.is_empty());
    assert_ne!(EventPhase::Target, EventPhase::Bubble);
    let cx = EventCx::new(WindowId { raw: 4 });
    assert_eq!(cx.id(), WindowId { raw: 4 });
}
