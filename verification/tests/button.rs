use kayak_core::button::{ButtonBorder, ButtonState, KButton, KButtonBundle};
use kayak_core::event::{Event, EventType};
use kayak_core::index::Index;

#[test]
fn pointer_entering_a_button_hovers_it_and_stops_the_event() {
    let mut state = ButtonState::default();
    let mut e = Event::new(Index::new(1), EventType::MouseIn);
    state.on_event(&mut e);
    assert!(state.hovering);
    assert!(!e.should_propagate);
    assert_eq!(state.border(), ButtonBorder::Hovered);
}

#[test]
fn pointer_leaving_a_button_ends_the_hover() {
    let mut state = ButtonState { hovering: true };
    let mut e = Event::new(Index::new(1), EventType::MouseOut);
    state.on_event(&mut e);
    assert!(!state.hovering);
    assert!(e.should_propagate);
    assert_eq!(state.border(), ButtonBorder::Resting);
}

#[test]
fn other_events_leave_the_button_alone() {
    let mut state = ButtonState { hovering: true };
    let mut e = Event::new(Index::new(1), EventType::Click);
    state.on_event(&mut e);
    assert!(state.hovering);
    assert!(e.should_propagate);
}

#[test]
fn a_default_button_bundle_has_no_text_and_the_button_name() {
    let bundle = KButtonBundle::default();
    assert_eq!(bundle.button.text, "");
    assert_eq!(bundle.widget_name.0, "kayak_core::button::KButton");
    assert_eq!(KButton { text: "ok".to_string() }.get_name().0, "kayak_core::button::KButton");
}
