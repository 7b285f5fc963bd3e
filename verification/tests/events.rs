use kayak_core::context::KayakContext;
use kayak_core::event::{Event, EventType, InputEvent};
use kayak_core::events::NodeHits;
use kayak_core::index::Index;

fn node(id: u64, focusable: bool, hit_before: bool, hits: Vec<bool>) -> NodeHits {
    NodeHits { node: Index::new(id), focusable, hit_before, hits }
}

fn ev(id: u64, t: EventType) -> Event {
    Event::new(Index::new(id), t)
}

#[test]
fn pointer_entering_a_widget_gives_mouse_in_then_hover() {
    let mut ctx = KayakContext::new();
    let out = ctx.process_events(&vec![node(1, false, false, vec![true])], &vec![InputEvent::MouseMoved]);
    assert_eq!(out.events, vec![ev(1, EventType::MouseIn), ev(1, EventType::Hover)]);
    assert_eq!(out.mouse_moved_to, Some(0));
}

#[test]
fn pointer_staying_over_a_widget_gives_hover_only() {
    let mut ctx = KayakContext::new();
    ctx.process_events(&vec![node(1, false, false, vec![true])], &vec![InputEvent::MouseMoved]);
    let out = ctx.process_events(&vec![node(1, false, true, vec![true])], &vec![InputEvent::MouseMoved]);
    assert_eq!(out.events, vec![ev(1, EventType::Hover)]);
}

#[test]
fn pointer_leaving_a_widget_gives_mouse_out_once() {
    let mut ctx = KayakContext::new();
    ctx.process_events(&vec![node(1, false, false, vec![true])], &vec![InputEvent::MouseMoved]);
    let out = ctx.process_events(&vec![node(1, false, true, vec![false])], &vec![InputEvent::MouseMoved]);
    assert_eq!(out.events, vec![ev(1, EventType::MouseOut)]);
    let out = ctx.process_events(&vec![node(1, false, false, vec![false])], &vec![InputEvent::MouseMoved]);
    assert_eq!(out.events, Vec::<Event>::new());
}

#[test]
fn two_moves_in_one_batch_enter_then_leave() {
    let mut ctx = KayakContext::new();
    let out = ctx.process_events(
        &vec![node(1, false, false, vec![true, false])],
        &vec![InputEvent::MouseMoved, InputEvent::MouseMoved],
    );
    assert_eq!(
        out.events,
        vec![ev(1, EventType::MouseIn), ev(1, EventType::Hover), ev(1, EventType::MouseOut)]
    );
    assert_eq!(out.mouse_moved_to, Some(1));
}

#[test]
fn no_pointer_move_leaves_the_position_alone() {
    let mut ctx = KayakContext::new();
    let out = ctx.process_events(&vec![node(1, false, false, vec![false])], &vec![InputEvent::Keyboard { key: 4 }]);
    assert_eq!(out.mouse_moved_to, None);
    assert_eq!(out.events, vec![ev(1, EventType::KeyboardInput { key: 4 })]);
}

#[test]
fn characters_and_keys_go_to_every_widget_in_order() {
    let mut ctx = KayakContext::new();
    let out = ctx.process_events(
        &vec![node(1, false, false, vec![false, false]), node(2, false, false, vec![false, false])],
        &vec![InputEvent::CharEvent { c: 'a' }, InputEvent::Keyboard { key: 13 }],
    );
    assert_eq!(
        out.events,
        vec![
            ev(1, EventType::CharInput { c: 'a' }),
            ev(1, EventType::KeyboardInput { key: 13 }),
            ev(2, EventType::CharInput { c: 'a' }),
            ev(2, EventType::KeyboardInput { key: 13 }),
        ]
    );
}

#[test]
fn clicking_a_focusable_widget_focuses_it() {
    let mut ctx = KayakContext::new();
    let out = ctx.process_events(&vec![node(3, true, true, vec![false])], &vec![InputEvent::MouseLeftClick]);
    // the focus moved away from "no widget", which gets the blur
    assert_eq!(
        out.events,
        vec![ev(3, EventType::Click), ev(3, EventType::Focus), ev(0, EventType::Blur)]
    );
}

#[test]
fn clicking_a_plain_widget_clicks_without_focus() {
    let mut ctx = KayakContext::new();
    let out = ctx.process_events(&vec![node(3, false, true, vec![false])], &vec![InputEvent::MouseLeftClick]);
    assert_eq!(out.events, vec![ev(3, EventType::Click)]);
}

#[test]
fn clicking_elsewhere_blurs_the_focused_widget() {
    let mut ctx = KayakContext::new();
    ctx.process_events(&vec![node(3, true, true, vec![false])], &vec![InputEvent::MouseLeftClick]);
    let out = ctx.process_events(&vec![node(3, true, false, vec![false])], &vec![InputEvent::MouseLeftClick]);
    assert_eq!(out.events, vec![ev(3, EventType::Blur)]);
    // the focus is gone: another click elsewhere blurs nothing
    let out = ctx.process_events(&vec![node(3, true, false, vec![false])], &vec![InputEvent::MouseLeftClick]);
    assert_eq!(out.events, Vec::<Event>::new());
}

#[test]
fn focus_moving_blurs_the_widget_that_had_it() {
    let mut ctx = KayakContext::new();
    ctx.process_events(&vec![node(3, true, true, vec![false])], &vec![InputEvent::MouseLeftClick]);
    let out = ctx.process_events(
        &vec![node(3, true, false, vec![false]), node(4, true, true, vec![false])],
        &vec![InputEvent::MouseLeftClick],
    );
    assert_eq!(
        out.events,
        vec![ev(4, EventType::Click), ev(4, EventType::Focus), ev(3, EventType::Blur)]
    );
}

#[test]
fn clicking_the_focused_widget_again_does_not_blur_it() {
    let mut ctx = KayakContext::new();
    ctx.process_events(&vec![node(3, true, true, vec![false])], &vec![InputEvent::MouseLeftClick]);
    let out = ctx.process_events(&vec![node(3, true, true, vec![false])], &vec![InputEvent::MouseLeftClick]);
    assert_eq!(out.events, vec![ev(3, EventType::Click), ev(3, EventType::Focus)]);
}

#[test]
fn a_click_uses_the_point_of_the_last_move_before_it() {
    let mut ctx = KayakContext::new();
    // the pointer moves onto widget 5, then clicks: the click lands on 5
    let out = ctx.process_events(
        &vec![node(5, false, false, vec![true, false])],
        &vec![InputEvent::MouseMoved, InputEvent::MouseLeftClick],
    );
    assert_eq!(
        out.events,
        vec![ev(5, EventType::MouseIn), ev(5, EventType::Hover), ev(5, EventType::Click)]
    );
}

#[test]
fn a_later_widget_sees_the_last_move_of_the_batch() {
    let mut ctx = KayakContext::new();
    // widget 6 was under the old position; after widget 5's pass, the
    // position is the point of the move, which is not over widget 6
    let out = ctx.process_events(
        &vec![node(5, false, false, vec![false, false]), node(6, false, true, vec![false, false])],
        &vec![InputEvent::MouseLeftClick, InputEvent::MouseMoved],
    );
    assert_eq!(out.events, Vec::<Event>::new());
}

#[test]
fn stopping_propagation_clears_the_flag_only() {
    let mut e = ev(2, EventType::Click);
    assert!(e.should_propagate);
    e.stop_propagation();
    assert!(!e.should_propagate);
    assert_eq!(e.target, Index::new(2));
    assert_eq!(e.event_type, EventType::Click);
}

#[test]
fn the_default_index_is_zero() {
    assert_eq!(Index::default(), Index::new(0));
}

#[test]
fn the_last_move_decides_whether_a_widget_is_under_the_pointer() {
    let mut ctx = KayakContext::new();
    // in, then out, in one batch: the widget ends up not under the pointer
    ctx.process_events(
        &vec![node(1, false, false, vec![true, false])],
        &vec![InputEvent::MouseMoved, InputEvent::MouseMoved],
    );
    // so the next move onto it enters it again
    let out = ctx.process_events(&vec![node(1, false, false, vec![true])], &vec![InputEvent::MouseMoved]);
    assert_eq!(out.events, vec![ev(1, EventType::MouseIn), ev(1, EventType::Hover)]);
}

#[test]
fn a_batch_without_clicks_keeps_the_focus() {
    let mut ctx = KayakContext::new();
    ctx.process_events(&vec![node(3, true, true, vec![false])], &vec![InputEvent::MouseLeftClick]);
    let out = ctx.process_events(
        &vec![node(3, true, true, vec![false, false])],
        &vec![InputEvent::MouseMoved, InputEvent::CharEvent { c: 'x' }],
    );
    // the widget was never under the pointer, so the move sends it nothing
    assert_eq!(out.events, vec![ev(3, EventType::CharInput { c: 'x' })]);
    // widget 3 still holds the focus: a click on nothing blurs it
    let out = ctx.process_events(&vec![node(3, true, false, vec![false])], &vec![InputEvent::MouseLeftClick]);
    assert_eq!(out.events, vec![ev(3, EventType::Blur)]);
}

#[test]
fn mouse_in_and_out_alternate_across_batches() {
    let mut ctx = KayakContext::new();
    let mut edges = Vec::new();
    for inside in [true, true, false, false, true, false] {
        let out = ctx.process_events(&vec![node(1, false, false, vec![inside])], &vec![InputEvent::MouseMoved]);
        for e in out.events {
            if e.event_type == EventType::MouseIn || e.event_type == EventType::MouseOut {
                edges.push(e.event_type);
            }
        }
    }
    assert_eq!(
        edges,
        vec![EventType::MouseIn, EventType::MouseOut, EventType::MouseIn, EventType::MouseOut]
    );
}
