use vstd::prelude::*;
use crate::index::Index;

verus! {

/// A keyboard key, by its numeric code.
pub type KeyCode = u32;

/// What happened to a widget.
#[derive(Clone, Copy, PartialEq, Eq, Structural, Debug)]
pub enum EventType {
    Click,
    Hover,
    MouseIn,
    MouseOut,
    Focus,
    Blur,
    CharInput { c: char },
    KeyboardInput { key: KeyCode },
}

/// An event addressed to one widget.
#[derive(Clone, Copy, PartialEq, Eq, Structural, Debug)]
pub struct Event {
    pub target: Index,
    pub event_type: EventType,
    pub should_propagate: bool,
}

impl Event {
    /// An event for `target`; a new event propagates.
    pub fn new(target: Index, event_type: EventType) -> (e: Event)
        ensures
            e == Event::spec_new(target, event_type),
    {
        Event { target, event_type, should_propagate: true }
    }

    pub open spec fn spec_new(target: Index, event_type: EventType) -> Event {
        Event { target, event_type, should_propagate: true }
    }

    /// Keeps the event from reaching the target's ancestors.
    pub fn stop_propagation(&mut self)
        ensures
            *final(self) == (Event { should_propagate: false, ..*old(self) }),
    {
        self.should_propagate = false;
    }
}

/// Raw input from the windowing layer.
///
/// A pointer move carries no coordinates here: the caller keeps the point
/// and answers, per widget, whether the widget's layout contains it (see
/// `NodeHits`).
#[derive(Clone, Copy, PartialEq, Eq, Structural, Debug)]
pub enum InputEvent {
    MouseMoved,
    MouseLeftClick,
    CharEvent { c: char },
    Keyboard { key: KeyCode },
}

} // verus!
