//! The button widget: its props, its state, and how it reacts to events.
use vstd::prelude::*;
use crate::event::{Event, EventType};

verus! {

/// A clickable button showing `text`.
#[derive(Clone, Debug, PartialEq)]
pub struct KButton {
    pub text: String,
}

impl Default for KButton {
    fn default() -> (b: KButton)
        ensures
            b.text@ == Seq::<char>::empty(),
    {
        KButton { text: String::new() }
    }
}

/// The name a widget type is registered under.
#[derive(Clone, Debug, PartialEq)]
pub struct WidgetName(pub String);

/// The name the button widget type is registered under: the path of the
/// type in this crate.
pub open spec fn button_widget_name() -> Seq<char> {
    "kayak_core::button::KButton"@
}

impl KButton {
    /// The name of the button widget type.
    pub fn get_name(&self) -> (name: WidgetName)
        ensures
            name.0@ == button_widget_name(),
    {
        WidgetName("kayak_core::button::KButton".to_owned())
    }
}

/// Whether the pointer is over the button.
#[derive(Clone, Copy, PartialEq, Eq, Structural, Debug)]
pub struct ButtonState {
    pub hovering: bool,
}

impl Default for ButtonState {
    fn default() -> (s: ButtonState)
        ensures
            !s.hovering,
    {
        ButtonState { hovering: false }
    }
}

/// The border a button is drawn with.
#[derive(Clone, Copy, PartialEq, Eq, Structural, Debug)]
pub enum ButtonBorder {
    /// The highlight border of a button under the pointer.
    Hovered,
    /// The border of a button at rest.
    Resting,
}

impl ButtonState {
    /// The button's reaction to an event addressed to it: the pointer
    /// entering sets `hovering` and keeps the event from propagating, the
    /// pointer leaving clears `hovering`; other events change nothing.
    pub fn on_event(&mut self, event: &mut Event)
        ensures
            match old(event).event_type {
                EventType::MouseIn => {
                    &&& final(self).hovering
                    &&& *final(event) == (Event { should_propagate: false, ..*old(event) })
                },
                EventType::MouseOut => {
                    &&& !final(self).hovering
                    &&& *final(event) == *old(event)
                },
                _ => {
                    &&& *final(self) == *old(self)
                    &&& *final(event) == *old(event)
                },
            },
    {
        match event.event_type {
            EventType::MouseIn => {
                event.stop_propagation();
                self.hovering = true;
            },
            EventType::MouseOut => {
                self.hovering = false;
            },
            _ => {},
        }
    }

    /// The border the button is drawn with in this state.
    pub fn border(&self) -> (b: ButtonBorder)
        ensures
            b == if self.hovering {
                ButtonBorder::Hovered
            } else {
                ButtonBorder::Resting
            },
    {
        if self.hovering {
            ButtonBorder::Hovered
        } else {
            ButtonBorder::Resting
        }
    }
}

/// The parts a button widget is spawned with.
pub struct KButtonBundle {
    pub button: KButton,
    pub widget_name: WidgetName,
}

impl Default for KButtonBundle {
    fn default() -> (b: KButtonBundle)
        ensures
            b.button.text@ == Seq::<char>::empty(),
            b.widget_name.0@ == button_widget_name(),
    {
        KButtonBundle { button: KButton::default(), widget_name: KButton::default().get_name() }
    }
}

} // verus!
