//! Core state of a retained-mode UI context: per-widget hook state,
//! global-state bindings, pointer/focus event routing and the button
//! widget's behaviour, each with a proved contract.

pub mod index;
pub mod event;
pub mod events;
pub mod hooks;
pub mod bindings;
pub mod tree;
pub mod button;
pub mod context;
