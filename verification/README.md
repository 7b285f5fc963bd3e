# kayak_core

The core state of a retained-mode UI context, verified with Verus.

- `src/index.rs`, `src/event.rs`: widget indices, widget events and raw input.
- `src/events.rs`: the rules that turn a batch of input into widget events
  (pointer enter/hover/leave, clicks, focus and blur), and laws about them.
- `src/hooks.rs`: per-widget hook state and the law that rebuilding a widget
  gives back the state it created.
- `src/bindings.rs`: bindings of widgets to global state and their change
  subscriptions, with the laws of binding and unbinding.
- `src/tree.rs`: ancestor chains of the widget tree.
- `src/context.rs`: `KayakContext`, whose operations follow the rules above.
- `src/button.rs`: the button widget's props, state and event reaction.
- `app/`: the same context and button wired to `flo_binding`, `resources`
  and `bevy`, with pointer geometry in floating point.
