//! The rules by which raw input becomes widget events.
//!
//! Everything here is a specification: `KayakContext::process_events`
//! follows it step by step and its contract says so.
use vstd::prelude::*;
use crate::index::Index;
use crate::event::{Event, EventType, InputEvent};

verus! {

/// Where the pointer position used by a click comes from: the position the
/// context held before the batch, or the point of the `k`-th input of the
/// batch (a `MouseMoved`).
#[derive(Clone, Copy, PartialEq, Eq, Structural, Debug)]
pub enum MousePos {
    Before,
    Input(usize),
}

/// One laid-out widget, in tree order, with the answers to its hit tests.
///
/// `hit_before` says whether its layout contains the pointer position held
/// before the batch; `hits[k]` whether it contains the point of input `k`
/// (read only where input `k` is a `MouseMoved`).
pub struct NodeHits {
    pub node: Index,
    pub focusable: bool,
    pub hit_before: bool,
    pub hits: Vec<bool>,
}

/// Whether the widget's layout contains the pointer position `pos`.
pub open spec fn node_hit(n: NodeHits, pos: MousePos) -> bool {
    match pos {
        MousePos::Before => n.hit_before,
        MousePos::Input(k) => n.hits@[k as int],
    }
}

/// The state of routing part way through a batch.
pub struct Routing {
    pub events: Seq<Event>,
    pub previous: Map<u64, Option<EventType>>,
    pub pos: MousePos,
    pub focus: Index,
    pub last_focus: Index,
    pub was_click: bool,
    pub was_focus: bool,
}

/// The pointer state recorded for a widget; a widget never seen has none.
pub open spec fn last_event(previous: Map<u64, Option<EventType>>, id: u64) -> Option<EventType> {
    if previous.contains_key(id) {
        previous[id]
    } else {
        None
    }
}

/// The pointer moved to the point of input `k`: a widget it enters gets
/// `MouseIn` (if it was not already under the pointer) then `Hover`; a
/// widget it leaves gets `MouseOut` if it was under the pointer.
pub open spec fn pointer_moved(r: Routing, n: NodeHits, k: int) -> Routing {
    let id = n.node.id;
    let last = last_event(r.previous, id);
    if n.hits@[k] {
        let entered = if last is None {
            r.events.push(Event::spec_new(n.node, EventType::MouseIn))
        } else {
            r.events
        };
        Routing {
            events: entered.push(Event::spec_new(n.node, EventType::Hover)),
            previous: r.previous.insert(id, Some(EventType::Hover)),
            pos: MousePos::Input(k as usize),
            ..r
        }
    } else {
        let left = if last == Some(EventType::Hover) || last == Some(EventType::MouseIn) {
            r.events.push(Event::spec_new(n.node, EventType::MouseOut))
        } else {
            r.events
        };
        Routing {
            events: left,
            previous: r.previous.insert(id, None),
            pos: MousePos::Input(k as usize),
            ..r
        }
    }
}

/// A left click: a widget under the pointer gets `Click`, and, if it can
/// take focus, `Focus`, becoming the focused widget.
pub open spec fn left_click(r: Routing, n: NodeHits) -> Routing {
    if node_hit(n, r.pos) {
        let clicked = r.events.push(Event::spec_new(n.node, EventType::Click));
        if n.focusable {
            Routing {
                events: clicked.push(Event::spec_new(n.node, EventType::Focus)),
                last_focus: r.focus,
                focus: n.node,
                was_click: true,
                was_focus: true,
                ..r
            }
        } else {
            Routing { events: clicked, was_click: true, ..r }
        }
    } else {
        Routing { was_click: true, ..r }
    }
}

/// Routes input `k` of the batch to widget `n`.
pub open spec fn route_input(r: Routing, n: NodeHits, k: int, input: InputEvent) -> Routing {
    match input {
        InputEvent::MouseMoved => pointer_moved(r, n, k),
        InputEvent::MouseLeftClick => left_click(r, n),
        InputEvent::CharEvent { c } => Routing {
            events: r.events.push(Event::spec_new(n.node, EventType::CharInput { c })),
            ..r
        },
        InputEvent::Keyboard { key } => Routing {
            events: r.events.push(Event::spec_new(n.node, EventType::KeyboardInput { key })),
            ..r
        },
    }
}

/// Routes the first `k` inputs to widget `n`, in order.
pub open spec fn route_node(r: Routing, n: NodeHits, inputs: Seq<InputEvent>, k: nat) -> Routing
    decreases k,
{
    if k == 0 {
        r
    } else {
        route_input(route_node(r, n, inputs, (k - 1) as nat), n, k - 1, inputs[k - 1])
    }
}

/// Routes all inputs to each of the first `j` widgets, widget by widget.
pub open spec fn route_nodes(r: Routing, nodes: Seq<NodeHits>, inputs: Seq<InputEvent>, j: nat) -> Routing
    decreases j,
{
    if j == 0 {
        r
    } else {
        route_node(route_nodes(r, nodes, inputs, (j - 1) as nat), nodes[j - 1], inputs, inputs.len())
    }
}

/// After the batch: a click that focused nothing blurs and clears the
/// focused widget; a click that moved the focus blurs the widget focused
/// before the last `Focus`.
pub open spec fn settle_focus(r: Routing) -> Routing {
    let r1 = if r.was_click && !r.was_focus && r.focus != Index::none() {
        Routing {
            events: r.events.push(Event::spec_new(r.focus, EventType::Blur)),
            focus: Index::none(),
            ..r
        }
    } else {
        r
    };
    if r1.was_click && r1.was_focus && r1.focus != r1.last_focus {
        Routing { events: r1.events.push(Event::spec_new(r1.last_focus, EventType::Blur)), ..r1 }
    } else {
        r1
    }
}

/// The state routing starts from.
pub open spec fn start_routing(previous: Map<u64, Option<EventType>>, focus: Index, last_focus: Index) -> Routing {
    Routing {
        events: Seq::empty(),
        previous,
        pos: MousePos::Before,
        focus,
        last_focus,
        was_click: false,
        was_focus: false,
    }
}

/// The whole batch: every input to every widget, then the focus rules.
pub open spec fn route_batch(
    previous: Map<u64, Option<EventType>>,
    focus: Index,
    last_focus: Index,
    nodes: Seq<NodeHits>,
    inputs: Seq<InputEvent>,
) -> Routing {
    settle_focus(route_nodes(start_routing(previous, focus, last_focus), nodes, inputs, nodes.len()))
}

/// Every widget's hit table covers the whole batch.
pub open spec fn hits_cover(nodes: Seq<NodeHits>, inputs: Seq<InputEvent>) -> bool {
    forall|j: int| 0 <= j < nodes.len() ==> (#[trigger] nodes[j]).hits@.len() == inputs.len()
}


/// The index of the last pointer move among the first `k` inputs.
pub open spec fn last_move_before(inputs: Seq<InputEvent>, k: int) -> Option<int>
    decreases k,
{
    if k <= 0 {
        None
    } else if inputs[k - 1] is MouseMoved {
        Some(k - 1)
    } else {
        last_move_before(inputs, k - 1)
    }
}

/// The pointer state a widget has after a pointer move to a point that is
/// (`inside`) or is not over it.
pub open spec fn hover_state(inside: bool) -> Option<EventType> {
    if inside {
        Some(EventType::Hover)
    } else {
        None
    }
}

/// The only pointer states recorded are "under the pointer" and none.
pub open spec fn pointer_states_ok(previous: Map<u64, Option<EventType>>) -> bool {
    forall|id: u64| #[trigger]
        previous.contains_key(id) ==> previous[id] is None || previous[id] == Some(EventType::Hover)
}

/// The widgets of a batch are distinct.
pub open spec fn distinct_nodes(nodes: Seq<NodeHits>) -> bool {
    forall|a: int, b: int|
        0 <= a < nodes.len() && 0 <= b < nodes.len() && a != b ==> (#[trigger] nodes[a]).node.id
            != (#[trigger] nodes[b]).node.id
}

/// The batch holds no click.
pub open spec fn no_click(inputs: Seq<InputEvent>) -> bool {
    forall|k: int| 0 <= k < inputs.len() ==> !(#[trigger] inputs[k] is MouseLeftClick)
}

/// No event in the sequence is about clicks or focus.
pub open spec fn no_focus_events(events: Seq<Event>) -> bool {
    forall|i: int|
        0 <= i < events.len() ==> {
            let t = (#[trigger] events[i]).event_type;
            t != EventType::Click && t != EventType::Focus && t != EventType::Blur
        }
}

proof fn lemma_route_node_hover(r: Routing, n: NodeHits, inputs: Seq<InputEvent>, k: nat)
    requires
        k <= inputs.len(),
        n.hits@.len() == inputs.len(),
    ensures
        ({
            let r2 = route_node(r, n, inputs, k);
            &&& forall|id: u64|
                id != n.node.id ==> #[trigger] last_event(r2.previous, id) == last_event(
                    r.previous,
                    id,
                )
            &&& last_event(r2.previous, n.node.id) == match last_move_before(inputs, k as int) {
                Some(m) => hover_state(n.hits@[m]),
                None => last_event(r.previous, n.node.id),
            }
            &&& pointer_states_ok(r.previous) ==> pointer_states_ok(r2.previous)
        }),
    decreases k,
{
    if k > 0 {
        let km = (k - 1) as nat;
        lemma_route_node_hover(r, n, inputs, km);
        let r1 = route_node(r, n, inputs, km);
        let r2 = route_node(r, n, inputs, k);
        assert(r2 == route_input(r1, n, km as int, inputs[km as int]));
        let id = n.node.id;
        if inputs[km as int] is MouseMoved {
            let v = hover_state(n.hits@[km as int]);
            assert(r2.previous == r1.previous.insert(id, v));
            assert(last_event(r2.previous, id) == v);
            assert(last_move_before(inputs, k as int) == Some(km as int));
            assert forall|x: u64| x != id implies #[trigger] last_event(r2.previous, x) == last_event(
                r.previous,
                x,
            ) by {
                assert(last_event(r1.previous, x) == last_event(r.previous, x));
            }
            if pointer_states_ok(r.previous) {
                assert forall|x: u64| #[trigger] r2.previous.contains_key(x) implies r2.previous[x] is None
                    || r2.previous[x] == Some(EventType::Hover) by {
                    if x != id {
                        assert(r1.previous.contains_key(x));
                    }
                }
            }
        } else {
            assert(r2.previous == r1.previous);
            assert(last_move_before(inputs, k as int) == last_move_before(inputs, km as int));
        }
    }
}

proof fn lemma_route_nodes_hover(r: Routing, nodes: Seq<NodeHits>, inputs: Seq<InputEvent>, j: nat)
    requires
        j <= nodes.len(),
        hits_cover(nodes, inputs),
    ensures
        ({
            let r2 = route_nodes(r, nodes, inputs, j);
            &&& forall|id: u64|
                (forall|a: int| 0 <= a < j ==> nodes[a].node.id != id) ==> #[trigger] last_event(
                    r2.previous,
                    id,
                ) == last_event(r.previous, id)
            &&& distinct_nodes(nodes) ==> forall|a: int|
                0 <= a < j ==> #[trigger] last_event(r2.previous, nodes[a].node.id) == match last_move_before(
                    inputs,
                    inputs.len() as int,
                ) {
                    Some(m) => hover_state(nodes[a].hits@[m]),
                    None => last_event(r.previous, nodes[a].node.id),
                }
            &&& pointer_states_ok(r.previous) ==> pointer_states_ok(r2.previous)
        }),
    decreases j,
{
    if j > 0 {
        let jm = (j - 1) as nat;
        lemma_route_nodes_hover(r, nodes, inputs, jm);
        let r1 = route_nodes(r, nodes, inputs, jm);
        let n = nodes[jm as int];
        assert(n.hits@.len() == inputs.len());
        lemma_route_node_hover(r1, n, inputs, inputs.len());
    }
}

/// Law: after a batch with a pointer move, each widget of the batch is
/// recorded as under the pointer exactly when the last move's point is over
/// it; widgets outside the batch keep what was recorded for them.
pub proof fn law_hover_follows_last_move(
    previous: Map<u64, Option<EventType>>,
    focus: Index,
    last_focus: Index,
    nodes: Seq<NodeHits>,
    inputs: Seq<InputEvent>,
)
    requires
        hits_cover(nodes, inputs),
        distinct_nodes(nodes),
    ensures
        ({
            let r = route_batch(previous, focus, last_focus, nodes, inputs);
            &&& last_move_before(inputs, inputs.len() as int) matches Some(m) ==> forall|j: int|
                0 <= j < nodes.len() ==> #[trigger] last_event(r.previous, nodes[j].node.id)
                    == hover_state(nodes[j].hits@[m])
            &&& forall|id: u64|
                (forall|j: int| 0 <= j < nodes.len() ==> nodes[j].node.id != id) ==> #[trigger] last_event(
                    r.previous,
                    id,
                ) == last_event(previous, id)
        }),
{
    lemma_route_nodes_hover(start_routing(previous, focus, last_focus), nodes, inputs, nodes.len());
}

/// Law: routing only ever records a widget as under the pointer or as not.
pub proof fn law_pointer_states_stay_simple(
    previous: Map<u64, Option<EventType>>,
    focus: Index,
    last_focus: Index,
    nodes: Seq<NodeHits>,
    inputs: Seq<InputEvent>,
)
    requires
        hits_cover(nodes, inputs),
        pointer_states_ok(previous),
    ensures
        pointer_states_ok(route_batch(previous, focus, last_focus, nodes, inputs).previous),
{
    lemma_route_nodes_hover(start_routing(previous, focus, last_focus), nodes, inputs, nodes.len());
}

proof fn lemma_route_node_no_click(r: Routing, n: NodeHits, inputs: Seq<InputEvent>, k: nat)
    requires
        k <= inputs.len(),
        no_click(inputs),
        !r.was_click,
        no_focus_events(r.events),
    ensures
        ({
            let r2 = route_node(r, n, inputs, k);
            &&& !r2.was_click
            &&& r2.focus == r.focus
            &&& r2.last_focus == r.last_focus
            &&& no_focus_events(r2.events)
        }),
    decreases k,
{
    if k > 0 {
        lemma_route_node_no_click(r, n, inputs, (k - 1) as nat);
        let r1 = route_node(r, n, inputs, (k - 1) as nat);
        let r2 = route_node(r, n, inputs, k);
        assert(!(inputs[k - 1] is MouseLeftClick));
        assert forall|i: int| 0 <= i < r2.events.len() implies {
            let t = (#[trigger] r2.events[i]).event_type;
            t != EventType::Click && t != EventType::Focus && t != EventType::Blur
        } by {
            if i < r1.events.len() {
                assert(r2.events[i] == r1.events[i]) by {
                    assert(r1.events.is_prefix_of(r2.events));
                }
            }
        }
    }
}

proof fn lemma_route_nodes_no_click(r: Routing, nodes: Seq<NodeHits>, inputs: Seq<InputEvent>, j: nat)
    requires
        j <= nodes.len(),
        no_click(inputs),
        !r.was_click,
        no_focus_events(r.events),
    ensures
        ({
            let r2 = route_nodes(r, nodes, inputs, j);
            &&& !r2.was_click
            &&& r2.focus == r.focus
            &&& r2.last_focus == r.last_focus
            &&& no_focus_events(r2.events)
        }),
    decreases j,
{
    if j > 0 {
        lemma_route_nodes_no_click(r, nodes, inputs, (j - 1) as nat);
        lemma_route_node_no_click(
            route_nodes(r, nodes, inputs, (j - 1) as nat),
            nodes[j - 1],
            inputs,
            inputs.len(),
        );
    }
}

/// Law: a batch without a click leaves the focus where it was and produces
/// no click, focus or blur event.
pub proof fn law_no_click_keeps_focus(
    previous: Map<u64, Option<EventType>>,
    focus: Index,
    last_focus: Index,
    nodes: Seq<NodeHits>,
    inputs: Seq<InputEvent>,
)
    requires
        no_click(inputs),
    ensures
        ({
            let r = route_batch(previous, focus, last_focus, nodes, inputs);
            &&& r.focus == focus
            &&& r.last_focus == last_focus
            &&& no_focus_events(r.events)
        }),
{
    lemma_route_nodes_no_click(start_routing(previous, focus, last_focus), nodes, inputs, nodes.len());
}

/// `f` is the focus before the batch, no widget, or a focusable widget of
/// the batch.
pub open spec fn focus_from_batch(f: Index, focus: Index, nodes: Seq<NodeHits>) -> bool {
    ||| f == focus
    ||| f == Index::none()
    ||| exists|j: int| 0 <= j < nodes.len() && (#[trigger] nodes[j]).focusable && nodes[j].node == f
}

proof fn lemma_route_node_focus(r: Routing, n: NodeHits, inputs: Seq<InputEvent>, k: nat)
    requires
        k <= inputs.len(),
    ensures
        ({
            let f = route_node(r, n, inputs, k).focus;
            f == r.focus || (n.focusable && f == n.node)
        }),
    decreases k,
{
    if k > 0 {
        lemma_route_node_focus(r, n, inputs, (k - 1) as nat);
    }
}

proof fn lemma_route_nodes_focus(r: Routing, nodes: Seq<NodeHits>, inputs: Seq<InputEvent>, j: nat)
    requires
        j <= nodes.len(),
    ensures
        ({
            let f = route_nodes(r, nodes, inputs, j).focus;
            ||| f == r.focus
            ||| exists|i: int| 0 <= i < j && (#[trigger] nodes[i]).focusable && nodes[i].node == f
        }),
    decreases j,
{
    if j > 0 {
        let jm = (j - 1) as nat;
        lemma_route_nodes_focus(r, nodes, inputs, jm);
        let r1 = route_nodes(r, nodes, inputs, jm);
        lemma_route_node_focus(r1, nodes[jm as int], inputs, inputs.len());
        let f = route_nodes(r, nodes, inputs, j).focus;
        if f != r1.focus {
            assert(nodes[jm as int].focusable && nodes[jm as int].node == f);
        }
    }
}

/// Law: after a batch the focus is where it was, on no widget, or on a
/// focusable widget of the batch.
pub proof fn law_focus_lands_on_focusable(
    previous: Map<u64, Option<EventType>>,
    focus: Index,
    last_focus: Index,
    nodes: Seq<NodeHits>,
    inputs: Seq<InputEvent>,
)
    ensures
        focus_from_batch(route_batch(previous, focus, last_focus, nodes, inputs).focus, focus, nodes),
{
    lemma_route_nodes_focus(start_routing(previous, focus, last_focus), nodes, inputs, nodes.len());
}

/// Whether widget `id` is recorded as under the pointer.
pub open spec fn hovered(previous: Map<u64, Option<EventType>>, id: u64) -> bool {
    last_event(previous, id) == Some(EventType::Hover)
}

/// Whether the event is a pointer edge (`MouseIn` or `MouseOut`) for `id`.
pub open spec fn is_pointer_edge(e: Event, id: u64) -> bool {
    e.target.id == id && (e.event_type == EventType::MouseIn || e.event_type == EventType::MouseOut)
}

/// The pointer edges addressed to widget `id`, in order.
pub open spec fn pointer_edges(events: Seq<Event>, id: u64) -> Seq<EventType>
    decreases events.len(),
{
    if events.len() == 0 {
        Seq::empty()
    } else {
        let rest = pointer_edges(events.drop_last(), id);
        if is_pointer_edge(events.last(), id) {
            rest.push(events.last().event_type)
        } else {
            rest
        }
    }
}

/// The `i`-th pointer edge of a widget that was (`hovered_before`) or was
/// not under the pointer: they alternate, starting with `MouseIn` for a
/// widget not under the pointer and with `MouseOut` for one that is.
pub open spec fn edge_at(hovered_before: bool, i: int) -> EventType {
    if (i % 2 == 0) == hovered_before {
        EventType::MouseOut
    } else {
        EventType::MouseIn
    }
}

/// The edges alternate from the given start.
pub open spec fn edges_alternate(edges: Seq<EventType>, hovered_before: bool) -> bool {
    forall|i: int| 0 <= i < edges.len() ==> #[trigger] edges[i] == edge_at(hovered_before, i)
}

/// Whether a widget is under the pointer after `n` alternating edges.
pub open spec fn hover_after(hovered_before: bool, n: int) -> bool {
    hovered_before != (n % 2 == 1)
}

proof fn lemma_pointer_edges_push(events: Seq<Event>, e: Event, id: u64)
    ensures
        pointer_edges(events.push(e), id) == if is_pointer_edge(e, id) {
            pointer_edges(events, id).push(e.event_type)
        } else {
            pointer_edges(events, id)
        },
{
    assert(events.push(e).drop_last() =~= events);
}

proof fn lemma_pointer_edges_add(a: Seq<Event>, b: Seq<Event>, id: u64)
    ensures
        pointer_edges(a + b, id) == pointer_edges(a, id) + pointer_edges(b, id),
    decreases b.len(),
{
    if b.len() == 0 {
        assert(a + b =~= a);
        assert(pointer_edges(a, id) + Seq::<EventType>::empty() =~= pointer_edges(a, id));
    } else {
        let b1 = b.drop_last();
        let e = b.last();
        lemma_pointer_edges_add(a, b1, id);
        assert(a + b =~= (a + b1).push(e));
        assert(b =~= b1.push(e));
        lemma_pointer_edges_push(a + b1, e, id);
        lemma_pointer_edges_push(b1, e, id);
        if is_pointer_edge(e, id) {
            assert((pointer_edges(a, id) + pointer_edges(b1, id)).push(e.event_type) =~= pointer_edges(
                a,
                id,
            ) + pointer_edges(b1, id).push(e.event_type));
        }
    }
}

/// The edges of widget `id` so far alternate from `h0`, and the recorded
/// state matches their count.
pub open spec fn edges_track(r: Routing, id: u64, h0: bool) -> bool {
    &&& pointer_states_ok(r.previous)
    &&& edges_alternate(pointer_edges(r.events, id), h0)
    &&& hovered(r.previous, id) == hover_after(h0, pointer_edges(r.events, id).len() as int)
}

proof fn lemma_route_input_edges(r: Routing, n: NodeHits, k: int, input: InputEvent, id: u64, h0: bool)
    requires
        0 <= k < n.hits@.len(),
        edges_track(r, id, h0),
    ensures
        edges_track(route_input(r, n, k, input), id, h0),
{
    let r2 = route_input(r, n, k, input);
    let e0 = pointer_edges(r.events, id);
    let len = e0.len() as int;
    match input {
        InputEvent::MouseMoved => {
            let nid = n.node.id;
            let last = last_event(r.previous, nid);
            let hover = Event::spec_new(n.node, EventType::Hover);
            let min = Event::spec_new(n.node, EventType::MouseIn);
            let mout = Event::spec_new(n.node, EventType::MouseOut);
            assert(pointer_states_ok(r2.previous)) by {
                assert forall|x: u64| #[trigger] r2.previous.contains_key(x) implies r2.previous[x] is None
                    || r2.previous[x] == Some(EventType::Hover) by {
                    if x != nid {
                        assert(r.previous.contains_key(x));
                    }
                }
            }
            if n.hits@[k] {
                if last is None {
                    let ev1 = r.events.push(min);
                    lemma_pointer_edges_push(r.events, min, id);
                    lemma_pointer_edges_push(ev1, hover, id);
                    assert(r2.events == ev1.push(hover));
                    if nid == id {
                        assert(pointer_edges(r2.events, id) == e0.push(EventType::MouseIn));
                        assert(!hovered(r.previous, id));
                        assert forall|i: int| 0 <= i < len + 1 implies #[trigger] pointer_edges(
                            r2.events,
                            id,
                        )[i] == edge_at(h0, i) by {
                            if i < len {
                                assert(pointer_edges(r2.events, id)[i] == e0[i]);
                            }
                        }
                    } else {
                        assert(pointer_edges(r2.events, id) == e0);
                        assert(last_event(r2.previous, id) == last_event(r.previous, id));
                    }
                } else {
                    lemma_pointer_edges_push(r.events, hover, id);
                    assert(pointer_edges(r2.events, id) == e0);
                    if nid == id {
                        assert(r.previous.contains_key(id));
                        assert(hovered(r.previous, id));
                    } else {
                        assert(last_event(r2.previous, id) == last_event(r.previous, id));
                    }
                }
            } else {
                if last == Some(EventType::Hover) || last == Some(EventType::MouseIn) {
                    lemma_pointer_edges_push(r.events, mout, id);
                    if nid == id {
                        assert(pointer_edges(r2.events, id) == e0.push(EventType::MouseOut));
                        assert(hovered(r.previous, id));
                        assert forall|i: int| 0 <= i < len + 1 implies #[trigger] pointer_edges(
                            r2.events,
                            id,
                        )[i] == edge_at(h0, i) by {
                            if i < len {
                                assert(pointer_edges(r2.events, id)[i] == e0[i]);
                            }
                        }
                    } else {
                        assert(pointer_edges(r2.events, id) == e0);
                        assert(last_event(r2.previous, id) == last_event(r.previous, id));
                    }
                } else {
                    assert(r2.events == r.events);
                    if nid == id {
                        assert(!hovered(r.previous, id));
                    } else {
                        assert(last_event(r2.previous, id) == last_event(r.previous, id));
                    }
                }
            }
        },
        InputEvent::MouseLeftClick => {
            let click = Event::spec_new(n.node, EventType::Click);
            let focus = Event::spec_new(n.node, EventType::Focus);
            lemma_pointer_edges_push(r.events, click, id);
            lemma_pointer_edges_push(r.events.push(click), focus, id);
            assert(pointer_edges(r2.events, id) == e0);
        },
        InputEvent::CharEvent { c } => {
            lemma_pointer_edges_push(r.events, Event::spec_new(n.node, EventType::CharInput { c }), id);
        },
        InputEvent::Keyboard { key } => {
            lemma_pointer_edges_push(
                r.events,
                Event::spec_new(n.node, EventType::KeyboardInput { key }),
                id,
            );
        },
    }
}

proof fn lemma_route_node_edges(r: Routing, n: NodeHits, inputs: Seq<InputEvent>, k: nat, id: u64, h0: bool)
    requires
        k <= inputs.len(),
        n.hits@.len() == inputs.len(),
        edges_track(r, id, h0),
    ensures
        edges_track(route_node(r, n, inputs, k), id, h0),
    decreases k,
{
    if k > 0 {
        lemma_route_node_edges(r, n, inputs, (k - 1) as nat, id, h0);
        lemma_route_input_edges(
            route_node(r, n, inputs, (k - 1) as nat),
            n,
            k - 1,
            inputs[k - 1],
            id,
            h0,
        );
    }
}

proof fn lemma_route_nodes_edges(
    r: Routing,
    nodes: Seq<NodeHits>,
    inputs: Seq<InputEvent>,
    j: nat,
    id: u64,
    h0: bool,
)
    requires
        j <= nodes.len(),
        hits_cover(nodes, inputs),
        edges_track(r, id, h0),
    ensures
        edges_track(route_nodes(r, nodes, inputs, j), id, h0),
    decreases j,
{
    if j > 0 {
        lemma_route_nodes_edges(r, nodes, inputs, (j - 1) as nat, id, h0);
        assert(nodes[j - 1].hits@.len() == inputs.len());
        lemma_route_node_edges(
            route_nodes(r, nodes, inputs, (j - 1) as nat),
            nodes[j - 1],
            inputs,
            inputs.len(),
            id,
            h0,
        );
    }
}

proof fn lemma_settle_focus_edges(r: Routing, id: u64)
    ensures
        settle_focus(r).previous == r.previous,
        pointer_edges(settle_focus(r).events, id) == pointer_edges(r.events, id),
{
    let r1 = if r.was_click && !r.was_focus && r.focus != Index::none() {
        Routing {
            events: r.events.push(Event::spec_new(r.focus, EventType::Blur)),
            focus: Index::none(),
            ..r
        }
    } else {
        r
    };
    lemma_pointer_edges_push(r.events, Event::spec_new(r.focus, EventType::Blur), id);
    lemma_pointer_edges_push(r1.events, Event::spec_new(r1.last_focus, EventType::Blur), id);
}

/// Law: in one batch, the `MouseIn` and `MouseOut` events of a widget
/// alternate, starting with `MouseIn` if the widget was not under the
/// pointer and with `MouseOut` if it was; after the batch it is under the
/// pointer exactly when their count says so.
pub proof fn law_pointer_edges_alternate(
    previous: Map<u64, Option<EventType>>,
    focus: Index,
    last_focus: Index,
    nodes: Seq<NodeHits>,
    inputs: Seq<InputEvent>,
    id: u64,
)
    requires
        hits_cover(nodes, inputs),
        pointer_states_ok(previous),
    ensures
        ({
            let r = route_batch(previous, focus, last_focus, nodes, inputs);
            let edges = pointer_edges(r.events, id);
            &&& edges_alternate(edges, hovered(previous, id))
            &&& hovered(r.previous, id) == hover_after(hovered(previous, id), edges.len() as int)
            &&& pointer_states_ok(r.previous)
        }),
{
    let h0 = hovered(previous, id);
    let r0 = start_routing(previous, focus, last_focus);
    assert(pointer_edges(r0.events, id) =~= Seq::<EventType>::empty());
    lemma_route_nodes_edges(r0, nodes, inputs, nodes.len(), id, h0);
    lemma_settle_focus_edges(route_nodes(r0, nodes, inputs, nodes.len()), id);
}

/// One batch of input: the laid-out widgets with their hit tests, and the inputs.
pub struct InputBatch {
    pub nodes: Seq<NodeHits>,
    pub inputs: Seq<InputEvent>,
}

/// Routing the first `k` batches one after the other, each from where the
/// one before left the pointer and focus state: the final state, and all
/// events in order.
pub open spec fn route_batches(
    previous: Map<u64, Option<EventType>>,
    focus: Index,
    last_focus: Index,
    batches: Seq<InputBatch>,
    k: nat,
) -> (Routing, Seq<Event>)
    decreases k,
{
    if k == 0 {
        (start_routing(previous, focus, last_focus), Seq::empty())
    } else {
        let (r, events) = route_batches(previous, focus, last_focus, batches, (k - 1) as nat);
        let b = batches[k - 1];
        let r2 = route_batch(r.previous, r.focus, r.last_focus, b.nodes, b.inputs);
        (r2, events + r2.events)
    }
}

/// Law: over any sequence of batches, the `MouseIn` and `MouseOut` events
/// of a widget alternate; for a context that starts with nothing recorded
/// (a new context), they start with `MouseIn`. Between batches the widget
/// is recorded as under the pointer exactly after a `MouseIn`.
pub proof fn law_pointer_edges_alternate_across_batches(
    previous: Map<u64, Option<EventType>>,
    focus: Index,
    last_focus: Index,
    batches: Seq<InputBatch>,
    k: nat,
    id: u64,
)
    requires
        k <= batches.len(),
        pointer_states_ok(previous),
        forall|i: int| 0 <= i < batches.len() ==> hits_cover((#[trigger] batches[i]).nodes, batches[i].inputs),
    ensures
        ({
            let (r, events) = route_batches(previous, focus, last_focus, batches, k);
            let edges = pointer_edges(events, id);
            &&& edges_alternate(edges, hovered(previous, id))
            &&& hovered(r.previous, id) == hover_after(hovered(previous, id), edges.len() as int)
            &&& pointer_states_ok(r.previous)
            &&& previous == Map::<u64, Option<EventType>>::empty() ==> forall|i: int|
                0 <= i < edges.len() ==> #[trigger] edges[i] == if i % 2 == 0 {
                    EventType::MouseIn
                } else {
                    EventType::MouseOut
                }
        }),
    decreases k,
{
    let h0 = hovered(previous, id);
    if k == 0 {
        assert(pointer_edges(Seq::<Event>::empty(), id) =~= Seq::<EventType>::empty());
    } else {
        let km = (k - 1) as nat;
        law_pointer_edges_alternate_across_batches(previous, focus, last_focus, batches, km, id);
        let (r, events) = route_batches(previous, focus, last_focus, batches, km);
        let b = batches[km as int];
        assert(hits_cover(b.nodes, b.inputs));
        law_pointer_edges_alternate(r.previous, r.focus, r.last_focus, b.nodes, b.inputs, id);
        let r2 = route_batch(r.previous, r.focus, r.last_focus, b.nodes, b.inputs);
        lemma_pointer_edges_add(events, r2.events, id);
        let e1 = pointer_edges(events, id);
        let e2 = pointer_edges(r2.events, id);
        let l1 = e1.len() as int;
        let h1 = hovered(r.previous, id);
        assert(h1 == hover_after(h0, l1));
        assert forall|i: int| 0 <= i < (e1 + e2).len() implies #[trigger] (e1 + e2)[i] == edge_at(h0, i) by {
            if i >= l1 {
                assert((e1 + e2)[i] == e2[i - l1]);
                assert(e2[i - l1] == edge_at(h1, i - l1));
                assert(edge_at(h1, i - l1) == edge_at(h0, i));
            }
        }
        assert(hover_after(h1, e2.len() as int) == hover_after(h0, (e1 + e2).len() as int));
    }
    if previous == Map::<u64, Option<EventType>>::empty() {
        assert(!h0);
    }
}

/// The pointer position after the first `k` inputs, starting from `p0`:
/// the point of the last move among them, or `p0` if none moved it.
pub open spec fn pos_after_moves(inputs: Seq<InputEvent>, p0: MousePos, k: int) -> MousePos {
    match last_move_before(inputs, k) {
        Some(m) => MousePos::Input(m as usize),
        None => p0,
    }
}

/// The pointer position when the `j`-th widget's turn starts: for the
/// first, the position held before the batch; for the others, the point
/// of the batch's last move (or the old position if it has none).
pub open spec fn node_start_pos(inputs: Seq<InputEvent>, j: int) -> MousePos {
    if j > 0 {
        pos_after_moves(inputs, MousePos::Before, inputs.len() as int)
    } else {
        MousePos::Before
    }
}

/// The pointer position at which input `k` reaches widget `j`.
pub open spec fn click_point(inputs: Seq<InputEvent>, j: int, k: int) -> MousePos {
    pos_after_moves(inputs, node_start_pos(inputs, j), k)
}

/// Input `k` is a click that lands on widget `j`, which can take the focus.
pub open spec fn focusing_click(nodes: Seq<NodeHits>, inputs: Seq<InputEvent>, j: int, k: int) -> bool {
    &&& 0 <= j < nodes.len()
    &&& 0 <= k < inputs.len()
    &&& inputs[k] is MouseLeftClick
    &&& nodes[j].focusable
    &&& node_hit(nodes[j], click_point(inputs, j, k))
}

/// Some click of the batch lands on widget `j`, which can take the focus.
pub open spec fn takes_focus(nodes: Seq<NodeHits>, inputs: Seq<InputEvent>, j: int) -> bool {
    exists|k: int| #[trigger] focusing_click(nodes, inputs, j, k)
}

/// The batch holds a click.
pub open spec fn has_click(inputs: Seq<InputEvent>) -> bool {
    exists|k: int| 0 <= k < inputs.len() && #[trigger] inputs[k] is MouseLeftClick
}

/// The input whose point the pointer is at after a batch: the last move,
/// provided some widget was laid out to take it.
pub open spec fn last_move_index(nodes: Seq<NodeHits>, inputs: Seq<InputEvent>) -> Option<usize> {
    if nodes.len() > 0 {
        match last_move_before(inputs, inputs.len() as int) {
            Some(m) => Some(m as usize),
            None => None,
        }
    } else {
        None
    }
}

/// Whether an event carries typed input (a character or a key).
pub open spec fn is_key_event(e: Event) -> bool {
    e.event_type is CharInput || e.event_type is KeyboardInput
}

/// The typed-input events of a sequence, in order.
pub open spec fn key_events(events: Seq<Event>) -> Seq<Event>
    decreases events.len(),
{
    if events.len() == 0 {
        Seq::empty()
    } else {
        let rest = key_events(events.drop_last());
        if is_key_event(events.last()) {
            rest.push(events.last())
        } else {
            rest
        }
    }
}

/// The typed-input events that inputs give one widget: one per character
/// or key input, in input order.
pub open spec fn key_input_events(node: Index, inputs: Seq<InputEvent>) -> Seq<Event>
    decreases inputs.len(),
{
    if inputs.len() == 0 {
        Seq::empty()
    } else {
        let rest = key_input_events(node, inputs.drop_last());
        match inputs.last() {
            InputEvent::CharEvent { c } => rest.push(Event::spec_new(node, EventType::CharInput { c })),
            InputEvent::Keyboard { key } => rest.push(
                Event::spec_new(node, EventType::KeyboardInput { key }),
            ),
            _ => rest,
        }
    }
}

/// The typed-input events the first `j` widgets get, widget after widget.
pub open spec fn key_events_for(nodes: Seq<NodeHits>, inputs: Seq<InputEvent>, j: int) -> Seq<Event>
    decreases j,
{
    if j <= 0 {
        Seq::empty()
    } else {
        key_events_for(nodes, inputs, j - 1) + key_input_events(nodes[j - 1].node, inputs)
    }
}

proof fn lemma_key_events_push(events: Seq<Event>, e: Event)
    ensures
        key_events(events.push(e)) == if is_key_event(e) {
            key_events(events).push(e)
        } else {
            key_events(events)
        },
{
    assert(events.push(e).drop_last() =~= events);
}

/// Input `i` is a click landing on `n`, which can take the focus, with the
/// pointer having started at `p0`.
pub open spec fn node_focuses_at(n: NodeHits, inputs: Seq<InputEvent>, p0: MousePos, i: int) -> bool {
    &&& inputs[i] is MouseLeftClick
    &&& n.focusable
    &&& node_hit(n, pos_after_moves(inputs, p0, i))
}

/// One input, one widget: what the step does to the pointer, clicks,
/// focus, and the events so far.
proof fn lemma_route_input_effects(r: Routing, n: NodeHits, k: int, input: InputEvent)
    ensures
        ({
            let r2 = route_input(r, n, k, input);
            let f = input is MouseLeftClick && n.focusable && node_hit(n, r.pos);
            &&& r2.pos == if input is MouseMoved {
                MousePos::Input(k as usize)
            } else {
                r.pos
            }
            &&& r2.was_click == (r.was_click || input is MouseLeftClick)
            &&& r2.was_focus == (r.was_focus || f)
            &&& f ==> r2.focus == n.node && r2.events.contains(Event::spec_new(n.node, EventType::Focus))
            &&& !f ==> r2.focus == r.focus
            &&& r2.events.len() >= r.events.len()
            &&& forall|i: int| 0 <= i < r.events.len() ==> #[trigger] r2.events[i] == r.events[i]
            &&& key_events(r2.events) == key_events(r.events) + match input {
                InputEvent::CharEvent { c } => seq![Event::spec_new(n.node, EventType::CharInput { c })],
                InputEvent::Keyboard { key } => seq![
                    Event::spec_new(n.node, EventType::KeyboardInput { key }),
                ],
                _ => Seq::<Event>::empty(),
            }
        }),
{
    let r2 = route_input(r, n, k, input);
    let ke = key_events(r.events);
    let min = Event::spec_new(n.node, EventType::MouseIn);
    let hov = Event::spec_new(n.node, EventType::Hover);
    let mout = Event::spec_new(n.node, EventType::MouseOut);
    let click = Event::spec_new(n.node, EventType::Click);
    let foc = Event::spec_new(n.node, EventType::Focus);
    match input {
        InputEvent::MouseMoved => {
            lemma_key_events_push(r.events, min);
            lemma_key_events_push(r.events.push(min), hov);
            lemma_key_events_push(r.events, hov);
            lemma_key_events_push(r.events, mout);
            assert(ke + Seq::<Event>::empty() =~= ke);
        },
        InputEvent::MouseLeftClick => {
            lemma_key_events_push(r.events, click);
            lemma_key_events_push(r.events.push(click), foc);
            assert(ke + Seq::<Event>::empty() =~= ke);
            if n.focusable && node_hit(n, r.pos) {
                assert(r2.events[r.events.len() + 1int] == foc);
            }
        },
        InputEvent::CharEvent { c } => {
            let e = Event::spec_new(n.node, EventType::CharInput { c });
            lemma_key_events_push(r.events, e);
            assert(ke.push(e) =~= ke + seq![e]);
        },
        InputEvent::Keyboard { key } => {
            let e = Event::spec_new(n.node, EventType::KeyboardInput { key });
            lemma_key_events_push(r.events, e);
            assert(ke.push(e) =~= ke + seq![e]);
        },
    }
}

proof fn lemma_route_node_effects(r: Routing, n: NodeHits, inputs: Seq<InputEvent>, k: nat)
    requires
        k <= inputs.len(),
    ensures
        ({
            let r2 = route_node(r, n, inputs, k);
            let p0 = r.pos;
            let focused = exists|i: int| 0 <= i < k && #[trigger] node_focuses_at(n, inputs, p0, i);
            &&& r2.pos == pos_after_moves(inputs, p0, k as int)
            &&& r2.was_click == (r.was_click || exists|i: int|
                0 <= i < k && #[trigger] inputs[i] is MouseLeftClick)
            &&& r2.was_focus == (r.was_focus || focused)
            &&& focused ==> r2.focus == n.node && r2.events.contains(
                Event::spec_new(n.node, EventType::Focus),
            )
            &&& !focused ==> r2.focus == r.focus
            &&& r2.events.len() >= r.events.len()
            &&& forall|i: int| 0 <= i < r.events.len() ==> #[trigger] r2.events[i] == r.events[i]
            &&& key_events(r2.events) == key_events(r.events) + key_input_events(
                n.node,
                inputs.take(k as int),
            )
        }),
    decreases k,
{
    let p0 = r.pos;
    if k == 0 {
        assert(inputs.take(0) =~= Seq::<InputEvent>::empty());
        assert(key_events(r.events) + Seq::<Event>::empty() =~= key_events(r.events));
    } else {
        let km = (k - 1) as nat;
        lemma_route_node_effects(r, n, inputs, km);
        let r1 = route_node(r, n, inputs, km);
        let input = inputs[km as int];
        lemma_route_input_effects(r1, n, km as int, input);
        let r2 = route_node(r, n, inputs, k);
        assert(r2 == route_input(r1, n, km as int, input));
        // pointer
        if input is MouseMoved {
            assert(last_move_before(inputs, k as int) == Some(km as int));
        } else {
            assert(last_move_before(inputs, k as int) == last_move_before(inputs, km as int));
        }
        // clicks
        if input is MouseLeftClick {
            assert(inputs[km as int] is MouseLeftClick);
        }
        assert((exists|i: int| 0 <= i < k && #[trigger] inputs[i] is MouseLeftClick) == ((exists|i: int|
            0 <= i < km && #[trigger] inputs[i] is MouseLeftClick) || input is MouseLeftClick));
        // focus
        let f = input is MouseLeftClick && n.focusable && node_hit(n, r1.pos);
        assert(f == node_focuses_at(n, inputs, p0, km as int));
        assert((exists|i: int| 0 <= i < k && #[trigger] node_focuses_at(n, inputs, p0, i)) == ((exists|
            i: int,
        | 0 <= i < km && #[trigger] node_focuses_at(n, inputs, p0, i)) || f));
        if !f && (exists|i: int| 0 <= i < km && #[trigger] node_focuses_at(n, inputs, p0, i)) {
            let x = Event::spec_new(n.node, EventType::Focus);
            let i = choose|i: int| 0 <= i < r1.events.len() && r1.events[i] == x;
            assert(r2.events[i] == x);
        }
        // typed input
        let t1 = inputs.take(km as int);
        let t2 = inputs.take(k as int);
        assert(t2.drop_last() =~= t1);
        assert(t2.last() == input);
        let kin = key_input_events(n.node, t1);
        let ke = key_events(r1.events);
        match input {
            InputEvent::CharEvent { c } => {
                let e = Event::spec_new(n.node, EventType::CharInput { c });
                assert(key_input_events(n.node, t2) == kin.push(e));
                assert((key_events(r.events) + kin) + seq![e] =~= key_events(r.events) + kin.push(e));
            },
            InputEvent::Keyboard { key } => {
                let e = Event::spec_new(n.node, EventType::KeyboardInput { key });
                assert(key_input_events(n.node, t2) == kin.push(e));
                assert((key_events(r.events) + kin) + seq![e] =~= key_events(r.events) + kin.push(e));
            },
            _ => {
                assert(key_input_events(n.node, t2) == kin);
                assert(ke + Seq::<Event>::empty() =~= ke);
            },
        }
    }
}

proof fn lemma_route_nodes_effects(
    previous: Map<u64, Option<EventType>>,
    focus: Index,
    last_focus: Index,
    nodes: Seq<NodeHits>,
    inputs: Seq<InputEvent>,
    j: nat,
)
    requires
        j <= nodes.len(),
    ensures
        ({
            let r0 = start_routing(previous, focus, last_focus);
            let r = route_nodes(r0, nodes, inputs, j);
            let any_focus = exists|a: int| 0 <= a < j && #[trigger] takes_focus(nodes, inputs, a);
            &&& r.pos == node_start_pos(inputs, j as int)
            &&& r.was_click == (j > 0 && has_click(inputs))
            &&& r.was_focus == any_focus
            &&& any_focus ==> exists|a: int|
                0 <= a < j && #[trigger] takes_focus(nodes, inputs, a) && r.focus == nodes[a].node
                    && forall|b: int| a < b < j ==> !#[trigger] takes_focus(nodes, inputs, b)
            &&& !any_focus ==> r.focus == focus
            &&& forall|a: int|
                0 <= a < j && #[trigger] takes_focus(nodes, inputs, a) ==> r.events.contains(
                    Event::spec_new(nodes[a].node, EventType::Focus),
                )
            &&& key_events(r.events) == key_events_for(nodes, inputs, j as int)
        }),
    decreases j,
{
    let r0 = start_routing(previous, focus, last_focus);
    if j == 0 {
        assert(key_events(r0.events) =~= Seq::<Event>::empty());
    } else {
        let jm = (j - 1) as nat;
        lemma_route_nodes_effects(previous, focus, last_focus, nodes, inputs, jm);
        let r1 = route_nodes(r0, nodes, inputs, jm);
        let n = nodes[jm as int];
        lemma_route_node_effects(r1, n, inputs, inputs.len());
        let r = route_nodes(r0, nodes, inputs, j);
        assert(r == route_node(r1, n, inputs, inputs.len()));
        let p0 = r1.pos;
        assert(p0 == node_start_pos(inputs, jm as int));
        // pointer
        assert(r.pos == node_start_pos(inputs, j as int));
        // clicks
        assert(r.was_click == (j > 0 && has_click(inputs))) by {
            if has_click(inputs) {
                let k = choose|k: int| 0 <= k < inputs.len() && #[trigger] inputs[k] is MouseLeftClick;
                assert(inputs[k] is MouseLeftClick);
            }
        }
        // widget jm takes focus iff one of its inputs focuses it
        assert(takes_focus(nodes, inputs, jm as int) == exists|i: int|
            0 <= i < inputs.len() && #[trigger] node_focuses_at(n, inputs, p0, i)) by {
            if takes_focus(nodes, inputs, jm as int) {
                let k = choose|k: int| #[trigger] focusing_click(nodes, inputs, jm as int, k);
                assert(node_focuses_at(n, inputs, p0, k));
            }
            if exists|i: int| 0 <= i < inputs.len() && #[trigger] node_focuses_at(n, inputs, p0, i) {
                let i = choose|i: int| 0 <= i < inputs.len() && #[trigger] node_focuses_at(n, inputs, p0, i);
                assert(focusing_click(nodes, inputs, jm as int, i));
            }
        }
        let any1 = exists|a: int| 0 <= a < jm && #[trigger] takes_focus(nodes, inputs, a);
        let any2 = exists|a: int| 0 <= a < j && #[trigger] takes_focus(nodes, inputs, a);
        let t = takes_focus(nodes, inputs, jm as int);
        assert(any2 == (any1 || t));
        if t {
            assert(r.focus == nodes[jm as int].node);
            assert(0 <= jm < j && takes_focus(nodes, inputs, jm as int) && r.focus == nodes[jm as int].node
                && forall|b: int| jm < b < j ==> !#[trigger] takes_focus(nodes, inputs, b));
        } else if any1 {
            let a = choose|a: int|
                0 <= a < jm && #[trigger] takes_focus(nodes, inputs, a) && r1.focus == nodes[a].node
                    && forall|b: int| a < b < jm ==> !#[trigger] takes_focus(nodes, inputs, b);
            assert(0 <= a < j && takes_focus(nodes, inputs, a) && r.focus == nodes[a].node && forall|b: int|
                a < b < j ==> !#[trigger] takes_focus(nodes, inputs, b));
        }
        assert forall|a: int|
            0 <= a < j && #[trigger] takes_focus(nodes, inputs, a) implies r.events.contains(
            Event::spec_new(nodes[a].node, EventType::Focus),
        ) by {
            if a < jm {
                let x = Event::spec_new(nodes[a].node, EventType::Focus);
                let i = choose|i: int| 0 <= i < r1.events.len() && r1.events[i] == x;
                assert(r.events[i] == x);
            }
        }
        assert(inputs.take(inputs.len() as int) =~= inputs);
        assert(key_events_for(nodes, inputs, j as int) == key_events_for(nodes, inputs, jm as int)
            + key_input_events(n.node, inputs));
    }
}

proof fn lemma_settle_focus_effects(r: Routing)
    ensures
        ({
            let s = settle_focus(r);
            &&& s.pos == r.pos
            &&& s.previous == r.previous
            &&& r.was_focus ==> s.focus == r.focus
            &&& r.was_click && !r.was_focus ==> s.focus == Index::none()
            &&& r.was_click && !r.was_focus && r.focus != Index::none() ==> s.events.contains(
                Event::spec_new(r.focus, EventType::Blur),
            )
            &&& !r.was_click ==> s == r
            &&& s.events.len() >= r.events.len()
            &&& forall|i: int| 0 <= i < r.events.len() ==> #[trigger] s.events[i] == r.events[i]
            &&& key_events(s.events) == key_events(r.events)
        }),
{
    let b1 = Event::spec_new(r.focus, EventType::Blur);
    let r1 = if r.was_click && !r.was_focus && r.focus != Index::none() {
        Routing { events: r.events.push(b1), focus: Index::none(), ..r }
    } else {
        r
    };
    lemma_key_events_push(r.events, b1);
    lemma_key_events_push(r1.events, Event::spec_new(r1.last_focus, EventType::Blur));
    if r.was_click && !r.was_focus && r.focus != Index::none() {
        assert(r1.events[r.events.len() as int] == b1);
        assert(settle_focus(r).events[r.events.len() as int] == b1);
    }
}

/// Law: a batch with a click, in which no click lands on a widget that can
/// take the focus, leaves no widget focused, and the widget focused before
/// the batch, whatever happened before, gets a `Blur`.
pub proof fn law_click_on_nothing_focusable_blurs(
    previous: Map<u64, Option<EventType>>,
    focus: Index,
    last_focus: Index,
    nodes: Seq<NodeHits>,
    inputs: Seq<InputEvent>,
)
    requires
        nodes.len() > 0,
        has_click(inputs),
        forall|j: int| 0 <= j < nodes.len() ==> !#[trigger] takes_focus(nodes, inputs, j),
    ensures
        ({
            let r = route_batch(previous, focus, last_focus, nodes, inputs);
            &&& r.focus == Index::none()
            &&& focus != Index::none() ==> r.events.contains(Event::spec_new(focus, EventType::Blur))
        }),
{
    lemma_route_nodes_effects(previous, focus, last_focus, nodes, inputs, nodes.len());
    let r = route_nodes(start_routing(previous, focus, last_focus), nodes, inputs, nodes.len());
    lemma_settle_focus_effects(r);
}

/// Law: every widget a click lands on that can take the focus gets a
/// `Focus` event, and after the batch the focus is on the last such widget
/// in tree order.
pub proof fn law_focus_goes_to_last_focusable_clicked(
    previous: Map<u64, Option<EventType>>,
    focus: Index,
    last_focus: Index,
    nodes: Seq<NodeHits>,
    inputs: Seq<InputEvent>,
)
    ensures
        ({
            let r = route_batch(previous, focus, last_focus, nodes, inputs);
            &&& forall|j: int|
                0 <= j < nodes.len() && #[trigger] takes_focus(nodes, inputs, j) ==> r.events.contains(
                    Event::spec_new(nodes[j].node, EventType::Focus),
                )
            &&& (exists|j: int| 0 <= j < nodes.len() && #[trigger] takes_focus(nodes, inputs, j))
                ==> exists|j: int|
                0 <= j < nodes.len() && #[trigger] takes_focus(nodes, inputs, j) && r.focus
                    == nodes[j].node && forall|b: int|
                    j < b < nodes.len() ==> !#[trigger] takes_focus(nodes, inputs, b)
        }),
{
    lemma_route_nodes_effects(previous, focus, last_focus, nodes, inputs, nodes.len());
    let r = route_nodes(start_routing(previous, focus, last_focus), nodes, inputs, nodes.len());
    lemma_settle_focus_effects(r);
    let s = settle_focus(r);
    assert forall|j: int|
        0 <= j < nodes.len() && #[trigger] takes_focus(nodes, inputs, j) implies s.events.contains(
        Event::spec_new(nodes[j].node, EventType::Focus),
    ) by {
        let x = Event::spec_new(nodes[j].node, EventType::Focus);
        let i = choose|i: int| 0 <= i < r.events.len() && r.events[i] == x;
        assert(s.events[i] == x);
    }
}

/// Law: every character and key input of a batch reaches every widget of
/// the batch exactly once, whatever the focus: the typed-input events are
/// those of the first widget for all inputs in order, then those of the
/// second, and so on.
pub proof fn law_typed_input_reaches_every_widget(
    previous: Map<u64, Option<EventType>>,
    focus: Index,
    last_focus: Index,
    nodes: Seq<NodeHits>,
    inputs: Seq<InputEvent>,
)
    ensures
        key_events(route_batch(previous, focus, last_focus, nodes, inputs).events) == key_events_for(
            nodes,
            inputs,
            nodes.len() as int,
        ),
{
    lemma_route_nodes_effects(previous, focus, last_focus, nodes, inputs, nodes.len());
    lemma_settle_focus_effects(route_nodes(start_routing(previous, focus, last_focus), nodes, inputs, nodes.len()));
}

/// Law: after a batch the pointer is at the point of the batch's last move,
/// provided some widget was laid out; clicks and typed input never move it.
pub proof fn law_pointer_ends_at_last_move(
    previous: Map<u64, Option<EventType>>,
    focus: Index,
    last_focus: Index,
    nodes: Seq<NodeHits>,
    inputs: Seq<InputEvent>,
)
    ensures
        match route_batch(previous, focus, last_focus, nodes, inputs).pos {
            MousePos::Before => last_move_index(nodes, inputs) is None,
            MousePos::Input(k) => last_move_index(nodes, inputs) == Some(k),
        },
{
    lemma_route_nodes_effects(previous, focus, last_focus, nodes, inputs, nodes.len());
    lemma_settle_focus_effects(route_nodes(start_routing(previous, focus, last_focus), nodes, inputs, nodes.len()));
}
} // verus!
