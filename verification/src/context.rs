//! The UI context: which widget is being built, the state its hooks
//! created, the global state it is bound to, and where pointer and focus
//! stand.
use std::collections::HashMap;
use std::collections::HashSet;
use vstd::prelude::*;
use crate::index::Index;
use crate::event::{Event, EventType, InputEvent};
use crate::hooks::{create_hook, enter_widget, hooks_wf, lemma_create_hook_wf, next_index, slot, Hooks};
use crate::bindings::{
    add_lifetime, bind_model, bindings_wf, bound_to, drop_lifetime, law_add_lifetime_keeps_cover,
    law_bind_is_idempotent, law_bindings_stay_covered, law_bindings_stay_distinct, law_unbind_releases,
    law_unbind_removes_at_position, lifetimes_of, subscriptions_cover, unbind_model, BindOutcome,
    UnbindOutcome,
};
use crate::tree::{ancestors, reaches_root};
use crate::events::{has_click, key_events, key_events_for, last_move_index, law_click_on_nothing_focusable_blurs, law_focus_goes_to_last_focusable_clicked, law_pointer_ends_at_last_move, law_typed_input_reaches_every_widget, takes_focus, hits_cover, law_pointer_states_stay_simple, pointer_states_ok, last_event, route_batch, route_input, route_node, route_nodes, start_routing, MousePos, NodeHits, Routing};

verus! {

broadcast use vstd::std_specs::hash::group_hash_axioms;

/// The context that widgets are built and driven through.
///
/// Bindings and pieces of widget state are known here by their ids; the
/// values themselves, and the subscriptions that keep widgets informed of
/// their changes, are held by the caller, which carries out the outcome
/// each operation returns.
pub struct KayakContext {
    /// Hook state, one list of state ids per (widget, state type) slot.
    widget_states: HashMap<u128, Vec<u128>>,
    /// The global bindings each widget is bound to, in binding order.
    global_bindings: HashMap<u64, Vec<u128>>,
    /// For each widget, the bindings whose change subscription it holds.
    widget_state_lifetimes: HashMap<u64, HashSet<u128>>,
    current_id: Index,
    /// The pointer state last recorded for each widget.
    previous_events: HashMap<u64, Option<EventType>>,
    current_focus: Index,
    last_focus: Index,
    last_state_type_id: Option<u64>,
    current_state_index: usize,
}

/// The events produced from one batch of input, in order, and the input
/// whose point is now the pointer position (`None`: it did not move).
pub struct RoutedInput {
    pub events: Vec<Event>,
    pub mouse_moved_to: Option<usize>,
}

/// The routing state of a batch that lives outside the context.
struct Batch {
    events: Vec<Event>,
    pos: MousePos,
    was_click: bool,
    was_focus: bool,
}

/// What a state call hands back: the id of the widget's state (the one it
/// already held, or the offered new one), and whether the caller keeps the
/// change subscription it took out on the offered new state.
pub struct CreatedState {
    pub state: Option<u128>,
    pub lifetime_kept: bool,
}

/// The map of views of a map of values.
pub open spec fn views<K, V: View>(m: Map<K, V>) -> Map<K, V::V> {
    Map::new(|k: K| m.contains_key(k), |k: K| m[k]@)
}

proof fn lemma_views_insert<K, V: View>(m: Map<K, V>, k: K, v: V)
    ensures
        views(m.insert(k, v)) == views(m).insert(k, v@),
{
    assert(views(m.insert(k, v)) =~= views(m).insert(k, v@));
}

proof fn lemma_views_remove_insert<K, V: View>(m: Map<K, V>, k: K, v: V)
    ensures
        views(m.remove(k).insert(k, v)) == views(m).insert(k, v@),
{
    assert(m.remove(k).insert(k, v) =~= m.insert(k, v));
    lemma_views_insert(m, k, v);
}

/// The hash key of the slot of one widget and state type.
pub open spec fn slot_key(widget: u64, state_type: u64) -> u128 {
    (widget * 0x1_0000_0000_0000_0000 + state_type) as u128
}

fn make_slot_key(widget: u64, state_type: u64) -> (k: u128)
    ensures
        k == slot_key(widget, state_type),
{
    (widget as u128) * 0x1_0000_0000_0000_0000u128 + (state_type as u128)
}

proof fn lemma_slot_key_injective(w1: u64, t1: u64, w2: u64, t2: u64)
    ensures
        slot_key(w1, t1) == slot_key(w2, t2) ==> w1 == w2 && t1 == t2,
{
    assert(w1 * 0x1_0000_0000_0000_0000 + t1 < 0x1_0000_0000_0000_0000_0000_0000_0000_0000)
        by (nonlinear_arith);
    assert(w2 * 0x1_0000_0000_0000_0000 + t2 < 0x1_0000_0000_0000_0000_0000_0000_0000_0000)
        by (nonlinear_arith);
    if w1 != w2 {
        assert(w1 * 0x1_0000_0000_0000_0000 + t1 != w2 * 0x1_0000_0000_0000_0000 + t2)
            by (nonlinear_arith)
            requires
                w1 != w2,
                0 <= t1 < 0x1_0000_0000_0000_0000,
                0 <= t2 < 0x1_0000_0000_0000_0000,
        ;
    }
}

/// The slots of a hook table, by widget and state type.
pub open spec fn slots_view(m: Map<u128, Vec<u128>>) -> Map<(u64, u64), Seq<u128>> {
    Map::new(
        |p: (u64, u64)| m.contains_key(slot_key(p.0, p.1)),
        |p: (u64, u64)| m[slot_key(p.0, p.1)]@,
    )
}

proof fn lemma_slots_insert(m: Map<u128, Vec<u128>>, w: u64, t: u64, v: Vec<u128>)
    ensures
        slots_view(m.insert(slot_key(w, t), v)) == slots_view(m).insert((w, t), v@),
{
    assert forall|p: (u64, u64)| #![auto] slot_key(p.0, p.1) == slot_key(w, t) <==> p == (w, t) by {
        lemma_slot_key_injective(p.0, p.1, w, t);
    }
    assert(slots_view(m.insert(slot_key(w, t), v)) =~= slots_view(m).insert((w, t), v@));
}

fn vec_position(v: &Vec<u128>, x: u128) -> (r: Option<usize>)
    ensures
        match r {
            Some(i) => i < v@.len() && v@[i as int] == x,
            None => !v@.contains(x),
        },
{
    let mut i: usize = 0;
    while i < v.len()
        invariant
            i <= v@.len(),
            forall|j: int| 0 <= j < i ==> v@[j] != x,
        decreases v.len() - i,
    {
        if v[i] == x {
            return Some(i);
        }
        i += 1;
    }
    None
}

/// Reads position `*index` of a state list, storing `initial` there when
/// the list is not that long yet, and moves `*index` on by one.
fn get_or_add(data: &mut Vec<u128>, initial: u128, index: &mut usize) -> (r: u128)
    requires
        *old(index) <= old(data)@.len(),
        *old(index) < usize::MAX,
    ensures
        *old(index) < old(data)@.len() ==> final(data)@ == old(data)@,
        *old(index) == old(data)@.len() ==> final(data)@ == old(data)@.push(initial),
        *final(index) == *old(index) + 1,
        r == final(data)@[*old(index) as int],
{
    if *index >= data.len() {
        data.push(initial);
    }
    let item = data[*index];
    *index = *index + 1;
    item
}

/// The input index that a final pointer position names, if any.
pub open spec fn moved_to(pos: MousePos) -> Option<usize> {
    match pos {
        MousePos::Before => None,
        MousePos::Input(k) => Some(k),
    }
}

impl KayakContext {
    /// The hook state: slots, widget being built, position and last type.
    pub closed spec fn hooks(&self) -> Hooks {
        Hooks {
            slots: slots_view(self.widget_states@),
            current: self.current_id.id,
            index: self.current_state_index as int,
            last_type: self.last_state_type_id,
        }
    }

    /// The global bindings of each widget, in binding order.
    pub closed spec fn bindings(&self) -> Map<u64, Seq<u128>> {
        views(self.global_bindings@)
    }

    /// The bindings whose change subscription each widget holds.
    pub closed spec fn lifetimes(&self) -> Map<u64, Set<u128>> {
        views(self.widget_state_lifetimes@)
    }

    /// The context is consistent: hook positions stay within their slots,
    /// no widget is bound twice to one global state, every binding of a
    /// widget is covered by a subscription it holds, only "under the pointer"
    /// or nothing is recorded of a widget, and the hook state is that of the
    /// widget being built.
    pub open spec fn wf(&self) -> bool {
        &&& hooks_wf(self.hooks())
        &&& bindings_wf(self.bindings())
        &&& subscriptions_cover(self.bindings(), self.lifetimes())
        &&& pointer_states_ok(self.previous_view())
        &&& self.hooks().current == self.current().id
    }

    /// The pointer state recorded per widget.
    pub closed spec fn previous_view(&self) -> Map<u64, Option<EventType>> {
        self.previous_events@
    }

    /// The focused widget (`Index::none()` when none is).
    pub closed spec fn focus(&self) -> Index {
        self.current_focus
    }

    /// The widget that held the focus before the current one took it.
    pub closed spec fn prior_focus(&self) -> Index {
        self.last_focus
    }

    /// The widget whose hooks and bindings calls currently apply to.
    pub closed spec fn current(&self) -> Index {
        self.current_id
    }

    /// Everything but pointer and focus state is as in `other`.
    spec fn same_build_state(&self, other: &KayakContext) -> bool {
        &&& self.widget_states@ == other.widget_states@
        &&& self.global_bindings@ == other.global_bindings@
        &&& self.widget_state_lifetimes@ == other.widget_state_lifetimes@
        &&& self.current_id == other.current_id
        &&& self.last_state_type_id == other.last_state_type_id
        &&& self.current_state_index == other.current_state_index
    }

    spec fn routing(&self, b: &Batch) -> Routing {
        Routing {
            events: b.events@,
            previous: self.previous_events@,
            pos: b.pos,
            focus: self.current_focus,
            last_focus: self.last_focus,
            was_click: b.was_click,
            was_focus: b.was_focus,
        }
    }

    /// A context with no widget state, bindings, pointer history or focus.
    pub fn new() -> (ctx: KayakContext)
        ensures
            ctx.wf(),
            ctx.hooks() == (Hooks {
                slots: Map::empty(),
                current: 0,
                index: 0,
                last_type: None,
            }),
            ctx.bindings() == Map::<u64, Seq<u128>>::empty(),
            ctx.lifetimes() == Map::<u64, Set<u128>>::empty(),
            ctx.previous_view() == Map::<u64, Option<EventType>>::empty(),
            ctx.focus() == Index::none(),
            ctx.prior_focus() == Index::none(),
            ctx.current() == Index::none(),
    {
        let ctx = KayakContext {
            widget_states: HashMap::new(),
            global_bindings: HashMap::new(),
            widget_state_lifetimes: HashMap::new(),
            current_id: Index::default(),
            previous_events: HashMap::new(),
            current_focus: Index::default(),
            last_focus: Index::default(),
            last_state_type_id: None,
            current_state_index: 0,
        };
        assert(ctx.hooks().slots =~= Map::empty());
        assert(ctx.bindings() =~= Map::empty());
        assert(ctx.lifetimes() =~= Map::empty());
        ctx
    }

    fn get_last_event(previous_events: &HashMap<u64, Option<EventType>>, widget_id: &Index) -> (r:
        Option<EventType>)
        ensures
            r == last_event(previous_events@, widget_id.id),
    {
        if previous_events.contains_key(&widget_id.id) {
            match previous_events.get(&widget_id.id) {
                Some(e) => *e,
                None => None,
            }
        } else {
            None
        }
    }

    fn set_last_event(
        previous_events: &mut HashMap<u64, Option<EventType>>,
        widget_id: &Index,
        event_type: Option<EventType>,
    )
        ensures
            final(previous_events)@ == old(previous_events)@.insert(widget_id.id, event_type),
    {
        previous_events.insert(widget_id.id, event_type);
    }

    /// Routes input `k` to one widget (one step of `process_events`).
    fn route_input(&mut self, node: &NodeHits, k: usize, input: InputEvent, batch: &mut Batch)
        requires
            k < node.hits@.len(),
            old(batch).pos matches MousePos::Input(p) ==> p < node.hits@.len(),
        ensures
            final(self).routing(&*final(batch)) == route_input(
                old(self).routing(&*old(batch)),
                *node,
                k as int,
                input,
            ),
            final(self).same_build_state(&*old(self)),
    {
        let index = node.node;
        match input {
            InputEvent::MouseMoved => {
                let ghost prev0 = self.previous_events@;
                if node.hits[k] {
                    if Self::get_last_event(&self.previous_events, &index).is_none() {
                        batch.events.push(Event::new(index, EventType::MouseIn));
                        Self::set_last_event(
                            &mut self.previous_events,
                            &index,
                            Some(EventType::MouseIn),
                        );
                    }
                    batch.events.push(Event::new(index, EventType::Hover));
                    Self::set_last_event(&mut self.previous_events, &index, Some(EventType::Hover));
                    assert(self.previous_events@ =~= prev0.insert(index.id, Some(EventType::Hover)));
                } else {
                    if let Some(event) = Self::get_last_event(&self.previous_events, &index) {
                        if matches!(event, EventType::Hover) || matches!(event, EventType::MouseIn) {
                            batch.events.push(Event::new(index, EventType::MouseOut));
                            Self::set_last_event(
                                &mut self.previous_events,
                                &index,
                                Some(EventType::MouseOut),
                            );
                        }
                    }
                    Self::set_last_event(&mut self.previous_events, &index, None);
                    assert(self.previous_events@ =~= prev0.insert(index.id, None));
                }
                batch.pos = MousePos::Input(k);
            },
            InputEvent::MouseLeftClick => {
                batch.was_click = true;
                let inside = match batch.pos {
                    MousePos::Before => node.hit_before,
                    MousePos::Input(p) => node.hits[p],
                };
                if inside {
                    batch.events.push(Event::new(index, EventType::Click));
                    if node.focusable {
                        batch.was_focus = true;
                        batch.events.push(Event::new(index, EventType::Focus));
                        self.last_focus = self.current_focus;
                        self.current_focus = index;
                    }
                }
            },
            InputEvent::CharEvent { c } => {
                batch.events.push(Event::new(index, EventType::CharInput { c }));
            },
            InputEvent::Keyboard { key } => {
                batch.events.push(Event::new(index, EventType::KeyboardInput { key }));
            },
        }
    }

    /// Turns a batch of raw input into widget events.
    ///
    /// `nodes` are the laid-out widgets in tree order, each with its hit
    /// tests against the pointer positions of the batch. Every input goes to
    /// every widget in turn (`route_batch`); pointer moves record, per widget,
    /// whether it is under the pointer, clicks move the focus.
    pub fn process_events(&mut self, nodes: &Vec<NodeHits>, input_events: &Vec<InputEvent>) -> (out:
        RoutedInput)
        requires
            old(self).wf(),
            hits_cover(nodes@, input_events@),
        ensures
            final(self).wf(),
            ({
                let r = route_batch(
                    old(self).previous_view(),
                    old(self).focus(),
                    old(self).prior_focus(),
                    nodes@,
                    input_events@,
                );
                &&& out.events@ == r.events
                &&& final(self).previous_view() == r.previous
                &&& final(self).focus() == r.focus
                &&& final(self).prior_focus() == r.last_focus
                &&& out.mouse_moved_to == moved_to(r.pos)
            }),
            out.mouse_moved_to == last_move_index(nodes@, input_events@),
            key_events(out.events@) == key_events_for(nodes@, input_events@, nodes@.len() as int),
            forall|j: int|
                0 <= j < nodes@.len() && #[trigger] takes_focus(nodes@, input_events@, j)
                    ==> out.events@.contains(Event::spec_new(nodes@[j].node, EventType::Focus)),
            (exists|j: int| 0 <= j < nodes@.len() && #[trigger] takes_focus(nodes@, input_events@, j))
                ==> exists|j: int|
                0 <= j < nodes@.len() && #[trigger] takes_focus(nodes@, input_events@, j)
                    && final(self).focus() == nodes@[j].node && forall|b: int|
                    j < b < nodes@.len() ==> !#[trigger] takes_focus(nodes@, input_events@, b),
            nodes@.len() > 0 && has_click(input_events@) && (forall|j: int|
                0 <= j < nodes@.len() ==> !#[trigger] takes_focus(nodes@, input_events@, j)) ==> {
                &&& final(self).focus() == Index::none()
                &&& old(self).focus() != Index::none() ==> out.events@.contains(
                    Event::spec_new(old(self).focus(), EventType::Blur),
                )
            },
            final(self).hooks() == old(self).hooks(),
            final(self).bindings() == old(self).bindings(),
            final(self).lifetimes() == old(self).lifetimes(),
            final(self).current() == old(self).current(),
    {
        let mut batch = Batch {
            events: Vec::new(),
            pos: MousePos::Before,
            was_click: false,
            was_focus: false,
        };
        let ghost start = self.routing(&batch);
        assert(start == start_routing(self.previous_view(), self.focus(), self.prior_focus()));
        let mut j: usize = 0;
        while j < nodes.len()
            invariant
                j <= nodes.len(),
                hits_cover(nodes@, input_events@),
                self.routing(&batch) == route_nodes(start, nodes@, input_events@, j as nat),
                batch.pos matches MousePos::Input(p) ==> p < input_events@.len(),
                self.same_build_state(&*old(self)),
            decreases nodes.len() - j,
        {
            let node = &nodes[j];
            assert(node.hits@.len() == input_events@.len());
            let mut k: usize = 0;
            while k < input_events.len()
                invariant
                    j < nodes.len(),
                    k <= input_events@.len(),
                    *node == nodes@[j as int],
                    node.hits@.len() == input_events@.len(),
                    self.routing(&batch) == route_node(
                        route_nodes(start, nodes@, input_events@, j as nat),
                        *node,
                        input_events@,
                        k as nat,
                    ),
                    batch.pos matches MousePos::Input(p) ==> p < input_events@.len(),
                    self.same_build_state(&*old(self)),
                decreases input_events.len() - k,
            {
                self.route_input(node, k, input_events[k], &mut batch);
                k += 1;
            }
            j += 1;
        }
        if batch.was_click && !batch.was_focus && self.current_focus != Index::default() {
            batch.events.push(Event::new(self.current_focus, EventType::Blur));
            self.current_focus = Index::default();
        }
        if batch.was_click && batch.was_focus && self.current_focus != self.last_focus {
            batch.events.push(Event::new(self.last_focus, EventType::Blur));
        }
        proof {
            let ghost (p0, f0, l0) = (old(self).previous_view(), old(self).focus(), old(self).prior_focus());
            law_pointer_ends_at_last_move(p0, f0, l0, nodes@, input_events@);
            law_typed_input_reaches_every_widget(p0, f0, l0, nodes@, input_events@);
            law_focus_goes_to_last_focusable_clicked(p0, f0, l0, nodes@, input_events@);
            if nodes@.len() > 0 && has_click(input_events@) && (forall|j: int|
                0 <= j < nodes@.len() ==> !#[trigger] takes_focus(nodes@, input_events@, j)) {
                law_click_on_nothing_focusable_blurs(p0, f0, l0, nodes@, input_events@);
            }
            law_pointer_states_stay_simple(
                old(self).previous_view(),
                old(self).focus(),
                old(self).prior_focus(),
                nodes@,
                input_events@,
            );
        }
        let mouse_moved_to = match batch.pos {
            MousePos::Before => None,
            MousePos::Input(k) => Some(k),
        };
        RoutedInput { events: batch.events, mouse_moved_to }
    }
}


impl KayakContext {
    /// The pointer and focus state and the bindings are as in `other`.
    spec fn same_routing_and_bindings(&self, other: &KayakContext) -> bool {
        &&& self.previous_events@ == other.previous_events@
        &&& self.current_focus == other.current_focus
        &&& self.last_focus == other.last_focus
        &&& self.global_bindings@ == other.global_bindings@
    }

    /// The widget being built.
    pub fn current_id(&self) -> (r: Index)
        ensures
            r == self.current(),
    {
        self.current_id
    }

    /// The position the next state call for `state_type` reads.
    pub fn next_state_index(&self, state_type: u64) -> (r: usize)
        ensures
            r == next_index(self.hooks(), state_type),
    {
        match self.last_state_type_id {
            Some(last) => if last != state_type {
                0
            } else {
                self.current_state_index
            },
            None => self.current_state_index,
        }
    }

    /// Starts building widget `id`: state calls now apply to it and count
    /// from the start.
    pub fn set_current_id(&mut self, id: Index)
        requires
            old(self).wf(),
        ensures
            final(self).wf(),
            final(self).current() == id,
            final(self).hooks() == enter_widget(old(self).hooks(), id.id),
            final(self).lifetimes() == old(self).lifetimes(),
            final(self).bindings() == old(self).bindings(),
            final(self).previous_view() == old(self).previous_view(),
            final(self).focus() == old(self).focus(),
            final(self).prior_focus() == old(self).prior_focus(),
    {
        self.current_id = id;
        self.current_state_index = 0;
        self.last_state_type_id = None;
    }

    /// The state the last state call of type `state_type` returned.
    fn get_state(&self, state_type: u64) -> (r: Option<u128>)
        requires
            self.hooks().slots.contains_key((self.current().id, state_type)) ==> 1
                <= self.hooks().index <= self.hooks().slots[(self.current().id, state_type)].len(),
        ensures
            r == if self.hooks().slots.contains_key((self.current().id, state_type)) {
                Some(self.hooks().slots[(self.current().id, state_type)][self.hooks().index - 1])
            } else {
                None
            },
    {
        let key = make_slot_key(self.current_id.id, state_type);
        if self.widget_states.contains_key(&key) {
            match self.widget_states.get(&key) {
                Some(states) => Some(states[self.current_state_index - 1]),
                None => None,
            }
        } else {
            None
        }
    }

    /// Records that widget `id` holds the change subscription of `binding_id`.
    /// Returns whether the subscription offered is kept (it is not when the
    /// widget held one for that binding already).
    fn insert_state_lifetime(
        lifetimes: &mut HashMap<u64, HashSet<u128>>,
        id: Index,
        binding_id: u128,
    ) -> (kept: bool)
        ensures
            views(final(lifetimes)@) == add_lifetime(views(old(lifetimes)@), id.id, binding_id),
            kept == !lifetimes_of(views(old(lifetimes)@), id.id).contains(binding_id),
    {
        let ghost l0 = old(lifetimes)@;
        if lifetimes.contains_key(&id.id) {
            let mut held = match lifetimes.remove(&id.id) {
                Some(h) => h,
                None => HashSet::new(),
            };
            let kept = !held.contains(&binding_id);
            if kept {
                held.insert(binding_id);
            }
            proof {
                assert(held@ =~= lifetimes_of(views(l0), id.id).insert(binding_id));
                lemma_views_remove_insert(l0, id.id, held);
            }
            lifetimes.insert(id.id, held);
            kept
        } else {
            let mut new_held = HashSet::new();
            new_held.insert(binding_id);
            proof {
                assert(new_held@ =~= lifetimes_of(views(l0), id.id).insert(binding_id));
                lemma_views_insert(l0, id.id, new_held);
            }
            lifetimes.insert(id.id, new_held);
            true
        }
    }

    /// Records that widget `id` no longer holds the change subscription of
    /// `binding_id`. Returns whether it held one, which the caller releases.
    fn remove_state_lifetime(
        lifetimes: &mut HashMap<u64, HashSet<u128>>,
        id: Index,
        binding_id: u128,
    ) -> (released: bool)
        ensures
            views(final(lifetimes)@) == drop_lifetime(views(old(lifetimes)@), id.id, binding_id),
            released == lifetimes_of(views(old(lifetimes)@), id.id).contains(binding_id),
    {
        let ghost l0 = old(lifetimes)@;
        if lifetimes.contains_key(&id.id) {
            let mut held = match lifetimes.remove(&id.id) {
                Some(h) => h,
                None => HashSet::new(),
            };
            let released = held.remove(&binding_id);
            proof {
                assert(held@ =~= views(l0)[id.id].remove(binding_id));
                lemma_views_remove_insert(l0, id.id, held);
            }
            lifetimes.insert(id.id, held);
            released
        } else {
            proof {
                assert(!views(l0).contains_key(id.id));
            }
            false
        }
    }

    /// A state call of the widget being built, for state of type
    /// `state_type`; `fresh` is the id of the new state the caller offers.
    ///
    /// The call returns the state held at its position (`create_hook`), and
    /// the widget takes the change subscription of the offered state.
    pub fn create_state(&mut self, state_type: u64, fresh: u128) -> (r: CreatedState)
        requires
            old(self).wf(),
            next_index(old(self).hooks(), state_type) < usize::MAX,
        ensures
            final(self).wf(),
            ({
                let (h, id) = create_hook(old(self).hooks(), state_type, fresh);
                &&& final(self).hooks() == h
                &&& r.state == Some(id)
            }),
            final(self).lifetimes() == add_lifetime(old(self).lifetimes(), old(self).current().id, fresh),
            r.lifetime_kept == !lifetimes_of(old(self).lifetimes(), old(self).current().id).contains(fresh),
            final(self).current() == old(self).current(),
            final(self).bindings() == old(self).bindings(),
            final(self).previous_view() == old(self).previous_view(),
            final(self).focus() == old(self).focus(),
            final(self).prior_focus() == old(self).prior_focus(),
    {
        let ghost h0 = self.hooks();
        let ghost ws0 = self.widget_states@;
        proof {
            lemma_create_hook_wf(h0, state_type, fresh);
            law_add_lifetime_keeps_cover(self.bindings(), self.lifetimes(), self.current_id.id, fresh);
        }
        if let Some(last_state_type_id) = self.last_state_type_id {
            if state_type != last_state_type_id {
                self.current_state_index = 0;
            }
        }
        let key = make_slot_key(self.current_id.id, state_type);
        let ghost list = slot(h0, h0.current, state_type);
        if self.widget_states.contains_key(&key) {
            let mut multi_state = match self.widget_states.remove(&key) {
                Some(m) => m,
                None => Vec::new(),
            };
            assert(multi_state@ == list);
            get_or_add(&mut multi_state, fresh, &mut self.current_state_index);
            proof {
                assert(ws0.remove(key).insert(key, multi_state) =~= ws0.insert(key, multi_state));
                lemma_slots_insert(ws0, h0.current, state_type, multi_state);
            }
            self.widget_states.insert(key, multi_state);
        } else {
            let multi_state = vec![fresh];
            proof {
                assert(list =~= Seq::<u128>::empty());
                assert(multi_state@ =~= list.push(fresh));
                lemma_slots_insert(ws0, h0.current, state_type, multi_state);
            }
            self.widget_states.insert(key, multi_state);
            self.current_state_index += 1;
        }
        let lifetime_kept = Self::insert_state_lifetime(
            &mut self.widget_state_lifetimes,
            self.current_id,
            fresh,
        );
        self.last_state_type_id = Some(state_type);
        assert(self.hooks() == create_hook(h0, state_type, fresh).0);
        CreatedState { state: self.get_state(state_type), lifetime_kept }
    }

    /// Binds the widget being built to the global state `binding_id`
    /// (`bind_model`).
    pub fn bind(&mut self, binding_id: u128) -> (r: BindOutcome)
        requires
            old(self).wf(),
        ensures
            final(self).wf(),
            ({
                let (b, l, o) = bind_model(
                    old(self).bindings(),
                    old(self).lifetimes(),
                    old(self).current().id,
                    binding_id,
                );
                &&& final(self).bindings() == b
                &&& final(self).lifetimes() == l
                &&& r == o
            }),
            bound_to(final(self).bindings(), old(self).current().id).contains(binding_id),
            final(self).hooks() == old(self).hooks(),
            final(self).current() == old(self).current(),
            final(self).previous_view() == old(self).previous_view(),
            final(self).focus() == old(self).focus(),
            final(self).prior_focus() == old(self).prior_focus(),
    {
        let ghost b0 = self.global_bindings@;
        let ghost l0 = self.lifetimes();
        proof {
            law_bindings_stay_distinct(self.bindings(), l0, self.current_id.id, binding_id);
            law_bindings_stay_covered(self.bindings(), l0, self.current_id.id, binding_id);
            law_bind_is_idempotent(self.bindings(), l0, self.current_id.id, binding_id);
        }
        let id = self.current_id.id;
        if !self.global_bindings.contains_key(&id) {
            self.global_bindings.insert(id, Vec::new());
        }
        let ghost b1 = self.global_bindings@;
        let mut global_binding_ids = match self.global_bindings.remove(&id) {
            Some(ids) => ids,
            None => Vec::new(),
        };
        assert(global_binding_ids@ == bound_to(views(b0), id));
        match vec_position(&global_binding_ids, binding_id) {
            None => {
                let lifetime_kept = Self::insert_state_lifetime(
                    &mut self.widget_state_lifetimes,
                    self.current_id,
                    binding_id,
                );
                global_binding_ids.push(binding_id);
                proof {
                    assert(b1.remove(id).insert(id, global_binding_ids) =~= b0.insert(
                        id,
                        global_binding_ids,
                    ));
                    lemma_views_insert(b0, id, global_binding_ids);
                }
                self.global_bindings.insert(id, global_binding_ids);
                BindOutcome::Subscribed { lifetime_kept }
            },
            Some(_) => {
                proof {
                    assert(b0.contains_key(id));
                    assert(b1.remove(id).insert(id, global_binding_ids) =~= b0);
                }
                self.global_bindings.insert(id, global_binding_ids);
                BindOutcome::AlreadyBound
            },
        }
    }

    /// Unbinds the widget being built from the global state `binding_id`
    /// (`unbind_model`).
    pub fn unbind(&mut self, binding_id: u128) -> (r: UnbindOutcome)
        requires
            old(self).wf(),
        ensures
            final(self).wf(),
            ({
                let (b, l, o) = unbind_model(
                    old(self).bindings(),
                    old(self).lifetimes(),
                    old(self).current().id,
                    binding_id,
                );
                &&& final(self).bindings() == b
                &&& final(self).lifetimes() == l
                &&& r == o
            }),
            bound_to(old(self).bindings(), old(self).current().id).contains(binding_id) ==> r
                == (UnbindOutcome::Unbound { lifetime_released: true }),
            forall|i: int|
                0 <= i < bound_to(old(self).bindings(), old(self).current().id).len() && bound_to(
                    old(self).bindings(),
                    old(self).current().id,
                )[i] == binding_id ==> bound_to(final(self).bindings(), old(self).current().id)
                    == bound_to(old(self).bindings(), old(self).current().id).remove(i),
            final(self).hooks() == old(self).hooks(),
            final(self).current() == old(self).current(),
            final(self).previous_view() == old(self).previous_view(),
            final(self).focus() == old(self).focus(),
            final(self).prior_focus() == old(self).prior_focus(),
    {
        let ghost b0 = self.global_bindings@;
        proof {
            law_bindings_stay_distinct(self.bindings(), self.lifetimes(), self.current_id.id, binding_id);
            law_bindings_stay_covered(self.bindings(), self.lifetimes(), self.current_id.id, binding_id);
            if bound_to(self.bindings(), self.current_id.id).contains(binding_id) {
                law_unbind_releases(self.bindings(), self.lifetimes(), self.current_id.id, binding_id);
            }
            assert forall|i: int|
                0 <= i < bound_to(self.bindings(), self.current_id.id).len() && bound_to(
                    self.bindings(),
                    self.current_id.id,
                )[i] == binding_id implies bound_to(
                unbind_model(self.bindings(), self.lifetimes(), self.current_id.id, binding_id).0,
                self.current_id.id,
            ) == bound_to(self.bindings(), self.current_id.id).remove(i) by {
                law_unbind_removes_at_position(
                    self.bindings(),
                    self.lifetimes(),
                    self.current_id.id,
                    binding_id,
                    i,
                );
            }
        }
        let id = self.current_id.id;
        if self.global_bindings.contains_key(&id) {
            let mut global_binding_ids = match self.global_bindings.remove(&id) {
                Some(ids) => ids,
                None => Vec::new(),
            };
            let ghost list = global_binding_ids@;
            assert(list == views(b0)[id]);
            assert(list.no_duplicates());
            match vec_position(&global_binding_ids, binding_id) {
                Some(index) => {
                    global_binding_ids.remove(index);
                    proof {
                        assert(list.contains(binding_id));
                        let p = list.index_of(binding_id);
                        assert(p == index as int);
                        assert(b0.remove(id).insert(id, global_binding_ids) =~= b0.insert(
                            id,
                            global_binding_ids,
                        ));
                        lemma_views_insert(b0, id, global_binding_ids);
                    }
                    self.global_bindings.insert(id, global_binding_ids);
                    let lifetime_released = Self::remove_state_lifetime(
                        &mut self.widget_state_lifetimes,
                        self.current_id,
                        binding_id,
                    );
                    UnbindOutcome::Unbound { lifetime_released }
                },
                None => {
                    proof {
                        assert(b0.remove(id).insert(id, global_binding_ids) =~= b0);
                    }
                    self.global_bindings.insert(id, global_binding_ids);
                    UnbindOutcome::NotBound
                },
            }
        } else {
            UnbindOutcome::NotBound
        }
    }
}


impl KayakContext {
    /// Whether the parent links from `current` reach a root (and so whether
    /// `get_all_parents` may be called for it).
    pub fn parent_chain_ends(parents: &HashMap<u64, u64>, current: Index) -> (r: bool)
        ensures
            r == reaches_root(parents@, current.id),
    {
        let ghost p = parents@;
        let ghost n = p.len();
        let mut cur = current.id;
        let mut remaining: usize = parents.len();
        while parents.contains_key(&cur)
            invariant
                ancestors(p, current.id, n) is Some <==> ancestors(p, cur, remaining as nat) is Some,
                p == parents@,
                n == p.len(),
            decreases remaining,
        {
            if remaining == 0 {
                assert(ancestors(p, cur, 0) is None);
                return false;
            }
            cur = match parents.get(&cur) {
                Some(parent) => *parent,
                None => cur,
            };
            remaining = remaining - 1;
        }
        true
    }

    /// Appends the ancestors of `current` to `parents_out`, nearest first.
    pub fn get_all_parents(parents: &HashMap<u64, u64>, current: Index, parents_out: &mut Vec<Index>)
        requires
            reaches_root(parents@, current.id),
        ensures
            final(parents_out)@ == old(parents_out)@ + ancestors(
                parents@,
                current.id,
                parents@.len(),
            )->Some_0.map_values(|id: u64| Index { id }),
    {
        let ghost p = parents@;
        let ghost all = ancestors(p, current.id, p.len())->Some_0.map_values(|id: u64| Index { id });
        let ghost mut fuel: nat = p.len();
        let mut cur = current.id;
        loop
            invariant
                p == parents@,
                ancestors(p, cur, fuel) is Some,
                parents_out@ + ancestors(p, cur, fuel)->Some_0.map_values(|id: u64| Index { id })
                    == old(parents_out)@ + all,
            ensures
                parents_out@ == old(parents_out)@ + all,
            decreases fuel,
        {
            match parents.get(&cur) {
                Some(parent) => {
                    let parent = *parent;
                    let ghost rest = ancestors(p, parent, (fuel - 1) as nat)->Some_0;
                    let ghost before = parents_out@;
                    parents_out.push(Index { id: parent });
                    proof {
                        assert((seq![parent] + rest).map_values(|id: u64| Index { id }) =~= seq![
                            Index { id: parent },
                        ] + rest.map_values(|id: u64| Index { id }));
                        assert(before + (seq![Index { id: parent }] + rest.map_values(
                            |id: u64| Index { id },
                        )) =~= parents_out@ + rest.map_values(|id: u64| Index { id }));
                        fuel = (fuel - 1) as nat;
                    }
                    cur = parent;
                },
                None => {
                    assert(ancestors(p, cur, fuel)->Some_0 =~= Seq::<u64>::empty());
                    assert(parents_out@ =~= parents_out@ + Seq::<u64>::empty().map_values(
                        |id: u64| Index { id },
                    ));
                    break ;
                },
            }
        }
    }
}

} // verus!
