//! Hook state: the pieces of state a widget creates while it is built.
//!
//! While a widget is built, each call that creates state of a given type
//! gets a slot numbered by how many calls of that type came right before
//! it; the first build fills the slots, later builds get back what is
//! already there. This module states those rules over a plain model.
use vstd::prelude::*;

verus! {

/// The hook state of a context, as plain values.
pub struct Hooks {
    /// The state ids held per (widget id, state type) slot, in creation order.
    pub slots: Map<(u64, u64), Seq<u128>>,
    /// The widget being built.
    pub current: u64,
    /// How many state calls of the current run were made so far.
    pub index: int,
    /// The state type of the previous call, if any since the widget was entered.
    pub last_type: Option<u64>,
}

/// The ids held for one widget and state type (none if never created).
pub open spec fn slot(h: Hooks, widget: u64, state_type: u64) -> Seq<u128> {
    if h.slots.contains_key((widget, state_type)) {
        h.slots[(widget, state_type)]
    } else {
        Seq::empty()
    }
}

/// The position a call for `state_type` reads: a change of state type
/// starts the count again from zero.
pub open spec fn next_index(h: Hooks, state_type: u64) -> int {
    match h.last_type {
        Some(last) => if last != state_type {
            0
        } else {
            h.index
        },
        None => h.index,
    }
}

/// A state call: returns the id already held at the position read, or
/// stores `fresh` there when the slot is not that long yet.
pub open spec fn create_hook(h: Hooks, state_type: u64, fresh: u128) -> (Hooks, u128) {
    let i = next_index(h, state_type);
    let list = slot(h, h.current, state_type);
    if i < list.len() {
        (
            Hooks {
                slots: h.slots.insert((h.current, state_type), list),
                index: i + 1,
                last_type: Some(state_type),
                ..h
            },
            list[i],
        )
    } else {
        (
            Hooks {
                slots: h.slots.insert((h.current, state_type), list.push(fresh)),
                index: i + 1,
                last_type: Some(state_type),
                ..h
            },
            fresh,
        )
    }
}

/// Starts building widget `widget`.
pub open spec fn enter_widget(h: Hooks, widget: u64) -> Hooks {
    Hooks { current: widget, index: 0, last_type: None, ..h }
}

/// The hook state is consistent: the position count never runs past the
/// slot of the type last used.
pub open spec fn hooks_wf(h: Hooks) -> bool {
    &&& h.last_type is None ==> h.index == 0
    &&& h.last_type matches Some(t) ==> {
        &&& h.slots.contains_key((h.current, t))
        &&& 1 <= h.index <= h.slots[(h.current, t)].len()
    }
}

/// Building widget `widget` with state calls of types `types[0..k]`, the
/// `i`-th call offering `fresh[i]` as the id of new state: the hook state
/// after, and the ids the calls returned.
pub open spec fn build(h: Hooks, widget: u64, types: Seq<u64>, fresh: Seq<u128>, k: nat) -> (
    Hooks,
    Seq<u128>,
)
    decreases k,
{
    if k == 0 {
        (enter_widget(h, widget), Seq::empty())
    } else {
        let (h1, ids) = build(h, widget, types, fresh, (k - 1) as nat);
        let (h2, id) = create_hook(h1, types[k - 1], fresh[k - 1]);
        (h2, ids.push(id))
    }
}

/// The position the `k`-th call of a build reads: how many calls of the
/// same type come right before it.
pub open spec fn build_position(types: Seq<u64>, k: int) -> int
    decreases k,
{
    if k <= 0 {
        0
    } else if types[k - 1] != types[k] {
        0
    } else {
        build_position(types, k - 1) + 1
    }
}

proof fn lemma_build_position_nonneg(types: Seq<u64>, k: int)
    ensures
        build_position(types, k) >= 0,
    decreases k,
{
    if k > 0 {
        lemma_build_position_nonneg(types, k - 1);
    }
}

/// A new state call keeps the hook state consistent.
pub proof fn lemma_create_hook_wf(h: Hooks, state_type: u64, fresh: u128)
    requires
        hooks_wf(h),
    ensures
        hooks_wf(create_hook(h, state_type, fresh).0),
        next_index(h, state_type) <= slot(h, h.current, state_type).len(),
{
}

/// The shape of the hook state after the first `k` calls of a build, and
/// where each call's result now lies.
proof fn lemma_build_shape(h: Hooks, widget: u64, types: Seq<u64>, fresh: Seq<u128>, k: nat)
    requires
        k <= types.len(),
        k <= fresh.len(),
    ensures
        ({
            let (hk, ids) = build(h, widget, types, fresh, k);
            &&& hk.current == widget
            &&& ids.len() == k
            &&& k == 0 ==> hk.last_type is None && hk.index == 0
            &&& k > 0 ==> hk.last_type == Some(types[k - 1]) && hk.index == build_position(
                types,
                k - 1,
            ) + 1
            &&& forall|i: int|
                0 <= i < k ==> {
                    &&& build_position(types, i) < (#[trigger] slot(hk, widget, types[i])).len()
                    &&& slot(hk, widget, types[i])[build_position(types, i)] == ids[i]
                }
        }),
    decreases k,
{
    if k > 0 {
        let km = (k - 1) as nat;
        lemma_build_shape(h, widget, types, fresh, km);
        let (h1, ids1) = build(h, widget, types, fresh, km);
        let t = types[km as int];
        let (h2, id) = create_hook(h1, t, fresh[km as int]);
        let (hk, ids) = build(h, widget, types, fresh, k);
        assert(hk == h2 && ids == ids1.push(id));
        let pos = build_position(types, km as int);
        assert(next_index(h1, t) == pos) by {
            if km > 0 {
                assert(build_position(types, km as int) == if types[km - 1] != types[km as int] {
                    0
                } else {
                    build_position(types, km - 1) + 1
                });
            }
        }
        assert(pos <= slot(h1, widget, t).len()) by {
            if km > 0 && types[km - 1] == t {
                assert(build_position(types, km - 1) < slot(h1, widget, types[km - 1]).len());
            }
        }
        assert forall|i: int| 0 <= i < k implies {
            &&& build_position(types, i) < (#[trigger] slot(hk, widget, types[i])).len()
            &&& slot(hk, widget, types[i])[build_position(types, i)] == ids[i]
        } by {
            let list = slot(h1, widget, t);
            if pos < list.len() {
                assert(slot(hk, widget, t) == list);
            } else {
                assert(slot(hk, widget, t) == list.push(fresh[km as int]));
            }
            if i < km {
                let bp = build_position(types, i);
                lemma_build_position_nonneg(types, i);
                assert(bp < slot(h1, widget, types[i]).len());
                assert(slot(h1, widget, types[i])[bp] == ids1[i]);
                assert(ids[i] == ids1[i]);
                if types[i] != t {
                    assert(slot(hk, widget, types[i]) == slot(h1, widget, types[i]));
                } else if pos < list.len() {
                    assert(slot(hk, widget, types[i]) == slot(h1, widget, types[i]));
                } else {
                    assert(list.push(fresh[km as int])[bp] == list[bp]);
                }
            } else {
                assert(i == km);
                assert(ids[i] == id);
                if pos < list.len() {
                    assert(id == list[pos]);
                } else {
                    assert(pos == list.len());
                    assert(list.push(fresh[km as int])[pos] == fresh[km as int]);
                }
            }
        }
    }
}

/// Building again over a state where every call's position already holds
/// its id changes nothing and returns those ids.
proof fn lemma_build_stable(
    h: Hooks,
    widget: u64,
    types: Seq<u64>,
    fresh: Seq<u128>,
    ids: Seq<u128>,
    k: nat,
)
    requires
        k <= types.len(),
        k <= fresh.len(),
        ids.len() == types.len(),
        forall|i: int|
            0 <= i < types.len() ==> {
                &&& build_position(types, i) < (#[trigger] slot(h, widget, types[i])).len()
                &&& slot(h, widget, types[i])[build_position(types, i)] == ids[i]
            },
    ensures
        ({
            let (hk, out) = build(h, widget, types, fresh, k);
            &&& hk.slots == h.slots
            &&& hk.current == widget
            &&& k == 0 ==> hk.last_type is None && hk.index == 0
            &&& k > 0 ==> hk.last_type == Some(types[k - 1]) && hk.index == build_position(
                types,
                k - 1,
            ) + 1
            &&& out == ids.take(k as int)
        }),
    decreases k,
{
    if k > 0 {
        let km = (k - 1) as nat;
        lemma_build_stable(h, widget, types, fresh, ids, km);
        let (h1, out1) = build(h, widget, types, fresh, km);
        let t = types[km as int];
        let pos = build_position(types, km as int);
        assert(next_index(h1, t) == pos) by {
            if km > 0 {
                assert(build_position(types, km as int) == if types[km - 1] != types[km as int] {
                    0
                } else {
                    build_position(types, km - 1) + 1
                });
            }
        }
        assert(pos < slot(h, widget, t).len());
        assert(slot(h1, widget, t) == slot(h, widget, t));
        assert(h.slots.contains_key((widget, t)));
        assert(h.slots.insert((widget, t), slot(h, widget, t)) =~= h.slots);
        assert(out1.push(ids[km as int]) =~= ids.take(k as int));
    }
}

/// Law: building a widget again with the same sequence of state calls
/// gives every call the state it got the first time, and leaves the stored
/// state as the first build left it.
pub proof fn law_rebuild_returns_same_state(
    h: Hooks,
    widget: u64,
    types: Seq<u64>,
    fresh1: Seq<u128>,
    fresh2: Seq<u128>,
)
    requires
        fresh1.len() == types.len(),
        fresh2.len() == types.len(),
    ensures
        ({
            let (h1, ids1) = build(h, widget, types, fresh1, types.len());
            let (h2, ids2) = build(h1, widget, types, fresh2, types.len());
            &&& ids2 == ids1
            &&& h2.slots == h1.slots
        }),
{
    let n = types.len();
    lemma_build_shape(h, widget, types, fresh1, n);
    let (h1, ids1) = build(h, widget, types, fresh1, n);
    lemma_build_stable(h1, widget, types, fresh2, ids1, n);
    assert(ids1.take(n as int) =~= ids1);
}


/// Law: building one widget leaves the state of every other widget as it
/// was.
pub proof fn law_build_leaves_other_widgets(
    h: Hooks,
    widget: u64,
    types: Seq<u64>,
    fresh: Seq<u128>,
    k: nat,
    other: u64,
    state_type: u64,
)
    requires
        k <= types.len(),
        k <= fresh.len(),
        other != widget,
    ensures
        slot(build(h, widget, types, fresh, k).0, other, state_type) == slot(h, other, state_type),
        build(h, widget, types, fresh, k).0.current == widget,
    decreases k,
{
    if k > 0 {
        law_build_leaves_other_widgets(h, widget, types, fresh, (k - 1) as nat, other, state_type);
    }
}
} // verus!
