//! Bindings of widgets to global state, and the change subscriptions
//! ("lifetimes") that keep a widget informed while it is bound.
//!
//! Bindings and subscriptions are known by id. The rules below say what
//! binding and unbinding do to the two tables and which subscription the
//! caller must take out or release.
use vstd::prelude::*;

verus! {

/// What binding a widget to a piece of global state asks of the caller.
#[derive(Clone, Copy, PartialEq, Eq, Structural, Debug)]
pub enum BindOutcome {
    /// The widget was bound already: nothing to do.
    AlreadyBound,
    /// The widget is now bound: subscribe it to the state's changes, and
    /// keep the subscription if `lifetime_kept` (else it was held already and
    /// the new one is dropped).
    Subscribed { lifetime_kept: bool },
}

/// What unbinding a widget from a piece of global state asks of the caller.
#[derive(Clone, Copy, PartialEq, Eq, Structural, Debug)]
pub enum UnbindOutcome {
    /// The widget was not bound: nothing to do.
    NotBound,
    /// The widget is no longer bound; if `lifetime_released`, release the
    /// subscription it held.
    Unbound { lifetime_released: bool },
}

/// The global bindings of widget `w`, in binding order.
pub open spec fn bound_to(b: Map<u64, Seq<u128>>, w: u64) -> Seq<u128> {
    if b.contains_key(w) {
        b[w]
    } else {
        Seq::empty()
    }
}

/// The bindings whose subscription widget `w` holds.
pub open spec fn lifetimes_of(l: Map<u64, Set<u128>>, w: u64) -> Set<u128> {
    if l.contains_key(w) {
        l[w]
    } else {
        Set::empty()
    }
}

/// Widget `w` holds the subscription of binding `g` (added if new).
pub open spec fn add_lifetime(l: Map<u64, Set<u128>>, w: u64, g: u128) -> Map<u64, Set<u128>> {
    l.insert(w, lifetimes_of(l, w).insert(g))
}

/// Widget `w` no longer holds the subscription of binding `g`.
pub open spec fn drop_lifetime(l: Map<u64, Set<u128>>, w: u64, g: u128) -> Map<u64, Set<u128>> {
    if l.contains_key(w) {
        l.insert(w, l[w].remove(g))
    } else {
        l
    }
}

/// No widget is bound twice to the same global state.
pub open spec fn bindings_wf(b: Map<u64, Seq<u128>>) -> bool {
    forall|w: u64| b.contains_key(w) ==> (#[trigger] b[w]).no_duplicates()
}

/// Binding widget `w` to global state `g`.
pub open spec fn bind_model(b: Map<u64, Seq<u128>>, l: Map<u64, Set<u128>>, w: u64, g: u128) -> (
    Map<u64, Seq<u128>>,
    Map<u64, Set<u128>>,
    BindOutcome,
) {
    let list = bound_to(b, w);
    if list.contains(g) {
        (b, l, BindOutcome::AlreadyBound)
    } else {
        (
            b.insert(w, list.push(g)),
            add_lifetime(l, w, g),
            BindOutcome::Subscribed { lifetime_kept: !lifetimes_of(l, w).contains(g) },
        )
    }
}

/// Unbinding widget `w` from global state `g`.
pub open spec fn unbind_model(b: Map<u64, Seq<u128>>, l: Map<u64, Set<u128>>, w: u64, g: u128) -> (
    Map<u64, Seq<u128>>,
    Map<u64, Set<u128>>,
    UnbindOutcome,
) {
    if b.contains_key(w) && b[w].contains(g) {
        (
            b.insert(w, b[w].remove(b[w].index_of(g))),
            drop_lifetime(l, w, g),
            UnbindOutcome::Unbound { lifetime_released: lifetimes_of(l, w).contains(g) },
        )
    } else {
        (b, l, UnbindOutcome::NotBound)
    }
}

/// Law: binding and unbinding never list a widget twice under one global state.
pub proof fn law_bindings_stay_distinct(b: Map<u64, Seq<u128>>, l: Map<u64, Set<u128>>, w: u64, g: u128)
    requires
        bindings_wf(b),
    ensures
        bindings_wf(bind_model(b, l, w, g).0),
        bindings_wf(unbind_model(b, l, w, g).0),
{
    let list = bound_to(b, w);
    if !list.contains(g) {
        let b1 = bind_model(b, l, w, g).0;
        assert forall|v: u64| b1.contains_key(v) implies (#[trigger] b1[v]).no_duplicates() by {
            if v == w {
                assert forall|i: int, j: int|
                    0 <= i < list.push(g).len() && 0 <= j < list.push(g).len() && i != j implies
                    list.push(g)[i] != list.push(g)[j] by {
                    if i < list.len() && j < list.len() {
                    } else if i < list.len() {
                        assert(list.contains(list[i]));
                    } else {
                        assert(list.contains(list[j]));
                    }
                }
            }
        }
    }
    if b.contains_key(w) && b[w].contains(g) {
        let b2 = unbind_model(b, l, w, g).0;
        let s = b[w];
        let p = s.index_of(g);
        assert forall|v: u64| b2.contains_key(v) implies (#[trigger] b2[v]).no_duplicates() by {
            if v == w {
                let r = s.remove(p);
                assert forall|i: int, j: int| 0 <= i < r.len() && 0 <= j < r.len() && i != j implies r[i]
                    != r[j] by {
                    let si = if i < p { i } else { i + 1 };
                    let sj = if j < p { j } else { j + 1 };
                    assert(r[i] == s[si] && r[j] == s[sj]);
                }
            }
        }
    }
}

/// Law: binding a widget twice to the same global state is binding it once.
pub proof fn law_bind_is_idempotent(b: Map<u64, Seq<u128>>, l: Map<u64, Set<u128>>, w: u64, g: u128)
    ensures
        ({
            let (b1, l1, _o) = bind_model(b, l, w, g);
            &&& bound_to(b1, w).contains(g)
            &&& bind_model(b1, l1, w, g) == (b1, l1, BindOutcome::AlreadyBound)
        }),
{
    let list = bound_to(b, w);
    if !list.contains(g) {
        let b1 = bind_model(b, l, w, g).0;
        assert(bound_to(b1, w) == list.push(g));
        assert(list.push(g)[list.len() as int] == g);
    }
}

/// Law: unbinding undoes binding. A widget bound to a global state it was
/// not bound to, then unbound from it, has the bindings and subscriptions it
/// had before (an empty entry where it had none); the caller is asked to
/// take out one subscription and then to release it.
pub proof fn law_unbind_undoes_bind(b: Map<u64, Seq<u128>>, l: Map<u64, Set<u128>>, w: u64, g: u128)
    requires
        bindings_wf(b),
        !bound_to(b, w).contains(g),
        !lifetimes_of(l, w).contains(g),
    ensures
        ({
            let (b1, l1, o1) = bind_model(b, l, w, g);
            let (b2, l2, o2) = unbind_model(b1, l1, w, g);
            &&& b2 == b.insert(w, bound_to(b, w))
            &&& l2 == l.insert(w, lifetimes_of(l, w))
            &&& o1 == BindOutcome::Subscribed { lifetime_kept: true }
            &&& o2 == UnbindOutcome::Unbound { lifetime_released: true }
        }),
{
    let list = bound_to(b, w);
    let pushed = list.push(g);
    let (b1, l1, o1) = bind_model(b, l, w, g);
    assert(b1[w] == pushed);
    assert(pushed[list.len() as int] == g);
    assert(pushed.contains(g));
    law_bindings_stay_distinct(b, l, w, g);
    let p = pushed.index_of(g);
    assert(p == list.len()) by {
        if p != list.len() {
            assert(pushed[p] == g);
            assert(list[p] == g);
            assert(list.contains(g));
        }
    }
    assert(pushed.remove(p) =~= list);
    assert(lifetimes_of(l1, w) == lifetimes_of(l, w).insert(g));
    assert(lifetimes_of(l, w).insert(g).remove(g) =~= lifetimes_of(l, w));
    let (b2, l2, o2) = unbind_model(b1, l1, w, g);
    assert(b2 =~= b.insert(w, bound_to(b, w)));
    assert(l2 =~= l.insert(w, lifetimes_of(l, w)));
}


/// Every global state a widget is bound to has its change subscription
/// held by that widget.
pub open spec fn subscriptions_cover(b: Map<u64, Seq<u128>>, l: Map<u64, Set<u128>>) -> bool {
    forall|w: u64, g: u128| #[trigger] bound_to(b, w).contains(g) ==> lifetimes_of(l, w).contains(g)
}

/// Law: taking out a subscription keeps every binding covered.
pub proof fn law_add_lifetime_keeps_cover(b: Map<u64, Seq<u128>>, l: Map<u64, Set<u128>>, w: u64, g: u128)
    requires
        subscriptions_cover(b, l),
    ensures
        subscriptions_cover(b, add_lifetime(l, w, g)),
{
    let l1 = add_lifetime(l, w, g);
    assert forall|v: u64, x: u128| #[trigger] bound_to(b, v).contains(x) implies lifetimes_of(
        l1,
        v,
    ).contains(x) by {
        assert(lifetimes_of(l, v).contains(x));
    }
}

/// Law: binding and unbinding keep every binding of a widget covered by a
/// subscription the widget holds.
pub proof fn law_bindings_stay_covered(b: Map<u64, Seq<u128>>, l: Map<u64, Set<u128>>, w: u64, g: u128)
    requires
        bindings_wf(b),
        subscriptions_cover(b, l),
    ensures
        subscriptions_cover(bind_model(b, l, w, g).0, bind_model(b, l, w, g).1),
        subscriptions_cover(unbind_model(b, l, w, g).0, unbind_model(b, l, w, g).1),
{
    let list = bound_to(b, w);
    if !list.contains(g) {
        let (b1, l1, _o) = bind_model(b, l, w, g);
        assert forall|v: u64, x: u128| #[trigger] bound_to(b1, v).contains(x) implies lifetimes_of(
            l1,
            v,
        ).contains(x) by {
            if v == w {
                if x != g {
                    let i = choose|i: int| 0 <= i < list.push(g).len() && list.push(g)[i] == x;
                    assert(list[i] == x);
                    assert(list.contains(x));
                }
            } else {
                assert(bound_to(b, v).contains(x));
            }
        }
    }
    if b.contains_key(w) && b[w].contains(g) {
        let (b2, l2, _o) = unbind_model(b, l, w, g);
        let s = b[w];
        let p = s.index_of(g);
        assert forall|v: u64, x: u128| #[trigger] bound_to(b2, v).contains(x) implies lifetimes_of(
            l2,
            v,
        ).contains(x) by {
            if v == w {
                let r = s.remove(p);
                let i = choose|i: int| 0 <= i < r.len() && r[i] == x;
                let si = if i < p { i } else { i + 1 };
                assert(s[si] == x);
                assert(si != p);
                assert(x != g);
                assert(bound_to(b, w).contains(x));
            } else {
                assert(bound_to(b, v).contains(x));
            }
        }
    }
}

/// Law: unbinding a bound widget releases the subscription it held, when
/// every binding is covered.
pub proof fn law_unbind_releases(b: Map<u64, Seq<u128>>, l: Map<u64, Set<u128>>, w: u64, g: u128)
    requires
        subscriptions_cover(b, l),
        bound_to(b, w).contains(g),
    ensures
        unbind_model(b, l, w, g).2 == (UnbindOutcome::Unbound { lifetime_released: true }),
{
    assert(lifetimes_of(l, w).contains(g));
}

/// Law: unbinding removes the binding at its place in the widget's list,
/// the others keeping their order.
pub proof fn law_unbind_removes_at_position(
    b: Map<u64, Seq<u128>>,
    l: Map<u64, Set<u128>>,
    w: u64,
    g: u128,
    i: int,
)
    requires
        bindings_wf(b),
        0 <= i < bound_to(b, w).len(),
        bound_to(b, w)[i] == g,
    ensures
        bound_to(unbind_model(b, l, w, g).0, w) == bound_to(b, w).remove(i),
{
    let s = bound_to(b, w);
    assert(s.contains(g));
    let p = s.index_of(g);
    assert(b[w].no_duplicates());
    assert(p == i);
}

/// Law: dropping a subscription just taken out restores the widget's
/// subscriptions, and the one dropped is released.
pub proof fn law_drop_undoes_add(l: Map<u64, Set<u128>>, w: u64, g: u128)
    requires
        !lifetimes_of(l, w).contains(g),
    ensures
        drop_lifetime(add_lifetime(l, w, g), w, g) == l.insert(w, lifetimes_of(l, w)),
        lifetimes_of(add_lifetime(l, w, g), w).contains(g),
{
    assert(lifetimes_of(l, w).insert(g).remove(g) =~= lifetimes_of(l, w));
    assert(drop_lifetime(add_lifetime(l, w, g), w, g) =~= l.insert(w, lifetimes_of(l, w)));
}
} // verus!
