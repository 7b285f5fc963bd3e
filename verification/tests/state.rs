use kayak_core::bindings::{BindOutcome, UnbindOutcome};
use kayak_core::context::KayakContext;
use kayak_core::index::Index;
use std::collections::HashMap;

#[test]
fn first_state_call_stores_the_offered_state() {
    let mut ctx = KayakContext::new();
    ctx.set_current_id(Index::new(1));
    let r = ctx.create_state(7, 100);
    assert_eq!(r.state, Some(100));
    assert!(r.lifetime_kept);
}

#[test]
fn rebuilding_a_widget_returns_the_stored_state() {
    let mut ctx = KayakContext::new();
    ctx.set_current_id(Index::new(1));
    assert_eq!(ctx.create_state(7, 100).state, Some(100));
    assert_eq!(ctx.create_state(7, 101).state, Some(101));
    ctx.set_current_id(Index::new(1));
    let a = ctx.create_state(7, 200);
    let b = ctx.create_state(7, 201);
    assert_eq!(a.state, Some(100));
    assert_eq!(b.state, Some(101));
    // the offered states still get their subscriptions
    assert!(a.lifetime_kept && b.lifetime_kept);
}

#[test]
fn widgets_hold_their_own_state() {
    let mut ctx = KayakContext::new();
    ctx.set_current_id(Index::new(1));
    assert_eq!(ctx.create_state(7, 100).state, Some(100));
    ctx.set_current_id(Index::new(2));
    assert_eq!(ctx.create_state(7, 300).state, Some(300));
    ctx.set_current_id(Index::new(1));
    assert_eq!(ctx.create_state(7, 400).state, Some(100));
}

#[test]
fn a_change_of_state_type_counts_positions_from_the_start() {
    let mut ctx = KayakContext::new();
    ctx.set_current_id(Index::new(1));
    assert_eq!(ctx.create_state(1, 10).state, Some(10));
    assert_eq!(ctx.create_state(2, 20).state, Some(20));
    // type 1 again, after type 2: position 0 of type 1
    assert_eq!(ctx.create_state(1, 30).state, Some(10));
    assert_eq!(ctx.next_state_index(1), 1);
    assert_eq!(ctx.next_state_index(2), 0);
}

#[test]
fn the_current_widget_is_the_one_set() {
    let mut ctx = KayakContext::new();
    assert_eq!(ctx.current_id(), Index::default());
    ctx.set_current_id(Index::new(9));
    assert_eq!(ctx.current_id(), Index::new(9));
}

#[test]
fn binding_twice_binds_once_and_unbinding_releases() {
    let mut ctx = KayakContext::new();
    ctx.set_current_id(Index::new(1));
    assert_eq!(ctx.bind(5), BindOutcome::Subscribed { lifetime_kept: true });
    assert_eq!(ctx.bind(5), BindOutcome::AlreadyBound);
    assert_eq!(ctx.unbind(5), UnbindOutcome::Unbound { lifetime_released: true });
    assert_eq!(ctx.unbind(5), UnbindOutcome::NotBound);
    assert_eq!(ctx.bind(5), BindOutcome::Subscribed { lifetime_kept: true });
}

#[test]
fn bindings_are_per_widget() {
    let mut ctx = KayakContext::new();
    ctx.set_current_id(Index::new(1));
    ctx.bind(5);
    ctx.set_current_id(Index::new(2));
    assert_eq!(ctx.unbind(5), UnbindOutcome::NotBound);
    assert_eq!(ctx.bind(5), BindOutcome::Subscribed { lifetime_kept: true });
}

#[test]
fn binding_a_state_the_widget_already_subscribed_to_drops_the_new_subscription() {
    let mut ctx = KayakContext::new();
    ctx.set_current_id(Index::new(1));
    // the widget's own state 42 holds a subscription already
    ctx.create_state(3, 42);
    assert_eq!(ctx.bind(42), BindOutcome::Subscribed { lifetime_kept: false });
}

#[test]
fn unbinding_keeps_the_other_bindings() {
    let mut ctx = KayakContext::new();
    ctx.set_current_id(Index::new(1));
    ctx.bind(5);
    ctx.bind(6);
    ctx.bind(7);
    assert_eq!(ctx.unbind(6), UnbindOutcome::Unbound { lifetime_released: true });
    assert_eq!(ctx.bind(5), BindOutcome::AlreadyBound);
    assert_eq!(ctx.bind(7), BindOutcome::AlreadyBound);
    assert_eq!(ctx.bind(6), BindOutcome::Subscribed { lifetime_kept: true });
}

#[test]
fn ancestors_come_nearest_first() {
    let mut parents: HashMap<u64, u64> = HashMap::new();
    parents.insert(3, 2);
    parents.insert(2, 1);
    assert!(KayakContext::parent_chain_ends(&parents, Index::new(3)));
    let mut out = vec![Index::new(99)];
    KayakContext::get_all_parents(&parents, Index::new(3), &mut out);
    assert_eq!(out, vec![Index::new(99), Index::new(2), Index::new(1)]);
    let mut root = Vec::new();
    KayakContext::get_all_parents(&parents, Index::new(1), &mut root);
    assert_eq!(root, Vec::<Index>::new());
}

#[test]
fn a_circular_parent_chain_does_not_end() {
    let mut parents: HashMap<u64, u64> = HashMap::new();
    parents.insert(1, 2);
    parents.insert(2, 1);
    parents.insert(5, 1);
    assert!(!KayakContext::parent_chain_ends(&parents, Index::new(5)));
    assert!(KayakContext::parent_chain_ends(&parents, Index::new(7)));
}

#[test]
fn unbinding_a_bound_state_always_releases_its_subscription() {
    let mut ctx = KayakContext::new();
    ctx.set_current_id(Index::new(4));
    ctx.bind(8);
    ctx.bind(9);
    ctx.set_current_id(Index::new(5));
    ctx.bind(8);
    ctx.set_current_id(Index::new(4));
    assert_eq!(ctx.unbind(9), UnbindOutcome::Unbound { lifetime_released: true });
    assert_eq!(ctx.unbind(8), UnbindOutcome::Unbound { lifetime_released: true });
    ctx.set_current_id(Index::new(5));
    assert_eq!(ctx.unbind(8), UnbindOutcome::Unbound { lifetime_released: true });
}
