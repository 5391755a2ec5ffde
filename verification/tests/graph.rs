use lib::equality::{Context, Graph, NodeId};

fn covers(regions: &[Context], world: &[bool]) -> bool {
    regions.iter().any(|c| c.contains(world))
}

fn atom(g: &mut Graph, name: &str) -> NodeId {
    g.constructor(name.to_string(), Vec::new())
}

fn app(g: &mut Graph, name: &str, args: Vec<NodeId>) -> NodeId {
    g.constructor(name.to_string(), args)
}

const WORLDS: [[bool; 2]; 4] = [[false, false], [false, true], [true, false], [true, true]];

#[test]
fn unknown_takes_the_value_it_is_unified_with() {
    let mut g = Graph::new();
    let x = g.unknown();
    let a = atom(&mut g, "a");
    let fa = app(&mut g, "f", vec![a]);
    let top = Context::top();
    let done = g.unify(x, fa, &top);
    assert!(WORLDS.iter().all(|w| covers(&done, w)));
    let same = g.equal(x, fa, &top);
    assert!(WORLDS.iter().all(|w| covers(&same, w)));
    let b = atom(&mut g, "b");
    assert!(g.equal(x, b, &top).is_empty());
    assert_eq!(g.failed_count(), 0);
}

#[test]
fn clashing_constructors_fail_their_region() {
    let mut g = Graph::new();
    let a = atom(&mut g, "a");
    let fa = app(&mut g, "f", vec![a]);
    let ga = app(&mut g, "g", vec![a]);
    let top = Context::top();
    assert!(g.unify(fa, ga, &top).is_empty());
    assert!(g.failed_count() > 0);
    assert!(g.live(&top).is_empty());
    assert!(g.equal(a, a, &top).is_empty());
}

#[test]
fn arity_mismatch_fails() {
    let mut g = Graph::new();
    let a = atom(&mut g, "a");
    let f1 = app(&mut g, "f", vec![a]);
    let f2 = app(&mut g, "f", vec![a, a]);
    let top = Context::top();
    assert!(g.unify(f1, f2, &top).is_empty());
    assert!(g.live(&top).is_empty());
}

#[test]
fn occurs_check_fails_a_cyclic_binding() {
    let mut g = Graph::new();
    let x = g.unknown();
    let fx = app(&mut g, "f", vec![x]);
    let top = Context::top();
    assert!(g.unify(x, fx, &top).is_empty());
    assert!(g.live(&top).is_empty());
}

#[test]
fn failure_stays_inside_the_context() {
    let mut g = Graph::new();
    let a = atom(&mut g, "a");
    let b = atom(&mut g, "b");
    let top = Context::top();
    let left = top.select(0, false).unwrap();
    assert!(g.unify(a, b, &left).is_empty());
    let live = g.live(&top);
    assert!(!covers(&live, &[false]));
    assert!(covers(&live, &[true]));
    assert!(covers(&g.equal(a, a, &top), &[true]));
}

#[test]
fn a_choice_resolves_by_world() {
    let mut g = Graph::new();
    let label = g.label(Context::top());
    let a = atom(&mut g, "a");
    let b = atom(&mut g, "b");
    let c = g.choice(label, a, b);
    let x = g.unknown();
    let top = Context::top();
    let done = g.unify(x, c, &top);
    assert!(covers(&done, &[false]) && covers(&done, &[true]));
    let is_a = g.equal(x, a, &top);
    assert!(covers(&is_a, &[false]));
    assert!(!covers(&is_a, &[true]));
    let is_b = g.equal(x, b, &top);
    assert!(covers(&is_b, &[true]));
    assert!(!covers(&is_b, &[false]));
}

#[test]
fn a_choice_that_mentions_the_unknown_is_split_by_arm() {
    let mut g = Graph::new();
    let label = g.label(Context::top());
    let x = g.unknown();
    let b = atom(&mut g, "b");
    let c = g.choice(label, x, b);
    let top = Context::top();
    let done = g.unify(x, c, &top);
    assert!(covers(&done, &[false]) && covers(&done, &[true]));
    assert_eq!(g.failed_count(), 0);
    assert!(covers(&g.equal(x, b, &top), &[true]));
    assert!(!covers(&g.equal(x, b, &top), &[false]));
}

#[test]
fn unifying_unknowns_shares_later_values() {
    let mut g = Graph::new();
    let x = g.unknown();
    let y = g.unknown();
    let a = atom(&mut g, "a");
    let top = Context::top();
    assert!(covers(&g.unify(x, y, &top), &[]));
    assert!(covers(&g.unify(y, a, &top), &[]));
    assert!(covers(&g.equal(x, a, &top), &[]));
    assert!(covers(&g.equal(y, x, &top), &[]));
}

#[test]
fn arguments_are_unified_pairwise() {
    let mut g = Graph::new();
    let x = g.unknown();
    let y = g.unknown();
    let a = atom(&mut g, "a");
    let b = atom(&mut g, "b");
    let left = app(&mut g, "p", vec![x, b]);
    let right = app(&mut g, "p", vec![a, y]);
    let top = Context::top();
    assert!(covers(&g.unify(left, right, &top), &[]));
    assert!(covers(&g.equal(x, a, &top), &[]));
    assert!(covers(&g.equal(y, b, &top), &[]));
    assert!(covers(&g.equal(left, right, &top), &[]));
}

#[test]
fn a_label_absent_from_a_world_has_no_arms_there() {
    let mut g = Graph::new();
    let base = g.label(Context::top());
    let late = g.label(Context::top().select(base.0, true).unwrap());
    let a = atom(&mut g, "a");
    let b = atom(&mut g, "b");
    let c = g.choice(late, a, b);
    let top = Context::top();
    let done = g.unify(c, a, &top);
    assert!(!covers(&done, &[false, false]));
    assert!(covers(&done, &[true, false]));
    assert!(!covers(&done, &[true, true]));
    assert!(covers(&g.live(&top), &[false, false]));
    assert!(!covers(&g.live(&top), &[true, true]));
}

#[test]
fn equal_is_stricter_than_unify_where_a_label_is_absent() {
    let mut g = Graph::new();
    let everywhere = g.label(Context::top());
    let late = g.label(Context::top().select(everywhere.0, true).unwrap());
    let v = g.unknown();
    let a = atom(&mut g, "a");
    let b = atom(&mut g, "b");
    let both = g.choice(everywhere, v, v);
    let absent = g.choice(late, a, b);
    let left = app(&mut g, "f", vec![v, v]);
    let right = app(&mut g, "f", vec![both, absent]);
    let top = Context::top();
    let done = g.unify(left, right, &top);
    assert!(covers(&done, &[false, false]));
    assert!(covers(&done, &[true, false]));
    let same = g.equal(left, right, &top);
    assert!(!covers(&same, &[false, false]));
    assert!(covers(&same, &[true, false]));
}

#[test]
fn equal_neither_binds_nor_fails() {
    let mut g = Graph::new();
    let x = g.unknown();
    let a = atom(&mut g, "a");
    let top = Context::top();
    assert!(g.equal(x, a, &top).is_empty());
    assert!(covers(&g.equal(x, x, &top), &[]));
    assert_eq!(g.failed_count(), 0);
    assert!(covers(&g.unify(x, a, &top), &[]));
}
