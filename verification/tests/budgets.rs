use lib::capacity::{self, charge, term_check};
use lib::engine::{needs_dependencies, Access, Policy};
use lib::finite::{self, intersection, mul, Budget, Domain, Error};
use lib::syntax::{Term, Var};

fn domain(entries: &[(&str, u128)]) -> Domain {
    let mut d = Domain::new();
    for &(name, weight) in entries {
        d.insert(name.to_string(), weight);
    }
    d
}

#[test]
fn default_limits_match_the_documented_values() {
    let l = finite::Limits::default();
    assert_eq!(
        (l.steps, l.partitions, l.solutions, l.term_nodes),
        (100_000, 4096, 4096, 2_000_000)
    );
    let c = capacity::Limits::default();
    assert_eq!((c.states, c.answers), (100000, 4096));
}

#[test]
fn budget_refuses_depth_before_nodes() {
    let mut b = Budget { left: 1 };
    assert_eq!(b.node(129), Err(Error::Limit("term depth")));
    assert_eq!(b.left, 1);
    assert_eq!(b.node(128), Ok(()));
    assert_eq!(b.left, 0);
    assert_eq!(b.node(0), Err(Error::Limit("term nodes")));
}

#[test]
fn multiplication_reports_overflow() {
    assert_eq!(mul(6, 7), Ok(42));
    assert_eq!(mul(u128::MAX, 1), Ok(u128::MAX));
    assert_eq!(mul(u128::MAX, 2), Err(Error::MultiplicityOverflow));
}

#[test]
fn domain_intersection_multiplies_common_weights() {
    let a = domain(&[("x", 2), ("y", 3), ("z", 5)]);
    let b = domain(&[("y", 7), ("z", 11), ("w", 13)]);
    let both = intersection(&a, &b).unwrap();
    assert_eq!(both.len(), 2);
    assert_eq!(both.get(&"y".to_string()), Some(21));
    assert_eq!(both.get(&"z".to_string()), Some(55));
    assert_eq!(both.get(&"x".to_string()), None);
    let big = domain(&[("y", u128::MAX)]);
    assert_eq!(
        intersection(&a, &big).err(),
        Some(Error::MultiplicityOverflow)
    );
    let mut replaced = domain(&[("x", 1)]);
    replaced.insert("x".to_string(), 9);
    assert_eq!(replaced.len(), 1);
    assert_eq!(replaced.get(&"x".to_string()), Some(9));
}

#[test]
fn charge_pays_one_node() {
    let mut left = 2;
    assert_eq!(charge(&mut left, 0), Ok(()));
    assert_eq!(left, 1);
    assert_eq!(charge(&mut left, 129), Err(capacity::Error::Limit));
    assert_eq!(left, 1);
    assert_eq!(charge(&mut left, 128), Ok(()));
    assert_eq!(charge(&mut left, 0), Err(capacity::Error::Limit));
    assert_eq!(left, 0);
}

#[test]
fn term_walk_costs_its_size_and_respects_depth() {
    let t = Term::App(
        "f".to_string(),
        vec![
            Term::Var(Var(0)),
            Term::App("g".to_string(), vec![Term::App("a".to_string(), vec![])]),
        ],
    );
    let mut left = 10;
    assert_eq!(term_check(&t, &mut left, 0), Ok(()));
    assert_eq!(left, 6);
    let mut exact = 4;
    assert_eq!(term_check(&t, &mut exact, 0), Ok(()));
    assert_eq!(exact, 0);
    let mut short = 3;
    assert_eq!(term_check(&t, &mut short, 0), Err(capacity::Error::Limit));
    let mut deep = 10;
    assert_eq!(term_check(&t, &mut deep, 126), Ok(()));
    let mut too_deep = 10;
    assert_eq!(
        term_check(&t, &mut too_deep, 127),
        Err(capacity::Error::Limit)
    );
}

#[test]
fn dependencies_are_tracked_for_active_or_indexed_engines() {
    assert!(!needs_dependencies(Policy::Global, Access::Scan));
    assert!(needs_dependencies(Policy::Active, Access::Scan));
    assert!(needs_dependencies(Policy::Global, Access::Indexed));
}
