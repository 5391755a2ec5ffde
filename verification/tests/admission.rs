use lib::capacity;
use lib::finite::{Budget, Domain, Error};
use lib::phase::{
    self, choice, goal_check, linear, walk, BODY_ESCAPES, BAD_PREFIX, COMPETING_HEAD, DUPLICATE_RULE, FRESH_BODY_VARIABLE,
    NONLINEAR_HEAD, NON_PRODUCER_ALTERNATIVE, NOT_SINGLE_HEAD, NO_PRODUCER, OUTSIDE_HEAD, PRODUCERS_FIRST,
};
use lib::resource_fusion::VarSet;
use lib::syntax::{Constraint, Goal, Rule, Term, Var};

fn v(n: u64) -> Term {
    Term::Var(Var(n))
}

fn atom(name: &str) -> Term {
    Term::App(name.to_string(), vec![])
}

fn app(name: &str, args: Vec<Term>) -> Term {
    Term::App(name.to_string(), args)
}

fn c(name: &str, args: Vec<Term>) -> Constraint {
    Constraint { name: name.to_string(), args }
}

fn post(name: &str, args: Vec<Term>) -> Goal {
    Goal::Constraint(c(name, args))
}

fn eq(a: Term, b: Term) -> Goal {
    Goal::Unify(a, b)
}

fn or(a: Goal, b: Goal) -> Goal {
    Goal::Or(Box::new(a), Box::new(b))
}

fn simplify(name: &str, removed: Vec<Constraint>, body: Goal) -> Rule {
    Rule { name: name.to_string(), kept: vec![], removed, guards: vec![], body }
}

fn nested(depth: usize) -> Term {
    let mut t = atom("z");
    for _ in 0..depth {
        t = app("s", vec![t]);
    }
    t
}

/// `choose(X)` picks `a` or `b`; `item(X)` marks `X`; `mark(X)` is consumed.
fn phase_source() -> Vec<Rule> {
    vec![
        simplify("pick", vec![c("choose", vec![v(0)])], or(eq(v(0), atom("a")), eq(atom("b"), v(0)))),
        simplify("step", vec![c("item", vec![v(0)])], post("mark", vec![v(0)])),
        simplify("mark", vec![c("mark", vec![v(0)])], Goal::True),
        simplify("after", vec![c("other", vec![v(0)])], Goal::True),
    ]
}

fn phase_error(source: &[Rule], prefix: usize) -> Error {
    match phase::Prepared::new(source, prefix) {
        Ok(_) => panic!("admitted"),
        Err(e) => e,
    }
}

#[test]
fn a_choice_producer_followed_by_deterministic_rules_is_admitted() {
    assert!(phase::Prepared::new(&phase_source(), 3).is_ok());
}

#[test]
fn the_prefix_must_lie_in_the_source() {
    assert_eq!(phase_error(&phase_source(), 0), Error::Source(BAD_PREFIX));
    assert_eq!(phase_error(&phase_source(), 5), Error::Source(BAD_PREFIX));
}

#[test]
fn rule_names_must_differ() {
    let mut s = phase_source();
    s[3].name = "pick".to_string();
    assert_eq!(phase_error(&s, 3), Error::Source(DUPLICATE_RULE));
}

#[test]
fn phase_rules_consume_one_unguarded_head() {
    let mut s = phase_source();
    s[1].kept.push(c("ctx", vec![]));
    assert_eq!(phase_error(&s, 3), Error::Source(NOT_SINGLE_HEAD));
}

#[test]
fn private_heads_are_linear() {
    let mut s = phase_source();
    s[2].removed[0].args = vec![v(0), v(0)];
    s[1].body = post("mark", vec![v(0), v(0)]);
    s[1].removed[0].args = vec![v(0)];
    assert_eq!(phase_error(&s, 3), Error::Source(NONLINEAR_HEAD));
}

#[test]
fn producers_come_first_and_once() {
    let mut s = phase_source();
    s.swap(0, 1);
    assert_eq!(phase_error(&s, 3), Error::Source(PRODUCERS_FIRST));
}

#[test]
fn a_phase_needs_a_producer() {
    assert_eq!(phase_error(&phase_source()[1..], 2), Error::Source(NO_PRODUCER));
}

#[test]
fn deterministic_rules_may_not_consume_a_choice() {
    let mut s = phase_source();
    s[2] = simplify("mark", vec![c("choose", vec![app("f", vec![v(0)])])], Goal::True);
    s[1].body = Goal::True;
    assert_eq!(phase_error(&s, 3), Error::Source(COMPETING_HEAD));
}

#[test]
fn deterministic_bodies_stay_in_the_phase() {
    let mut s = phase_source();
    s[1].body = post("other", vec![v(0)]);
    assert_eq!(phase_error(&s, 3), Error::Source(BODY_ESCAPES));
    s[1].body = post("choose", vec![v(0)]);
    assert_eq!(phase_error(&s, 3), Error::Source(BODY_ESCAPES));
}

#[test]
fn later_rules_may_not_touch_private_heads() {
    let mut s = phase_source();
    s[3].kept.push(c("mark", vec![v(1)]));
    assert_eq!(phase_error(&s, 3), Error::Source(OUTSIDE_HEAD));
}

#[test]
fn deterministic_bodies_bind_no_fresh_variable() {
    let mut s = phase_source();
    s[1].body = post("mark", vec![v(9)]);
    assert_eq!(phase_error(&s, 3), Error::Source(FRESH_BODY_VARIABLE));
}

#[test]
fn deterministic_bodies_have_no_alternatives() {
    let mut s = phase_source();
    s[1].body = or(Goal::True, Goal::True);
    assert_eq!(phase_error(&s, 3), Error::Source(NON_PRODUCER_ALTERNATIVE));
}

#[test]
fn deep_heads_meet_the_depth_limit() {
    let mut s = phase_source();
    s[2].removed[0].args = vec![nested(200)];
    s[1].body = Goal::True;
    assert_eq!(phase_error(&s, 3), Error::Limit("term depth"));
}

#[test]
fn walks_pay_one_node_per_term_node() {
    let mut b = Budget { left: 10 };
    assert_eq!(walk(&app("f", vec![v(0), app("g", vec![atom("a")])]), &mut b, 0), Ok(()));
    assert_eq!(b.left, 6);
    let mut b = Budget { left: 3 };
    assert_eq!(walk(&app("f", vec![v(0), app("g", vec![atom("a")])]), &mut b, 0), Err(Error::Limit("term nodes")));
    let mut b = Budget { left: 1000 };
    assert_eq!(walk(&nested(128), &mut b, 0), Ok(()));
    assert_eq!(walk(&nested(129), &mut b, 0), Err(Error::Limit("term depth")));
}

#[test]
fn choices_add_the_weights_of_alternatives() {
    let g = or(or(eq(v(0), atom("a")), eq(atom("b"), v(0))), or(eq(v(0), atom("a")), Goal::Fail));
    let mut b = Budget { left: 100 };
    let d: Domain = choice(&g, Var(0), &mut b, 0).unwrap().unwrap();
    assert_eq!(d.len(), 2);
    assert_eq!(d.get(&"a".to_string()), Some(2));
    assert_eq!(d.get(&"b".to_string()), Some(1));
    assert_eq!(b.left, 93);
    let mut b = Budget { left: 100 };
    assert!(choice(&or(eq(v(1), atom("a")), Goal::Fail), Var(0), &mut b, 0).unwrap().is_none());
    let mut b = Budget { left: 100 };
    assert!(choice(&Goal::True, Var(0), &mut b, 0).unwrap().is_none());
}

#[test]
fn linear_terms_repeat_no_variable() {
    let mut seen = VarSet::new();
    assert!(linear(&app("f", vec![v(0), v(1)]), &mut seen));
    assert!(!linear(&v(1), &mut seen));
    assert!(linear(&v(2), &mut seen));
}

#[test]
fn goal_checks_record_posted_keys_in_order() {
    let mut head = VarSet::new();
    head.insert(0);
    let mut calls = vec![];
    let mut b = Budget { left: 100 };
    let g = Goal::And(vec![post("p", vec![v(0)]), eq(v(0), atom("a")), Goal::And(vec![post("q", vec![])])]);
    assert_eq!(goal_check(&g, &head, &mut calls, &mut b, 0), Ok(()));
    assert_eq!(calls, vec![("p".to_string(), 1), ("q".to_string(), 0)]);
    assert_eq!(b.left, 92);
}

fn capacity_source() -> Vec<Rule> {
    vec![
        simplify(
            "pick",
            vec![c("want", vec![v(0)])],
            Goal::And(vec![or(eq(v(0), atom("a")), eq(v(0), atom("b"))), post("need", vec![v(0)])]),
        ),
        simplify("use", vec![c("need", vec![v(0)]), c("token", vec![v(0)])], post("done", vec![v(0)])),
        simplify("stop", vec![c("need", vec![v(0)])], Goal::Fail),
    ]
}

fn capacity_error(source: &[Rule]) -> capacity::Error {
    match capacity::Prepared::new(source) {
        Ok(_) => panic!("admitted"),
        Err(e) => e,
    }
}

#[test]
fn a_capacity_relation_is_admitted() {
    assert!(capacity::Prepared::new(&capacity_source()).is_ok());
    let mut s = capacity_source();
    s[1].removed.swap(0, 1);
    assert!(capacity::Prepared::new(&s).is_ok());
}

#[test]
fn capacity_relations_need_a_consumer_and_a_sink() {
    assert_eq!(capacity_error(&capacity_source()[1..]), capacity::Error::Source);
    let mut s = capacity_source();
    s[2].body = Goal::True;
    assert_eq!(capacity_error(&s), capacity::Error::Source);
    let mut s = capacity_source();
    s[1].body = post("need", vec![v(0)]);
    assert_eq!(capacity_error(&s), capacity::Error::Source);
    let mut s = capacity_source();
    s[1].removed[1].args = vec![v(1)];
    assert_eq!(capacity_error(&s), capacity::Error::Source);
}

#[test]
fn capacity_producers_choose_then_post_the_need() {
    let mut s = capacity_source();
    s[0].body = post("need", vec![v(0)]);
    assert_eq!(capacity_error(&s), capacity::Error::Source);
    let mut s = capacity_source();
    s[0].removed[0].name = "token".to_string();
    assert_eq!(capacity_error(&s), capacity::Error::Source);
    let mut s = capacity_source();
    s[0].kept.push(c("ctx", vec![]));
    assert_eq!(capacity_error(&s), capacity::Error::Source);
}

#[test]
fn capacity_producers_offer_at_most_sixty_four_atoms() {
    let mut s = capacity_source();
    let mut g = eq(v(0), atom("x0"));
    for i in 1..65 {
        g = or(g, eq(v(0), atom(&format!("x{i}"))));
    }
    s[0].body = Goal::And(vec![g, post("need", vec![v(0)])]);
    assert_eq!(capacity_error(&s), capacity::Error::Limit);
}

#[test]
fn capacity_walks_meet_the_depth_limit() {
    let mut s = capacity_source();
    let mut g = post("need", vec![v(0)]);
    for _ in 0..130 {
        g = Goal::And(vec![g]);
    }
    s[0].body = g;
    assert_eq!(capacity_error(&s), capacity::Error::Limit);
}
