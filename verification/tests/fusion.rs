use lib::resource_fusion::{
    Program, COUNT_EXHAUSTED, INITIAL_INTERMEDIATE, INSUFFICIENT, KEY_NOT_GROUND, NO_BOUNDARY, VARIABLES_EXHAUSTED,
};
use lib::syntax::{Constraint, Goal, Query, Rule, Term, Var};

fn v(n: u64) -> Term {
    Term::Var(Var(n))
}

fn atom(name: &str) -> Term {
    Term::App(name.to_string(), vec![])
}

fn c(name: &str, args: Vec<Term>) -> Constraint {
    Constraint { name: name.to_string(), args }
}

fn rule(name: &str, kept: Vec<Constraint>, removed: Vec<Constraint>, body: Goal) -> Rule {
    Rule { name: name.to_string(), kept, removed, guards: vec![], body }
}

fn query(constraints: Vec<Constraint>) -> Query {
    Query { constraints, outputs: vec![] }
}

/// `use @ mid(K, X), tok(K) <=> done(X, extra...)` and `make @ start(K, A) <=> mid(K, A)`.
fn boundary(done_args: Vec<Term>) -> Vec<Rule> {
    vec![
        rule("use", vec![], vec![c("mid", vec![v(0), v(1)]), c("tok", vec![v(0)])], Goal::Constraint(c("done", done_args))),
        rule("make", vec![], vec![c("start", vec![v(0), v(1)])], Goal::Constraint(c("mid", vec![v(0), v(1)]))),
    ]
}

fn show(rules: &[Rule]) -> String {
    format!("{:?}", rules)
}

#[test]
fn producer_and_consumer_fuse_into_one_rule() {
    let rules = boundary(vec![v(1)]);
    let prog = Program::pair(&rules, 1, 0).unwrap().unwrap();
    assert_eq!(prog.fused_rules, (1, 0));
    let expected = vec![rule(
        "make+use",
        vec![],
        vec![c("start", vec![v(0), v(1)]), c("tok", vec![v(0)])],
        Goal::Constraint(c("done", vec![v(1)])),
    )];
    let out = prog.lower(&query(vec![c("start", vec![atom("a"), atom("x")]), c("tok", vec![atom("a")])])).unwrap();
    assert_eq!(show(out), show(&expected));
}

#[test]
fn consumer_variables_outside_the_intermediate_are_renamed_apart() {
    let rules = boundary(vec![v(1), v(2)]);
    let prog = Program::infer(&rules).unwrap();
    let expected = vec![rule(
        "make+use",
        vec![],
        vec![c("start", vec![v(0), v(1)]), c("tok", vec![v(0)])],
        Goal::Constraint(c("done", vec![v(1), v(3)])),
    )];
    assert_eq!(show(prog.lower(&query(vec![])).unwrap()), show(&expected));
}

#[test]
fn intermediate_head_variables_take_the_posted_arguments() {
    let rules = vec![
        rule("use", vec![], vec![c("tok", vec![v(5)]), c("mid", vec![v(5), v(7)])], Goal::Constraint(c("done", vec![v(7), v(5)]))),
        rule("make", vec![], vec![c("start", vec![v(0), v(1)])], Goal::Constraint(c("mid", vec![v(0), v(1)]))),
    ];
    let prog = Program::infer(&rules).unwrap();
    let expected = vec![rule(
        "make+use",
        vec![],
        vec![c("start", vec![v(0), v(1)]), c("tok", vec![v(0)])],
        Goal::Constraint(c("done", vec![v(1), v(0)])),
    )];
    assert_eq!(show(prog.lower(&query(vec![])).unwrap()), show(&expected));
}

#[test]
fn other_rules_are_kept_in_order() {
    let mut rules = boundary(vec![v(1)]);
    rules.insert(0, rule("first", vec![], vec![c("p", vec![v(0)])], Goal::True));
    rules.push(rule("last", vec![c("q", vec![])], vec![], Goal::Fail));
    let prog = Program::infer(&rules).unwrap();
    assert_eq!(prog.fused_rules, (2, 1));
    let out = prog.lower(&query(vec![])).unwrap();
    assert_eq!(out.len(), 3);
    assert_eq!(out[0].name, "first");
    assert_eq!(out[1].name, "make+use");
    assert_eq!(out[2].name, "last");
}

#[test]
fn exhausted_variable_numbers_are_an_error() {
    let rules = boundary(vec![v(1), v(u64::MAX)]);
    assert_eq!(Program::pair(&rules, 1, 0).err(), Some(VARIABLES_EXHAUSTED));
    assert_eq!(Program::infer(&rules).err(), Some(VARIABLES_EXHAUSTED));
}

#[test]
fn the_fresh_numbers_running_out_is_an_error() {
    let rules = boundary(vec![v(1), v(u64::MAX - 1)]);
    assert_eq!(Program::infer(&rules).err(), Some(VARIABLES_EXHAUSTED));
}

#[test]
fn the_last_fresh_number_still_fits() {
    let rules = boundary(vec![v(1), v(u64::MAX - 2)]);
    let prog = Program::infer(&rules).unwrap();
    let out = prog.lower(&query(vec![])).unwrap();
    assert_eq!(format!("{:?}", out[0].body), format!("{:?}", Goal::Constraint(c("done", vec![v(1), v(u64::MAX - 1)]))));
}

#[test]
fn a_kept_head_is_no_boundary() {
    let mut rules = boundary(vec![v(1)]);
    rules[0].kept.push(c("ctx", vec![]));
    assert!(Program::pair(&rules, 1, 0).unwrap().is_none());
    assert_eq!(Program::infer(&rules).err(), Some(NO_BOUNDARY));
}

#[test]
fn a_second_consumer_of_the_intermediate_is_no_boundary() {
    let mut rules = boundary(vec![v(1)]);
    rules.push(rule("spy", vec![c("mid", vec![v(0), v(1)])], vec![], Goal::True));
    assert!(Program::pair(&rules, 1, 0).unwrap().is_none());
    assert_eq!(Program::infer(&rules).err(), Some(NO_BOUNDARY));
}

#[test]
fn a_posted_resource_is_no_boundary() {
    let mut rules = boundary(vec![v(1)]);
    rules.push(rule("refill", vec![], vec![c("go", vec![])], Goal::Constraint(c("tok", vec![atom("a")]))));
    assert!(Program::pair(&rules, 1, 0).unwrap().is_none());
}

#[test]
fn a_repeated_producer_variable_is_no_boundary() {
    let rules = vec![
        rule("use", vec![], vec![c("mid", vec![v(0), v(1)]), c("tok", vec![v(0)])], Goal::True),
        rule("make", vec![], vec![c("start", vec![v(0), v(1)]), c("more", vec![v(0), v(1)])], Goal::Constraint(c("mid", vec![v(0), v(1)]))),
    ];
    assert!(Program::pair(&rules, 1, 0).unwrap().is_none());
}

#[test]
fn a_consumer_resource_with_another_argument_is_no_boundary() {
    let rules = vec![
        rule("use", vec![], vec![c("mid", vec![v(0), v(1)]), c("tok", vec![v(1)])], Goal::True),
        rule("make", vec![], vec![c("start", vec![v(0), v(1)])], Goal::Constraint(c("mid", vec![v(0), v(1)]))),
    ];
    assert!(Program::pair(&rules, 1, 0).unwrap().is_none());
}

#[test]
fn sufficient_resources_per_owner_admit_the_fused_rules() {
    let prog = Program::infer(&boundary(vec![v(1)])).unwrap();
    let q = query(vec![
        c("start", vec![atom("a"), atom("x")]),
        c("start", vec![atom("b"), atom("y")]),
        c("tok", vec![atom("b")]),
        c("tok", vec![atom("a")]),
        c("other", vec![v(3)]),
    ]);
    assert_eq!(prog.lower(&q).unwrap().len(), 1);
}

#[test]
fn a_short_owner_is_refused() {
    let prog = Program::infer(&boundary(vec![v(1)])).unwrap();
    let q = query(vec![
        c("start", vec![atom("a"), atom("x")]),
        c("start", vec![atom("a"), atom("y")]),
        c("tok", vec![atom("a")]),
    ]);
    assert_eq!(prog.lower(&q).err(), Some(INSUFFICIENT));
}

#[test]
fn resources_without_producer_heads_need_nothing() {
    let prog = Program::infer(&boundary(vec![v(1)])).unwrap();
    assert!(prog.lower(&query(vec![c("tok", vec![atom("a")])])).is_ok());
}

#[test]
fn the_earliest_refused_constraint_gives_the_error() {
    let prog = Program::infer(&boundary(vec![v(1)])).unwrap();
    let q = query(vec![c("tok", vec![v(0)]), c("mid", vec![atom("a"), atom("x")])]);
    assert_eq!(prog.lower(&q).err(), Some(KEY_NOT_GROUND));
    let q = query(vec![c("mid", vec![atom("a"), atom("x")]), c("tok", vec![v(0)])]);
    assert_eq!(prog.lower(&q).err(), Some(INITIAL_INTERMEDIATE));
}

#[test]
fn a_variable_owner_is_refused() {
    let prog = Program::infer(&boundary(vec![v(1)])).unwrap();
    let q = query(vec![c("start", vec![Term::App("f".to_string(), vec![v(2)]), atom("x")])]);
    assert_eq!(prog.lower(&q).err(), Some(KEY_NOT_GROUND));
}

#[test]
fn errors_have_their_messages() {
    assert_eq!(VARIABLES_EXHAUSTED, "variable identity exhausted");
    assert_eq!(NO_BOUNDARY, "no certified private resource boundary");
    assert_eq!(INITIAL_INTERMEDIATE, "initial private intermediate requires ordinary execution");
    assert_eq!(KEY_NOT_GROUND, "resource key must be ground");
    assert_eq!(COUNT_EXHAUSTED, "resource count exhausted");
    assert_eq!(INSUFFICIENT, "insufficient guaranteed consumer resources");
}

#[test]
fn two_resources_per_firing_are_counted() {
    let rules = vec![
        rule(
            "use",
            vec![],
            vec![c("mid", vec![v(0), v(1)]), c("tok", vec![v(0)]), c("tok", vec![v(0)])],
            Goal::Constraint(c("done", vec![v(1)])),
        ),
        rule("make", vec![], vec![c("start", vec![v(0), v(1)])], Goal::Constraint(c("mid", vec![v(0), v(1)]))),
    ];
    let prog = Program::infer(&rules).unwrap();
    let one = query(vec![c("start", vec![atom("a"), atom("x")]), c("tok", vec![atom("a")])]);
    assert_eq!(prog.lower(&one).err(), Some(INSUFFICIENT));
    let two = query(vec![c("start", vec![atom("a"), atom("x")]), c("tok", vec![atom("a")]), c("tok", vec![atom("a")])]);
    assert!(prog.lower(&two).is_ok());
}
