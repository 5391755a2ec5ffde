use lib::capacity::{Error, Limits, Prepared};
use lib::capacity_search::Report;
use lib::syntax::{Answer, Constraint, Goal, Query, Rule, Term, Var};

fn v(n: u64) -> Term {
    Term::Var(Var(n))
}

fn atom(name: &str) -> Term {
    Term::App(name.to_string(), vec![])
}

fn app(name: &str, args: Vec<Term>) -> Term {
    Term::App(name.to_string(), args)
}

fn c(name: &str, args: Vec<Term>) -> Constraint {
    Constraint { name: name.to_string(), args }
}

fn post(name: &str, args: Vec<Term>) -> Goal {
    Goal::Constraint(c(name, args))
}

fn eq(a: Term, b: Term) -> Goal {
    Goal::Unify(a, b)
}

fn or(a: Goal, b: Goal) -> Goal {
    Goal::Or(Box::new(a), Box::new(b))
}

fn simplify(name: &str, removed: Vec<Constraint>, body: Goal) -> Rule {
    Rule { name: name.to_string(), kept: vec![], removed, guards: vec![], body }
}

/// `want(X)` picks `X` among `choices`, then needs it; a need takes a token
/// of the same atom and is done; a need without a token fails.
fn source(choices: &[&str]) -> Vec<Rule> {
    let mut g = eq(v(0), atom(choices[0]));
    for x in &choices[1..] {
        g = or(g, eq(v(0), atom(x)));
    }
    vec![
        simplify("pick", vec![c("want", vec![v(0)])], Goal::And(vec![g, post("need", vec![v(0)])])),
        simplify("use", vec![c("need", vec![v(0)]), c("token", vec![v(0)])], post("done", vec![v(0)])),
        simplify("stop", vec![c("need", vec![v(0)])], Goal::Fail),
    ]
}

fn prepared(choices: &[&str]) -> Prepared {
    Prepared::new(&source(choices)).expect("admitted")
}

fn text(t: &Term) -> String {
    match t {
        Term::Var(Var(n)) => format!("_{n}"),
        Term::App(name, xs) if xs.is_empty() => name.clone(),
        Term::App(name, xs) => format!("{name}({})", xs.iter().map(text).collect::<Vec<_>>().join(",")),
    }
}

fn constraint_text(c: &Constraint) -> String {
    format!("{}({})", c.name, c.args.iter().map(text).collect::<Vec<_>>().join(","))
}

fn answer_text(a: &Answer) -> String {
    let outputs = a.outputs.iter().map(|(n, t)| format!("{n}={}", text(t))).collect::<Vec<_>>().join(" ");
    let residual = a.residual.iter().map(constraint_text).collect::<Vec<_>>().join(" ");
    format!("{outputs} | {residual}")
}

fn answers(r: &Report) -> Vec<String> {
    r.answers.iter().map(answer_text).collect()
}

fn query(constraints: Vec<Constraint>, outputs: &[(&str, u64)]) -> Query {
    Query { constraints, outputs: outputs.iter().map(|(n, x)| (n.to_string(), Var(*x))).collect() }
}

fn solve_err(p: &Prepared, q: &Query, limits: Limits) -> Error {
    match p.solve(q, limits) {
        Ok(_) => panic!("solved"),
        Err(e) => e,
    }
}

#[test]
fn one_group_takes_the_atom_its_token_pays_for() {
    let p = prepared(&["a", "b"]);
    let q = query(vec![c("want", vec![v(0)]), c("token", vec![atom("a")])], &[("X", 0)]);
    let r = p.solve(&q, Limits::default()).unwrap();
    assert_eq!(answers(&r), vec!["X=a | done(a)".to_string()]);
    assert_eq!((r.states, r.branches, r.capacity_prunes), (2, 1, 0));
}

#[test]
fn two_groups_share_two_tokens_in_both_orders() {
    let p = prepared(&["a", "b"]);
    let q = query(
        vec![c("want", vec![v(0)]), c("want", vec![v(1)]), c("token", vec![atom("b")]), c("token", vec![atom("a")])],
        &[("X", 0), ("Y", 1)],
    );
    let r = p.solve(&q, Limits::default()).unwrap();
    assert_eq!(
        answers(&r),
        vec!["X=a Y=b | done(a) done(b)".to_string(), "X=b Y=a | done(b) done(a)".to_string()]
    );
    assert_eq!((r.states, r.branches, r.capacity_prunes), (5, 4, 0));
}

#[test]
fn a_shortage_of_tokens_is_pruned_at_once() {
    let p = prepared(&["a", "b"]);
    let q = query(vec![c("want", vec![v(0)]), c("want", vec![v(1)]), c("token", vec![atom("a")])], &[]);
    let r = p.solve(&q, Limits::default()).unwrap();
    assert!(r.answers.is_empty());
    assert_eq!((r.states, r.branches, r.capacity_prunes), (1, 0, 1));
}

#[test]
fn ground_producers_keep_unused_tokens() {
    let p = prepared(&["a", "b"]);
    let q = query(
        vec![c("want", vec![atom("a")]), c("token", vec![atom("a")]), c("token", vec![atom("a")]), c("token", vec![atom("b")])],
        &[],
    );
    let r = p.solve(&q, Limits::default()).unwrap();
    assert_eq!(answers(&r), vec![" | done(a) token(a) token(b)".to_string()]);
    let q = query(vec![c("want", vec![atom("c")]), c("token", vec![atom("c")])], &[]);
    let r = p.solve(&q, Limits::default()).unwrap();
    assert!(r.answers.is_empty());
    assert_eq!(r.capacity_prunes, 1);
}

#[test]
fn repeated_alternatives_repeat_the_answer() {
    let p = prepared(&["a", "a", "b"]);
    let q = query(vec![c("want", vec![v(0)]), c("token", vec![atom("a")])], &[("X", 0)]);
    let r = p.solve(&q, Limits::default()).unwrap();
    assert_eq!(answers(&r), vec!["X=a | done(a)".to_string(), "X=a | done(a)".to_string()]);
}

#[test]
fn inert_constraints_see_the_chosen_atoms() {
    let p = prepared(&["a", "b"]);
    let q = query(
        vec![c("other", vec![app("f", vec![v(0)]), v(1)]), c("want", vec![v(0)]), c("token", vec![atom("b")])],
        &[("X", 0), ("Y", 1)],
    );
    let r = p.solve(&q, Limits::default()).unwrap();
    assert_eq!(answers(&r), vec!["X=b Y=_1 | other(f(b),_1) done(b)".to_string()]);
}

#[test]
fn one_variable_of_two_producers_meets_both_domains() {
    let mut s = source(&["a", "b"]);
    s.insert(
        1,
        simplify(
            "pick2",
            vec![c("want2", vec![v(0)])],
            Goal::And(vec![or(eq(v(0), atom("b")), eq(v(0), atom("c"))), post("need", vec![v(0)])]),
        ),
    );
    let p = Prepared::new(&s).unwrap();
    let q = query(vec![c("want", vec![v(0)]), c("want2", vec![v(0)]), c("token", vec![atom("b")])], &[]);
    let r = p.solve(&q, Limits::default()).unwrap();
    assert!(r.answers.is_empty());
    let q = query(
        vec![c("want", vec![v(0)]), c("want2", vec![v(0)]), c("token", vec![atom("b")]), c("token", vec![atom("b")])],
        &[("X", 0)],
    );
    let r = p.solve(&q, Limits::default()).unwrap();
    assert_eq!(answers(&r), vec!["X=b | done(b) done(b)".to_string()]);
}

#[test]
fn malformed_queries_are_refused() {
    let p = prepared(&["a", "b"]);
    let q = query(vec![c("want", vec![v(0)])], &[("X", 0), ("X", 1)]);
    assert_eq!(solve_err(&p, &q, Limits::default()), Error::Query);
    let q = query(vec![c("need", vec![v(0)])], &[]);
    assert_eq!(solve_err(&p, &q, Limits::default()), Error::Query);
    let q = query(vec![c("want", vec![app("f", vec![v(0)])])], &[]);
    assert_eq!(solve_err(&p, &q, Limits::default()), Error::Query);
    let q = query(vec![c("token", vec![v(0)])], &[]);
    assert_eq!(solve_err(&p, &q, Limits::default()), Error::Query);
}

#[test]
fn searches_stop_at_their_limits() {
    let p = prepared(&["a", "b"]);
    let q = query(
        vec![c("want", vec![v(0)]), c("want", vec![v(1)]), c("token", vec![atom("a")]), c("token", vec![atom("b")])],
        &[],
    );
    assert_eq!(solve_err(&p, &q, Limits { states: 1, answers: 10 }), Error::Limit);
    assert_eq!(solve_err(&p, &q, Limits { states: 100, answers: 1 }), Error::Limit);
    assert!(p.solve(&q, Limits { states: 5, answers: 2 }).is_ok());
}

#[test]
fn queries_form_at_most_sixty_four_groups() {
    let p = prepared(&["a", "b"]);
    let q = query((0..65).map(|i| c("want", vec![v(i)])).collect(), &[]);
    assert_eq!(solve_err(&p, &q, Limits::default()), Error::Limit);
}

#[test]
fn query_terms_meet_the_depth_limit() {
    let p = prepared(&["a", "b"]);
    let mut t = atom("z");
    for _ in 0..130 {
        t = app("s", vec![t]);
    }
    let q = query(vec![c("other", vec![t])], &[]);
    assert_eq!(solve_err(&p, &q, Limits::default()), Error::Limit);
}

#[test]
fn answer_weights_beyond_usize_are_refused() {
    let p = prepared(&["a", "a"]);
    let bits = usize::BITS as u64;
    let mut cs: Vec<Constraint> = (0..bits).map(|i| c("want", vec![v(i)])).collect();
    cs.extend((0..bits).map(|_| c("token", vec![atom("a")])));
    let q = query(cs, &[]);
    if bits <= 64 {
        assert_eq!(solve_err(&p, &q, Limits::default()), Error::Multiplicity);
    }
}
