use lib::finite::{Error, Limits};
use lib::phase::Prepared;
use lib::phase_solve::{Event, Report, CHOICE_INPUT};
use lib::syntax::{Constraint, Goal, Query, Rule, Term, Var};

fn v(n: u64) -> Term {
    Term::Var(Var(n))
}

fn atom(name: &str) -> Term {
    Term::App(name.to_string(), vec![])
}

fn app(name: &str, args: Vec<Term>) -> Term {
    Term::App(name.to_string(), args)
}

fn c(name: &str, args: Vec<Term>) -> Constraint {
    Constraint { name: name.to_string(), args }
}

fn post(name: &str, args: Vec<Term>) -> Goal {
    Goal::Constraint(c(name, args))
}

fn eq(a: Term, b: Term) -> Goal {
    Goal::Unify(a, b)
}

fn or(a: Goal, b: Goal) -> Goal {
    Goal::Or(Box::new(a), Box::new(b))
}

fn simplify(name: &str, removed: Vec<Constraint>, body: Goal) -> Rule {
    Rule { name: name.to_string(), kept: vec![], removed, guards: vec![], body }
}

fn text(t: &Term) -> String {
    match t {
        Term::Var(Var(n)) => format!("_{n}"),
        Term::App(name, xs) if xs.is_empty() => name.clone(),
        Term::App(name, xs) => format!("{name}({})", xs.iter().map(text).collect::<Vec<_>>().join(",")),
    }
}

/// Each solution as its equations, its caller constraints and its multiplicity.
fn solutions(r: &Report) -> Vec<String> {
    r.solutions
        .iter()
        .map(|s| {
            let eqs = s.equations.iter().map(|(a, b)| format!("{}={}", text(a), text(b))).collect::<Vec<_>>().join(" ");
            let cs = s
                .query
                .constraints
                .iter()
                .map(|c| format!("{}({})", c.name, c.args.iter().map(text).collect::<Vec<_>>().join(",")))
                .collect::<Vec<_>>()
                .join(" ");
            format!("{eqs} | {cs} | {}", s.multiplicity)
        })
        .collect()
}

fn query(constraints: Vec<Constraint>, outputs: &[(&str, u64)]) -> Query {
    Query { constraints, outputs: outputs.iter().map(|(n, x)| (n.to_string(), Var(*x))).collect() }
}

/// `choose(X)` picks `a` or `b`; `item(X)` marks `X`; `mark(X)` is consumed.
fn marking() -> Prepared {
    let source = vec![
        simplify("pick", vec![c("choose", vec![v(0)])], or(eq(v(0), atom("a")), eq(atom("b"), v(0)))),
        simplify("step", vec![c("item", vec![v(0)])], post("mark", vec![v(0)])),
        simplify("mark", vec![c("mark", vec![v(0)])], Goal::True),
        simplify("after", vec![c("other", vec![v(0)])], Goal::True),
    ];
    Prepared::new(&source, 3).unwrap()
}

/// `choose(X)` picks `a`, `b` or `c`; `take(a)` is done; any other take is dropped.
fn taking() -> Prepared {
    let source = vec![
        simplify(
            "pick",
            vec![c("choose", vec![v(0)])],
            or(or(eq(v(0), atom("a")), eq(v(0), atom("b"))), eq(v(0), atom("c"))),
        ),
        simplify("only", vec![c("take", vec![atom("a")])], post("done", vec![])),
        simplify("done", vec![c("done", vec![])], Goal::True),
        simplify("rest", vec![c("take", vec![v(0)])], Goal::True),
    ];
    Prepared::new(&source, 4).unwrap()
}

fn solve_err(p: &Prepared, q: &Query, limits: Limits) -> Error {
    match p.solve(q, limits) {
        Ok(_) => panic!("solved"),
        Err(e) => e,
    }
}

#[test]
fn deterministic_rules_run_before_the_choice_is_split() {
    let p = marking();
    let q = query(vec![c("choose", vec![v(0)]), c("item", vec![v(0)])], &[("X", 0)]);
    let r = p.solve(&q, Limits::default()).unwrap();
    assert_eq!(solutions(&r), vec!["_0=b |  | 1".to_string(), "_0=a |  | 1".to_string()]);
    assert_eq!((r.steps, r.partitions), (5, 2));
}

#[test]
fn a_head_atom_splits_off_the_other_atoms() {
    let p = taking();
    let q = query(vec![c("choose", vec![v(0)]), c("take", vec![v(0)])], &[("X", 0)]);
    let r = p.solve(&q, Limits::default()).unwrap();
    assert_eq!(
        solutions(&r),
        vec!["_0=a |  | 1".to_string(), "_0=c |  | 1".to_string(), "_0=b |  | 1".to_string()]
    );
    assert_eq!((r.steps, r.partitions), (7, 3));
}

#[test]
fn a_live_constraint_no_rule_matches_suspends() {
    let source = vec![
        simplify(
            "pick",
            vec![c("choose", vec![v(0)])],
            or(or(eq(v(0), atom("a")), eq(v(0), atom("b"))), eq(v(0), atom("c"))),
        ),
        simplify("only", vec![c("take", vec![atom("a")])], post("done", vec![])),
        simplify("done", vec![c("done", vec![])], Goal::True),
    ];
    let p = Prepared::new(&source, 3).unwrap();
    let q = query(vec![c("choose", vec![v(0)]), c("take", vec![v(0)])], &[]);
    assert_eq!(solve_err(&p, &q, Limits::default()), Error::Suspended);
}

#[test]
fn body_equations_choose_atoms() {
    let source = vec![
        simplify("pick", vec![c("choose", vec![v(0)])], or(eq(v(0), atom("a")), eq(v(0), atom("b")))),
        simplify("step", vec![c("item", vec![v(0)])], Goal::And(vec![eq(v(0), atom("b"))])),
    ];
    let p = Prepared::new(&source, 2).unwrap();
    let q = query(vec![c("choose", vec![v(0)]), c("item", vec![v(0)])], &[("X", 0)]);
    let r = p.solve(&q, Limits::default()).unwrap();
    assert_eq!(solutions(&r), vec!["_0=b |  | 1".to_string()]);
    assert_eq!((r.steps, r.partitions), (2, 0));
    let q = query(vec![c("choose", vec![v(0)]), c("item", vec![atom("c")])], &[]);
    let r = p.solve(&q, Limits::default()).unwrap();
    assert!(r.solutions.is_empty());
    assert_eq!((r.steps, r.partitions), (1, 0));
}

#[test]
fn caller_constraints_see_the_choices_and_weights_multiply() {
    let source = vec![
        simplify("pick", vec![c("choose", vec![v(0)])], or(eq(v(0), atom("a")), eq(v(0), atom("a")))),
        simplify("mark", vec![c("mark", vec![v(0)])], Goal::True),
    ];
    let p = Prepared::new(&source, 2).unwrap();
    let q = query(vec![c("choose", vec![v(0)]), c("other", vec![app("f", vec![v(0)]), v(1)])], &[("X", 0), ("Y", 1)]);
    let r = p.solve(&q, Limits::default()).unwrap();
    assert_eq!(solutions(&r), vec!["_0=a _1=_1 | other(f(a),_1) | 2".to_string()]);
}

#[test]
fn atom_inputs_weigh_or_empty_the_work() {
    let p = marking();
    let q = query(vec![c("choose", vec![atom("a")])], &[]);
    let r = p.solve(&q, Limits::default()).unwrap();
    assert_eq!(solutions(&r), vec![" |  | 1".to_string()]);
    let q = query(vec![c("choose", vec![atom("z")])], &[]);
    let r = p.solve(&q, Limits::default()).unwrap();
    assert!(r.solutions.is_empty());
    assert_eq!(r.steps, 0);
    let q = query(vec![c("choose", vec![app("f", vec![v(0)])])], &[]);
    assert_eq!(solve_err(&p, &q, Limits::default()), Error::Source(CHOICE_INPUT));
}

#[test]
fn phase_work_stops_at_its_limits() {
    let p = marking();
    let q = query(vec![c("choose", vec![v(0)]), c("item", vec![v(0)])], &[("X", 0)]);
    let limits = Limits::default();
    assert_eq!(solve_err(&p, &q, Limits { steps: 2, ..limits }), Error::Limit("steps"));
    assert_eq!(solve_err(&p, &q, Limits { partitions: 1, ..limits }), Error::Limit("partitions"));
    assert_eq!(solve_err(&p, &q, Limits { solutions: 1, ..limits }), Error::Limit("solutions"));
    assert_eq!(solve_err(&p, &q, Limits { term_nodes: 1, ..limits }), Error::Limit("term nodes"));
}

#[test]
fn a_machine_advances_step_by_step_and_is_then_exhausted() {
    let p = marking();
    let q = query(vec![c("choose", vec![v(0)]), c("item", vec![v(0)])], &[("X", 0)]);
    let mut m = p.start(&q, Limits::default()).unwrap();
    assert_eq!(m.retained(), (1, 0));
    for _ in 0..3 {
        assert!(matches!(m.advance(), Ok(Event::Progress)));
    }
    assert_eq!(m.retained(), (2, 0));
    assert!(matches!(m.advance(), Ok(Event::Progress)));
    assert_eq!(m.retained(), (1, 1));
    assert!(matches!(m.advance(), Ok(Event::Progress)));
    match m.advance() {
        Ok(Event::Complete(r)) => assert_eq!(r.solutions.len(), 2),
        _ => panic!("not complete"),
    }
    assert_eq!(m.retained(), (0, 0));
    assert!(matches!(m.advance(), Ok(Event::Exhausted)));
    assert!(matches!(m.finish(), Err(Error::AlreadyFinished)));
}


#[test]
fn a_second_producer_narrows_the_choice() {
    let source = vec![
        simplify("pick", vec![c("choose", vec![v(0)])], or(eq(v(0), atom("a")), eq(v(0), atom("b")))),
        simplify("only", vec![c("item", vec![v(0)])], eq(v(0), atom("b"))),
    ];
    let p = Prepared::new(&source, 2).unwrap();
    let q = query(vec![c("choose", vec![v(0)]), c("item", vec![v(0)])], &[("X", 0)]);
    let r = p.solve(&q, Limits::default()).unwrap();
    assert_eq!(solutions(&r), vec!["_0=b |  | 1".to_string()]);
    assert_eq!((r.steps, r.partitions), (2, 1));
    let q = query(vec![c("choose", vec![v(0)]), c("item", vec![atom("c")])], &[]);
    let r = p.solve(&q, Limits::default()).unwrap();
    assert!(r.solutions.is_empty());
    assert_eq!((r.steps, r.partitions), (0, 0));
}
