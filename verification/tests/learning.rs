use lib::finite::Limits;
use lib::phase::Prepared;
use lib::phase_learning::{Learner, Pruning, Stats};
use lib::syntax::{Constraint, Goal, Query, Rule, Term, Var};

fn v(n: u64) -> Term {
    Term::Var(Var(n))
}

fn atom(name: &str) -> Term {
    Term::App(name.to_string(), vec![])
}

fn c(name: &str, args: Vec<Term>) -> Constraint {
    Constraint { name: name.to_string(), args }
}

fn eq(a: Term, b: Term) -> Goal {
    Goal::Unify(a, b)
}

fn or(a: Goal, b: Goal) -> Goal {
    Goal::Or(Box::new(a), Box::new(b))
}

fn simplify(name: &str, removed: Vec<Constraint>, body: Goal) -> Rule {
    Rule { name: name.to_string(), kept: vec![], removed, guards: vec![], body }
}

/// `choose(X)` picks `a`, `b` or `c`; `only(X)` picks `a` or `b`; every `test(X)` fails.
fn failing() -> Prepared {
    let source = vec![
        simplify("pick", vec![c("choose", vec![v(0)])], or(or(eq(v(0), atom("a")), eq(v(0), atom("b"))), eq(v(0), atom("c")))),
        simplify("only", vec![c("only", vec![v(0)])], or(eq(v(0), atom("a")), eq(v(0), atom("b")))),
        simplify("no", vec![c("test", vec![v(0)])], Goal::And(vec![Goal::Fail])),
    ];
    Prepared::new(&source, 3).unwrap()
}

fn wide() -> Query {
    Query { constraints: vec![c("choose", vec![v(0)]), c("test", vec![v(0)])], outputs: vec![("X".to_string(), Var(0))] }
}

fn narrow() -> Query {
    Query {
        constraints: vec![c("choose", vec![v(0)]), c("only", vec![v(0)]), c("test", vec![v(0)])],
        outputs: vec![("X".to_string(), Var(0))],
    }
}

#[test]
fn a_failed_query_is_learned_and_then_excluded_whole() {
    let p = failing();
    let mut l: Learner<'_, true> = Learner::new(&p, 4, Pruning::Eager);
    let r = l.solve(&wide(), Limits::default()).unwrap();
    assert!(r.solutions.is_empty());
    assert_eq!((r.steps, r.partitions), (1, 0));
    assert_eq!(l.retained(), 1);
    let r = l.solve(&wide(), Limits::default()).unwrap();
    assert!(r.solutions.is_empty());
    assert_eq!((r.steps, r.partitions), (0, 0));
    assert_eq!(l.retained(), 1);
    assert_eq!(l.stats(), Stats { probes: 1, excluded_regions: 1, learned_regions: 1 });
}

#[test]
fn eager_pruning_leaves_the_boxes_outside_a_known_region() {
    let p = failing();
    let mut l: Learner<'_, true> = Learner::new(&p, 4, Pruning::Eager);
    assert!(l.solve(&narrow(), Limits::default()).unwrap().solutions.is_empty());
    let r = l.solve(&wide(), Limits::default()).unwrap();
    assert!(r.solutions.is_empty());
    assert_eq!((r.steps, r.partitions), (1, 1));
    assert_eq!(l.retained(), 2);
    assert_eq!(l.stats(), Stats { probes: 2, excluded_regions: 1, learned_regions: 2 });
}

#[test]
fn pruning_when_covered_drops_a_contained_state() {
    let p = failing();
    let mut l: Learner<'_, true> = Learner::new(&p, 4, Pruning::WhenCovered);
    assert!(l.solve(&wide(), Limits::default()).unwrap().solutions.is_empty());
    let r = l.solve(&narrow(), Limits::default()).unwrap();
    assert!(r.solutions.is_empty());
    assert_eq!(r.steps, 0);
    assert_eq!(l.retained(), 2);
    assert_eq!(l.stats(), Stats { probes: 1, excluded_regions: 1, learned_regions: 2 });
}

#[test]
fn a_state_outside_the_known_region_is_served_when_covered() {
    let p = failing();
    let mut l: Learner<'_, true> = Learner::new(&p, 4, Pruning::WhenCovered);
    assert!(l.solve(&narrow(), Limits::default()).unwrap().solutions.is_empty());
    let r = l.solve(&wide(), Limits::default()).unwrap();
    assert_eq!(r.steps, 1);
    assert_eq!(l.stats(), Stats { probes: 1, excluded_regions: 0, learned_regions: 2 });
}

#[test]
fn the_oldest_region_leaves_at_capacity_and_none_is_kept_without_it() {
    let p = failing();
    let mut l: Learner<'_, false> = Learner::new(&p, 1, Pruning::Eager);
    l.solve(&narrow(), Limits::default()).unwrap();
    l.solve(&wide(), Limits::default()).unwrap();
    assert_eq!(l.retained(), 1);
    assert_eq!(l.stats(), Stats::default());
    let r = l.solve(&narrow(), Limits::default()).unwrap();
    assert_eq!(r.steps, 0);
    let mut none: Learner<'_, false> = Learner::new(&p, 0, Pruning::Eager);
    none.solve(&wide(), Limits::default()).unwrap();
    assert_eq!(none.retained(), 0);
}

#[test]
fn a_solved_query_teaches_nothing() {
    let source = vec![
        simplify("pick", vec![c("choose", vec![v(0)])], or(eq(v(0), atom("a")), eq(v(0), atom("b")))),
        simplify("ok", vec![c("test", vec![v(0)])], Goal::And(vec![Goal::True])),
    ];
    let p = Prepared::new(&source, 2).unwrap();
    let mut l: Learner<'_, true> = Learner::new(&p, 4, Pruning::Eager);
    let r = l.solve(&wide(), Limits::default()).unwrap();
    assert_eq!(r.solutions.len(), 2);
    assert_eq!(l.retained(), 0);
}

#[test]
fn a_session_advances_and_completes_with_its_learner() {
    let p = failing();
    let mut l: Learner<'_, true> = Learner::new(&p, 4, Pruning::WhenCovered);
    let mut s = l.start(&wide(), Limits::default()).unwrap();
    assert!(matches!(s.advance(&mut l), Ok(lib::phase_solve::Event::Progress)));
    assert!(matches!(s.advance(&mut l), Ok(lib::phase_solve::Event::Complete(_))));
    assert_eq!(l.retained(), 1);
    assert!(matches!(s.advance(&mut l), Ok(lib::phase_solve::Event::Exhausted)));
}
