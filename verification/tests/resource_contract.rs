use lib::resource_contract::{
    check_query, CheckedSource, Declaration, Predicate, ACCESS_OUTSIDE_REGION,
    ACCESS_REGION_INVALID, ENTRY_ABSENT, ENTRY_NOT_GROUND, GROUND_OUTSIDE_ARITY,
    RESOURCE_ABSENT,
};
use lib::syntax::{ground, Constraint, Goal, Query, Rule, Term, Var};

fn atom(name: &str) -> Term {
    Term::App(name.to_string(), vec![])
}

fn var(n: u64) -> Term {
    Term::Var(Var(n))
}

fn c(name: &str, args: Vec<Term>) -> Constraint {
    Constraint {
        name: name.to_string(),
        args,
    }
}

fn rule(name: &str, removed: Vec<Constraint>, body: Goal) -> Rule {
    Rule {
        name: name.to_string(),
        kept: vec![],
        removed,
        guards: vec![],
        body,
    }
}

fn pred(name: &str, arity: usize) -> Predicate {
    Predicate {
        name: name.to_string(),
        arity,
    }
}

/// `start(N) <=> token, run(N)`, `run(N), token <=> done(N)`.
fn rules() -> Vec<Rule> {
    vec![
        rule(
            "start",
            vec![c("start", vec![var(0)])],
            Goal::And(vec![
                Goal::Constraint(c("token", vec![])),
                Goal::Constraint(c("run", vec![var(0)])),
            ]),
        ),
        rule(
            "consume",
            vec![c("run", vec![var(0)]), c("token", vec![])],
            Goal::Constraint(c("done", vec![var(0)])),
        ),
    ]
}

fn declaration(access_rules: Vec<usize>) -> Declaration {
    Declaration {
        resource: pred("token", 0),
        access_rules,
        entry: pred("start", 1),
        ground_argument: 0,
    }
}

#[test]
fn declaration_over_its_access_region_is_admitted() {
    let rules = rules();
    let checked = CheckedSource::check(&rules, declaration(vec![0, 1])).unwrap();
    assert_eq!(checked.rules().len(), 2);
}

#[test]
fn each_source_error_has_its_input() {
    let rules = rules();
    let mut d = declaration(vec![0, 1]);
    d.ground_argument = 1;
    assert_eq!(
        CheckedSource::check(&rules, d).err(),
        Some(GROUND_OUTSIDE_ARITY)
    );
    assert_eq!(
        CheckedSource::check(&rules, declaration(vec![])).err(),
        Some(ACCESS_REGION_INVALID)
    );
    assert_eq!(
        CheckedSource::check(&rules, declaration(vec![0, 2])).err(),
        Some(ACCESS_REGION_INVALID)
    );
    // The second rule consumes the token but lies outside the region.
    assert_eq!(
        CheckedSource::check(&rules, declaration(vec![0])).err(),
        Some(ACCESS_OUTSIDE_REGION)
    );
    let mut absent = declaration(vec![0, 1]);
    absent.resource = pred("token", 1);
    assert_eq!(
        CheckedSource::check(&rules, absent).err(),
        Some(RESOURCE_ABSENT)
    );
    let mut no_entry = declaration(vec![0, 1]);
    no_entry.entry = pred("done", 1);
    assert_eq!(
        CheckedSource::check(&rules, no_entry).err(),
        Some(ENTRY_ABSENT)
    );
}

#[test]
fn posting_inside_a_disjunction_counts_as_access() {
    let rules = vec![
        rule(
            "maybe",
            vec![c("start", vec![var(0)])],
            Goal::Or(
                Box::new(Goal::True),
                Box::new(Goal::Constraint(c("token", vec![]))),
            ),
        ),
        rule("other", vec![c("idle", vec![])], Goal::True),
    ];
    assert!(CheckedSource::check(&rules, declaration(vec![0])).is_ok());
    assert_eq!(
        CheckedSource::check(&rules, declaration(vec![1])).err(),
        Some(ACCESS_OUTSIDE_REGION)
    );
}

#[test]
fn query_entries_must_be_ground_at_submission() {
    let rules = rules();
    let checked = CheckedSource::check(&rules, declaration(vec![0, 1])).unwrap();
    let ground_query = Query {
        constraints: vec![
            c("start", vec![Term::App("s".to_string(), vec![atom("z")])]),
            c("start", vec![atom("z")]),
            c("other", vec![var(3)]),
        ],
        outputs: vec![],
    };
    assert_eq!(checked.check_query(&ground_query), Ok(()));
    let open_query = Query {
        constraints: vec![
            c("start", vec![atom("z")]),
            c("start", vec![Term::App("s".to_string(), vec![var(1)])]),
        ],
        outputs: vec![("out".to_string(), Var(1))],
    };
    assert_eq!(checked.check_query(&open_query), Err(ENTRY_NOT_GROUND));
    assert_eq!(
        check_query(&declaration(vec![0, 1]), &open_query),
        Err(ENTRY_NOT_GROUND)
    );
    let empty = Query {
        constraints: vec![],
        outputs: vec![],
    };
    assert_eq!(checked.check_query(&empty), Ok(()));
}

#[test]
fn groundness_looks_through_every_argument() {
    assert!(ground(&atom("a")));
    assert!(!ground(&var(0)));
    assert!(ground(&Term::App(
        "f".to_string(),
        vec![atom("a"), Term::App("g".to_string(), vec![atom("b")])]
    )));
    assert!(!ground(&Term::App(
        "f".to_string(),
        vec![atom("a"), Term::App("g".to_string(), vec![var(2)])]
    )));
}
