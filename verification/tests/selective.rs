use lib::selective::{source_rules, Engine, Mode, Prepared};
use lib::syntax::{Constraint, Query, Term, Var};

fn t(name: &str, args: Vec<Term>) -> Term {
    Term::App(name.to_string(), args)
}

fn v(x: u64) -> Term {
    Term::Var(Var(x))
}

fn c(name: &str, args: Vec<Term>) -> Constraint {
    Constraint { name: name.to_string(), args }
}

fn cons(head: Term, tail: Term) -> Term {
    t("cons", vec![head, tail])
}

fn nil() -> Term {
    t("nil", vec![])
}

fn query(constraints: Vec<Constraint>, outputs: &[(&str, u64)]) -> Query {
    Query { constraints, outputs: outputs.iter().map(|(n, x)| (n.to_string(), Var(*x))).collect() }
}

fn error(q: Query) -> String {
    match Engine::new(q, Mode::Direct, false) {
        Ok(_) => panic!("query admitted"),
        Err(e) => e,
    }
}

fn script() -> Term {
    cons(
        t("bind", vec![v(5), t("k", vec![])]),
        cons(
            t("req", vec![v(5), t("r", vec![])]),
            cons(t("insert", vec![v(5), t("g", vec![t("a", vec![])])]), nil()),
        ),
    )
}

#[test]
fn admits_rows_and_a_closed_spine() {
    let q = query(
        vec![
            c("left", vec![v(5), t("f", vec![t("a", vec![])])]),
            c("right", vec![v(5), t("g", vec![t("a", vec![])])]),
            c("drive", vec![script()]),
        ],
        &[("K", 5)],
    );
    assert!(Engine::new(q, Mode::Retained, true).is_ok());
}

#[test]
fn refuses_duplicate_output_names_first() {
    let q = query(vec![c("other", vec![])], &[("X", 1), ("Y", 2), ("X", 3)]);
    assert_eq!(error(q), "duplicate output name");
}

#[test]
fn refuses_other_rows_and_second_driver() {
    let q = query(vec![c("left", vec![v(1)]), c("drive", vec![nil()])], &[]);
    assert_eq!(error(q), "unsupported query row or multiple drivers");
    let q = query(vec![c("drive", vec![nil()]), c("drive", vec![nil()])], &[]);
    assert_eq!(error(q), "unsupported query row or multiple drivers");
}

#[test]
fn requires_a_driver() {
    let q = query(vec![c("left", vec![v(1), v(2)])], &[]);
    assert_eq!(error(q), "one driver required");
}

#[test]
fn requires_a_closed_spine() {
    let q = query(vec![c("drive", vec![cons(t("req", vec![v(1), v(2)]), v(3))])], &[]);
    assert_eq!(error(q), "closed instruction spine required");
    let q = query(vec![c("drive", vec![t("list", vec![])])], &[]);
    assert_eq!(error(q), "closed instruction spine required");
}

#[test]
fn requires_instruction_constructors() {
    let q = query(vec![c("drive", vec![cons(v(1), nil())])], &[]);
    assert_eq!(error(q), "instruction constructor required");
    let q = query(vec![c("drive", vec![cons(t("wait", vec![v(1)]), nil())])], &[]);
    assert_eq!(
        error(q),
        "unsupported instruction: bindings must be distinct variable-to-ground equations"
    );
}

#[test]
fn bindings_are_distinct_and_ground() {
    let twice = cons(
        t("bind", vec![v(1), t("a", vec![])]),
        cons(t("bind", vec![v(1), t("b", vec![])]), nil()),
    );
    let q = query(vec![c("drive", vec![twice])], &[]);
    assert_eq!(
        error(q),
        "unsupported instruction: bindings must be distinct variable-to-ground equations"
    );
    let open = cons(t("bind", vec![v(1), t("h", vec![v(2)])]), nil());
    let q = query(vec![c("drive", vec![open])], &[]);
    assert_eq!(
        error(q),
        "unsupported instruction: bindings must be distinct variable-to-ground equations"
    );
    let q = query(vec![c("drive", vec![nil()])], &[]);
    assert!(Engine::new(q, Mode::Direct, false).is_ok());
}

fn show_term(t: &Term) -> String {
    match t {
        Term::Var(x) => format!("_{}", x.0),
        Term::App(n, xs) if xs.is_empty() => n.clone(),
        Term::App(n, xs) => format!("{}({})", n, xs.iter().map(show_term).collect::<Vec<_>>().join(",")),
    }
}

fn show(c: &Constraint) -> String {
    if c.args.is_empty() {
        c.name.clone()
    } else {
        format!("{}({})", c.name, c.args.iter().map(show_term).collect::<Vec<_>>().join(","))
    }
}

fn k() -> Term {
    t("k", vec![])
}

fn f(x: &str) -> Term {
    t("f", vec![t(x, vec![])])
}

fn g(x: &str) -> Term {
    t("g", vec![t(x, vec![])])
}

fn residual(e: &Engine) -> Vec<String> {
    e.observe().unwrap().residual.iter().map(show).collect()
}

fn join_query(drive: Term) -> Query {
    query(
        vec![
            c("left", vec![k(), f("a")]),
            c("left", vec![k(), f("b")]),
            c("right", vec![k(), g("a")]),
            c("right", vec![k(), g("a")]),
            c("right", vec![k(), g("b")]),
            c("drive", vec![drive]),
        ],
        &[],
    )
}

#[test]
fn a_request_serves_every_pair_in_order_in_both_modes() {
    for mode in [Mode::Direct, Mode::Retained] {
        let mut e = Engine::new(join_query(cons(t("req", vec![k(), t("r", vec![])]), nil())), mode, false).unwrap();
        assert!(e.advance(100));
        assert_eq!(
            residual(&e),
            vec![
                "left(k,f(a))",
                "left(k,f(b))",
                "right(k,g(a))",
                "right(k,g(a))",
                "right(k,g(b))",
                "receipt(r,f(a),g(a))",
                "receipt(r,f(a),g(a))",
                "receipt(r,f(b),g(b))",
                "done",
            ]
        );
    }
}

#[test]
fn one_receipt_per_step_and_pending_work_is_refused() {
    let mut e = Engine::new(join_query(cons(t("req", vec![k(), t("r", vec![])]), nil())), Mode::Direct, false).unwrap();
    assert!(!e.advance(2));
    assert_eq!(e.observe().unwrap_err(), "query has pending source work");
    assert!(!e.advance(3));
    assert!(e.advance(1));
    assert!(e.advance(5));
}

#[test]
fn consuming_requests_retire_the_right_rows() {
    let mut e = Engine::new(join_query(cons(t("req", vec![k(), t("r", vec![])]), nil())), Mode::Retained, true).unwrap();
    assert!(e.advance(100));
    assert_eq!(
        residual(&e),
        vec![
            "left(k,f(a))",
            "left(k,f(b))",
            "receipt(r,f(a),g(a))",
            "receipt(r,f(a),g(a))",
            "receipt(r,f(b),g(b))",
            "done",
        ]
    );
}

#[test]
fn bindings_resolve_keys_outputs_and_residual() {
    let drive = cons(t("bind", vec![v(7), k()]), cons(t("req", vec![k(), t("r", vec![])]), nil()));
    let q = query(vec![c("left", vec![v(7), f("a")]), c("right", vec![k(), g("a")]), c("drive", vec![drive])], &[("X", 7)]);
    let mut e = Engine::new(q, Mode::Direct, false).unwrap();
    assert!(e.advance(100));
    let a = e.observe().unwrap();
    assert_eq!(a.outputs.len(), 1);
    assert_eq!(a.outputs[0].0, "X");
    assert_eq!(show_term(&a.outputs[0].1), "k");
    assert_eq!(
        a.residual.iter().map(show).collect::<Vec<_>>(),
        vec!["left(k,f(a))", "right(k,g(a))", "receipt(r,f(a),g(a))", "done"]
    );
}

#[test]
fn an_unbound_key_finds_no_pair() {
    let drive = cons(t("req", vec![k(), t("r", vec![])]), nil());
    let q = query(vec![c("left", vec![v(7), f("a")]), c("right", vec![k(), g("a")]), c("drive", vec![drive])], &[("X", 7)]);
    let mut e = Engine::new(q, Mode::Retained, false).unwrap();
    assert!(e.advance(100));
    let a = e.observe().unwrap();
    assert_eq!(show_term(&a.outputs[0].1), "_7");
    assert_eq!(a.residual.iter().map(show).collect::<Vec<_>>(), vec!["left(_7,f(a))", "right(k,g(a))", "done"]);
}

#[test]
fn replace_and_insert_change_the_right_rows() {
    let drive = cons(
        t("replace", vec![k(), g("a"), g("b")]),
        cons(t("insert", vec![k(), g("c")]), cons(t("req", vec![k(), t("r", vec![])]), nil())),
    );
    let q = query(
        vec![c("left", vec![k(), f("b")]), c("right", vec![k(), g("a")]), c("right", vec![k(), g("a")]), c("drive", vec![drive])],
        &[],
    );
    let mut e = Engine::new(q, Mode::Direct, false).unwrap();
    assert!(e.advance(100));
    assert_eq!(
        residual(&e),
        vec!["left(k,f(b))", "right(k,g(a))", "right(k,g(b))", "right(k,g(c))", "receipt(r,f(b),g(b))", "done"]
    );
}

#[test]
fn a_replacement_without_its_row_stops_the_driver() {
    let rest = cons(t("replace", vec![k(), g("z"), g("b")]), cons(t("insert", vec![k(), g("c")]), nil()));
    let q = query(vec![c("right", vec![k(), g("a")]), c("drive", vec![rest])], &[]);
    let mut e = Engine::new(q, Mode::Direct, false).unwrap();
    assert!(e.advance(100));
    assert_eq!(
        residual(&e),
        vec!["right(k,g(a))", "drive(cons(replace(k,g(z),g(b)),cons(insert(k,g(c)),nil)))"]
    );
}

#[test]
fn prepared_sources_choose_plain_or_consuming_joins() {
    let plain = Prepared::new(&source_rules(false)).unwrap();
    let mut e = plain.start(join_query(cons(t("req", vec![k(), t("r", vec![])]), nil())), Mode::Direct).unwrap();
    assert!(e.advance(100));
    assert_eq!(residual(&e).len(), 9);
    let consuming = Prepared::new(&source_rules(true)).unwrap();
    let mut e = consuming.start(join_query(cons(t("req", vec![k(), t("r", vec![])]), nil())), Mode::Direct).unwrap();
    assert!(e.advance(100));
    assert_eq!(residual(&e).len(), 6);
}

#[test]
fn other_sources_are_refused() {
    let message = "unsupported selective/consuming source";
    assert_eq!(Prepared::new(&[]).err().unwrap(), message);
    let mut rules = source_rules(false);
    rules.pop();
    assert_eq!(Prepared::new(&rules).err().unwrap(), message);
    let mut rules = source_rules(true);
    rules[3].name = "swap".to_string();
    assert_eq!(Prepared::new(&rules).err().unwrap(), message);
}

#[test]
fn source_programs_differ_only_in_the_join_rule() {
    let plain = source_rules(false);
    let consuming = source_rules(true);
    let names: Vec<&str> = plain.iter().map(|r| r.name.as_str()).collect();
    assert_eq!(names, vec!["join", "ack", "issue", "replace", "bind", "insert", "done"]);
    assert_eq!(plain[0].kept.len(), 3);
    assert!(plain[0].removed.is_empty());
    assert_eq!(consuming[0].kept.iter().map(show).collect::<Vec<_>>(), vec!["left(_0,f(_1))", "request(_0,_3)"]);
    assert_eq!(consuming[0].removed.iter().map(show).collect::<Vec<_>>(), vec!["right(_0,g(_1))"]);
}

#[test]
fn retained_pairs_are_counted_only_in_the_retained_mode() {
    let drive = || cons(t("req", vec![k(), t("r", vec![])]), nil());
    let e = Engine::new(join_query(drive()), Mode::Retained, false).unwrap();
    assert_eq!(e.retained_pairs(), 3);
    let e = Engine::new(join_query(drive()), Mode::Direct, false).unwrap();
    assert_eq!(e.retained_pairs(), 0);
    let mut e = Engine::new(join_query(drive()), Mode::Retained, true).unwrap();
    assert!(e.advance(100));
    assert_eq!(e.retained_pairs(), 0);
    let mut e = Engine::new(join_query(drive()), Mode::Retained, false).unwrap();
    assert!(e.advance(100));
    assert_eq!(e.retained_pairs(), 3);
}
