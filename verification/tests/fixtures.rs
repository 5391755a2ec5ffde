use lib::fixtures::{case, programs, unary, ANALYTIC_PROGRAMS};
use lib::notation::show;
use lib::syntax::{Constraint, Term};

fn text(t: &Term) -> String {
    match t {
        Term::Var(v) => format!("_{}", v.0),
        Term::App(n, xs) if xs.is_empty() => n.clone(),
        Term::App(n, xs) => format!("{n}({})", xs.iter().map(text).collect::<Vec<_>>().join(",")),
    }
}

fn con(c: &Constraint) -> String {
    format!("{}({})", c.name, c.args.iter().map(text).collect::<Vec<_>>().join(","))
}

#[test]
fn fifteen_programs_in_order() {
    let p = programs();
    assert_eq!(p.len(), 15);
    let names: Vec<String> = p.iter().map(|r| r[0].name.clone()).collect();
    assert_eq!(
        names,
        vec!["zero", "reach", "reach", "guard", "ordered", "three", "fail", "fresh", "pairs", "alias", "known", "known", "join", "keyed", "anchored"]
    );
    assert_eq!(p[2].len(), 3);
    assert_eq!(p[2][1].guards.len(), 1);
    assert_eq!(p[1][1].guards.len(), 0);
    assert_eq!(show(&unary(0)), "z");
}

#[test]
fn the_build_case_expects_a_list_of_n_items() {
    let c = case(0, 2);
    assert_eq!(c.query.constraints.iter().map(con).collect::<Vec<_>>(), vec!["build(s(s(z)),_0)"]);
    let a = c.expected.unwrap();
    assert_eq!(a.outputs.len(), 1);
    assert_eq!(a.outputs[0].0, "out");
    assert_eq!(text(&a.outputs[0].1), "cons(item,cons(item,nil))");
    assert!(!c.failed);
    assert_eq!(ANALYTIC_PROGRAMS, 12);
}

#[test]
fn the_delayed_reach_case_binds_its_edge_sources_last() {
    let c = case(2, 1);
    assert_eq!(
        c.query.constraints.iter().map(con).collect::<Vec<_>>(),
        vec!["reach(node(z))", "edge(node(_2),node(s(z)))", "job(node(z),_0)", "job(node(s(z)),_1)", "bind(_2,z)"]
    );
    let a = c.expected.unwrap();
    assert_eq!(
        a.residual.iter().map(con).collect::<Vec<_>>(),
        vec!["edge(node(z),node(s(z)))", "reach(node(z))", "done(node(z))", "reach(node(s(z)))", "done(node(s(z)))"]
    );
    assert_eq!(a.outputs.iter().map(|(n, t)| format!("{n}={}", text(t))).collect::<Vec<_>>(), vec!["o0=seen(node(z))", "o1=seen(node(s(z)))"]);
}

#[test]
fn the_cyclic_case_fails() {
    let c = case(6, 0);
    assert!(c.failed);
    assert!(c.expected.is_none());
    assert_eq!(c.query.outputs.len(), 1);
}
