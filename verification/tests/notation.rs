use lib::names::{dispatch_width, validate_prefix, INVALID_PREFIX};
use lib::notation::{constraint, constraints, goal, outputs, parse_u64, show, split_plain, split_top, term};
use lib::syntax::{Constraint, Goal, Term, Var};

fn v(n: u64) -> Term {
    Term::Var(Var(n))
}

fn atom(name: &str) -> Term {
    Term::App(name.to_string(), vec![])
}

fn c(name: &str, args: Vec<Term>) -> Constraint {
    Constraint { name: name.to_string(), args }
}

fn dbg<T: std::fmt::Debug>(x: &T) -> String {
    format!("{:?}", x)
}

#[test]
fn numbers_take_an_optional_plus_and_must_fit() {
    assert_eq!(parse_u64("12"), Some(12));
    assert_eq!(parse_u64("+12"), Some(12));
    assert_eq!(parse_u64("007"), Some(7));
    assert_eq!(parse_u64("18446744073709551615"), Some(u64::MAX));
    assert_eq!(parse_u64("18446744073709551616"), None);
    assert_eq!(parse_u64(""), None);
    assert_eq!(parse_u64("+"), None);
    assert_eq!(parse_u64("-1"), None);
    assert_eq!(parse_u64("1a"), None);
}

#[test]
fn terms_are_variables_or_atoms() {
    assert_eq!(dbg(&term("v12")), dbg(&v(12)));
    assert_eq!(dbg(&term("abc")), dbg(&atom("abc")));
    assert_eq!(dbg(&term("")), dbg(&atom("")));
}

#[test]
fn a_constraint_is_a_name_and_its_arguments() {
    assert_eq!(dbg(&constraint("edge:a:v3")), dbg(&c("edge", vec![atom("a"), v(3)])));
    assert_eq!(dbg(&constraint("seed")), dbg(&c("seed", vec![])));
}

#[test]
fn constraint_lists_are_comma_separated_or_a_dash() {
    assert!(constraints("-").is_empty());
    assert_eq!(dbg(&constraints("p:a,q")), dbg(&vec![c("p", vec![atom("a")]), c("q", vec![])]));
}

#[test]
fn outputs_are_named_in_order() {
    assert!(outputs("-").is_empty());
    let out = outputs("3,0,11");
    assert_eq!(out.len(), 3);
    assert_eq!(out[0], ("o0".to_string(), Var(3)));
    assert_eq!(out[1], ("o1".to_string(), Var(0)));
    assert_eq!(out[2], ("o2".to_string(), Var(11)));
}

#[test]
fn top_level_splitting_ignores_separators_in_parentheses() {
    assert_eq!(split_top("a(b,c),d", ','), vec!["a(b,c)", "d"]);
    assert_eq!(split_top("(a|b),c", ','), vec!["(a|b)", "c"]);
    assert_eq!(split_top("a,", ','), vec!["a", ""]);
    assert_eq!(split_top("", ','), vec![""]);
    assert_eq!(split_plain("a(b,c),d", ','), vec!["a(b", "c)", "d"]);
}

#[test]
fn split_parts_join_back_to_the_text() {
    for s in ["a(b,c),d", "", ",,", "x,(y,z),w"] {
        assert_eq!(split_top(s, ',').join(","), s);
        assert_eq!(split_plain(s, ',').join(","), s);
    }
}

#[test]
fn goals_read_every_form() {
    assert_eq!(dbg(&goal("-")), dbg(&Goal::And(vec![])));
    assert_eq!(dbg(&goal("!")), dbg(&Goal::Fail));
    assert_eq!(
        dbg(&goal("p:a,q:v1")),
        dbg(&Goal::And(vec![Goal::Constraint(c("p", vec![atom("a")])), Goal::Constraint(c("q", vec![v(1)]))]))
    );
    assert_eq!(
        dbg(&goal("(p|=:v0:a)")),
        dbg(&Goal::Or(Box::new(Goal::Constraint(c("p", vec![]))), Box::new(Goal::Unify(v(0), atom("a")))))
    );
    assert_eq!(
        dbg(&goal("(a|b),c")),
        dbg(&Goal::And(vec![
            Goal::Or(Box::new(Goal::Constraint(c("a", vec![]))), Box::new(Goal::Constraint(c("b", vec![])))),
            Goal::Constraint(c("c", vec![])),
        ]))
    );
    assert_eq!(dbg(&goal("=:v0:v1")), dbg(&Goal::Unify(v(0), v(1))));
    assert_eq!(dbg(&goal("done:v2")), dbg(&Goal::Constraint(c("done", vec![v(2)]))));
}

#[test]
fn shown_terms_read_back() {
    assert_eq!(show(&v(7)), "v7");
    assert_eq!(show(&v(1234567890)), "v1234567890");
    assert_eq!(show(&atom("item")), "item");
    for t in [v(0), v(42), v(u64::MAX), atom("a"), atom("nil")] {
        assert_eq!(dbg(&term(&show(&t))), dbg(&t));
    }
}

#[test]
fn dispatch_families_name_their_width() {
    assert_eq!(dispatch_width("dispatch4"), Some(4));
    assert_eq!(dispatch_width("dispatch256"), Some(256));
    assert_eq!(dispatch_width("dispatch+8"), Some(8));
    assert_eq!(dispatch_width("dispatch0"), None);
    assert_eq!(dispatch_width("dispatch257"), None);
    assert_eq!(dispatch_width("dispatch"), None);
    assert_eq!(dispatch_width("dispatchx"), None);
    assert_eq!(dispatch_width("other4"), None);
    assert_eq!(dispatch_width("dispatch99999999999999999999999"), None);
}

#[test]
fn prefixes_must_be_rust_identifiers_without_leading_digit() {
    assert_eq!(validate_prefix("abc_1"), Ok(()));
    assert_eq!(validate_prefix("_x"), Ok(()));
    assert_eq!(validate_prefix("1abc"), Err(INVALID_PREFIX.to_string()));
    assert_eq!(validate_prefix(""), Err(INVALID_PREFIX.to_string()));
    assert_eq!(validate_prefix("a-b"), Err(INVALID_PREFIX.to_string()));
    assert_eq!(validate_prefix("é"), Err(INVALID_PREFIX.to_string()));
    assert_eq!(INVALID_PREFIX, "invalid Rust prefix");
}
