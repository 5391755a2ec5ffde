use lib::join::{Join, Mode};
use lib::syntax::{Term, Var};

fn atom(name: &str) -> Term {
    Term::App(name.to_string(), vec![])
}

fn pair(a: &str, b: &str) -> (Term, Term) {
    (atom(a), atom(b))
}

const MODES: [Mode; 3] = [Mode::Indexed, Mode::Eager, Mode::Subscribed];

/// k -1-> a -2-> b -3-> z, and b -4-> y, and k -5-> a' -6-> b -3-> ...
fn fill(j: &mut Join) {
    j.insert(0, 1, pair("k", "a"));
    j.insert(1, 2, pair("a", "b"));
    j.insert(2, 3, pair("b", "z"));
    j.insert(2, 4, pair("b", "y"));
    j.insert(0, 5, pair("k", "c"));
    j.insert(1, 6, pair("c", "b"));
}

#[test]
fn every_mode_answers_the_join_of_the_demanded_key() {
    for mode in MODES {
        let mut j = Join::new(mode);
        j.open(10, pair("k", "z"));
        fill(&mut j);
        j.open(11, pair("k", "y"));
        assert_eq!(j.request(10), vec![[1, 2, 3], [5, 6, 3]], "{mode:?}");
        assert_eq!(j.request(11), vec![[1, 2, 4], [5, 6, 4]], "{mode:?}");
    }
}

#[test]
fn removed_rows_leave_the_answers() {
    for mode in MODES {
        let mut j = Join::new(mode);
        fill(&mut j);
        j.open(10, pair("k", "z"));
        j.remove(1, 2);
        assert_eq!(j.request(10), vec![[5, 6, 3]], "{mode:?}");
        j.remove(2, 3);
        assert!(j.request(10).is_empty(), "{mode:?}");
        j.insert(2, 3, pair("b", "z"));
        assert_eq!(j.request(10), vec![[5, 6, 3]], "{mode:?}");
    }
}

#[test]
fn keys_must_match_both_ends() {
    for mode in MODES {
        let mut j = Join::new(mode);
        fill(&mut j);
        j.open(1, pair("a", "z"));
        j.open(2, pair("k", "q"));
        assert!(j.request(1).is_empty());
        assert!(j.request(2).is_empty());
    }
}

#[test]
fn retained_triples_follow_the_mode() {
    let mut indexed = Join::new(Mode::Indexed);
    let mut eager = Join::new(Mode::Eager);
    let mut subscribed = Join::new(Mode::Subscribed);
    for j in [&mut indexed, &mut eager, &mut subscribed] {
        fill(j);
    }
    assert_eq!(indexed.retained(), 0);
    assert_eq!(eager.retained(), 4);
    assert_eq!(subscribed.retained(), 0);
    subscribed.open(7, pair("k", "z"));
    assert_eq!(subscribed.retained(), 2);
    subscribed.open(8, pair("k", "z"));
    subscribed.close(7);
    assert_eq!(subscribed.retained(), 2);
    subscribed.close(8);
    assert_eq!(subscribed.retained(), 0);
    eager.open(7, pair("k", "z"));
    eager.close(7);
    assert_eq!(eager.retained(), 4);
}

#[test]
fn variables_are_terms_like_any_other() {
    for mode in MODES {
        let mut j = Join::new(mode);
        j.insert(0, 0, (Term::Var(Var(1)), atom("a")));
        j.insert(1, 0, (atom("a"), Term::Var(Var(2))));
        j.insert(2, 0, (Term::Var(Var(2)), atom("end")));
        j.open(0, (Term::Var(Var(1)), atom("end")));
        assert_eq!(j.request(0), vec![[0, 0, 0]]);
    }
}
