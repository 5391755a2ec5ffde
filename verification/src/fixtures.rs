//! Source programs and analytic observations of small queries, independent of
//! any engine: the bundled programs, and for each of the first programs a
//! query of a given size with the answer it must have.
use crate::syntax::{
    Answer, AnswerV, Constraint, ConstraintV, Goal, GoalV, Guard, Query, Rule, RuleV, Term, TermV, Var, answer_v,
    constraint_v, constraints_v, goal_v, rule_v, rules_v, term_v, terms_v,
};
use crate::notation::{decimal_v, push_decimal};
use vstd::prelude::*;
use vstd::string::*;

verus! {

/// How many bundled programs have analytic cases.
pub const ANALYTIC_PROGRAMS: usize = 12;

/// An atom: a constructor without arguments.
pub open spec fn atom_v(n: Seq<char>) -> TermV {
    TermV::App(n, Seq::empty())
}

/// A constraint value.
pub open spec fn con_v(n: Seq<char>, xs: Seq<TermV>) -> ConstraintV {
    ConstraintV { name: n, args: xs }
}

/// A rule that removes its heads and has no guard.
pub open spec fn simplify_v(name: Seq<char>, removed: Seq<ConstraintV>, body: GoalV) -> RuleV {
    RuleV { name, kept: Seq::empty(), removed, guards: Seq::empty(), body }
}

/// A rule that keeps its heads and has no guard.
pub open spec fn propagate_v(name: Seq<char>, kept: Seq<ConstraintV>, body: GoalV) -> RuleV {
    RuleV { name, kept, removed: Seq::empty(), guards: Seq::empty(), body }
}

/// `bind(X, Y) <=> X = Y`.
pub open spec fn bind_rule_v() -> RuleV {
    simplify_v(
        "bind"@,
        seq![con_v("bind"@, seq![TermV::Var(0), TermV::Var(1)])],
        GoalV::Unify(TermV::Var(0), TermV::Var(1)),
    )
}

/// The rules of program `reach`, with the guard `X = X` on its job rule where `guarded`.
pub open spec fn reach_v(guarded: bool) -> Seq<RuleV> {
    seq![
        propagate_v(
            "reach"@,
            seq![con_v("reach"@, seq![TermV::Var(0)]), con_v("edge"@, seq![TermV::Var(0), TermV::Var(1)])],
            GoalV::Constraint(con_v("reach"@, seq![TermV::Var(1)])),
        ),
        RuleV {
            name: "job"@,
            kept: seq![con_v("reach"@, seq![TermV::Var(0)])],
            removed: seq![con_v("job"@, seq![TermV::Var(0), TermV::Var(1)])],
            guards: if guarded {
                seq![(TermV::Var(0), TermV::Var(0))]
            } else {
                Seq::empty()
            },
            body: GoalV::And(
                seq![
                    GoalV::Unify(TermV::Var(1), TermV::App("seen"@, seq![TermV::Var(0)])),
                    GoalV::Constraint(con_v("done"@, seq![TermV::Var(0)])),
                ],
            ),
        },
    ]
}

/// The bundled programs, in order: build, reach, delayed, wake, ordered,
/// middle, fail, fresh, arrival, self_wake, suspended, nested, conflict,
/// collisions and anchored.
pub open spec fn bundled_v() -> Seq<Seq<RuleV>> {
    let hit = GoalV::Constraint(con_v("hit"@, Seq::empty()));
    seq![
        seq![
            simplify_v(
                "zero"@,
                seq![con_v("build"@, seq![atom_v("z"@), TermV::Var(0)])],
                GoalV::Unify(TermV::Var(0), atom_v("nil"@)),
            ),
            simplify_v(
                "step"@,
                seq![con_v("build"@, seq![TermV::App("s"@, seq![TermV::Var(0)]), TermV::Var(1)])],
                GoalV::And(
                    seq![
                        GoalV::Unify(TermV::Var(1), TermV::App("cons"@, seq![atom_v("item"@), TermV::Var(2)])),
                        GoalV::Constraint(con_v("build"@, seq![TermV::Var(0), TermV::Var(2)])),
                    ],
                ),
            ),
        ],
        reach_v(false),
        reach_v(true).push(bind_rule_v()),
        seq![
            RuleV {
                name: "guard"@,
                kept: Seq::empty(),
                removed: seq![con_v("p"@, seq![TermV::Var(0), TermV::Var(1)])],
                guards: seq![(TermV::Var(0), TermV::Var(1))],
                body: hit,
            },
            bind_rule_v(),
        ],
        seq![propagate_v("ordered"@, seq![con_v("p"@, seq![TermV::Var(0)]), con_v("p"@, seq![TermV::Var(0)])], hit), bind_rule_v()],
        seq![
            simplify_v(
                "three"@,
                seq![
                    con_v("left"@, seq![TermV::Var(0)]),
                    con_v("middle"@, seq![TermV::Var(0)]),
                    con_v("right"@, seq![TermV::Var(0)]),
                ],
                hit,
            ),
            simplify_v(
                "seed"@,
                seq![con_v("seed"@, seq![TermV::Var(0)])],
                GoalV::Constraint(con_v("middle"@, seq![TermV::Var(0)])),
            ),
        ],
        seq![
            simplify_v(
                "fail"@,
                seq![con_v("start"@, seq![TermV::Var(0)])],
                GoalV::And(
                    seq![
                        GoalV::Unify(TermV::Var(0), TermV::App("f"@, seq![TermV::Var(0)])),
                        GoalV::Constraint(con_v("wrong"@, Seq::empty())),
                    ],
                ),
            ),
            simplify_v("skip"@, seq![con_v("skip"@, Seq::empty())], GoalV::True),
            simplify_v(
                "late"@,
                seq![con_v("late"@, seq![TermV::Var(0)])],
                GoalV::And(seq![GoalV::Unify(TermV::Var(0), atom_v("a"@)), GoalV::Fail]),
            ),
        ],
        seq![
            simplify_v(
                "fresh"@,
                seq![con_v("start"@, seq![TermV::Var(0)])],
                GoalV::And(
                    seq![
                        GoalV::Unify(TermV::Var(0), TermV::App("box"@, seq![TermV::Var(1)])),
                        GoalV::Constraint(con_v("hole"@, seq![TermV::Var(1)])),
                    ],
                ),
            ),
        ],
        seq![
            propagate_v(
                "pairs"@,
                seq![con_v("p"@, seq![TermV::Var(0)]), con_v("q"@, seq![TermV::Var(1)])],
                GoalV::Constraint(con_v("hit"@, seq![TermV::Var(0), TermV::Var(1)])),
            ),
            simplify_v("spawn"@, seq![con_v("seed"@, Seq::empty())], GoalV::Constraint(con_v("q"@, seq![atom_v("a"@)]))),
        ],
        seq![
            propagate_v(
                "alias"@,
                seq![con_v("p"@, seq![TermV::Var(0)]), con_v("trigger"@, seq![atom_v("a"@)])],
                GoalV::Unify(TermV::Var(0), atom_v("a"@)),
            ),
            propagate_v("hit"@, seq![con_v("p"@, seq![atom_v("a"@)])], hit),
        ],
        seq![simplify_v("known"@, seq![con_v("p"@, seq![atom_v("a"@)])], hit)],
        seq![
            simplify_v("known"@, seq![con_v("p"@, seq![TermV::App("f"@, seq![atom_v("a"@)])])], hit),
            bind_rule_v(),
        ],
        seq![
            simplify_v("join"@, seq![con_v("p"@, Seq::empty()), con_v("q"@, Seq::empty())], hit),
            simplify_v("single"@, seq![con_v("p"@, Seq::empty())], GoalV::Constraint(con_v("single"@, Seq::empty()))),
            simplify_v("seed"@, seq![con_v("seed"@, Seq::empty())], GoalV::Constraint(con_v("q"@, Seq::empty()))),
        ],
        seq![
            propagate_v(
                "keyed"@,
                seq![con_v("p"@, seq![TermV::Var(0)]), con_v("q"@, seq![TermV::Var(0)])],
                GoalV::Constraint(con_v("hit"@, seq![TermV::Var(0), TermV::Var(0)])),
            ),
            simplify_v("spawn"@, seq![con_v("seed"@, Seq::empty())], GoalV::Constraint(con_v("q"@, seq![atom_v("a"@)]))),
        ],
        seq![
            simplify_v(
                "anchored"@,
                seq![
                    con_v("left"@, seq![TermV::Var(0)]),
                    con_v("right"@, seq![TermV::App("f"@, seq![TermV::Var(0)]), TermV::Var(0)]),
                ],
                hit,
            ),
        ],
    ]
}

/// A variable.
pub fn var(i: u64) -> (r: Term)
    ensures
        term_v(r) == TermV::Var(i),
{
    Term::Var(Var(i))
}

/// A constructor applied to arguments.
pub fn app(n: &str, xs: Vec<Term>) -> (r: Term)
    ensures
        term_v(r) == TermV::App(n@, terms_v(xs@)),
{
    let r = Term::App(String::from_str(n), xs);
    proof {
        assert(term_v(r)->App_1 =~= terms_v(xs@));
    }
    r
}

/// An atom.
pub fn atom(n: &str) -> (r: Term)
    ensures
        term_v(r) == atom_v(n@),
{
    let r = app(n, Vec::new());
    proof {
        assert(terms_v(Seq::<Term>::empty()) =~= Seq::<TermV>::empty());
    }
    r
}

/// A constraint.
pub fn con(n: &str, xs: Vec<Term>) -> (r: Constraint)
    ensures
        constraint_v(r) == con_v(n@, terms_v(xs@)),
{
    Constraint { name: String::from_str(n), args: xs }
}

/// A rule that removes its heads.
pub fn simplify(n: &str, removed: Vec<Constraint>, body: Goal) -> (r: Rule)
    ensures
        rule_v(r) == simplify_v(n@, constraints_v(removed@), goal_v(body)),
{
    let r = Rule { name: String::from_str(n), kept: Vec::new(), removed, guards: Vec::new(), body };
    proof {
        assert(rule_v(r).kept =~= Seq::<ConstraintV>::empty());
        assert(rule_v(r).guards =~= Seq::<(TermV, TermV)>::empty());
    }
    r
}

/// A rule that keeps its heads.
pub fn propagate(n: &str, kept: Vec<Constraint>, body: Goal) -> (r: Rule)
    ensures
        rule_v(r) == propagate_v(n@, constraints_v(kept@), goal_v(body)),
{
    let r = Rule { name: String::from_str(n), kept, removed: Vec::new(), guards: Vec::new(), body };
    proof {
        assert(rule_v(r).removed =~= Seq::<ConstraintV>::empty());
        assert(rule_v(r).guards =~= Seq::<(TermV, TermV)>::empty());
    }
    r
}

/// A conjunction of goals.
pub fn and(gs: Vec<Goal>) -> (r: Goal)
    ensures
        goal_v(r) == GoalV::And(gs@.map_values(|g: Goal| goal_v(g))),
{
    let r = Goal::And(gs);
    proof {
        assert(goal_v(r)->And_0 =~= gs@.map_values(|g: Goal| goal_v(g)));
    }
    r
}

/// No terms.
pub(crate) fn t0() -> (r: Vec<Term>)
    ensures
        terms_v(r@) == Seq::<TermV>::empty(),
{
    let r: Vec<Term> = Vec::new();
    proof {
        assert(terms_v(r@) =~= Seq::<TermV>::empty());
    }
    r
}

/// One term.
pub(crate) fn t1(a: Term) -> (r: Vec<Term>)
    ensures
        terms_v(r@) == seq![term_v(a)],
{
    let ghost va = term_v(a);
    let r = vec![a];
    proof {
        assert(terms_v(r@) =~= seq![va]);
    }
    r
}

/// Two terms.
pub(crate) fn t2(a: Term, b: Term) -> (r: Vec<Term>)
    ensures
        terms_v(r@) == seq![term_v(a), term_v(b)],
{
    let ghost va = term_v(a);
    let ghost vb = term_v(b);
    let r = vec![a, b];
    proof {
        assert(terms_v(r@) =~= seq![va, vb]);
    }
    r
}

/// One constraint.
pub(crate) fn c1(a: Constraint) -> (r: Vec<Constraint>)
    ensures
        constraints_v(r@) == seq![constraint_v(a)],
{
    let ghost va = constraint_v(a);
    let r = vec![a];
    proof {
        assert(constraints_v(r@) =~= seq![va]);
    }
    r
}

/// Two constraints.
pub(crate) fn c2(a: Constraint, b: Constraint) -> (r: Vec<Constraint>)
    ensures
        constraints_v(r@) == seq![constraint_v(a), constraint_v(b)],
{
    let ghost va = constraint_v(a);
    let ghost vb = constraint_v(b);
    let r = vec![a, b];
    proof {
        assert(constraints_v(r@) =~= seq![va, vb]);
    }
    r
}

/// Three constraints.
pub(crate) fn c3(a: Constraint, b: Constraint, c: Constraint) -> (r: Vec<Constraint>)
    ensures
        constraints_v(r@) == seq![constraint_v(a), constraint_v(b), constraint_v(c)],
{
    let ghost va = constraint_v(a);
    let ghost vb = constraint_v(b);
    let ghost vc = constraint_v(c);
    let r = vec![a, b, c];
    proof {
        assert(constraints_v(r@) =~= seq![va, vb, vc]);
    }
    r
}

/// The conjunction of two goals.
pub(crate) fn and2(a: Goal, b: Goal) -> (r: Goal)
    ensures
        goal_v(r) == GoalV::And(seq![goal_v(a), goal_v(b)]),
{
    let ghost va = goal_v(a);
    let ghost vb = goal_v(b);
    let gs = vec![a, b];
    proof {
        assert(gs@.map_values(|g: Goal| goal_v(g)) =~= seq![va, vb]);
    }
    and(gs)
}

/// Posting a constraint.
pub(crate) fn post(c: Constraint) -> (r: Goal)
    ensures
        goal_v(r) == GoalV::Constraint(constraint_v(c)),
{
    Goal::Constraint(c)
}

/// An equation.
pub(crate) fn unify(a: Term, b: Term) -> (r: Goal)
    ensures
        goal_v(r) == GoalV::Unify(term_v(a), term_v(b)),
{
    Goal::Unify(a, b)
}

/// `hit()`.
fn hit() -> (r: Goal)
    ensures
        goal_v(r) == GoalV::Constraint(con_v("hit"@, Seq::empty())),
{
    post(con("hit", t0()))
}

/// `bind(X, Y) <=> X = Y`.
fn bind_rule() -> (r: Rule)
    ensures
        rule_v(r) == bind_rule_v(),
{
    simplify("bind", c1(con("bind", t2(var(0), var(1)))), unify(var(0), var(1)))
}

/// A list of rules with the given values.
fn rules1(a: Rule) -> (r: Vec<Rule>)
    ensures
        rules_v(r@) == seq![rule_v(a)],
{
    let ghost va = rule_v(a);
    let r = vec![a];
    proof {
        assert(rules_v(r@) =~= seq![va]);
    }
    r
}

/// Two rules.
fn rules2(a: Rule, b: Rule) -> (r: Vec<Rule>)
    ensures
        rules_v(r@) == seq![rule_v(a), rule_v(b)],
{
    let ghost va = rule_v(a);
    let ghost vb = rule_v(b);
    let r = vec![a, b];
    proof {
        assert(rules_v(r@) =~= seq![va, vb]);
    }
    r
}

/// Three rules.
fn rules3(a: Rule, b: Rule, c: Rule) -> (r: Vec<Rule>)
    ensures
        rules_v(r@) == seq![rule_v(a), rule_v(b), rule_v(c)],
{
    let ghost va = rule_v(a);
    let ghost vb = rule_v(b);
    let ghost vc = rule_v(c);
    let r = vec![a, b, c];
    proof {
        assert(rules_v(r@) =~= seq![va, vb, vc]);
    }
    r
}

/// The rules of program `reach`, with the guard `X = X` on its job rule where `guarded`.
fn reach_rules(guarded: bool) -> (r: Vec<Rule>)
    ensures
        rules_v(r@) == reach_v(guarded),
{
    let reach = propagate(
        "reach",
        c2(con("reach", t1(var(0))), con("edge", t2(var(0), var(1)))),
        post(con("reach", t1(var(1)))),
    );
    let mut guards: Vec<Guard> = Vec::new();
    if guarded {
        guards.push(Guard::Equal(var(0), var(0)));
    }
    let job = Rule {
        name: String::from_str("job"),
        kept: c1(con("reach", t1(var(0)))),
        removed: c1(con("job", t2(var(0), var(1)))),
        guards,
        body: and2(unify(var(1), app("seen", t1(var(0)))), post(con("done", t1(var(0))))),
    };
    proof {
        if guarded {
            assert(rule_v(job).guards =~= seq![(TermV::Var(0), TermV::Var(0))]);
        } else {
            assert(rule_v(job).guards =~= Seq::<(TermV, TermV)>::empty());
        }
    }
    rules2(reach, job)
}

/// The bundled programs, in the order of `bundled_v`.
pub fn programs() -> (r: Vec<Vec<Rule>>)
    ensures
        r@.map_values(|p: Vec<Rule>| rules_v(p@)) == bundled_v(),
{
    let build = rules2(
        simplify("zero", c1(con("build", t2(atom("z"), var(0)))), unify(var(0), atom("nil"))),
        simplify(
            "step",
            c1(con("build", t2(app("s", t1(var(0))), var(1)))),
            and2(unify(var(1), app("cons", t2(atom("item"), var(2)))), post(con("build", t2(var(0), var(2))))),
        ),
    );
    let reach = reach_rules(false);
    let mut delayed = reach_rules(true);
    let ghost d0 = rules_v(delayed@);
    delayed.push(bind_rule());
    proof {
        assert(rules_v(delayed@) =~= d0.push(bind_rule_v()));
    }
    let guard = Rule {
        name: String::from_str("guard"),
        kept: Vec::new(),
        removed: c1(con("p", t2(var(0), var(1)))),
        guards: vec![Guard::Equal(var(0), var(1))],
        body: hit(),
    };
    proof {
        assert(rule_v(guard).kept =~= Seq::<ConstraintV>::empty());
        assert(rule_v(guard).guards =~= seq![(TermV::Var(0), TermV::Var(1))]);
    }
    let wake = rules2(guard, bind_rule());
    let ordered = rules2(propagate("ordered", c2(con("p", t1(var(0))), con("p", t1(var(0)))), hit()), bind_rule());
    let middle = rules2(
        simplify("three", c3(con("left", t1(var(0))), con("middle", t1(var(0))), con("right", t1(var(0)))), hit()),
        simplify("seed", c1(con("seed", t1(var(0)))), post(con("middle", t1(var(0))))),
    );
    let fail = rules3(
        simplify("fail", c1(con("start", t1(var(0)))), and2(unify(var(0), app("f", t1(var(0)))), post(con("wrong", t0())))),
        simplify("skip", c1(con("skip", t0())), Goal::True),
        simplify("late", c1(con("late", t1(var(0)))), and2(unify(var(0), atom("a")), Goal::Fail)),
    );
    let fresh = rules1(
        simplify("fresh", c1(con("start", t1(var(0)))), and2(unify(var(0), app("box", t1(var(1)))), post(con("hole", t1(var(1)))))),
    );
    let arrival = rules2(
        propagate("pairs", c2(con("p", t1(var(0))), con("q", t1(var(1)))), post(con("hit", t2(var(0), var(1))))),
        simplify("spawn", c1(con("seed", t0())), post(con("q", t1(atom("a"))))),
    );
    let self_wake = rules2(
        propagate("alias", c2(con("p", t1(var(0))), con("trigger", t1(atom("a")))), unify(var(0), atom("a"))),
        propagate("hit", c1(con("p", t1(atom("a")))), hit()),
    );
    let suspended = rules1(simplify("known", c1(con("p", t1(atom("a")))), hit()));
    let nested = rules2(simplify("known", c1(con("p", t1(app("f", t1(atom("a")))))), hit()), bind_rule());
    let conflict = rules3(
        simplify("join", c2(con("p", t0()), con("q", t0())), hit()),
        simplify("single", c1(con("p", t0())), post(con("single", t0()))),
        simplify("seed", c1(con("seed", t0())), post(con("q", t0()))),
    );
    let collisions = rules2(
        propagate("keyed", c2(con("p", t1(var(0))), con("q", t1(var(0)))), post(con("hit", t2(var(0), var(0))))),
        simplify("spawn", c1(con("seed", t0())), post(con("q", t1(atom("a"))))),
    );
    let anchored = rules1(
        simplify("anchored", c2(con("left", t1(var(0))), con("right", t2(app("f", t1(var(0))), var(0)))), hit()),
    );
    let ghost vs = seq![
        rules_v(build@),
        rules_v(reach@),
        rules_v(delayed@),
        rules_v(wake@),
        rules_v(ordered@),
        rules_v(middle@),
        rules_v(fail@),
        rules_v(fresh@),
        rules_v(arrival@),
        rules_v(self_wake@),
        rules_v(suspended@),
        rules_v(nested@),
        rules_v(conflict@),
        rules_v(collisions@),
        rules_v(anchored@),
    ];
    let r = vec![
        build,
        reach,
        delayed,
        wake,
        ordered,
        middle,
        fail,
        fresh,
        arrival,
        self_wake,
        suspended,
        nested,
        conflict,
        collisions,
        anchored,
    ];
    proof {
        assert(vs =~= bundled_v());
        assert(r@.map_values(|p: Vec<Rule>| rules_v(p@)) =~= vs);
    }
    r
}

/// `s(s(...s(z)...))` with `n` applications of `s`.
pub open spec fn unary_v(n: nat) -> TermV
    decreases n,
{
    if n == 0 {
        atom_v("z"@)
    } else {
        TermV::App("s"@, seq![unary_v((n - 1) as nat)])
    }
}

/// `node(unary(n))`.
pub open spec fn node_v(n: nat) -> TermV {
    TermV::App("node"@, seq![unary_v(n)])
}

/// A list of `n` items: `cons(item, ...cons(item, nil))`.
pub open spec fn list_v(n: nat) -> TermV
    decreases n,
{
    if n == 0 {
        atom_v("nil"@)
    } else {
        TermV::App("cons"@, seq![atom_v("item"@), list_v((n - 1) as nat)])
    }
}

/// The value of a case: the query's constraints and outputs, the answer it
/// must give where it succeeds, and whether it must fail.
pub struct CaseV {
    pub constraints: Seq<ConstraintV>,
    pub outputs: Seq<(Seq<char>, u64)>,
    pub expected: Option<AnswerV>,
    pub failed: bool,
}

/// A successful case: the answer gives each output name its value, in order.
pub open spec fn success_v(
    input: Seq<ConstraintV>,
    outputs: Seq<(Seq<char>, u64)>,
    values: Seq<TermV>,
    residual: Seq<ConstraintV>,
) -> CaseV {
    CaseV {
        constraints: input,
        outputs,
        expected: Some(
            AnswerV {
                outputs: Seq::new(
                    if outputs.len() <= values.len() {
                        outputs.len()
                    } else {
                        values.len()
                    },
                    |i: int| (outputs[i].0, values[i]),
                ),
                residual,
            },
        ),
        failed: false,
    }
}

/// The input edges of the reach cases: `edge(node(i), node(i+1))`, or, in the
/// delayed case, an edge whose source key is the unknown `n + 1 + i`.
pub open spec fn input_edges_v(n: nat, delayed: bool) -> Seq<ConstraintV> {
    Seq::new(
        n,
        |i: int|
            con_v(
                "edge"@,
                seq![
                    if delayed {
                        TermV::App("node"@, seq![TermV::Var((n + 1 + i) as u64)])
                    } else {
                        node_v(i as nat)
                    },
                    node_v((i + 1) as nat),
                ],
            ),
    )
}

/// The case of the reach programs for a chain of `n` edges.
pub open spec fn reach_case_v(n: nat, delayed: bool) -> CaseV {
    let jobs = Seq::new(n + 1, |i: int| con_v("job"@, seq![node_v(i as nat), TermV::Var(i as u64)]));
    let binds = if delayed {
        Seq::new(n, |i: int| con_v("bind"@, seq![TermV::Var((n + 1 + i) as u64), unary_v(i as nat)]))
    } else {
        Seq::empty()
    };
    let edges = Seq::new(n, |i: int| con_v("edge"@, seq![node_v(i as nat), node_v((i + 1) as nat)]));
    let marks = Seq::new(
        2 * (n + 1),
        |k: int|
            if k % 2 == 0 {
                con_v("reach"@, seq![node_v((k / 2) as nat)])
            } else {
                con_v("done"@, seq![node_v((k / 2) as nat)])
            },
    );
    success_v(
        seq![con_v("reach"@, seq![node_v(0)])] + input_edges_v(n, delayed) + jobs + binds,
        Seq::new(n + 1, |i: int| ("o"@ + decimal_v(i as nat), i as u64)),
        Seq::new(n + 1, |i: int| TermV::App("seen"@, seq![node_v(i as nat)])),
        edges + marks,
    )
}

/// The analytic case `id` of size `n`, for the programs in the order of `bundled_v`.
pub open spec fn case_spec(id: nat, n: nat) -> CaseV {
    let v0 = TermV::Var(0);
    let v1 = TermV::Var(1);
    let xy = seq![("x"@, 0u64), ("y"@, 1u64)];
    let hit = con_v("hit"@, Seq::empty());
    let a = atom_v("a"@);
    if id == 0 {
        success_v(seq![con_v("build"@, seq![unary_v(n), v0])], seq![("out"@, 0u64)], seq![list_v(n)], Seq::empty())
    } else if id == 1 || id == 2 {
        reach_case_v(n, id == 2)
    } else if id == 3 {
        success_v(
            seq![con_v("p"@, seq![TermV::App("f"@, seq![v0]), TermV::App("f"@, seq![v1])]), con_v("bind"@, seq![v0, v1])],
            xy,
            seq![v0, v0],
            seq![hit],
        )
    } else if id == 4 {
        success_v(
            seq![con_v("p"@, seq![v0]), con_v("p"@, seq![v1]), con_v("bind"@, seq![v0, v1])],
            xy,
            seq![v0, v0],
            seq![con_v("p"@, seq![v0]), con_v("p"@, seq![v0]), hit, hit],
        )
    } else if id == 5 {
        success_v(
            seq![con_v("left"@, seq![a]), con_v("right"@, seq![a]), con_v("seed"@, seq![a])],
            Seq::empty(),
            Seq::empty(),
            seq![hit],
        )
    } else if id == 6 {
        CaseV { constraints: seq![con_v("start"@, seq![v0])], outputs: seq![("x"@, 0u64)], expected: None, failed: true }
    } else if id == 7 {
        success_v(
            seq![con_v("start"@, seq![v0]), con_v("start"@, seq![v1])],
            xy,
            seq![TermV::App("box"@, seq![TermV::Var(2)]), TermV::App("box"@, seq![TermV::Var(3)])],
            seq![con_v("hole"@, seq![TermV::Var(2)]), con_v("hole"@, seq![TermV::Var(3)])],
        )
    } else if id == 8 {
        success_v(
            seq![con_v("p"@, seq![a]), con_v("q"@, seq![a]), con_v("seed"@, Seq::empty())],
            Seq::empty(),
            Seq::empty(),
            seq![
                con_v("p"@, seq![a]),
                con_v("q"@, seq![a]),
                con_v("q"@, seq![a]),
                con_v("hit"@, seq![a, a]),
                con_v("hit"@, seq![a, a]),
            ],
        )
    } else if id == 9 {
        success_v(
            seq![con_v("p"@, seq![v0]), con_v("trigger"@, seq![a])],
            seq![("x"@, 0u64)],
            seq![a],
            seq![con_v("p"@, seq![a]), con_v("trigger"@, seq![a]), hit],
        )
    } else if id == 10 {
        success_v(seq![con_v("p"@, seq![v0])], seq![("x"@, 0u64)], seq![v0], seq![con_v("p"@, seq![v0])])
    } else {
        success_v(
            seq![
                con_v("p"@, seq![v0]),
                con_v("bind"@, seq![v0, TermV::App("f"@, seq![v1])]),
                con_v("bind"@, seq![v1, a]),
            ],
            xy,
            seq![TermV::App("f"@, seq![a]), a],
            seq![hit],
        )
    }
}

/// A query with the answer it must give, or the mark that it must fail.
pub struct Case {
    pub query: Query,
    pub expected: Option<Answer>,
    pub failed: bool,
}

/// The value of a case.
pub open spec fn case_v(c: Case) -> CaseV {
    CaseV {
        constraints: constraints_v(c.query.constraints@),
        outputs: c.query.outputs@.map_values(|o: (String, Var)| (o.0@, o.1.0)),
        expected: match c.expected {
            Some(a) => Some(answer_v(a)),
            None => None,
        },
        failed: c.failed,
    }
}

/// `s(s(...s(z)...))` with `n` applications of `s`.
pub fn unary(n: usize) -> (r: Term)
    ensures
        term_v(r) == unary_v(n as nat),
{
    let mut x = atom("z");
    let mut k: usize = 0;
    while k < n
        invariant
            0 <= k <= n,
            term_v(x) == unary_v(k as nat),
        decreases n - k,
    {
        x = app("s", t1(x));
        k += 1;
    }
    x
}

/// `node(unary(n))`.
fn node(n: usize) -> (r: Term)
    ensures
        term_v(r) == node_v(n as nat),
{
    app("node", t1(unary(n)))
}

/// A list of `n` items.
fn list(n: usize) -> (r: Term)
    ensures
        term_v(r) == list_v(n as nat),
{
    let mut x = atom("nil");
    let mut k: usize = 0;
    while k < n
        invariant
            0 <= k <= n,
            term_v(x) == list_v(k as nat),
        decreases n - k,
    {
        x = app("cons", t2(atom("item"), x));
        k += 1;
    }
    x
}

/// An output name and variable.
fn output(name: &str, v: u64) -> (r: (String, Var))
    ensures
        r.0@ == name@,
        r.1.0 == v,
{
    (String::from_str(name), Var(v))
}

/// The values of named outputs.
pub open spec fn outs_v(os: Seq<(String, Var)>) -> Seq<(Seq<char>, u64)> {
    os.map_values(|o: (String, Var)| (o.0@, o.1.0))
}

/// A successful case.
fn success(input: Vec<Constraint>, outputs: Vec<(String, Var)>, values: Vec<Term>, residual: Vec<Constraint>) -> (r: Case)
    ensures
        case_v(r) == success_v(constraints_v(input@), outs_v(outputs@), terms_v(values@), constraints_v(residual@)),
{
    let ghost os = outs_v(outputs@);
    let ghost vs = terms_v(values@);
    let mut pairs: Vec<(String, Term)> = Vec::new();
    let mut i: usize = 0;
    let m = if outputs.len() <= values.len() {
        outputs.len()
    } else {
        values.len()
    };
    while i < m
        invariant
            m <= outputs@.len(),
            m <= values@.len(),
            vs == terms_v(values@),
            os == outs_v(outputs@),
            0 <= i <= m,
            pairs@.len() == i,
            forall|j: int| 0 <= j < i ==> (#[trigger] pairs@[j]).0@ == os[j].0 && term_v(pairs@[j].1) == vs[j],
        decreases m - i,
    {
        pairs.push((outputs[i].0.clone(), crate::syntax::copy_term(&values[i])));
        i += 1;
    }
    let r = Case {
        query: Query { constraints: input, outputs },
        expected: Some(Answer { outputs: pairs, residual }),
        failed: false,
    };
    proof {
        assert(crate::syntax::outputs_v(pairs@) =~= Seq::new(m as nat, |j: int| (os[j].0, vs[j])));
    }
    r
}

/// The name `o` followed by the decimal digits of `i`.
fn numbered(i: usize) -> (r: String)
    ensures
        r@ == "o"@ + decimal_v(i as nat),
{
    let mut out = String::from_str("o");
    push_decimal(&mut out, i as u128);
    out
}

/// The case of the reach programs for a chain of `n` edges.
fn reach_case(n: usize, delayed: bool) -> (r: Case)
    requires
        2 * n + 1 <= usize::MAX,
    ensures
        case_v(r) == reach_case_v(n as nat, delayed),
{
    let ghost nn = n as nat;
    let mut input = c1(con("reach", t1(node(0))));
    let mut i: usize = 0;
    while i < n
        invariant
            2 * n + 1 <= usize::MAX,
            nn == n,
            0 <= i <= n,
            constraints_v(input@) == seq![con_v("reach"@, seq![node_v(0)])] + input_edges_v(nn, delayed).take(i as int),
        decreases n - i,
    {
        let source = if delayed {
            app("node", t1(var((n + 1 + i) as u64)))
        } else {
            node(i)
        };
        let ghost before = constraints_v(input@);
        let e = con("edge", t2(source, node(i + 1)));
        input.push(e);
        proof {
            assert(constraints_v(input@) =~= before.push(constraint_v(e)));
            assert(input_edges_v(nn, delayed).take(i + 1) =~= input_edges_v(nn, delayed).take(i as int).push(
                input_edges_v(nn, delayed)[i as int],
            ));
        }
        i += 1;
    }
    let ghost head = seq![con_v("reach"@, seq![node_v(0)])] + input_edges_v(nn, delayed);
    proof {
        assert(input_edges_v(nn, delayed).take(n as int) =~= input_edges_v(nn, delayed));
    }
    let ghost jobs = Seq::new(nn + 1, |i: int| con_v("job"@, seq![node_v(i as nat), TermV::Var(i as u64)]));
    let ghost outs = Seq::new(nn + 1, |i: int| ("o"@ + decimal_v(i as nat), i as u64));
    let ghost vals = Seq::new(nn + 1, |i: int| TermV::App("seen"@, seq![node_v(i as nat)]));
    let ghost edges = Seq::new(nn, |i: int| con_v("edge"@, seq![node_v(i as nat), node_v((i + 1) as nat)]));
    let ghost marks = Seq::new(
        2 * (nn + 1),
        |k: int|
            if k % 2 == 0 {
                con_v("reach"@, seq![node_v((k / 2) as nat)])
            } else {
                con_v("done"@, seq![node_v((k / 2) as nat)])
            },
    );
    let mut residual: Vec<Constraint> = Vec::new();
    let mut i: usize = 0;
    proof {
        assert(constraints_v(residual@) =~= edges.take(0));
    }
    while i < n
        invariant
            2 * n + 1 <= usize::MAX,
            nn == n,
            0 <= i <= n,
            edges == Seq::new(nn, |i: int| con_v("edge"@, seq![node_v(i as nat), node_v((i + 1) as nat)])),
            constraints_v(residual@) == edges.take(i as int),
        decreases n - i,
    {
        let ghost before = constraints_v(residual@);
        let e = con("edge", t2(node(i), node(i + 1)));
        residual.push(e);
        proof {
            assert(constraints_v(residual@) =~= before.push(constraint_v(e)));
            assert(edges.take(i + 1) =~= edges.take(i as int).push(edges[i as int]));
        }
        i += 1;
    }
    proof {
        assert(edges.take(n as int) =~= edges);
    }
    let mut outputs: Vec<(String, Var)> = Vec::new();
    let mut values: Vec<Term> = Vec::new();
    let mut i: usize = 0;
    proof {
        assert(constraints_v(input@) =~= head + jobs.take(0));
        assert(constraints_v(residual@) =~= edges + marks.take(0));
        assert(outs_v(outputs@) =~= outs.take(0));
        assert(terms_v(values@) =~= vals.take(0));
    }
    while i <= n
        invariant
            2 * n + 1 <= usize::MAX,
            nn == n,
            0 <= i <= n + 1,
            jobs == Seq::new(nn + 1, |i: int| con_v("job"@, seq![node_v(i as nat), TermV::Var(i as u64)])),
            outs == Seq::new(nn + 1, |i: int| ("o"@ + decimal_v(i as nat), i as u64)),
            vals == Seq::new(nn + 1, |i: int| TermV::App("seen"@, seq![node_v(i as nat)])),
            marks == Seq::new(
                2 * (nn + 1),
                |k: int|
                    if k % 2 == 0 {
                        con_v("reach"@, seq![node_v((k / 2) as nat)])
                    } else {
                        con_v("done"@, seq![node_v((k / 2) as nat)])
                    },
            ),
            constraints_v(input@) == head + jobs.take(i as int),
            constraints_v(residual@) == edges + marks.take(2 * i),
            outs_v(outputs@) == outs.take(i as int),
            terms_v(values@) == vals.take(i as int),
        decreases n + 1 - i,
    {
        let ghost b1 = constraints_v(input@);
        let ghost b2 = constraints_v(residual@);
        let ghost b3 = outs_v(outputs@);
        let ghost b4 = terms_v(values@);
        let j = con("job", t2(node(i), var(i as u64)));
        input.push(j);
        let name = numbered(i);
        outputs.push((name, Var(i as u64)));
        let sv = app("seen", t1(node(i)));
        values.push(sv);
        let r1 = con("reach", t1(node(i)));
        let r2 = con("done", t1(node(i)));
        residual.push(r1);
        residual.push(r2);
        proof {
            assert(constraints_v(input@) =~= b1.push(constraint_v(j)));
            assert(jobs.take(i + 1) =~= jobs.take(i as int).push(jobs[i as int]));
            assert(head + jobs.take(i + 1) =~= (head + jobs.take(i as int)).push(jobs[i as int]));
            assert(outs_v(outputs@) =~= b3.push((name@, i as u64)));
            assert(outs.take(i + 1) =~= outs.take(i as int).push(outs[i as int]));
            assert(terms_v(values@) =~= b4.push(term_v(sv)));
            assert(vals.take(i + 1) =~= vals.take(i as int).push(vals[i as int]));
            assert(constraints_v(residual@) =~= b2.push(constraint_v(r1)).push(constraint_v(r2)));
            assert((2 * i) % 2 == 0 && (2 * i) / 2 == i) by (nonlinear_arith);
            assert((2 * i + 1) % 2 == 1 && (2 * i + 1) / 2 == i) by (nonlinear_arith);
            assert(marks.take(2 * i + 2) =~= marks.take(2 * i).push(marks[2 * i]).push(marks[2 * i + 1]));
            assert(edges + marks.take(2 * i + 2) =~= (edges + marks.take(2 * i)).push(marks[2 * i]).push(marks[2 * i + 1]));
        }
        i += 1;
    }
    proof {
        assert(jobs.take((nn + 1) as int) =~= jobs);
        assert(outs.take((nn + 1) as int) =~= outs);
        assert(vals.take((nn + 1) as int) =~= vals);
        assert(marks.take((2 * (nn + 1)) as int) =~= marks);
    }
    let ghost binds = if delayed {
        Seq::new(nn, |i: int| con_v("bind"@, seq![TermV::Var((nn + 1 + i) as u64), unary_v(i as nat)]))
    } else {
        Seq::empty()
    };
    let ghost front = constraints_v(input@);
    if delayed {
        let mut i: usize = 0;
        proof {
            assert(constraints_v(input@) =~= front + binds.take(0));
        }
        while i < n
            invariant
                2 * n + 1 <= usize::MAX,
                nn == n,
                delayed,
                0 <= i <= n,
                binds == Seq::new(nn, |i: int| con_v("bind"@, seq![TermV::Var((nn + 1 + i) as u64), unary_v(i as nat)])),
                constraints_v(input@) == front + binds.take(i as int),
            decreases n - i,
        {
            let ghost before = constraints_v(input@);
            let b = con("bind", t2(var((n + 1 + i) as u64), unary(i)));
            input.push(b);
            proof {
                assert(constraints_v(input@) =~= before.push(constraint_v(b)));
                assert(binds.take(i + 1) =~= binds.take(i as int).push(binds[i as int]));
                assert(front + binds.take(i + 1) =~= (front + binds.take(i as int)).push(binds[i as int]));
            }
            i += 1;
        }
        proof {
            assert(binds.take(n as int) =~= binds);
        }
    } else {
        proof {
            assert(front + binds =~= front);
        }
    }
    success(input, outputs, values, residual)
}

/// The analytic case `id` of size `n`: the query and the answer the bundled
/// program `id` must give for it, or the mark that it fails.
pub fn case(id: usize, n: usize) -> (r: Case)
    requires
        id < ANALYTIC_PROGRAMS,
        id == 1 || id == 2 ==> 2 * n + 1 <= usize::MAX,
    ensures
        case_v(r) == case_spec(id as nat, n as nat),
{
    let xy = |u: ()| -> (r: Vec<(String, Var)>)
        ensures
            outs_v(r@) == seq![("x"@, 0u64), ("y"@, 1u64)],
        {
            let r = vec![output("x", 0), output("y", 1)];
            proof {
                assert(outs_v(r@) =~= seq![("x"@, 0u64), ("y"@, 1u64)]);
            }
            r
        };
    let none = |u: ()| -> (r: Vec<(String, Var)>)
        ensures
            outs_v(r@) == Seq::<(Seq<char>, u64)>::empty(),
        {
            let r: Vec<(String, Var)> = Vec::new();
            proof {
                assert(outs_v(r@) =~= Seq::<(Seq<char>, u64)>::empty());
            }
            r
        };
    let x = |u: ()| -> (r: Vec<(String, Var)>)
        ensures
            outs_v(r@) == seq![("x"@, 0u64)],
        {
            let r = vec![output("x", 0)];
            proof {
                assert(outs_v(r@) =~= seq![("x"@, 0u64)]);
            }
            r
        };
    let r = if id == 0 {
        let out = vec![output("out", 0)];
        proof {
            assert(outs_v(out@) =~= seq![("out"@, 0u64)]);
        }
        success(c1(con("build", t2(unary(n), var(0)))), out, t1(list(n)), Vec::new())
    } else if id == 1 || id == 2 {
        reach_case(n, id == 2)
    } else if id == 3 {
        success(
            c2(con("p", t2(app("f", t1(var(0))), app("f", t1(var(1))))), con("bind", t2(var(0), var(1)))),
            xy(()),
            t2(var(0), var(0)),
            c1(con("hit", t0())),
        )
    } else if id == 4 {
        let residual = vec![con("p", t1(var(0))), con("p", t1(var(0))), con("hit", t0()), con("hit", t0())];
        let ghost rv = constraints_v(residual@);
        proof {
            assert(rv =~= seq![
                con_v("p"@, seq![TermV::Var(0)]),
                con_v("p"@, seq![TermV::Var(0)]),
                con_v("hit"@, Seq::empty()),
                con_v("hit"@, Seq::empty()),
            ]);
        }
        success(c3(con("p", t1(var(0))), con("p", t1(var(1))), con("bind", t2(var(0), var(1)))), xy(()), t2(var(0), var(0)), residual)
    } else if id == 5 {
        success(
            c3(con("left", t1(atom("a"))), con("right", t1(atom("a"))), con("seed", t1(atom("a")))),
            none(()),
            Vec::new(),
            c1(con("hit", t0())),
        )
    } else if id == 6 {
        let c = Case { query: Query { constraints: c1(con("start", t1(var(0)))), outputs: x(()) }, expected: None, failed: true };
        c
    } else if id == 7 {
        success(
            c2(con("start", t1(var(0))), con("start", t1(var(1)))),
            xy(()),
            t2(app("box", t1(var(2))), app("box", t1(var(3)))),
            c2(con("hole", t1(var(2))), con("hole", t1(var(3)))),
        )
    } else if id == 8 {
        let residual = vec![
            con("p", t1(atom("a"))),
            con("q", t1(atom("a"))),
            con("q", t1(atom("a"))),
            con("hit", t2(atom("a"), atom("a"))),
            con("hit", t2(atom("a"), atom("a"))),
        ];
        let ghost rv = constraints_v(residual@);
        proof {
            assert(rv =~= seq![
                con_v("p"@, seq![atom_v("a"@)]),
                con_v("q"@, seq![atom_v("a"@)]),
                con_v("q"@, seq![atom_v("a"@)]),
                con_v("hit"@, seq![atom_v("a"@), atom_v("a"@)]),
                con_v("hit"@, seq![atom_v("a"@), atom_v("a"@)]),
            ]);
        }
        success(c3(con("p", t1(atom("a"))), con("q", t1(atom("a"))), con("seed", t0())), none(()), Vec::new(), residual)
    } else if id == 9 {
        success(
            c2(con("p", t1(var(0))), con("trigger", t1(atom("a")))),
            x(()),
            t1(atom("a")),
            c3(con("p", t1(atom("a"))), con("trigger", t1(atom("a"))), con("hit", t0())),
        )
    } else if id == 10 {
        success(c1(con("p", t1(var(0)))), x(()), t1(var(0)), c1(con("p", t1(var(0)))))
    } else {
        success(
            c3(con("p", t1(var(0))), con("bind", t2(var(0), app("f", t1(var(1))))), con("bind", t2(var(1), atom("a")))),
            xy(()),
            t2(app("f", t1(atom("a"))), atom("a")),
            c1(con("hit", t0())),
        )
    };
    proof {
        assert(terms_v(Seq::<Term>::empty()) =~= Seq::<TermV>::empty());
        assert(constraints_v(Seq::<Constraint>::empty()) =~= Seq::<ConstraintV>::empty());
    }
    r
}

} // verus!
