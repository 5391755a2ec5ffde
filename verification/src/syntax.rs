//! CHR source data: terms, constraints, goals, rules and queries.
//!
//! These are plain values; no execution or normalization lives here.
use vstd::prelude::*;

verus! {

/// A source variable.
#[derive(Clone, Copy, Debug, PartialEq, Eq, Structural, PartialOrd, Ord, Hash)]
pub struct Var(pub u64);

/// A finite tree: a variable or a named constructor applied to arguments.
#[derive(Debug)]
pub enum Term {
    Var(Var),
    App(String, Vec<Term>),
}

/// A constraint occurrence `name(args...)`.
#[derive(Debug)]
pub struct Constraint {
    pub name: String,
    pub args: Vec<Term>,
}

/// A rule body or query goal.
#[derive(Debug)]
pub enum Goal {
    Constraint(Constraint),
    Unify(Term, Term),
    And(Vec<Goal>),
    Or(Box<Goal>, Box<Goal>),
    True,
    Fail,
}

/// A pure guard: equality already entailed by the store.
#[derive(Debug)]
pub enum Guard {
    Equal(Term, Term),
}

/// `kept \ removed <=> guards | body`.
#[derive(Debug)]
pub struct Rule {
    pub name: String,
    pub kept: Vec<Constraint>,
    pub removed: Vec<Constraint>,
    pub guards: Vec<Guard>,
    pub body: Goal,
}

/// Initial constraints and the selected output variables.
#[derive(Debug)]
pub struct Query {
    pub constraints: Vec<Constraint>,
    pub outputs: Vec<(String, Var)>,
}

/// The term contains no variable.
pub open spec fn spec_ground(t: Term) -> bool
    decreases t,
{
    match t {
        Term::Var(_) => false,
        Term::App(_, xs) => forall|i: int| 0 <= i < xs.len() ==> spec_ground(#[trigger] xs[i]),
    }
}

/// Decide whether a term is ground.
pub fn ground(term: &Term) -> (r: bool)
    ensures
        r == spec_ground(*term),
    decreases term,
{
    match term {
        Term::Var(_) => false,
        Term::App(name, xs) => {
            let mut i: usize = 0;
            while i < xs.len()
                invariant
                    *term == Term::App(*name, *xs),
                    0 <= i <= xs.len(),
                    forall|j: int| 0 <= j < i ==> spec_ground(#[trigger] xs[j]),
                decreases xs.len() - i,
            {
                proof {
                    assert(decreases_to!(*term => term->App_1));
                    assert(decreases_to!(*xs => xs[i as int]));
                }
                if !ground(&xs[i]) {
                    return false;
                }
                i += 1;
            }
            true
        },
    }
}


/// The value of a term: its variables and constructor names, without storage.
pub enum TermV {
    Var(u64),
    App(Seq<char>, Seq<TermV>),
}

/// The value of a constraint.
pub struct ConstraintV {
    pub name: Seq<char>,
    pub args: Seq<TermV>,
}

/// The value of a goal.
pub enum GoalV {
    Constraint(ConstraintV),
    Unify(TermV, TermV),
    And(Seq<GoalV>),
    Or(Box<GoalV>, Box<GoalV>),
    True,
    Fail,
}

/// The value of a rule.
pub struct RuleV {
    pub name: Seq<char>,
    pub kept: Seq<ConstraintV>,
    pub removed: Seq<ConstraintV>,
    pub guards: Seq<(TermV, TermV)>,
    pub body: GoalV,
}

pub open spec fn term_v(t: Term) -> TermV
    decreases t,
{
    match t {
        Term::Var(v) => TermV::Var(v.0),
        Term::App(n, xs) => TermV::App(
            n@,
            Seq::new(xs@.len(), |i: int| if 0 <= i < xs@.len() { term_v(xs@[i]) } else { TermV::Var(0) }),
        ),
    }
}

pub open spec fn terms_v(xs: Seq<Term>) -> Seq<TermV> {
    xs.map_values(|t: Term| term_v(t))
}

pub open spec fn constraint_v(c: Constraint) -> ConstraintV {
    ConstraintV { name: c.name@, args: terms_v(c.args@) }
}

pub open spec fn constraints_v(cs: Seq<Constraint>) -> Seq<ConstraintV> {
    cs.map_values(|c: Constraint| constraint_v(c))
}

pub open spec fn goal_v(g: Goal) -> GoalV
    decreases g,
{
    match g {
        Goal::Constraint(c) => GoalV::Constraint(constraint_v(c)),
        Goal::Unify(a, b) => GoalV::Unify(term_v(a), term_v(b)),
        Goal::And(gs) => GoalV::And(
            Seq::new(gs@.len(), |i: int| if 0 <= i < gs@.len() { goal_v(gs@[i]) } else { GoalV::True }),
        ),
        Goal::Or(a, b) => GoalV::Or(Box::new(goal_v(*a)), Box::new(goal_v(*b))),
        Goal::True => GoalV::True,
        Goal::Fail => GoalV::Fail,
    }
}

pub open spec fn guard_v(g: Guard) -> (TermV, TermV) {
    match g {
        Guard::Equal(a, b) => (term_v(a), term_v(b)),
    }
}

pub open spec fn rule_v(r: Rule) -> RuleV {
    RuleV {
        name: r.name@,
        kept: constraints_v(r.kept@),
        removed: constraints_v(r.removed@),
        guards: r.guards@.map_values(|g: Guard| guard_v(g)),
        body: goal_v(r.body),
    }
}

pub open spec fn rules_v(rs: Seq<Rule>) -> Seq<RuleV> {
    rs.map_values(|r: Rule| rule_v(r))
}

/// A term with the same value.
pub fn copy_term(t: &Term) -> (r: Term)
    ensures
        term_v(r) == term_v(*t),
    decreases t,
{
    match t {
        Term::Var(v) => Term::Var(*v),
        Term::App(n, xs) => {
            let mut out: Vec<Term> = Vec::new();
            let mut i: usize = 0;
            while i < xs.len()
                invariant
                    *t == Term::App(*n, *xs),
                    0 <= i <= xs.len(),
                    out@.len() == i,
                    forall|j: int| 0 <= j < i ==> term_v(#[trigger] out@[j]) == term_v(xs@[j]),
                decreases xs.len() - i,
            {
                proof {
                    assert(decreases_to!(*t => t->App_1));
                    assert(decreases_to!(*xs => xs[i as int]));
                }
                out.push(copy_term(&xs[i]));
                i += 1;
            }
            let name = n.clone();
            let r = Term::App(name, out);
            proof {
                let a = term_v(r)->App_1;
                let b = term_v(*t)->App_1;
                assert(a.len() == b.len());
                assert forall|j: int| 0 <= j < a.len() implies a[j] == b[j] by {
                    assert(a[j] == term_v(out@[j]));
                    assert(b[j] == term_v(xs@[j]));
                }
                assert(a =~= b);
            }
            r
        },
    }
}

/// Terms with the same values.
pub fn copy_terms(xs: &Vec<Term>) -> (r: Vec<Term>)
    ensures
        terms_v(r@) == terms_v(xs@),
{
    let mut out: Vec<Term> = Vec::new();
    let mut i: usize = 0;
    while i < xs.len()
        invariant
            0 <= i <= xs.len(),
            out@.len() == i,
            forall|j: int| 0 <= j < i ==> term_v(#[trigger] out@[j]) == term_v(xs@[j]),
        decreases xs.len() - i,
    {
        out.push(copy_term(&xs[i]));
        i += 1;
    }
    proof {
        assert(terms_v(out@) =~= terms_v(xs@));
    }
    out
}

/// A constraint with the same value.
pub fn copy_constraint(c: &Constraint) -> (r: Constraint)
    ensures
        constraint_v(r) == constraint_v(*c),
{
    Constraint { name: c.name.clone(), args: copy_terms(&c.args) }
}

/// Constraints with the same values.
pub fn copy_constraints(cs: &Vec<Constraint>) -> (r: Vec<Constraint>)
    ensures
        constraints_v(r@) == constraints_v(cs@),
{
    let mut out: Vec<Constraint> = Vec::new();
    let mut i: usize = 0;
    while i < cs.len()
        invariant
            0 <= i <= cs.len(),
            out@.len() == i,
            forall|j: int| 0 <= j < i ==> constraint_v(#[trigger] out@[j]) == constraint_v(cs@[j]),
        decreases cs.len() - i,
    {
        out.push(copy_constraint(&cs[i]));
        i += 1;
    }
    proof {
        assert(constraints_v(out@) =~= constraints_v(cs@));
    }
    out
}

/// A goal with the same value.
pub fn copy_goal(g: &Goal) -> (r: Goal)
    ensures
        goal_v(r) == goal_v(*g),
    decreases g,
{
    match g {
        Goal::Constraint(c) => Goal::Constraint(copy_constraint(c)),
        Goal::Unify(a, b) => Goal::Unify(copy_term(a), copy_term(b)),
        Goal::And(gs) => {
            let mut out: Vec<Goal> = Vec::new();
            let mut i: usize = 0;
            while i < gs.len()
                invariant
                    *g == Goal::And(*gs),
                    0 <= i <= gs.len(),
                    out@.len() == i,
                    forall|j: int| 0 <= j < i ==> goal_v(#[trigger] out@[j]) == goal_v(gs@[j]),
                decreases gs.len() - i,
            {
                proof {
                    assert(decreases_to!(*g => g->And_0));
                    assert(decreases_to!(*gs => gs[i as int]));
                }
                out.push(copy_goal(&gs[i]));
                i += 1;
            }
            let r = Goal::And(out);
            proof {
                let a = goal_v(r)->And_0;
                let b = goal_v(*g)->And_0;
                assert forall|j: int| 0 <= j < a.len() implies a[j] == b[j] by {
                    assert(a[j] == goal_v(out@[j]));
                    assert(b[j] == goal_v(gs@[j]));
                }
                assert(a =~= b);
            }
            r
        },
        Goal::Or(a, b) => Goal::Or(Box::new(copy_goal(a)), Box::new(copy_goal(b))),
        Goal::True => Goal::True,
        Goal::Fail => Goal::Fail,
    }
}

/// A rule with the same value.
pub fn copy_rule(r: &Rule) -> (out: Rule)
    ensures
        rule_v(out) == rule_v(*r),
{
    let mut guards: Vec<Guard> = Vec::new();
    let mut i: usize = 0;
    while i < r.guards.len()
        invariant
            0 <= i <= r.guards.len(),
            guards@.len() == i,
            forall|j: int| 0 <= j < i ==> guard_v(#[trigger] guards@[j]) == guard_v(r.guards@[j]),
        decreases r.guards.len() - i,
    {
        match &r.guards[i] {
            Guard::Equal(a, b) => {
                guards.push(Guard::Equal(copy_term(a), copy_term(b)));
            },
        }
        i += 1;
    }
    let out = Rule {
        name: r.name.clone(),
        kept: copy_constraints(&r.kept),
        removed: copy_constraints(&r.removed),
        guards,
        body: copy_goal(&r.body),
    };
    proof {
        assert(out.guards@.map_values(|g: Guard| guard_v(g)) =~= r.guards@.map_values(|g: Guard| guard_v(g)));
    }
    out
}
/// One answer of a query: each output's term and the residual store.
#[derive(Debug)]
pub struct Answer {
    pub outputs: Vec<(String, Term)>,
    pub residual: Vec<Constraint>,
}

/// The value of an answer.
pub struct AnswerV {
    pub outputs: Seq<(Seq<char>, TermV)>,
    pub residual: Seq<ConstraintV>,
}

pub open spec fn outputs_v(os: Seq<(String, Term)>) -> Seq<(Seq<char>, TermV)> {
    os.map_values(|o: (String, Term)| (o.0@, term_v(o.1)))
}

pub open spec fn answer_v(a: Answer) -> AnswerV {
    AnswerV { outputs: outputs_v(a.outputs@), residual: constraints_v(a.residual@) }
}

pub open spec fn answers_v(s: Seq<Answer>) -> Seq<AnswerV> {
    s.map_values(|a: Answer| answer_v(a))
}

/// An answer with the same value.
pub fn copy_answer(a: &Answer) -> (r: Answer)
    ensures
        answer_v(r) == answer_v(*a),
{
    let mut outputs: Vec<(String, Term)> = Vec::new();
    let mut i: usize = 0;
    while i < a.outputs.len()
        invariant
            0 <= i <= a.outputs@.len(),
            outputs@.len() == i,
            forall|j: int| 0 <= j < i ==> (#[trigger] outputs@[j]).0@ == a.outputs@[j].0@ && term_v(outputs@[j].1)
                == term_v(a.outputs@[j].1),
        decreases a.outputs.len() - i,
    {
        outputs.push((a.outputs[i].0.clone(), copy_term(&a.outputs[i].1)));
        i += 1;
    }
    let r = Answer { outputs, residual: copy_constraints(&a.residual) };
    proof {
        assert(outputs_v(r.outputs@) =~= outputs_v(a.outputs@));
    }
    r
}

} // verus!
