//! Admission of finite initial phases.
//!
//! A prefix of the source rules is a finite initial phase when its rules each
//! consume one private head: first the choice producers, whose bodies choose
//! among weighted atoms, then deterministic rules whose bodies post only
//! private, non-choice constraints. Every source node visited is paid for from
//! one budget, and no walk descends past a fixed depth.
use crate::capacity_search::find_producer;
use crate::finite::{Budget, Domain, Error, Limits, MAX_DEPTH, TERM_DEPTH, TERM_NODES, sum_overflows, sum_v};
use crate::order::{Order, compare_key, lemma_key_order};
use crate::phase_solve::{Machine, Report, det_body, report_of, solve_v, start_v};
use crate::resource_fusion::{Counts, KeyV, VarSet, heads_of, key_v, lemma_terms_vars_index, term_vars, term_vars_into, terms_vars};
use crate::syntax::{Constraint, ConstraintV, Goal, GoalV, Query, Rule, RuleV, Term, TermV, Var, constraint_v, constraints_v, copy_rule, goal_v, rule_v, rules_v, term_v, terms_v};
use vstd::prelude::*;

verus! {

/// What walking a term from `depth` leaves of `left` nodes, or the limit it meets first.
pub open spec fn walk_v(t: TermV, left: nat, depth: nat) -> Result<nat, Error>
    decreases t, 0nat,
{
    if depth > MAX_DEPTH {
        Err(Error::Limit(TERM_DEPTH))
    } else if left == 0 {
        Err(Error::Limit(TERM_NODES))
    } else {
        match t {
            TermV::Var(_) => Ok((left - 1) as nat),
            TermV::App(_, xs) => walks_v(xs, (left - 1) as nat, depth + 1),
        }
    }
}

/// Walking terms one after another.
pub open spec fn walks_v(xs: Seq<TermV>, left: nat, depth: nat) -> Result<nat, Error>
    decreases xs, 1nat,
{
    if xs.len() == 0 {
        Ok(left)
    } else {
        match walks_v(xs.drop_last(), left, depth) {
            Ok(l) => walk_v(xs.last(), l, depth),
            Err(e) => Err(e),
        }
    }
}

/// An error in walking the first terms is the error in walking all of them.
proof fn lemma_walks_prefix(xs: Seq<TermV>, j: int, left: nat, depth: nat)
    requires
        0 <= j <= xs.len(),
        walks_v(xs.take(j), left, depth) is Err,
    ensures
        walks_v(xs, left, depth) == walks_v(xs.take(j), left, depth),
    decreases xs.len() - j,
{
    if j < xs.len() {
        assert(xs.take(j + 1).drop_last() =~= xs.take(j));
        lemma_walks_prefix(xs, j + 1, left, depth);
    } else {
        assert(xs.take(j) =~= xs);
    }
}

/// Pay for every node of a term, from `depth` down.
pub fn walk(t: &Term, budget: &mut Budget, depth: usize) -> (r: Result<(), Error>)
    ensures
        match walk_v(term_v(*t), old(budget).left as nat, depth as nat) {
            Ok(l) => r is Ok && final(budget).left == l,
            Err(e) => r == Err::<(), Error>(e),
        },
    decreases t,
{
    budget.node(depth)?;
    match t {
        Term::Var(_) => Ok(()),
        Term::App(_, xs) => {
            let ghost vs = term_v(*t)->App_1;
            let ghost start = (old(budget).left - 1) as nat;
            proof {
                assert(old(budget).left > 0 && depth <= MAX_DEPTH);
            }
            let mut i: usize = 0;
            proof {
                assert(vs.take(0) =~= Seq::<TermV>::empty());
            }
            while i < xs.len()
                invariant
                    *t == Term::App(t->App_0, *xs),
                    vs == term_v(*t)->App_1,
                    vs.len() == xs@.len(),
                    depth <= MAX_DEPTH,
                    old(budget).left > 0,
                    start == (old(budget).left - 1) as nat,
                    0 <= i <= xs.len(),
                    walks_v(vs.take(i as int), start, depth as nat + 1) == Ok::<nat, Error>(budget.left as nat),
                decreases xs.len() - i,
            {
                proof {
                    assert(decreases_to!(*t => t->App_1));
                    assert(decreases_to!(*xs => xs[i as int]));
                    assert(vs[i as int] == term_v(xs@[i as int]));
                    assert(vs.take(i + 1).drop_last() =~= vs.take(i as int));
                }
                let ghost l0 = budget.left as nat;
                match walk(&xs[i], budget, depth + 1) {
                    Ok(()) => {},
                    Err(e) => {
                        proof {
                            assert(walk_v(vs[i as int], l0, depth as nat + 1) == Err::<nat, Error>(e));
                            assert(vs.take(i + 1).last() == vs[i as int]);
                            assert(walks_v(vs.take(i + 1), start, depth as nat + 1) == Err::<nat, Error>(e));
                            lemma_walks_prefix(vs, i + 1, start, depth as nat + 1);
                            assert(walk_v(term_v(*t), old(budget).left as nat, depth as nat) == walks_v(vs, start, depth as nat + 1));
                        }
                        return Err(e);
                    },
                }
                i += 1;
            }
            proof {
                assert(vs.take(i as int) =~= vs);
            }
            Ok(())
        },
    }
}

/// The atom a unification chooses for `var`: `var = atom`, either way round.
pub open spec fn chosen_atom(a: TermV, b: TermV, var: u64) -> Option<Seq<char>> {
    match (a, b) {
        (TermV::Var(v), TermV::App(n, xs)) => if v == var && xs.len() == 0 {
            Some(n)
        } else {
            None
        },
        (TermV::App(n, xs), TermV::Var(v)) => if v == var && xs.len() == 0 {
            Some(n)
        } else {
            None
        },
        _ => None,
    }
}

/// The weighted atoms a producer body chooses for `var`, and what is left of the
/// budget; `None` where the body is no such choice. Alternatives add their
/// weights value by value.
pub open spec fn choice_v(g: GoalV, var: u64, left: nat, depth: nat) -> Result<(Option<Map<Seq<char>, u128>>, nat), Error>
    decreases g,
{
    if depth > MAX_DEPTH {
        Err(Error::Limit(TERM_DEPTH))
    } else if left == 0 {
        Err(Error::Limit(TERM_NODES))
    } else {
        let l = (left - 1) as nat;
        match g {
            GoalV::Or(a, b) => match choice_v(*a, var, l, depth + 1) {
                Err(e) => Err(e),
                Ok((ca, la)) => match choice_v(*b, var, la, depth + 1) {
                    Err(e) => Err(e),
                    Ok((cb, lb)) => match (ca, cb) {
                        (Some(x), Some(y)) => if sum_overflows(x, y) {
                            Err(Error::MultiplicityOverflow)
                        } else {
                            Ok((Some(sum_v(x, y)), lb))
                        },
                        _ => Ok((None, lb)),
                    },
                },
            },
            GoalV::Unify(a, b) => match chosen_atom(a, b, var) {
                Some(n) => Ok((Some(map![n => 1u128]), l)),
                None => Ok((None, l)),
            },
            GoalV::Fail => Ok((Some(Map::empty()), l)),
            _ => Ok((None, l)),
        }
    }
}

/// The weighted atoms a producer body chooses for `variable`.
pub fn choice(g: &Goal, variable: Var, budget: &mut Budget, depth: usize) -> (r: Result<Option<Domain>, Error>)
    ensures
        match choice_v(goal_v(*g), variable.0, old(budget).left as nat, depth as nat) {
            Ok((d, l)) => r matches Ok(rd) && final(budget).left == l && match d {
                Some(m) => rd matches Some(dd) && dd.wf() && dd.weights() == m,
                None => rd is None,
            },
            Err(e) => r == Err::<Option<Domain>, Error>(e),
        },
    decreases g,
{
    budget.node(depth)?;
    match g {
        Goal::Or(a, b) => {
            let ca = choice(a, variable, budget, depth + 1)?;
            let cb = choice(b, variable, budget, depth + 1)?;
            match (ca, cb) {
                (Some(mut x), Some(y)) => {
                    x.add_all(&y)?;
                    Ok(Some(x))
                },
                _ => Ok(None),
            }
        },
        Goal::Unify(a, b) => {
            let value = match (a, b) {
                (Term::Var(v), Term::App(n, xs)) if v.0 == variable.0 && xs.len() == 0 => Some(n),
                (Term::App(n, xs), Term::Var(v)) if v.0 == variable.0 && xs.len() == 0 => Some(n),
                _ => None,
            };
            match value {
                Some(n) => {
                    let mut d = Domain::new();
                    d.insert(n.clone(), 1);
                    proof {
                        assert(d.weights() =~= map![n@ => 1u128]);
                    }
                    Ok(Some(d))
                },
                None => Ok(None),
            }
        },
        Goal::Fail => Ok(Some(Domain::new())),
        _ => Ok(None),
    }
}

/// The error for a body term with a variable its head does not bind.
pub const FRESH_BODY_VARIABLE: &'static str = "fresh body variable";

/// The error for a deterministic body with alternatives.
pub const NON_PRODUCER_ALTERNATIVE: &'static str = "non-producer alternative";

/// Checking one body term: walk it, then require its variables among the head's.
pub open spec fn term_check_v(t: TermV, head: Set<u64>, left: nat) -> Result<nat, Error> {
    match walk_v(t, left, 0) {
        Ok(l) => if term_vars(t).subset_of(head) {
            Ok(l)
        } else {
            Err(Error::Source(FRESH_BODY_VARIABLE))
        },
        Err(e) => Err(e),
    }
}

/// Checking body terms one after another.
pub open spec fn terms_check_v(ts: Seq<TermV>, head: Set<u64>, left: nat) -> Result<nat, Error>
    decreases ts.len(),
{
    if ts.len() == 0 {
        Ok(left)
    } else {
        match terms_check_v(ts.drop_last(), head, left) {
            Ok(l) => term_check_v(ts.last(), head, l),
            Err(e) => Err(e),
        }
    }
}

/// Checking a deterministic body: the keys it posts, in order, and what is left
/// of the budget, or the first error.
pub open spec fn goal_check_v(g: GoalV, head: Set<u64>, left: nat, depth: nat) -> Result<(Seq<KeyV>, nat), Error>
    decreases g, 0nat,
{
    if depth > MAX_DEPTH {
        Err(Error::Limit(TERM_DEPTH))
    } else if left == 0 {
        Err(Error::Limit(TERM_NODES))
    } else {
        let l = (left - 1) as nat;
        match g {
            GoalV::Constraint(c) => match terms_check_v(c.args, head, l) {
                Ok(l2) => Ok((seq![key_v(c)], l2)),
                Err(e) => Err(e),
            },
            GoalV::Unify(a, b) => match term_check_v(a, head, l) {
                Ok(l2) => match term_check_v(b, head, l2) {
                    Ok(l3) => Ok((Seq::empty(), l3)),
                    Err(e) => Err(e),
                },
                Err(e) => Err(e),
            },
            GoalV::And(gs) => goals_check_v(gs, head, l, depth + 1),
            GoalV::Or(_, _) => Err(Error::Source(NON_PRODUCER_ALTERNATIVE)),
            _ => Ok((Seq::empty(), l)),
        }
    }
}

/// Checking deterministic goals one after another.
pub open spec fn goals_check_v(gs: Seq<GoalV>, head: Set<u64>, left: nat, depth: nat) -> Result<(Seq<KeyV>, nat), Error>
    decreases gs, 1nat,
{
    if gs.len() == 0 {
        Ok((Seq::empty(), left))
    } else {
        match goals_check_v(gs.drop_last(), head, left, depth) {
            Ok((ks, l)) => match goal_check_v(gs.last(), head, l, depth) {
                Ok((ks2, l2)) => Ok((ks + ks2, l2)),
                Err(e) => Err(e),
            },
            Err(e) => Err(e),
        }
    }
}

/// The keys of a list of calls.
pub open spec fn keys_of(calls: Seq<(String, usize)>) -> Seq<KeyV> {
    calls.map_values(|k: (String, usize)| (k.0@, k.1 as nat))
}

proof fn lemma_terms_check_prefix(ts: Seq<TermV>, j: int, head: Set<u64>, left: nat)
    requires
        0 <= j <= ts.len(),
        terms_check_v(ts.take(j), head, left) is Err,
    ensures
        terms_check_v(ts, head, left) == terms_check_v(ts.take(j), head, left),
    decreases ts.len() - j,
{
    if j < ts.len() {
        assert(ts.take(j + 1).drop_last() =~= ts.take(j));
        lemma_terms_check_prefix(ts, j + 1, head, left);
    } else {
        assert(ts.take(j) =~= ts);
    }
}

proof fn lemma_goals_check_prefix(gs: Seq<GoalV>, j: int, head: Set<u64>, left: nat, depth: nat)
    requires
        0 <= j <= gs.len(),
        goals_check_v(gs.take(j), head, left, depth) is Err,
    ensures
        goals_check_v(gs, head, left, depth) == goals_check_v(gs.take(j), head, left, depth),
    decreases gs.len() - j,
{
    if j < gs.len() {
        assert(gs.take(j + 1).drop_last() =~= gs.take(j));
        lemma_goals_check_prefix(gs, j + 1, head, left, depth);
    } else {
        assert(gs.take(j) =~= gs);
    }
}

/// Check one body term against the head's variables.
fn term_in_head(t: &Term, head: &VarSet, budget: &mut Budget) -> (r: Result<(), Error>)
    requires
        head.wf(),
    ensures
        match term_check_v(term_v(*t), head.set(), old(budget).left as nat) {
            Ok(l) => r is Ok && final(budget).left == l,
            Err(e) => r == Err::<(), Error>(e),
        },
{
    walk(t, budget, 0)?;
    let mut vars = VarSet::new();
    term_vars_into(t, &mut vars);
    proof {
        assert(vars.set() =~= term_vars(term_v(*t)));
    }
    if !vars.subset_of(head) {
        return Err(Error::Source(FRESH_BODY_VARIABLE));
    }
    Ok(())
}

/// Check body terms one after another.
fn terms_in_head(ts: &Vec<Term>, head: &VarSet, budget: &mut Budget) -> (r: Result<(), Error>)
    requires
        head.wf(),
    ensures
        match terms_check_v(terms_v(ts@), head.set(), old(budget).left as nat) {
            Ok(l) => r is Ok && final(budget).left == l,
            Err(e) => r == Err::<(), Error>(e),
        },
{
    let ghost vs = terms_v(ts@);
    let ghost start = old(budget).left as nat;
    let mut i: usize = 0;
    proof {
        assert(vs.take(0) =~= Seq::<TermV>::empty());
    }
    while i < ts.len()
        invariant
            head.wf(),
            vs == terms_v(ts@),
            start == old(budget).left as nat,
            0 <= i <= ts.len(),
            terms_check_v(vs.take(i as int), head.set(), start) == Ok::<nat, Error>(budget.left as nat),
        decreases ts.len() - i,
    {
        proof {
            assert(vs.take(i + 1).drop_last() =~= vs.take(i as int));
            assert(vs.take(i + 1).last() == term_v(ts@[i as int]));
        }
        match term_in_head(&ts[i], head, budget) {
            Ok(()) => {},
            Err(e) => {
                proof {
                    lemma_terms_check_prefix(vs, i + 1, head.set(), start);
                }
                return Err(e);
            },
        }
        i += 1;
    }
    proof {
        assert(vs.take(i as int) =~= vs);
    }
    Ok(())
}

/// Check a deterministic body, recording the keys it posts.
pub fn goal_check(g: &Goal, head: &VarSet, calls: &mut Vec<(String, usize)>, budget: &mut Budget, depth: usize) -> (r: Result<(), Error>)
    requires
        head.wf(),
    ensures
        match goal_check_v(goal_v(*g), head.set(), old(budget).left as nat, depth as nat) {
            Ok((ks, l)) => r is Ok && final(budget).left == l && keys_of(final(calls)@) == keys_of(old(calls)@) + ks,
            Err(e) => r == Err::<(), Error>(e),
        },
    decreases g,
{
    budget.node(depth)?;
    match g {
        Goal::Constraint(c) => {
            terms_in_head(&c.args, head, budget)?;
            calls.push((c.name.clone(), c.args.len()));
            proof {
                assert(keys_of(calls@) =~= keys_of(old(calls)@) + seq![key_v(constraint_v(*c))]);
            }
            Ok(())
        },
        Goal::Unify(a, b) => {
            term_in_head(a, head, budget)?;
            term_in_head(b, head, budget)?;
            proof {
                assert(keys_of(calls@) =~= keys_of(old(calls)@) + Seq::<KeyV>::empty());
            }
            Ok(())
        },
        Goal::And(gs) => {
            let ghost vs = goal_v(*g)->And_0;
            let ghost start = (old(budget).left - 1) as nat;
            let ghost before = keys_of(old(calls)@);
            let mut i: usize = 0;
            proof {
                assert(vs.take(0) =~= Seq::<GoalV>::empty());
                assert(keys_of(calls@) =~= before + Seq::<KeyV>::empty());
            }
            while i < gs.len()
                invariant
                    head.wf(),
                    *g == Goal::And(*gs),
                    vs == goal_v(*g)->And_0,
                    vs.len() == gs@.len(),
                    depth <= MAX_DEPTH,
                    old(budget).left > 0,
                    start == (old(budget).left - 1) as nat,
                    before == keys_of(old(calls)@),
                    0 <= i <= gs.len(),
                    goals_check_v(vs.take(i as int), head.set(), start, depth as nat + 1) matches Ok((ks, l)) && l
                        == budget.left && keys_of(calls@) == before + ks,
                decreases gs.len() - i,
            {
                proof {
                    assert(decreases_to!(*g => g->And_0));
                    assert(decreases_to!(*gs => gs[i as int]));
                    assert(vs[i as int] == goal_v(gs@[i as int]));
                    assert(vs.take(i + 1).drop_last() =~= vs.take(i as int));
                    assert(vs.take(i + 1).last() == vs[i as int]);
                }
                let ghost prev = goals_check_v(vs.take(i as int), head.set(), start, depth as nat + 1);
                match goal_check(&gs[i], head, calls, budget, depth + 1) {
                    Ok(()) => {
                        proof {
                            let ks = prev->Ok_0.0;
                            let ks2 = goal_check_v(vs[i as int], head.set(), prev->Ok_0.1, depth as nat + 1)->Ok_0.0;
                            assert(before + ks + ks2 =~= before + (ks + ks2));
                        }
                    },
                    Err(e) => {
                        proof {
                            lemma_goals_check_prefix(vs, i + 1, head.set(), start, depth as nat + 1);
                            assert(goal_check_v(goal_v(*g), head.set(), old(budget).left as nat, depth as nat) == goals_check_v(vs, head.set(), start, depth as nat + 1));
                        }
                        return Err(e);
                    },
                }
                i += 1;
            }
            proof {
                assert(vs.take(i as int) =~= vs);
            }
            Ok(())
        },
        Goal::Or(_, _) => Err(Error::Source(NON_PRODUCER_ALTERNATIVE)),
        _ => {
            proof {
                assert(keys_of(calls@) =~= keys_of(old(calls)@) + Seq::<KeyV>::empty());
            }
            Ok(())
        },
    }
}

/// Whether a term has distinct variables, none of them in `seen`; then the
/// variables seen afterwards.
pub open spec fn linear_v(t: TermV, seen: Set<u64>) -> Option<Set<u64>>
    decreases t, 0nat,
{
    match t {
        TermV::Var(v) => if seen.contains(v) {
            None
        } else {
            Some(seen.insert(v))
        },
        TermV::App(_, xs) => linears_v(xs, seen),
    }
}

pub open spec fn linears_v(xs: Seq<TermV>, seen: Set<u64>) -> Option<Set<u64>>
    decreases xs, 1nat,
{
    if xs.len() == 0 {
        Some(seen)
    } else {
        match linears_v(xs.drop_last(), seen) {
            Some(s) => linear_v(xs.last(), s),
            None => None,
        }
    }
}

proof fn lemma_linears_prefix(xs: Seq<TermV>, j: int, seen: Set<u64>)
    requires
        0 <= j <= xs.len(),
        linears_v(xs.take(j), seen) is None,
    ensures
        linears_v(xs, seen) is None,
    decreases xs.len() - j,
{
    if j < xs.len() {
        assert(xs.take(j + 1).drop_last() =~= xs.take(j));
        lemma_linears_prefix(xs, j + 1, seen);
    } else {
        assert(xs.take(j) =~= xs);
    }
}

/// Record the variables of a term; `false` where one repeats or was seen before.
pub fn linear(t: &Term, seen: &mut VarSet) -> (r: bool)
    requires
        old(seen).wf(),
    ensures
        final(seen).wf(),
        r == linear_v(term_v(*t), old(seen).set()) is Some,
        r ==> final(seen).set() == linear_v(term_v(*t), old(seen).set())->Some_0,
    decreases t,
{
    match t {
        Term::Var(v) => {
            if seen.contains(v.0) {
                false
            } else {
                seen.insert(v.0);
                true
            }
        },
        Term::App(_, xs) => {
            let ghost vs = term_v(*t)->App_1;
            let ghost start = old(seen).set();
            let mut i: usize = 0;
            proof {
                assert(vs.take(0) =~= Seq::<TermV>::empty());
            }
            while i < xs.len()
                invariant
                    *t == Term::App(t->App_0, *xs),
                    vs == term_v(*t)->App_1,
                    vs.len() == xs@.len(),
                    start == old(seen).set(),
                    seen.wf(),
                    0 <= i <= xs.len(),
                    linears_v(vs.take(i as int), start) == Some(seen.set()),
                decreases xs.len() - i,
            {
                proof {
                    assert(decreases_to!(*t => t->App_1));
                    assert(decreases_to!(*xs => xs[i as int]));
                    assert(vs[i as int] == term_v(xs@[i as int]));
                    assert(vs.take(i + 1).drop_last() =~= vs.take(i as int));
                    assert(vs.take(i + 1).last() == vs[i as int]);
                }
                if !linear(&xs[i], seen) {
                    proof {
                        lemma_linears_prefix(vs, i + 1, start);
                    }
                    return false;
                }
                i += 1;
            }
            proof {
                assert(vs.take(i as int) =~= vs);
            }
            true
        },
    }
}

/// The error for a head argument that repeats a variable.
pub const NONLINEAR_HEAD: &'static str = "nonlinear private head";

/// Checking the arguments of a private head one after another: walk each, then
/// require it linear; the variables the head binds, and what is left of the budget.
pub open spec fn head_check_v(args: Seq<TermV>, left: nat) -> Result<(Set<u64>, nat), Error>
    decreases args.len(),
{
    if args.len() == 0 {
        Ok((Set::empty(), left))
    } else {
        match head_check_v(args.drop_last(), left) {
            Ok((seen, l)) => match walk_v(args.last(), l, 0) {
                Ok(l2) => match linear_v(args.last(), seen) {
                    Some(s) => Ok((s, l2)),
                    None => Err(Error::Source(NONLINEAR_HEAD)),
                },
                Err(e) => Err(e),
            },
            Err(e) => Err(e),
        }
    }
}

proof fn lemma_head_check_prefix(args: Seq<TermV>, j: int, left: nat)
    requires
        0 <= j <= args.len(),
        head_check_v(args.take(j), left) is Err,
    ensures
        head_check_v(args, left) == head_check_v(args.take(j), left),
    decreases args.len() - j,
{
    if j < args.len() {
        assert(args.take(j + 1).drop_last() =~= args.take(j));
        lemma_head_check_prefix(args, j + 1, left);
    } else {
        assert(args.take(j) =~= args);
    }
}

/// Check the arguments of a private head.
fn head_check(h: &Constraint, budget: &mut Budget) -> (r: Result<VarSet, Error>)
    ensures
        match head_check_v(constraint_v(*h).args, old(budget).left as nat) {
            Ok((seen, l)) => r matches Ok(s) && s.wf() && s.set() == seen && final(budget).left == l,
            Err(e) => r matches Err(e2) && e2 == e,
        },
{
    let ghost vs = constraint_v(*h).args;
    let ghost start = old(budget).left as nat;
    let mut seen = VarSet::new();
    let mut i: usize = 0;
    proof {
        assert(vs.take(0) =~= Seq::<TermV>::empty());
    }
    while i < h.args.len()
        invariant
            vs == constraint_v(*h).args,
            vs.len() == h.args@.len(),
            start == old(budget).left as nat,
            seen.wf(),
            0 <= i <= h.args.len(),
            head_check_v(vs.take(i as int), start) == Ok::<(Set<u64>, nat), Error>((seen.set(), budget.left as nat)),
        decreases h.args.len() - i,
    {
        proof {
            assert(vs.take(i + 1).drop_last() =~= vs.take(i as int));
            assert(vs.take(i + 1).last() == term_v(h.args@[i as int]));
        }
        match walk(&h.args[i], budget, 0) {
            Ok(()) => {},
            Err(e) => {
                proof {
                    lemma_head_check_prefix(vs, i + 1, start);
                }
                return Err(e);
            },
        }
        if !linear(&h.args[i], &mut seen) {
            proof {
                lemma_head_check_prefix(vs, i + 1, start);
            }
            return Err(Error::Source(NONLINEAR_HEAD));
        }
        i += 1;
    }
    proof {
        assert(vs.take(i as int) =~= vs);
    }
    Ok(seen)
}

/// The errors of admitting a phase.
pub const BAD_PREFIX: &'static str = "invalid prefix";

pub const DUPLICATE_RULE: &'static str = "duplicate rule name";

pub const NOT_SINGLE_HEAD: &'static str = "private rule must be unguarded single-head consumption";

pub const PRODUCERS_FIRST: &'static str = "choice producers must be unique and precede deterministic rules";

pub const NO_PRODUCER: &'static str = "no finite choice producer";

pub const COMPETING_HEAD: &'static str = "competing choice head";

pub const BODY_ESCAPES: &'static str = "body escapes phase or creates choices";

pub const OUTSIDE_HEAD: &'static str = "outside head touches private predicate";

/// The budget of source nodes for admitting a phase.
pub const ADMISSION_NODES: usize = 2_000_000;

/// What admission has learned after some rules of the phase.
pub struct PhaseV {
    /// The keys of the private heads.
    pub private: Set<KeyV>,
    /// The choice producers: head key and weighted atoms.
    pub producers: Map<KeyV, Map<Seq<char>, u128>>,
    /// The deterministic rules, in order.
    pub rules: Seq<RuleV>,
    /// A deterministic rule was met.
    pub deterministic: bool,
    /// The keys the deterministic bodies post, in order.
    pub calls: Seq<KeyV>,
    /// What is left of the budget.
    pub left: nat,
}

/// Admitting one more rule of the phase.
pub open spec fn rule_step_v(st: PhaseV, r: RuleV) -> Result<PhaseV, Error> {
    if r.kept.len() != 0 || r.removed.len() != 1 || r.guards.len() != 0 {
        Err(Error::Source(NOT_SINGLE_HEAD))
    } else {
        let h = r.removed[0];
        let k = key_v(h);
        match head_check_v(h.args, st.left) {
            Err(e) => Err(e),
            Ok((seen, l1)) => {
                let extracted = if h.args.len() == 1 && h.args[0] is Var {
                    choice_v(r.body, h.args[0]->Var_0, l1, 0)
                } else {
                    Ok((None, l1))
                };
                match extracted {
                    Err(e) => Err(e),
                    Ok((Some(d), l2)) => if st.deterministic || st.producers.contains_key(k) {
                        Err(Error::Source(PRODUCERS_FIRST))
                    } else {
                        Ok(
                            PhaseV {
                                private: st.private.insert(k),
                                producers: st.producers.insert(k, d),
                                rules: st.rules,
                                deterministic: st.deterministic,
                                calls: st.calls,
                                left: l2,
                            },
                        )
                    },
                    Ok((None, l2)) => match goal_check_v(r.body, seen, l2, 0) {
                        Err(e) => Err(e),
                        Ok((ks, l3)) => Ok(
                            PhaseV {
                                private: st.private.insert(k),
                                producers: st.producers,
                                rules: st.rules.push(r),
                                deterministic: true,
                                calls: st.calls + ks,
                                left: l3,
                            },
                        ),
                    },
                }
            },
        }
    }
}

/// Admitting the first `n` rules, in order.
pub open spec fn scan_v(source: Seq<RuleV>, n: int) -> Result<PhaseV, Error>
    decreases n,
{
    if n <= 0 {
        Ok(
            PhaseV {
                private: Set::empty(),
                producers: Map::empty(),
                rules: Seq::empty(),
                deterministic: false,
                calls: Seq::empty(),
                left: ADMISSION_NODES as nat,
            },
        )
    } else {
        match scan_v(source, n - 1) {
            Ok(st) => rule_step_v(st, source[n - 1]),
            Err(e) => Err(e),
        }
    }
}

/// No two rules share a name.
pub open spec fn distinct_names(source: Seq<RuleV>) -> bool {
    forall|i: int, j: int| 0 <= i < j < source.len() ==> source[i].name != source[j].name
}

/// Admitting the first `prefix` rules of `source` as a finite initial phase.
pub open spec fn admit_v(source: Seq<RuleV>, prefix: int) -> Result<PhaseV, Error> {
    if prefix == 0 || prefix > source.len() || source.len() > 4096 {
        Err(Error::Source(BAD_PREFIX))
    } else if !distinct_names(source) {
        Err(Error::Source(DUPLICATE_RULE))
    } else {
        match scan_v(source, prefix) {
            Err(e) => Err(e),
            Ok(st) => if st.producers.dom() == Set::<KeyV>::empty() {
                Err(Error::Source(NO_PRODUCER))
            } else if exists|i: int| 0 <= i < st.rules.len() && st.producers.contains_key(key_v(#[trigger] st.rules[i].removed[0])) {
                Err(Error::Source(COMPETING_HEAD))
            } else if exists|i: int|
                0 <= i < st.calls.len() && (!st.private.contains(#[trigger] st.calls[i]) || st.producers.contains_key(st.calls[i])) {
                Err(Error::Source(BODY_ESCAPES))
            } else if exists|i: int, j: int|
                prefix <= i < source.len() && 0 <= j < heads_of(source[i]).len() && st.private.contains(
                    key_v(#[trigger] heads_of(source[i])[j]),
                ) {
                Err(Error::Source(OUTSIDE_HEAD))
            } else {
                Ok(st)
            },
        }
    }
}

/// The key of a keyed domain.
pub open spec fn pkey(e: ((String, usize), Domain)) -> KeyV {
    (e.0.0@, e.0.1 as nat)
}

/// The producers of a list of keyed domains.
pub open spec fn producers_map(ps: Seq<((String, usize), Domain)>) -> Map<KeyV, Map<Seq<char>, u128>> {
    Map::new(
        |k: KeyV| exists|i: int| 0 <= i < ps.len() && #[trigger] pkey(ps[i]) == k,
        |k: KeyV| ps[choose|i: int| 0 <= i < ps.len() && #[trigger] pkey(ps[i]) == k].1.weights(),
    )
}

/// A finite initial phase of a program, admitted from its source.
pub struct Prepared {
    private: Counts,
    producers: Vec<((String, usize), Domain)>,
    rules: Vec<Rule>,
}

impl Prepared {
    pub closed spec fn wf(&self) -> bool {
        &&& self.private.wf()
        &&& forall|i: int, j: int| 0 <= i < j < self.producers@.len() ==> pkey(self.producers@[i]) != pkey(self.producers@[j])
        &&& forall|i: int| 0 <= i < self.producers@.len() ==> (#[trigger] self.producers@[i]).1.wf()
        &&& forall|i: int| 0 <= i < self.producers@.len() ==> (#[trigger] self.producers@[i]).0.1 == 1
        &&& forall|i: int| 0 <= i < self.rules@.len() ==> (#[trigger] self.rules@[i]).removed@.len() == 1 && det_body(
            goal_v(self.rules@[i].body),
            terms_vars(constraint_v(self.rules@[i].removed@[0]).args),
        )
    }

    /// The keys of the private heads.
    pub closed spec fn private_v(&self) -> Set<KeyV> {
        Set::new(|k: KeyV| self.private.count(k) > 0)
    }

    /// The choice producers: head key and weighted atoms.
    pub closed spec fn producers_v(&self) -> Map<KeyV, Map<Seq<char>, u128>> {
        producers_map(self.producers@)
    }

    /// The deterministic rules, in order.
    pub closed spec fn rules_v(&self) -> Seq<RuleV> {
        rules_v(self.rules@)
    }
}

proof fn lemma_scan_error(source: Seq<RuleV>, j: int, n: int)
    requires
        0 <= j <= n,
        scan_v(source, j) is Err,
    ensures
        scan_v(source, n) == scan_v(source, j),
    decreases n - j,
{
    if j < n {
        lemma_scan_error(source, j, n - 1);
    }
}

/// Adding a domain under a new key adds it to the producers.
pub proof fn lemma_producers_push(ps: Seq<((String, usize), Domain)>, x: ((String, usize), Domain))
    requires
        !producers_map(ps).contains_key(pkey(x)),
        forall|a: int, b: int| 0 <= a < b < ps.len() ==> pkey(ps[a]) != pkey(ps[b]),
    ensures
        producers_map(ps.push(x)) == producers_map(ps).insert(pkey(x), x.1.weights()),
{
    let qs = ps.push(x);
    let m1 = producers_map(qs);
    let m2 = producers_map(ps).insert(pkey(x), x.1.weights());
    assert forall|k: KeyV| #[trigger] m1.contains_key(k) <==> m2.contains_key(k) by {
        if m1.contains_key(k) {
            let i = choose|i: int| 0 <= i < qs.len() && #[trigger] pkey(qs[i]) == k;
            if i < ps.len() {
                assert(pkey(ps[i]) == k);
            }
        }
        if producers_map(ps).contains_key(k) {
            let i = choose|i: int| 0 <= i < ps.len() && #[trigger] pkey(ps[i]) == k;
            assert(pkey(qs[i]) == k);
        }
        if k == pkey(x) {
            assert(pkey(qs[ps.len() as int]) == k);
        }
    }
    assert forall|k: KeyV| #[trigger] m1.contains_key(k) implies m1[k] == m2[k] by {
        let i = choose|i: int| 0 <= i < qs.len() && #[trigger] pkey(qs[i]) == k;
        if k == pkey(x) {
            if i < ps.len() {
                assert(pkey(ps[i]) == k);
                assert(producers_map(ps).contains_key(k));
            }
            assert(qs[i] == x);
        } else {
            assert(i < ps.len());
            assert(pkey(ps[i]) == k);
            let j = choose|j: int| 0 <= j < ps.len() && #[trigger] pkey(ps[j]) == k;
            if i < j {
                assert(pkey(ps[i]) != pkey(ps[j]));
            } else if j < i {
                assert(pkey(ps[j]) != pkey(ps[i]));
            }
            assert(qs[i] == ps[i]);
        }
    }
    assert(m1 =~= m2);
}

/// Whether some producer has the key.
pub fn has_producer(ps: &Vec<((String, usize), Domain)>, name: &str, arity: usize) -> (r: bool)
    ensures
        r == producers_map(ps@).contains_key((name@, arity as nat)),
{
    let mut i: usize = 0;
    while i < ps.len()
        invariant
            0 <= i <= ps@.len(),
            forall|j: int| 0 <= j < i ==> #[trigger] pkey(ps@[j]) != (name@, arity as nat),
        decreases ps.len() - i,
    {
        let o = compare_key((ps[i].0.0.as_str(), ps[i].0.1), (name, arity));
        proof {
            lemma_key_order(pkey(ps@[i as int]), (name@, arity as nat));
        }
        if o == Order::Equal {
            return true;
        }
        i += 1;
    }
    false
}

/// Whether no two rules share a name.
pub fn names_distinct(source: &[Rule]) -> (r: bool)
    ensures
        r == distinct_names(rules_v(source@)),
{
    let ghost rs = rules_v(source@);
    let mut j: usize = 0;
    while j < source.len()
        invariant
            rs == rules_v(source@),
            rs.len() == source@.len(),
            0 <= j <= source.len(),
            forall|a: int, b: int| 0 <= a < b < j ==> rs[a].name != rs[b].name,
        decreases source.len() - j,
    {
        let mut i: usize = 0;
        while i < j
            invariant
                rs == rules_v(source@),
                rs.len() == source@.len(),
                0 <= i <= j < source.len(),
                forall|a: int| 0 <= a < i ==> rs[a].name != rs[j as int].name,
            decreases j - i,
        {
            proof {
                assert(rs[i as int].name == source@[i as int].name@);
                assert(rs[j as int].name == source@[j as int].name@);
            }
            if source[i].name == source[j].name {
                return false;
            }
            i += 1;
        }
        j += 1;
    }
    true
}

impl Prepared {
    /// Admit the first `prefix` rules of `source` as a finite initial phase.
    pub fn new(source: &[Rule], prefix: usize) -> (r: Result<Prepared, Error>)
        ensures
            match admit_v(rules_v(source@), prefix as int) {
                Ok(st) => r matches Ok(p) && p.wf() && p.private_v() == st.private && p.producers_v() == st.producers
                    && p.rules_v() == st.rules,
                Err(e) => r matches Err(e2) && e2 == e,
            },
    {
        let ghost rs = rules_v(source@);
        if prefix == 0 || prefix > source.len() || source.len() > 4096 {
            return Err(Error::Source(BAD_PREFIX));
        }
        if !names_distinct(source) {
            return Err(Error::Source(DUPLICATE_RULE));
        }
        let mut budget = Budget { left: ADMISSION_NODES };
        let mut private = Counts::new();
        let mut producers: Vec<((String, usize), Domain)> = Vec::new();
        let mut rules: Vec<Rule> = Vec::new();
        let mut deterministic = false;
        let mut calls: Vec<(String, usize)> = Vec::new();
        let mut i: usize = 0;
        proof {
            assert(Set::new(|k: KeyV| private.count(k) > 0) =~= Set::<KeyV>::empty());
            assert(producers_map(producers@) =~= Map::<KeyV, Map<Seq<char>, u128>>::empty());
            assert(rules_v(rules@) =~= Seq::<RuleV>::empty());
            assert(keys_of(calls@) =~= Seq::<KeyV>::empty());
        }
        while i < prefix
            invariant
                rs == rules_v(source@),
                rs.len() == source@.len(),
                0 < prefix <= source@.len() <= 4096,
                distinct_names(rs),
                0 <= i <= prefix,
                private.wf(),
                forall|k: KeyV| #[trigger] private.count(k) <= i,
                forall|a: int, b: int| 0 <= a < b < producers@.len() ==> pkey(producers@[a]) != pkey(producers@[b]),
                forall|a: int| 0 <= a < producers@.len() ==> (#[trigger] producers@[a]).1.wf(),
                forall|a: int| 0 <= a < rules@.len() ==> (#[trigger] rules@[a]).removed@.len() == 1 && det_body(
                    goal_v(rules@[a].body),
                    terms_vars(constraint_v(rules@[a].removed@[0]).args),
                ),
                forall|a: int| 0 <= a < producers@.len() ==> (#[trigger] producers@[a]).0.1 == 1,
                scan_v(rs, i as int) matches Ok(st) && st.private == Set::new(|k: KeyV| private.count(k) > 0) && st.producers
                    == producers_map(producers@) && st.rules == rules_v(rules@) && st.deterministic == deterministic && st.calls
                    == keys_of(calls@) && st.left == budget.left,
            decreases prefix - i,
        {
            let r = &source[i];
            let ghost st = scan_v(rs, i as int)->Ok_0;
            proof {
                assert(rs[i as int] == rule_v(*r));
            }
            if r.kept.len() != 0 || r.removed.len() != 1 || r.guards.len() != 0 {
                proof {
                    assert(scan_v(rs, i + 1) == Err::<PhaseV, Error>(Error::Source(NOT_SINGLE_HEAD)));
                    lemma_scan_error(rs, i + 1, prefix as int);
                }
                return Err(Error::Source(NOT_SINGLE_HEAD));
            }
            let h = &r.removed[0];
            let ghost hv = constraint_v(*h);
            let ghost k = key_v(hv);
            proof {
                assert(rs[i as int].removed[0] == hv);
            }
            let seen = match head_check(h, &mut budget) {
                Ok(seen) => seen,
                Err(e) => {
                    proof {
                        assert(scan_v(rs, i + 1) == Err::<PhaseV, Error>(e));
                        lemma_scan_error(rs, i + 1, prefix as int);
                    }
                    return Err(e);
                },
            };
            let ghost l1 = budget.left as nat;
            let extracted = if h.args.len() == 1 {
                match &h.args[0] {
                    Term::Var(v) => {
                        proof {
                            assert(hv.args[0] == TermV::Var(v.0));
                        }
                        match choice(&r.body, *v, &mut budget, 0) {
                            Ok(x) => x,
                            Err(e) => {
                                proof {
                                    assert(scan_v(rs, i + 1) == Err::<PhaseV, Error>(e));
                                    lemma_scan_error(rs, i + 1, prefix as int);
                                }
                                return Err(e);
                            },
                        }
                    },
                    _ => {
                        proof {
                            assert(!(hv.args[0] is Var));
                        }
                        None
                    },
                }
            } else {
                None
            };
            let name = h.name.as_str();
            let arity = h.args.len();
            proof {
                assert(k == (name@, arity as nat));
            }
            match extracted {
                Some(d) => {
                    if deterministic || has_producer(&producers, name, arity) {
                        proof {
                            assert(scan_v(rs, i + 1) == Err::<PhaseV, Error>(Error::Source(PRODUCERS_FIRST)));
                            lemma_scan_error(rs, i + 1, prefix as int);
                        }
                        return Err(Error::Source(PRODUCERS_FIRST));
                    }
                    let ghost old_count = private;
                    private.add(name, arity);
                    let ghost ps = producers@;
                    let ghost dw = d.weights();
                    producers.push(((h.name.clone(), arity), d));
                    proof {
                        lemma_producers_push(ps, producers@[ps.len() as int]);
                        assert(producers@ == ps.push(producers@[ps.len() as int]));
                        assert(Set::new(|q: KeyV| private.count(q) > 0) =~= Set::new(|q: KeyV| old_count.count(q) > 0).insert(k));
                        assert forall|a: int, b: int| 0 <= a < b < producers@.len() implies pkey(producers@[a]) != pkey(producers@[b]) by {
                            if b == ps.len() {
                                assert(producers@[a] == ps[a]);
                                assert(pkey(ps[a]) != k) by {
                                    if pkey(ps[a]) == k {
                                        assert(producers_map(ps).contains_key(k));
                                    }
                                }
                            } else {
                                assert(producers@[a] == ps[a] && producers@[b] == ps[b]);
                            }
                        }
                        assert forall|a: int| 0 <= a < producers@.len() implies (#[trigger] producers@[a]).1.wf() by {
                            if a < ps.len() {
                                assert(producers@[a] == ps[a]);
                            }
                        }
                        assert forall|a: int| 0 <= a < producers@.len() implies (#[trigger] producers@[a]).0.1 == 1 by {
                            if a < ps.len() {
                                assert(producers@[a] == ps[a]);
                            }
                        }
                    }
                },
                None => {
                    let ghost before_calls = keys_of(calls@);
                    let ghost lb = budget.left as nat;
                    match goal_check(&r.body, &seen, &mut calls, &mut budget, 0) {
                        Ok(()) => {},
                        Err(e) => {
                            proof {
                                assert(scan_v(rs, i + 1) == Err::<PhaseV, Error>(e));
                                lemma_scan_error(rs, i + 1, prefix as int);
                            }
                            return Err(e);
                        },
                    }
                    deterministic = true;
                    let ghost old_rules = rules@;
                    rules.push(copy_rule(r));
                    let ghost old_count = private;
                    private.add(name, arity);
                    proof {
                        assert(rules_v(rules@) =~= rules_v(old_rules).push(rs[i as int]));
                        let hs = head_check_v(hv.args, st.left)->Ok_0.0;
                        lemma_goal_check_det(goal_v(r.body), seen.set(), lb, 0);
                        lemma_head_check_vars(hv.args, st.left);
                        lemma_det_body_mono(goal_v(r.body), seen.set(), terms_vars(hv.args));
                        assert forall|a: int| 0 <= a < rules@.len() implies (#[trigger] rules@[a]).removed@.len() == 1 && det_body(
                            goal_v(rules@[a].body),
                            terms_vars(constraint_v(rules@[a].removed@[0]).args),
                        ) by {
                            if a < old_rules.len() {
                                assert(rules@[a] == old_rules[a]);
                            } else {
                                let nr = rules@[a];
                                assert(rule_v(nr) == rs[i as int]);
                                assert(rule_v(nr) == rule_v(*r));
                                assert(goal_v(nr.body) == goal_v(r.body));
                                assert(constraints_v(nr.removed@) == constraints_v(r.removed@));
                                assert(constraints_v(nr.removed@)[0] == constraint_v(nr.removed@[0]));
                                assert(constraints_v(r.removed@)[0] == constraint_v(r.removed@[0]));
                            }
                        }
                        assert(Set::new(|q: KeyV| private.count(q) > 0) =~= Set::new(|q: KeyV| old_count.count(q) > 0).insert(k));
                    }
                },
            }
            i += 1;
        }
        let ghost st = scan_v(rs, prefix as int)->Ok_0;
        if producers.len() == 0 {
            proof {
                assert(st.producers.dom() =~= Set::<KeyV>::empty());
            }
            return Err(Error::Source(NO_PRODUCER));
        }
        proof {
            assert(st.producers.contains_key(pkey(producers@[0])));
            assert(st.producers.dom() != Set::<KeyV>::empty());
        }
        let mut j: usize = 0;
        while j < rules.len()
            invariant
                rs == rules_v(source@),
                0 < prefix <= rs.len() <= 4096,
                distinct_names(rs),
                scan_v(rs, prefix as int) == Ok::<PhaseV, Error>(st),
                st.producers.dom() != Set::<KeyV>::empty(),
                st.rules == rules_v(rules@),
                st.producers == producers_map(producers@),
                forall|a: int| 0 <= a < rules@.len() ==> (#[trigger] rules@[a]).removed@.len() == 1,
                0 <= j <= rules@.len(),
                forall|a: int| 0 <= a < j ==> !st.producers.contains_key(key_v(#[trigger] st.rules[a].removed[0])),
            decreases rules.len() - j,
        {
            let h = &rules[j].removed[0];
            proof {
                assert(st.rules[j as int].removed[0] == constraint_v(*h));
            }
            if has_producer(&producers, h.name.as_str(), h.args.len()) {
                proof {
                    assert(st.producers.contains_key(key_v(st.rules[j as int].removed[0])));
                }
                return Err(Error::Source(COMPETING_HEAD));
            }
            j += 1;
        }
        let mut j: usize = 0;
        while j < calls.len()
            invariant
                rs == rules_v(source@),
                0 < prefix <= rs.len() <= 4096,
                distinct_names(rs),
                scan_v(rs, prefix as int) == Ok::<PhaseV, Error>(st),
                st.producers.dom() != Set::<KeyV>::empty(),
                st.calls == keys_of(calls@),
                st.producers == producers_map(producers@),
                st.private == Set::new(|k: KeyV| private.count(k) > 0),
                private.wf(),
                !(exists|a: int| 0 <= a < st.rules.len() && st.producers.contains_key(key_v(#[trigger] st.rules[a].removed[0]))),
                0 <= j <= calls@.len(),
                forall|a: int|
                    0 <= a < j ==> st.private.contains(#[trigger] st.calls[a]) && !st.producers.contains_key(st.calls[a]),
            decreases calls.len() - j,
        {
            let name = calls[j].0.as_str();
            let arity = calls[j].1;
            proof {
                assert(st.calls[j as int] == (name@, arity as nat));
            }
            if private.get(name, arity) == 0 || has_producer(&producers, name, arity) {
                proof {
                    assert(!st.private.contains(st.calls[j as int]) || st.producers.contains_key(st.calls[j as int]));
                }
                return Err(Error::Source(BODY_ESCAPES));
            }
            j += 1;
        }
        let mut i2: usize = prefix;
        while i2 < source.len()
            invariant
                rs == rules_v(source@),
                rs.len() == source@.len(),
                0 < prefix <= rs.len() <= 4096,
                distinct_names(rs),
                scan_v(rs, prefix as int) == Ok::<PhaseV, Error>(st),
                st.producers.dom() != Set::<KeyV>::empty(),
                !(exists|a: int| 0 <= a < st.rules.len() && st.producers.contains_key(key_v(#[trigger] st.rules[a].removed[0]))),
                !(exists|a: int|
                    0 <= a < st.calls.len() && (!st.private.contains(#[trigger] st.calls[a]) || st.producers.contains_key(st.calls[a]))),
                st.private == Set::new(|k: KeyV| private.count(k) > 0),
                private.wf(),
                prefix <= i2 <= source@.len(),
                forall|a: int, b: int|
                    prefix <= a < i2 && 0 <= b < heads_of(rs[a]).len() ==> !st.private.contains(key_v(#[trigger] heads_of(rs[a])[b])),
            decreases source.len() - i2,
        {
            let r = &source[i2];
            proof {
                assert(rs[i2 as int] == rule_v(*r));
            }
            let nk = r.kept.len();
            let mut b: usize = 0;
            while b < nk
                invariant
                    rs == rules_v(source@),
                    rs.len() == source@.len(),
                    0 < prefix <= rs.len() <= 4096,
                    distinct_names(rs),
                    scan_v(rs, prefix as int) == Ok::<PhaseV, Error>(st),
                    st.producers.dom() != Set::<KeyV>::empty(),
                    !(exists|a: int| 0 <= a < st.rules.len() && st.producers.contains_key(key_v(#[trigger] st.rules[a].removed[0]))),
                    !(exists|a: int|
                        0 <= a < st.calls.len() && (!st.private.contains(#[trigger] st.calls[a]) || st.producers.contains_key(st.calls[a]))),
                    st.private == Set::new(|k: KeyV| private.count(k) > 0),
                    private.wf(),
                    prefix <= i2 < source@.len(),
                    rs[i2 as int] == rule_v(*r),
                    nk == r.kept@.len(),
                    0 <= b <= nk,
                    forall|c: int| 0 <= c < b ==> !st.private.contains(key_v(#[trigger] heads_of(rs[i2 as int])[c])),
                decreases nk - b,
            {
                let h = &r.kept[b];
                proof {
                    assert(heads_of(rs[i2 as int])[b as int] == constraint_v(*h));
                }
                if private.get(h.name.as_str(), h.args.len()) > 0 {
                    proof {
                        assert(st.private.contains(key_v(heads_of(rs[i2 as int])[b as int])));
                    }
                    return Err(Error::Source(OUTSIDE_HEAD));
                }
                b += 1;
            }
            let mut b: usize = 0;
            while b < r.removed.len()
                invariant
                    rs == rules_v(source@),
                    rs.len() == source@.len(),
                    0 < prefix <= rs.len() <= 4096,
                    distinct_names(rs),
                    scan_v(rs, prefix as int) == Ok::<PhaseV, Error>(st),
                    st.producers.dom() != Set::<KeyV>::empty(),
                    !(exists|a: int| 0 <= a < st.rules.len() && st.producers.contains_key(key_v(#[trigger] st.rules[a].removed[0]))),
                    !(exists|a: int|
                        0 <= a < st.calls.len() && (!st.private.contains(#[trigger] st.calls[a]) || st.producers.contains_key(st.calls[a]))),
                    st.private == Set::new(|k: KeyV| private.count(k) > 0),
                    private.wf(),
                    prefix <= i2 < source@.len(),
                    rs[i2 as int] == rule_v(*r),
                    nk == r.kept@.len(),
                    0 <= b <= r.removed@.len(),
                    forall|c: int| 0 <= c < nk + b ==> !st.private.contains(key_v(#[trigger] heads_of(rs[i2 as int])[c])),
                decreases r.removed.len() - b,
            {
                let h = &r.removed[b];
                proof {
                    assert(heads_of(rs[i2 as int])[nk + b] == constraint_v(*h));
                }
                if private.get(h.name.as_str(), h.args.len()) > 0 {
                    proof {
                        assert(st.private.contains(key_v(heads_of(rs[i2 as int])[nk + b])));
                    }
                    return Err(Error::Source(OUTSIDE_HEAD));
                }
                b += 1;
            }
            i2 += 1;
        }
        let p = Prepared { private, producers, rules };
        proof {
            assert(!(exists|a: int, b: int|
                prefix <= a < rs.len() && 0 <= b < heads_of(rs[a]).len() && st.private.contains(key_v(#[trigger] heads_of(rs[a])[b]))));
        }
        Ok(p)
    }
}

proof fn lemma_scan_shape(source: Seq<RuleV>, n: int)
    requires
        scan_v(source, n) is Ok,
    ensures
        ({
            let st = scan_v(source, n)->Ok_0;
            &&& forall|i: int|
                0 <= i < st.rules.len() ==> (#[trigger] st.rules[i]).kept.len() == 0 && st.rules[i].removed.len() == 1
                    && st.rules[i].guards.len() == 0 && st.private.contains(key_v(st.rules[i].removed[0]))
            &&& forall|k: KeyV| #[trigger] st.producers.contains_key(k) ==> st.private.contains(k)
        }),
    decreases n,
{
    if n > 0 {
        lemma_scan_shape(source, n - 1);
        let st = scan_v(source, n - 1)->Ok_0;
        let nx = scan_v(source, n)->Ok_0;
        assert forall|i: int| 0 <= i < nx.rules.len() implies (#[trigger] nx.rules[i]).kept.len() == 0 && nx.rules[i].removed.len() == 1
            && nx.rules[i].guards.len() == 0 && nx.private.contains(key_v(nx.rules[i].removed[0])) by {
            if i < st.rules.len() {
                assert(nx.rules[i] == st.rules[i]);
            }
        }
    }
}

/// What an admitted phase guarantees: each deterministic rule consumes one
/// private head of no producer's key, unguarded; every producer's key is
/// private; the deterministic bodies post only private keys of no producer; and
/// no rule after the phase has a head of a private key.
pub proof fn lemma_admitted(source: Seq<RuleV>, prefix: int)
    requires
        admit_v(source, prefix) is Ok,
    ensures
        ({
            let st = admit_v(source, prefix)->Ok_0;
            &&& st.producers.dom() != Set::<KeyV>::empty()
            &&& forall|i: int|
                0 <= i < st.rules.len() ==> (#[trigger] st.rules[i]).kept.len() == 0 && st.rules[i].removed.len() == 1
                    && st.rules[i].guards.len() == 0 && st.private.contains(key_v(st.rules[i].removed[0]))
                    && !st.producers.contains_key(key_v(st.rules[i].removed[0]))
            &&& forall|k: KeyV| #[trigger] st.producers.contains_key(k) ==> st.private.contains(k)
            &&& forall|i: int| 0 <= i < st.calls.len() ==> st.private.contains(#[trigger] st.calls[i]) && !st.producers.contains_key(st.calls[i])
            &&& forall|i: int, j: int|
                prefix <= i < source.len() && 0 <= j < heads_of(source[i]).len() ==> !st.private.contains(
                    key_v(#[trigger] heads_of(source[i])[j]),
                )
        }),
{
    lemma_scan_shape(source, prefix);
    let st = admit_v(source, prefix)->Ok_0;
    assert(st == scan_v(source, prefix)->Ok_0);
    assert forall|i: int| 0 <= i < st.rules.len() implies !st.producers.contains_key(key_v(#[trigger] st.rules[i].removed[0])) by {}
    assert forall|i: int| 0 <= i < st.calls.len() implies st.private.contains(#[trigger] st.calls[i]) && !st.producers.contains_key(st.calls[i]) by {}
}

proof fn lemma_terms_check_vars(ts: Seq<TermV>, head: Set<u64>, left: nat)
    requires
        terms_check_v(ts, head, left) is Ok,
    ensures
        terms_vars(ts).subset_of(head),
    decreases ts.len(),
{
    if ts.len() > 0 {
        lemma_terms_check_vars(ts.drop_last(), head, left);
    }
}

/// A checked deterministic body has no alternatives and only head variables.
proof fn lemma_goal_check_det(g: GoalV, head: Set<u64>, left: nat, depth: nat)
    requires
        goal_check_v(g, head, left, depth) is Ok,
    ensures
        det_body(g, head),
    decreases g, 0nat,
{
    let l = (left - 1) as nat;
    match g {
        GoalV::Constraint(c) => {
            lemma_terms_check_vars(c.args, head, l);
        },
        GoalV::And(gs) => {
            lemma_goals_check_det(gs, head, l, depth + 1);
        },
        _ => {},
    }
}

proof fn lemma_goals_check_det(gs: Seq<GoalV>, head: Set<u64>, left: nat, depth: nat)
    requires
        goals_check_v(gs, head, left, depth) is Ok,
    ensures
        forall|i: int| 0 <= i < gs.len() ==> det_body(#[trigger] gs[i], head),
    decreases gs, 1nat,
{
    if gs.len() > 0 {
        lemma_goals_check_det(gs.drop_last(), head, left, depth);
        let l = goals_check_v(gs.drop_last(), head, left, depth)->Ok_0.1;
        lemma_goal_check_det(gs.last(), head, l, depth);
        assert forall|i: int| 0 <= i < gs.len() implies det_body(#[trigger] gs[i], head) by {
            if i < gs.len() - 1 {
                assert(gs.drop_last()[i] == gs[i]);
            }
        }
    }
}

/// A deterministic body stays one for more variables.
pub proof fn lemma_det_body_mono(g: GoalV, a: Set<u64>, b: Set<u64>)
    requires
        det_body(g, a),
        a.subset_of(b),
    ensures
        det_body(g, b),
    decreases g,
{
    if let GoalV::And(gs) = g {
        assert forall|i: int| 0 <= i < gs.len() implies det_body(#[trigger] gs[i], b) by {
            lemma_det_body_mono(gs[i], a, b);
        }
    }
}

proof fn lemma_linear_vars(t: TermV, seen: Set<u64>)
    ensures
        linear_v(t, seen) matches Some(s) ==> s.subset_of(seen + term_vars(t)),
    decreases t, 0nat,
{
    if let TermV::App(_, xs) = t {
        lemma_linears_vars(xs, seen);
    }
}

proof fn lemma_linears_vars(xs: Seq<TermV>, seen: Set<u64>)
    ensures
        linears_v(xs, seen) matches Some(s) ==> s.subset_of(seen + terms_vars(xs)),
    decreases xs, 1nat,
{
    if xs.len() > 0 {
        lemma_linears_vars(xs.drop_last(), seen);
        if let Some(s) = linears_v(xs.drop_last(), seen) {
            lemma_linear_vars(xs.last(), s);
        }
    }
}

/// The variables a checked head binds are its own.
proof fn lemma_head_check_vars(args: Seq<TermV>, left: nat)
    requires
        head_check_v(args, left) is Ok,
    ensures
        head_check_v(args, left)->Ok_0.0.subset_of(terms_vars(args)),
    decreases args.len(),
{
    if args.len() > 0 {
        lemma_head_check_vars(args.drop_last(), left);
        let (seen, l) = head_check_v(args.drop_last(), left)->Ok_0;
        lemma_linear_vars(args.last(), seen);
    }
}

impl Prepared {
    /// The deterministic rules, each consuming one head, with a deterministic
    /// body over the head's variables.
    pub(crate) fn rules_ref(&self) -> (r: &Vec<Rule>)
        requires
            self.wf(),
        ensures
            rules_v(r@) == self.rules_v(),
            forall|i: int| 0 <= i < r@.len() ==> (#[trigger] r@[i]).removed@.len() == 1 && det_body(
                goal_v(r@[i].body),
                terms_vars(constraint_v(r@[i].removed@[0]).args),
            ),
    {
        &self.rules
    }

    /// The weighted atoms of the producer of a key, if there is one.
    pub(crate) fn producer(&self, name: &str, arity: usize) -> (r: Option<&Domain>)
        requires
            self.wf(),
        ensures
            match r {
                Some(d) => d.wf() && arity == 1 && self.producers_v().contains_key((name@, arity as nat))
                    && self.producers_v()[(name@, arity as nat)] == d.weights(),
                None => !self.producers_v().contains_key((name@, arity as nat)),
            },
    {
        match find_producer(&self.producers, name, arity) {
            Some(i) => Some(&self.producers[i].1),
            None => None,
        }
    }

    /// Whether a key is private to the phase.
    pub(crate) fn is_private(&self, name: &str, arity: usize) -> (r: bool)
        requires
            self.wf(),
        ensures
            r == self.private_v().contains((name@, arity as nat)),
    {
        self.private.get(name, arity) > 0
    }
}

impl Prepared {
    /// Start the work of a query; the machine only borrows the phase.
    pub fn start<'a>(&'a self, query: &Query, limits: Limits) -> (r: Result<Machine<'a>, Error>)
        requires
            self.wf(),
        ensures
            match start_v(self.private_v(), self.producers_v(), *query, limits) {
                Ok(w) => r matches Ok(m) && m.wf() && m.rules_of() == self.rules_v() && m.work_v() == Some(w),
                Err(e) => r matches Err(e2) && e2 == e,
            },
    {
        crate::phase_solve::start(self, query, limits)
    }

    /// Solve a query: start its work and run it to the end.
    pub fn solve(&self, query: &Query, limits: Limits) -> (r: Result<Report, Error>)
        requires
            self.wf(),
        ensures
            match solve_v(self.private_v(), self.producers_v(), self.rules_v(), *query, limits) {
                Ok(rep) => r matches Ok(x) && report_of(x) == rep,
                Err(e) => r matches Err(e2) && e2 == e,
            },
    {
        let m = self.start(query, limits)?;
        m.finish()
    }
}

} // verus!
