//! Budgeted source walks for closed consuming-capacity relations.
//!
//! Every visited source node costs one unit of budget, and no walk descends
//! past a fixed depth.
use crate::capacity_search::{Report, report_v, solve_query, solve_v};
use crate::finite::Domain;
use crate::phase::{distinct_names, has_producer, lemma_producers_push, names_distinct, pkey, producers_map};
use crate::resource_fusion::{KeyV, key_v};
use crate::syntax::{Constraint, ConstraintV, Goal, GoalV, Query, Rule, RuleV, Term, TermV, constraint_v, goal_v, rule_v, rules_v, term_v};
use vstd::prelude::*;

verus! {

#[derive(Debug, PartialEq, Eq)]
pub enum Error {
    Source,
    Query,
    Limit,
    Multiplicity,
}

#[derive(Clone, Copy, Debug, PartialEq, Eq)]
pub struct Limits {
    pub states: usize,
    pub answers: usize,
}

impl Default for Limits {
    fn default() -> (r: Self)
        ensures
            r == (Limits { states: 100000, answers: 4096 }),
    {
        Self { states: 100000, answers: 4096 }
    }
}

/// The deepest source node a walk will visit.
pub const MAX_DEPTH: usize = 128;

/// Pay for one source node at `depth`.
pub fn charge(left: &mut usize, depth: usize) -> (r: Result<(), Error>)
    ensures
        (depth > MAX_DEPTH || *old(left) == 0) ==> r == Err::<(), Error>(Error::Limit) && *final(left)
            == *old(left),
        !(depth > MAX_DEPTH || *old(left) == 0) ==> r is Ok && *final(left) == *old(left) - 1,
{
    if depth > MAX_DEPTH || *left == 0 {
        return Err(Error::Limit);
    }
    *left -= 1;
    Ok(())
}

/// The number of nodes of a term.
pub open spec fn term_size(t: Term) -> nat
    decreases t, 0nat,
{
    match t {
        Term::Var(_) => 1,
        Term::App(_, xs) => 1 + terms_size(xs@),
    }
}

/// The number of nodes of a list of terms.
pub open spec fn terms_size(s: Seq<Term>) -> nat
    decreases s, 1nat,
{
    if s.len() == 0 {
        0
    } else {
        terms_size(s.drop_last()) + term_size(s.last())
    }
}

/// The number of nodes on the longest path from the root of a term.
pub open spec fn term_height(t: Term) -> nat
    decreases t, 0nat,
{
    match t {
        Term::Var(_) => 1,
        Term::App(_, xs) => 1 + terms_height(xs@),
    }
}

/// The largest height in a list of terms.
pub open spec fn terms_height(s: Seq<Term>) -> nat
    decreases s, 1nat,
{
    if s.len() == 0 {
        0
    } else {
        let h = term_height(s.last());
        let rest = terms_height(s.drop_last());
        if h >= rest {
            h
        } else {
            rest
        }
    }
}

pub proof fn lemma_terms_prefix(s: Seq<Term>, k: int)
    requires
        0 <= k <= s.len(),
    ensures
        terms_size(s.take(k)) <= terms_size(s),
        terms_height(s.take(k)) <= terms_height(s),
    decreases s.len(),
{
    if k < s.len() {
        assert(s.drop_last().take(k) == s.take(k));
        lemma_terms_prefix(s.drop_last(), k);
    } else {
        assert(s.take(k) == s);
    }
}

pub proof fn lemma_terms_step(s: Seq<Term>, i: int)
    requires
        0 <= i < s.len(),
    ensures
        terms_size(s.take(i + 1)) == terms_size(s.take(i)) + term_size(s[i]),
        terms_height(s.take(i + 1)) >= term_height(s[i]),
        terms_height(s.take(i + 1)) >= terms_height(s.take(i)),
        (terms_height(s.take(i + 1)) == term_height(s[i])) || (terms_height(s.take(i + 1))
            == terms_height(s.take(i))),
{
    assert(s.take(i + 1).drop_last() == s.take(i));
    assert(s.take(i + 1).last() == s[i]);
}

/// Walk a term, paying for each node, down to the depth limit.
pub fn term_check(t: &Term, left: &mut usize, depth: usize) -> (r: Result<(), Error>)
    ensures
        (term_size(*t) <= *old(left) && depth + term_height(*t) <= MAX_DEPTH + 1) ==> r is Ok
            && *final(left) == *old(left) - term_size(*t),
        !(term_size(*t) <= *old(left) && depth + term_height(*t) <= MAX_DEPTH + 1) ==> r
            == Err::<(), Error>(Error::Limit),
    decreases t,
{
    charge(left, depth)?;
    match t {
        Term::Var(_) => Ok(()),
        Term::App(name, xs) => {
            let ghost start = *old(left);
            let mut i: usize = 0;
            proof {
                assert(xs@.take(0) =~= Seq::<Term>::empty());
            }
            while i < xs.len()
                invariant
                    *t == Term::App(*name, *xs),
                    0 <= i <= xs.len(),
                    depth <= MAX_DEPTH,
                    start >= 1,
                    start == *old(left),
                    *left == start - 1 - terms_size(xs@.take(i as int)),
                    depth + 1 + terms_height(xs@.take(i as int)) <= MAX_DEPTH + 1,
                decreases xs.len() - i,
            {
                proof {
                    assert(decreases_to!(*t => t->App_1));
                    assert(decreases_to!(*xs => xs[i as int]));
                    lemma_terms_step(xs@, i as int);
                    lemma_terms_prefix(xs@, i as int + 1);
                }
                match term_check(&xs[i], left, depth + 1) {
                    Ok(()) => {},
                    Err(e) => {
                        return Err(e);
                    },
                }
                i += 1;
            }
            proof {
                assert(xs@.take(i as int) == xs@);
            }
            Ok(())
        },
    }
}

/// The name of a term that is an atom.
pub open spec fn atom_of(t: TermV) -> Option<Seq<char>> {
    match t {
        TermV::App(n, xs) => if xs.len() == 0 {
            Some(n)
        } else {
            None
        },
        _ => None,
    }
}

/// The variable of a constraint whose one argument is a variable.
pub open spec fn unary_of(c: ConstraintV) -> Option<u64> {
    if c.args.len() == 1 && c.args[0] is Var {
        Some(c.args[0]->Var_0)
    } else {
        None
    }
}

/// The conjuncts of a goal, nested conjunctions opened, and what is left of the
/// budget; every visited goal costs one node.
pub open spec fn flatten_v(g: GoalV, left: nat, depth: nat) -> Result<(Seq<GoalV>, nat), Error>
    decreases g, 0nat,
{
    if depth > MAX_DEPTH || left == 0 {
        Err(Error::Limit)
    } else {
        match g {
            GoalV::And(gs) => flattens_v(gs, (left - 1) as nat, depth + 1),
            _ => Ok((seq![g], (left - 1) as nat)),
        }
    }
}

pub open spec fn flattens_v(gs: Seq<GoalV>, left: nat, depth: nat) -> Result<(Seq<GoalV>, nat), Error>
    decreases gs, 1nat,
{
    if gs.len() == 0 {
        Ok((Seq::empty(), left))
    } else {
        match flattens_v(gs.drop_last(), left, depth) {
            Ok((fs, l)) => match flatten_v(gs.last(), l, depth) {
                Ok((fs2, l2)) => Ok((fs + fs2, l2)),
                Err(e) => Err(e),
            },
            Err(e) => Err(e),
        }
    }
}

/// The atom a unification offers for `var`: `var = atom`, either way round.
pub open spec fn offered(a: TermV, b: TermV, var: u64) -> Option<Seq<char>> {
    if a == TermV::Var(var) {
        atom_of(b)
    } else if b == TermV::Var(var) {
        atom_of(a)
    } else {
        None
    }
}

/// The atoms a choice of alternatives offers for `var`, in order, and what is
/// left of the budget; every visited goal costs one node.
pub open spec fn choices_v(g: GoalV, var: u64, left: nat, depth: nat) -> Result<(Seq<Seq<char>>, nat), Error>
    decreases g,
{
    if depth > MAX_DEPTH || left == 0 {
        Err(Error::Limit)
    } else {
        let l = (left - 1) as nat;
        match g {
            GoalV::Or(a, b) => match choices_v(*a, var, l, depth + 1) {
                Ok((va, la)) => match choices_v(*b, var, la, depth + 1) {
                    Ok((vb, lb)) => Ok((va + vb, lb)),
                    Err(e) => Err(e),
                },
                Err(e) => Err(e),
            },
            GoalV::Unify(a, b) => match offered(a, b, var) {
                Some(v) => Ok((seq![v], l)),
                None => Err(Error::Source),
            },
            _ => Err(Error::Source),
        }
    }
}

/// How often `v` occurs in `vs`.
pub open spec fn count_of(vs: Seq<Seq<char>>, v: Seq<char>) -> nat
    decreases vs.len(),
{
    if vs.len() == 0 {
        0
    } else {
        count_of(vs.drop_last(), v) + if vs.last() == v {
            1nat
        } else {
            0nat
        }
    }
}

/// The atoms of a list, each with how often it occurs.
pub open spec fn tally_v(vs: Seq<Seq<char>>) -> Map<Seq<char>, u128> {
    Map::new(|v: Seq<char>| count_of(vs, v) > 0, |v: Seq<char>| count_of(vs, v) as u128)
}

/// The weights of `m` with each atom of `vs` counted once more per occurrence.
pub open spec fn bumped(m: Map<Seq<char>, u128>, vs: Seq<Seq<char>>) -> Map<Seq<char>, u128> {
    Map::new(
        |v: Seq<char>| m.contains_key(v) || count_of(vs, v) > 0,
        |v: Seq<char>|
            ((if m.contains_key(v) {
                m[v] as int
            } else {
                0
            }) + count_of(vs, v)) as u128,
    )
}

proof fn lemma_count_concat(a: Seq<Seq<char>>, b: Seq<Seq<char>>, v: Seq<char>)
    ensures
        count_of(a + b, v) == count_of(a, v) + count_of(b, v),
    decreases b.len(),
{
    if b.len() > 0 {
        assert((a + b).drop_last() =~= a + b.drop_last());
        lemma_count_concat(a, b.drop_last(), v);
    } else {
        assert(a + b =~= a);
    }
}

proof fn lemma_count_len(vs: Seq<Seq<char>>, v: Seq<char>)
    ensures
        count_of(vs, v) <= vs.len(),
    decreases vs.len(),
{
    if vs.len() > 0 {
        lemma_count_len(vs.drop_last(), v);
    }
}

proof fn lemma_choices_len(g: GoalV, var: u64, left: nat, depth: nat)
    requires
        choices_v(g, var, left, depth) is Ok,
    ensures
        choices_v(g, var, left, depth)->Ok_0.0.len() + choices_v(g, var, left, depth)->Ok_0.1 <= left,
    decreases g,
{
    if let GoalV::Or(a, b) = g {
        let l = (left - 1) as nat;
        lemma_choices_len(*a, var, l, depth + 1);
        let la = choices_v(*a, var, l, depth + 1)->Ok_0.1;
        lemma_choices_len(*b, var, la, depth + 1);
    }
}

/// Whether a term is the variable `var`.
fn is_var(t: &Term, var: crate::syntax::Var) -> (r: bool)
    ensures
        r == (term_v(*t) == TermV::Var(var.0)),
{
    match t {
        Term::Var(v) => v.0 == var.0,
        _ => false,
    }
}

/// The name of a term that is an atom.
pub fn atom(t: &Term) -> (r: Option<&String>)
    ensures
        match r {
            Some(n) => atom_of(term_v(*t)) == Some(n@),
            None => atom_of(term_v(*t)) is None,
        },
{
    match t {
        Term::App(n, xs) => if xs.len() == 0 {
            Some(n)
        } else {
            None
        },
        _ => None,
    }
}

/// Count the atoms a choice of alternatives offers for `var`.
fn choices(g: &Goal, var: crate::syntax::Var, out: &mut Domain, left: &mut usize, depth: usize) -> (r: Result<(), Error>)
    requires
        old(out).wf(),
        forall|v: Seq<char>| old(out).weights().contains_key(v) ==> old(out).weights()[v] + *old(left) <= u128::MAX,
    ensures
        match choices_v(goal_v(*g), var.0, *old(left) as nat, depth as nat) {
            Ok((vs, l)) => r is Ok && *final(left) == l && final(out).wf() && final(out).weights() == bumped(old(out).weights(), vs),
            Err(e) => r == Err::<(), Error>(e),
        },
    decreases g,
{
    charge(left, depth)?;
    match g {
        Goal::Or(a, b) => {
            let ghost w0 = out.weights();
            let ghost l0 = *left as nat;
            let ghost ca = choices_v(goal_v(**a), var.0, l0, depth as nat + 1);
            choices(a, var, out, left, depth + 1)?;
            proof {
                lemma_choices_len(goal_v(**a), var.0, l0, depth as nat + 1);
                let va = ca->Ok_0.0;
                assert forall|v: Seq<char>| out.weights().contains_key(v) implies out.weights()[v] + *left <= u128::MAX by {
                    lemma_count_len(va, v);
                }
            }
            let ghost w1 = out.weights();
            let ghost l1 = *left as nat;
            let ghost cb = choices_v(goal_v(**b), var.0, l1, depth as nat + 1);
            choices(b, var, out, left, depth + 1)?;
            proof {
                let va = ca->Ok_0.0;
                let vb = cb->Ok_0.0;
                assert forall|v: Seq<char>| #[trigger] out.weights().contains_key(v) <==> bumped(w0, va + vb).contains_key(v) by {
                    lemma_count_concat(va, vb, v);
                }
                lemma_choices_len(goal_v(**b), var.0, l1, depth as nat + 1);
                assert forall|v: Seq<char>| #[trigger] out.weights().contains_key(v) implies out.weights()[v] == bumped(w0, va + vb)[v] by {
                    lemma_count_concat(va, vb, v);
                    lemma_count_len(va, v);
                    lemma_count_len(vb, v);
                    let ca_v: int = if w0.contains_key(v) {
                        w0[v] as int
                    } else {
                        0
                    };
                    assert(ca_v + va.len() + vb.len() <= u128::MAX);
                    if w1.contains_key(v) {
                        assert(w1[v] as int == ca_v + count_of(va, v));
                    }
                }
                assert(out.weights() =~= bumped(w0, va + vb));
            }
            Ok(())
        },
        Goal::Unify(a, b) => {
            let value = if is_var(a, var) {
                atom(b)
            } else if is_var(b, var) {
                atom(a)
            } else {
                None
            };
            match value {
                Some(v) => {
                    let n: u128 = match out.get(v) {
                        Some(n) => n,
                        None => 0,
                    };
                    let ghost w0 = out.weights();
                    out.insert(v.clone(), n + 1);
                    proof {
                        let vs = seq![v@];
                        assert forall|x: Seq<char>| #[trigger] count_of(vs, x) == if x == v@ {
                            1nat
                        } else {
                            0nat
                        } by {
                            assert(vs.drop_last() =~= Seq::<Seq<char>>::empty());
                            assert(count_of(vs.drop_last(), x) == 0);
                            assert(vs.last() == v@);
                        }
                        assert(out.weights() =~= bumped(w0, vs));
                    }
                    Ok(())
                },
                None => Err(Error::Source),
            }
        },
        _ => Err(Error::Source),
    }
}

/// The goals referred to.
pub open spec fn goals_at(s: Seq<&Goal>) -> Seq<GoalV> {
    s.map_values(|x: &Goal| goal_v(*x))
}

proof fn lemma_flattens_prefix(gs: Seq<GoalV>, j: int, left: nat, depth: nat)
    requires
        0 <= j <= gs.len(),
        flattens_v(gs.take(j), left, depth) is Err,
    ensures
        flattens_v(gs, left, depth) == flattens_v(gs.take(j), left, depth),
    decreases gs.len() - j,
{
    if j < gs.len() {
        assert(gs.take(j + 1).drop_last() =~= gs.take(j));
        lemma_flattens_prefix(gs, j + 1, left, depth);
    } else {
        assert(gs.take(j) =~= gs);
    }
}

/// Collect the conjuncts of a goal, opening nested conjunctions.
fn flatten<'a>(g: &'a Goal, out: &mut Vec<&'a Goal>, left: &mut usize, depth: usize) -> (r: Result<(), Error>)
    ensures
        match flatten_v(goal_v(*g), *old(left) as nat, depth as nat) {
            Ok((fs, l)) => r is Ok && *final(left) == l && goals_at(final(out)@) == goals_at(old(out)@) + fs,
            Err(e) => r == Err::<(), Error>(e),
        },
    decreases g,
{
    charge(left, depth)?;
    match g {
        Goal::And(gs) => {
            let ghost vs = goal_v(*g)->And_0;
            let ghost start = (*old(left) - 1) as nat;
            let ghost before = goals_at(old(out)@);
            let mut i: usize = 0;
            proof {
                assert(vs.take(0) =~= Seq::<GoalV>::empty());
                assert(goals_at(out@) =~= before + Seq::<GoalV>::empty());
            }
            while i < gs.len()
                invariant
                    *g == Goal::And(*gs),
                    vs == goal_v(*g)->And_0,
                    vs.len() == gs@.len(),
                    depth <= MAX_DEPTH,
                    *old(left) > 0,
                    start == (*old(left) - 1) as nat,
                    before == goals_at(old(out)@),
                    0 <= i <= gs.len(),
                    flattens_v(vs.take(i as int), start, depth as nat + 1) matches Ok((fs, l)) && l == *left && goals_at(out@)
                        == before + fs,
                decreases gs.len() - i,
            {
                proof {
                    assert(decreases_to!(*g => g->And_0));
                    assert(decreases_to!(*gs => gs[i as int]));
                    assert(vs[i as int] == goal_v(gs@[i as int]));
                    assert(vs.take(i + 1).drop_last() =~= vs.take(i as int));
                    assert(vs.take(i + 1).last() == vs[i as int]);
                }
                let ghost prev = flattens_v(vs.take(i as int), start, depth as nat + 1);
                match flatten(&gs[i], out, left, depth + 1) {
                    Ok(()) => {
                        proof {
                            let fs = prev->Ok_0.0;
                            let fs2 = flatten_v(vs[i as int], prev->Ok_0.1, depth as nat + 1)->Ok_0.0;
                            assert(before + fs + fs2 =~= before + (fs + fs2));
                        }
                    },
                    Err(e) => {
                        proof {
                            lemma_flattens_prefix(vs, i + 1, start, depth as nat + 1);
                        }
                        return Err(e);
                    },
                }
                i += 1;
            }
            proof {
                assert(vs.take(i as int) =~= vs);
            }
            Ok(())
        },
        _ => {
            out.push(g);
            proof {
                assert(goals_at(out@) =~= goals_at(old(out)@) + seq![goal_v(*g)]);
            }
            Ok(())
        },
    }
}

/// The budget of source nodes for admitting a capacity relation.
pub const ADMISSION_NODES: usize = 100000;

/// The most atoms one producer may offer.
pub const MAX_ATOMS: usize = 64;

/// What admission has learned after some producer rules.
pub struct ScanV {
    pub producers: Map<KeyV, Map<Seq<char>, u128>>,
    pub left: nat,
}

/// Admitting one more producer: it consumes one unary head of a fresh key and
/// posts the needed key for the same variable after choosing among atoms.
pub open spec fn producer_step_v(st: ScanV, r: RuleV, need: KeyV, token: KeyV, done: KeyV) -> Result<ScanV, Error> {
    if r.removed.len() != 1 {
        Err(Error::Source)
    } else {
        let h = r.removed[0];
        let k = key_v(h);
        match unary_of(h) {
            None => Err(Error::Source),
            Some(var) => if k == need || k == token || k == done || st.producers.contains_key(k) {
                Err(Error::Source)
            } else {
                match flatten_v(r.body, st.left, 0) {
                    Err(e) => Err(e),
                    Ok((flat, l1)) => if !(flat.len() == 2 && flat[1] is Constraint) {
                        Err(Error::Source)
                    } else if key_v(flat[1]->Constraint_0) != need || unary_of(flat[1]->Constraint_0) != Some(var) {
                        Err(Error::Source)
                    } else {
                        match choices_v(flat[0], var, l1, 0) {
                            Err(e) => Err(e),
                            Ok((vs, l2)) => if tally_v(vs).len() > MAX_ATOMS {
                                Err(Error::Limit)
                            } else {
                                Ok(ScanV { producers: st.producers.insert(k, tally_v(vs)), left: l2 })
                            },
                        }
                    },
                }
            },
        }
    }
}

/// Admitting the first `n` rules as producers, in order.
pub open spec fn producers_scan_v(source: Seq<RuleV>, n: int, need: KeyV, token: KeyV, done: KeyV) -> Result<ScanV, Error>
    decreases n,
{
    if n <= 0 {
        Ok(ScanV { producers: Map::empty(), left: ADMISSION_NODES as nat })
    } else {
        match producers_scan_v(source, n - 1, need, token, done) {
            Ok(st) => producer_step_v(st, source[n - 1], need, token, done),
            Err(e) => Err(e),
        }
    }
}

/// The position of the first of two heads whose key is (or is not) `need`.
pub open spec fn first_with(hs: Seq<ConstraintV>, need: KeyV, same: bool) -> Option<int> {
    if (key_v(hs[0]) == need) == same {
        Some(0)
    } else if (key_v(hs[1]) == need) == same {
        Some(1)
    } else {
        None
    }
}

/// An admitted capacity relation.
pub struct AdmittedV {
    pub producers: Map<KeyV, Map<Seq<char>, u128>>,
    pub need: KeyV,
    pub token: KeyV,
    pub done: Seq<char>,
}

/// Admitting a closed consuming-capacity relation: producers, then a consumer
/// of a needed key and a token for the same variable posting a done key, then a
/// failing sink of the needed key.
pub open spec fn admit_v(source: Seq<RuleV>) -> Result<AdmittedV, Error> {
    let n = source.len();
    if n < 3 || n > 4096 {
        Err(Error::Source)
    } else if (exists|i: int| 0 <= i < n && ((#[trigger] source[i]).kept.len() != 0 || source[i].guards.len() != 0))
        || !distinct_names(source) {
        Err(Error::Source)
    } else if source[n - 1].body != GoalV::Fail || source[n - 1].removed.len() != 1 || unary_of(source[n - 1].removed[0]) is None {
        Err(Error::Source)
    } else {
        let need = key_v(source[n - 1].removed[0]);
        let c = source[n - 2];
        if c.removed.len() != 2 {
            Err(Error::Source)
        } else {
            match (first_with(c.removed, need, true), first_with(c.removed, need, false)) {
                (Some(hi), Some(ti)) => {
                    let token = c.removed[ti];
                    match unary_of(c.removed[hi]) {
                        None => Err(Error::Source),
                        Some(var) => if unary_of(token) != Some(var) || !(c.body is Constraint) {
                            Err(Error::Source)
                        } else {
                            let done = c.body->Constraint_0;
                            if unary_of(done) != Some(var) || key_v(done) == need || key_v(done) == key_v(token) {
                                Err(Error::Source)
                            } else {
                                match producers_scan_v(source, n - 2, need, key_v(token), key_v(done)) {
                                    Err(e) => Err(e),
                                    Ok(st) => Ok(AdmittedV { producers: st.producers, need, token: key_v(token), done: done.name }),
                                }
                            }
                        },
                    }
                },
                _ => Err(Error::Source),
            }
        }
    }
}

/// The variable of a constraint whose one argument is a variable.
pub fn unary(c: &Constraint) -> (r: Option<crate::syntax::Var>)
    ensures
        match r {
            Some(v) => unary_of(constraint_v(*c)) == Some(v.0),
            None => unary_of(constraint_v(*c)) is None,
        },
{
    if c.args.len() == 1 {
        match &c.args[0] {
            Term::Var(v) => Some(*v),
            _ => None,
        }
    } else {
        None
    }
}

/// Whether a constraint has the key.
fn has_key(c: &Constraint, k: &(String, usize)) -> (r: bool)
    ensures
        r == (key_v(constraint_v(*c)) == (k.0@, k.1 as nat)),
{
    c.name == k.0 && c.args.len() == k.1
}

proof fn lemma_producers_scan_error(source: Seq<RuleV>, j: int, n: int, need: KeyV, token: KeyV, done: KeyV)
    requires
        0 <= j <= n,
        producers_scan_v(source, j, need, token, done) is Err,
    ensures
        producers_scan_v(source, n, need, token, done) == producers_scan_v(source, j, need, token, done),
    decreases n - j,
{
    if j < n {
        lemma_producers_scan_error(source, j, n - 1, need, token, done);
    }
}

/// A closed consuming-capacity relation, admitted from its source.
pub struct Prepared {
    producers: Vec<((String, usize), Domain)>,
    need: (String, usize),
    token: (String, usize),
    done: String,
}

impl Prepared {
    pub closed spec fn wf(&self) -> bool {
        &&& forall|i: int, j: int| 0 <= i < j < self.producers@.len() ==> pkey(self.producers@[i]) != pkey(self.producers@[j])
        &&& forall|i: int| 0 <= i < self.producers@.len() ==> (#[trigger] self.producers@[i]).1.wf()
        &&& forall|i: int| 0 <= i < self.producers@.len() ==> (#[trigger] self.producers@[i]).0.1 == 1
        &&& self.need.1 == 1
        &&& self.token.1 == 1
    }

    /// The relation admitted, as values.
    pub closed spec fn view_v(&self) -> AdmittedV {
        AdmittedV {
            producers: producers_map(self.producers@),
            need: (self.need.0@, self.need.1 as nat),
            token: (self.token.0@, self.token.1 as nat),
            done: self.done@,
        }
    }

    /// Admit a closed consuming-capacity relation from its source.
    pub fn new(source: &[Rule]) -> (r: Result<Prepared, Error>)
        ensures
            match admit_v(rules_v(source@)) {
                Ok(a) => r matches Ok(p) && p.wf() && p.view_v() == a,
                Err(e) => r matches Err(e2) && e2 == e,
            },
    {
        let ghost rs = rules_v(source@);
        let n = source.len();
        if n < 3 || n > 4096 {
            return Err(Error::Source);
        }
        let mut i: usize = 0;
        while i < n
            invariant
                rs == rules_v(source@),
                rs.len() == n,
                0 <= i <= n,
                forall|a: int| 0 <= a < i ==> (#[trigger] rs[a]).kept.len() == 0 && rs[a].guards.len() == 0,
            decreases n - i,
        {
            proof {
                assert(rs[i as int] == rule_v(source@[i as int]));
            }
            if source[i].kept.len() != 0 || source[i].guards.len() != 0 {
                return Err(Error::Source);
            }
            i += 1;
        }
        if !names_distinct(source) {
            return Err(Error::Source);
        }
        let sink = &source[n - 1];
        proof {
            assert(rs[n - 1] == rule_v(*sink));
        }
        let sink_ok = match &sink.body {
            Goal::Fail => sink.removed.len() == 1 && unary(&sink.removed[0]).is_some(),
            _ => false,
        };
        if !sink_ok {
            return Err(Error::Source);
        }
        let need = (sink.removed[0].name.clone(), sink.removed[0].args.len());
        let ghost needv = key_v(rs[n - 1].removed[0]);
        proof {
            assert(rs[n - 1].removed[0] == constraint_v(sink.removed@[0]));
            assert(needv == (need.0@, need.1 as nat));
        }
        let consumer = &source[n - 2];
        proof {
            assert(rs[n - 2] == rule_v(*consumer));
        }
        if consumer.removed.len() != 2 {
            return Err(Error::Source);
        }
        let ghost cr = rs[n - 2].removed;
        proof {
            assert(cr[0] == constraint_v(consumer.removed@[0]));
            assert(cr[1] == constraint_v(consumer.removed@[1]));
        }
        let h0 = has_key(&consumer.removed[0], &need);
        let h1 = has_key(&consumer.removed[1], &need);
        let (hi, ti) = if h0 && !h1 {
            (0usize, 1usize)
        } else if !h0 && h1 {
            (1usize, 0usize)
        } else {
            return Err(Error::Source);
        };
        let var = match unary(&consumer.removed[hi]) {
            Some(v) => v,
            None => {
                return Err(Error::Source);
            },
        };
        let token_c = &consumer.removed[ti];
        match unary(token_c) {
            Some(v) => {
                if v.0 != var.0 {
                    return Err(Error::Source);
                }
            },
            None => {
                return Err(Error::Source);
            },
        }
        let done = match &consumer.body {
            Goal::Constraint(d) => d,
            _ => {
                return Err(Error::Source);
            },
        };
        let token = (token_c.name.clone(), token_c.args.len());
        let done_key = (done.name.clone(), done.args.len());
        match unary(done) {
            Some(v) => {
                if v.0 != var.0 {
                    return Err(Error::Source);
                }
            },
            None => {
                return Err(Error::Source);
            },
        }
        if has_key(done, &need) || has_key(done, &token) {
            return Err(Error::Source);
        }
        proof {
            assert(constraint_v(*token_c).args.len() == token_c.args@.len());
            assert(constraint_v(sink.removed@[0]).args.len() == sink.removed@[0].args@.len());
        }
        let ghost tokenv = (token.0@, token.1 as nat);
        let ghost donev = (done_key.0@, done_key.1 as nat);
        let ghost result = match producers_scan_v(rs, n - 2, needv, tokenv, donev) {
            Err(e) => Err(e),
            Ok(st) => Ok(AdmittedV { producers: st.producers, need: needv, token: tokenv, done: done.name@ }),
        };
        proof {
            assert(!(exists|a: int| 0 <= a < n && ((#[trigger] rs[a]).kept.len() != 0 || rs[a].guards.len() != 0)));
            assert(rs[n - 1].body == GoalV::Fail);
            assert(first_with(cr, needv, true) == Some(hi as int));
            assert(first_with(cr, needv, false) == Some(ti as int));
            assert(cr[ti as int] == constraint_v(*token_c));
            assert(rs[n - 2].body == GoalV::Constraint(constraint_v(*done)));
            assert(admit_v(rs) == result);
        }
        let mut budget: usize = ADMISSION_NODES;
        let mut producers: Vec<((String, usize), Domain)> = Vec::new();
        let mut i: usize = 0;
        proof {
            assert(producers_map(producers@) =~= Map::<KeyV, Map<Seq<char>, u128>>::empty());
        }
        while i < n - 2
            invariant
                rs == rules_v(source@),
                rs.len() == n,
                3 <= n <= 4096,
                needv == (need.0@, need.1 as nat),
                tokenv == (token.0@, token.1 as nat),
                donev == (done_key.0@, done_key.1 as nat),
                0 <= i <= n - 2,
                forall|a: int, b: int| 0 <= a < b < producers@.len() ==> pkey(producers@[a]) != pkey(producers@[b]),
                forall|a: int| 0 <= a < producers@.len() ==> (#[trigger] producers@[a]).1.wf(),
                forall|a: int| 0 <= a < producers@.len() ==> (#[trigger] producers@[a]).0.1 == 1,
                need.1 == 1,
                token.1 == 1,
                producers_scan_v(rs, i as int, needv, tokenv, donev) matches Ok(st) && st.producers == producers_map(producers@)
                    && st.left == budget,
                admit_v(rs) == result,
                result == match producers_scan_v(rs, n - 2, needv, tokenv, donev) {
                    Err(e) => Err(e),
                    Ok(st) => Ok(AdmittedV { producers: st.producers, need: needv, token: tokenv, done: done.name@ }),
                },
            decreases n - 2 - i,
        {
            let r = &source[i];
            proof {
                assert(rs[i as int] == rule_v(*r));
            }
            let ghost st = producers_scan_v(rs, i as int, needv, tokenv, donev)->Ok_0;
            if r.removed.len() != 1 {
                proof {
                    assert(producer_step_v(st, rs[i as int], needv, tokenv, donev) == Err::<ScanV, Error>(Error::Source));
                    assert(producers_scan_v(rs, i + 1, needv, tokenv, donev) == Err::<ScanV, Error>(Error::Source));
                    lemma_producers_scan_error(rs, i + 1, n - 2, needv, tokenv, donev);
                }
                return Err(Error::Source);
            }
            let h = &r.removed[0];
            proof {
                assert(rs[i as int].removed[0] == constraint_v(*h));
            }
            let hv = match unary(h) {
                Some(v) => v,
                None => {
                    proof {
                        assert(producer_step_v(st, rs[i as int], needv, tokenv, donev) == Err::<ScanV, Error>(Error::Source));
                        assert(producers_scan_v(rs, i + 1, needv, tokenv, donev) == Err::<ScanV, Error>(Error::Source));
                        lemma_producers_scan_error(rs, i + 1, n - 2, needv, tokenv, donev);
                    }
                    return Err(Error::Source);
                },
            };
            let name = h.name.as_str();
            let arity = h.args.len();
            if has_key(h, &need) || has_key(h, &token) || has_key(h, &done_key) || has_producer(&producers, name, arity) {
                proof {
                    lemma_producers_scan_error(rs, i + 1, n - 2, needv, tokenv, donev);
                }
                return Err(Error::Source);
            }
            let mut flat: Vec<&Goal> = Vec::new();
            match flatten(&r.body, &mut flat, &mut budget, 0) {
                Ok(()) => {},
                Err(e) => {
                    proof {
                        lemma_producers_scan_error(rs, i + 1, n - 2, needv, tokenv, donev);
                    }
                    return Err(e);
                },
            }
            proof {
                assert(goals_at(flat@) == Seq::<GoalV>::empty() + flatten_v(rs[i as int].body, producers_scan_v(rs, i as int, needv, tokenv, donev)->Ok_0.left, 0)->Ok_0.0);
            }
            if flat.len() != 2 {
                proof {
                    lemma_producers_scan_error(rs, i + 1, n - 2, needv, tokenv, donev);
                }
                return Err(Error::Source);
            }
            let post = match flat[1] {
                Goal::Constraint(p) => p,
                _ => {
                    proof {
                        assert(goals_at(flat@)[1] == goal_v(*flat@[1]));
                        lemma_producers_scan_error(rs, i + 1, n - 2, needv, tokenv, donev);
                    }
                    return Err(Error::Source);
                },
            };
            proof {
                assert(goals_at(flat@)[1] == goal_v(*flat@[1]));
                assert(goals_at(flat@)[0] == goal_v(*flat@[0]));
            }
            let post_ok = has_key(post, &need) && match unary(post) {
                Some(v) => v.0 == hv.0,
                None => false,
            };
            if !post_ok {
                proof {
                    lemma_producers_scan_error(rs, i + 1, n - 2, needv, tokenv, donev);
                }
                return Err(Error::Source);
            }
            let mut values = Domain::new();
            match choices(flat[0], hv, &mut values, &mut budget, 0) {
                Ok(()) => {},
                Err(e) => {
                    proof {
                        lemma_producers_scan_error(rs, i + 1, n - 2, needv, tokenv, donev);
                    }
                    return Err(e);
                },
            }
            proof {
                let vs = choices_v(goal_v(*flat@[0]), hv.0, 0, 0);
                assert(values.weights() =~= tally_v(choices_v(goal_v(*flat@[0]), hv.0, flatten_v(rs[i as int].body, producers_scan_v(rs, i as int, needv, tokenv, donev)->Ok_0.left, 0)->Ok_0.1, 0)->Ok_0.0));
            }
            if values.len() > MAX_ATOMS {
                proof {
                    lemma_producers_scan_error(rs, i + 1, n - 2, needv, tokenv, donev);
                }
                return Err(Error::Limit);
            }
            proof {
                assert(constraint_v(*h).args.len() == h.args@.len());
            }
            let ghost ps = producers@;
            producers.push(((h.name.clone(), arity), values));
            proof {
                assert forall|a: int| 0 <= a < producers@.len() implies (#[trigger] producers@[a]).0.1 == 1 by {
                    if a < ps.len() {
                        assert(producers@[a] == ps[a]);
                    }
                }
                lemma_producers_push(ps, producers@[ps.len() as int]);
                assert(producers@ == ps.push(producers@[ps.len() as int]));
                assert forall|a: int, b: int| 0 <= a < b < producers@.len() implies pkey(producers@[a]) != pkey(producers@[b]) by {
                    if b == ps.len() {
                        assert(producers@[a] == ps[a]);
                        assert(pkey(ps[a]) != pkey(producers@[b])) by {
                            if pkey(ps[a]) == pkey(producers@[b]) {
                                assert(producers_map(ps).contains_key(pkey(ps[a])));
                            }
                        }
                    } else {
                        assert(producers@[a] == ps[a] && producers@[b] == ps[b]);
                    }
                }
                assert forall|a: int| 0 <= a < producers@.len() implies (#[trigger] producers@[a]).1.wf() by {
                    if a < ps.len() {
                        assert(producers@[a] == ps[a]);
                    }
                }
            }
            i += 1;
        }
        Ok(Prepared { producers, need, token, done: done.name.clone() })
    }

    /// Solve a query: every way of giving each producer group an atom that
    /// the tokens can pay for, as answers with their multiplicities.
    pub fn solve(&self, q: &Query, limits: Limits) -> (r: Result<Report, Error>)
        requires
            self.wf(),
        ensures
            match solve_v(self.view_v(), *q, limits) {
                Ok(t) => r matches Ok(rep) && report_v(rep) == t,
                Err(e) => r == Err::<Report, Error>(e),
            },
    {
        solve_query(&self.producers, &self.need, &self.token, &self.done, q, limits)
    }
}

} // verus!
