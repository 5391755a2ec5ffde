//! Private effectful boundary fusion, conditional on counted query resources.
//!
//! A producer rule whose body posts a private intermediate constraint, and the
//! one consumer rule that removes it together with counted resources of the
//! same owner, are fused into a single rule. The fused program is handed out
//! only for a query whose resources are counted sufficient for every owner.
use crate::order::{Order, compare_key, compare_term, key_order, lemma_key_order, lemma_key_order_trans, lemma_term_order, lemma_term_order_trans, term_order};
use crate::syntax::{
    Constraint, ConstraintV, Goal, GoalV, Guard, Query, Rule, RuleV, Term, TermV, Var, constraint_v, constraints_v, copy_constraint, copy_constraints,
    copy_goal, copy_rule, copy_term, goal_v, guard_v, rule_v, rules_v, term_v, terms_v,
};
use vstd::prelude::*;
use vstd::string::*;

verus! {

/// A predicate key: name and arity.
pub type KeyV = (Seq<char>, nat);

pub open spec fn key_v(c: ConstraintV) -> KeyV {
    (c.name, c.args.len())
}

/// How often `k` occurs in `ks`.
pub open spec fn occ(ks: Seq<KeyV>, k: KeyV) -> nat
    decreases ks.len(),
{
    if ks.len() == 0 {
        0
    } else {
        occ(ks.drop_last(), k) + if ks.last() == k {
            1nat
        } else {
            0nat
        }
    }
}

/// The keys of a list of constraints.
pub open spec fn keys_v(cs: Seq<ConstraintV>) -> Seq<KeyV> {
    cs.map_values(|c: ConstraintV| key_v(c))
}

/// Counts of predicate keys, kept sorted by key.
pub struct Counts {
    entries: Vec<(String, usize, usize)>,
}

impl Counts {
    spec fn key_at(&self, i: int) -> KeyV {
        (self.entries@[i].0@, self.entries@[i].1 as nat)
    }

    /// The entries as values: key and count, in ascending key order.
    pub closed spec fn entries_v(&self) -> Seq<(KeyV, nat)> {
        self.entries@.map_values(|e: (String, usize, usize)| ((e.0@, e.1 as nat), e.2 as nat))
    }

    pub closed spec fn wf(&self) -> bool {
        &&& forall|i: int, j: int|
            0 <= i < j < self.entries@.len() ==> key_order(#[trigger] self.key_at(i), #[trigger] self.key_at(j))
                == Order::Less
        &&& forall|i: int| 0 <= i < self.entries@.len() ==> (#[trigger] self.entries@[i]).2 > 0
    }

    /// How often key `k` was counted.
    pub closed spec fn count(&self, k: KeyV) -> nat {
        if exists|i: int| 0 <= i < self.entries@.len() && #[trigger] self.key_at(i) == k {
            let i = choose|i: int| 0 <= i < self.entries@.len() && #[trigger] self.key_at(i) == k;
            self.entries@[i].2 as nat
        } else {
            0
        }
    }

    /// The number of distinct keys counted.
    pub closed spec fn size(&self) -> nat {
        self.entries@.len()
    }

    proof fn lemma_count_at(&self, i: int)
        requires
            self.wf(),
            0 <= i < self.entries@.len(),
        ensures
            self.count(self.key_at(i)) == self.entries@[i].2,
            self.entries_v()[i] == (self.key_at(i), self.entries@[i].2 as nat),
    {
        let j = choose|j: int| 0 <= j < self.entries@.len() && #[trigger] self.key_at(j) == self.key_at(i);
        lemma_key_order(self.key_at(i), self.key_at(j));
        if i < j {
            assert(key_order(self.key_at(i), self.key_at(j)) == Order::Less);
        } else if j < i {
            assert(key_order(self.key_at(j), self.key_at(i)) == Order::Less);
        }
    }

    /// A counted key has an entry.
    pub proof fn lemma_counted(&self, k: KeyV)
        requires
            self.wf(),
            self.count(k) > 0,
        ensures
            exists|i: int| 0 <= i < self.size() && (#[trigger] self.entries_v()[i]).0 == k,
    {
        let i = choose|i: int| 0 <= i < self.entries@.len() && #[trigger] self.key_at(i) == k;
        self.lemma_count_at(i);
    }

    pub fn new() -> (r: Counts)
        ensures
            r.wf(),
            r.size() == 0,
            forall|k: KeyV| #[trigger] r.count(k) == 0,
    {
        Counts { entries: Vec::new() }
    }

    pub fn len(&self) -> (r: usize)
        ensures
            r == self.size(),
            r == self.entries_v().len(),
    {
        self.entries.len()
    }

    /// The entry at position `i`: name, arity and count.
    pub fn entry(&self, i: usize) -> (r: (&str, usize, usize))
        requires
            self.wf(),
            i < self.size(),
        ensures
            self.entries_v()[i as int] == ((r.0@, r.1 as nat), r.2 as nat),
            self.count((r.0@, r.1 as nat)) == r.2,
            r.2 > 0,
    {
        proof {
            self.lemma_count_at(i as int);
        }
        let e = &self.entries[i];
        (e.0.as_str(), e.1, e.2)
    }

    /// How often the key was counted.
    pub fn get(&self, name: &str, arity: usize) -> (r: usize)
        requires
            self.wf(),
        ensures
            r == self.count((name@, arity as nat)),
    {
        let mut i: usize = 0;
        while i < self.entries.len()
            invariant
                self.wf(),
                0 <= i <= self.entries@.len(),
                forall|j: int| 0 <= j < i ==> #[trigger] self.key_at(j) != (name@, arity as nat),
            decreases self.entries.len() - i,
        {
            let o = compare_key((self.entries[i].0.as_str(), self.entries[i].1), (name, arity));
            proof {
                lemma_key_order(self.key_at(i as int), (name@, arity as nat));
            }
            if o == Order::Equal {
                proof {
                    self.lemma_count_at(i as int);
                }
                return self.entries[i].2;
            }
            i += 1;
        }
        0
    }

    /// Count the key once more.
    pub fn add(&mut self, name: &str, arity: usize)
        requires
            old(self).wf(),
            old(self).count((name@, arity as nat)) < usize::MAX,
        ensures
            final(self).wf(),
            final(self).count((name@, arity as nat)) == old(self).count((name@, arity as nat)) + 1,
            forall|k: KeyV| k != (name@, arity as nat) ==> #[trigger] final(self).count(k) == old(self).count(k),
            final(self).size() <= old(self).size() + 1,
    {
        let ghost k = (name@, arity as nat);
        let mut i: usize = 0;
        while i < self.entries.len()
            invariant
                self.wf(),
                k == (name@, arity as nat),
                0 <= i <= self.entries@.len(),
                forall|j: int| 0 <= j < i ==> key_order(#[trigger] self.key_at(j), k) == Order::Less,
            ensures
                self.wf(),
                0 <= i <= self.entries@.len(),
                forall|j: int| 0 <= j < i ==> key_order(#[trigger] self.key_at(j), k) == Order::Less,
                i < self.entries@.len() ==> key_order(self.key_at(i as int), k) != Order::Less,
            decreases self.entries.len() - i,
        {
            let o = compare_key((self.entries[i].0.as_str(), self.entries[i].1), (name, arity));
            if o != Order::Less {
                break;
            }
            i += 1;
        }
        let ghost older = *self;
        let found = i < self.entries.len() && compare_key((self.entries[i].0.as_str(), self.entries[i].1), (name, arity)) == Order::Equal;
        if found {
            proof {
                older.lemma_count_at(i as int);
                lemma_key_order(older.key_at(i as int), k);
            }
            let e = (self.entries[i].0.clone(), self.entries[i].1, self.entries[i].2 + 1);
            self.entries.set(i, e);
            proof {
                assert forall|j: int| 0 <= j < self.entries@.len() implies #[trigger] self.key_at(j) == older.key_at(j) by {}
                self.lemma_count_at(i as int);
                assert forall|q: KeyV| q != k implies #[trigger] self.count(q) == older.count(q) by {
                    if exists|j: int| 0 <= j < older.entries@.len() && #[trigger] older.key_at(j) == q {
                        let j = choose|j: int| 0 <= j < older.entries@.len() && #[trigger] older.key_at(j) == q;
                        older.lemma_count_at(j);
                        self.lemma_count_at(j);
                    } else {
                        assert forall|j: int| 0 <= j < self.entries@.len() implies #[trigger] self.key_at(j) != q by {
                            assert(self.key_at(j) == older.key_at(j));
                        }
                    }
                }
            }
        } else {
            proof {
                if i < older.entries@.len() {
                    lemma_key_order(older.key_at(i as int), k);
                }
                assert forall|j: int| 0 <= j < older.entries@.len() implies #[trigger] older.key_at(j) != k by {
                    lemma_key_order(older.key_at(j), k);
                    if j > i as int {
                        lemma_key_order(older.key_at(i as int), older.key_at(j));
                        lemma_key_order(k, older.key_at(i as int));
                        if key_order(k, older.key_at(j)) != Order::Less {
                        }
                    }
                }
            }
            self.entries.insert(i, (name.to_string(), arity, 1));
            proof {
                let s = self.entries@;
                assert(s == older.entries@.insert(i as int, s[i as int]));
                assert forall|j: int| 0 <= j < i implies #[trigger] self.key_at(j) == older.key_at(j) by {}
                assert forall|j: int| i < j < s.len() implies #[trigger] self.key_at(j) == older.key_at(j - 1) by {}
                assert(self.key_at(i as int) == k);
                assert forall|a: int, b: int| 0 <= a < b < s.len() implies key_order(#[trigger] self.key_at(a), #[trigger] self.key_at(b))
                    == Order::Less by {
                    if b < i {
                    } else if b == i {
                    } else if a < i {
                        assert(key_order(older.key_at(a), k) == Order::Less);
                        lemma_key_order(older.key_at(i as int), k);
                        assert(key_order(k, older.key_at(i as int)) == Order::Less);
                        if b - 1 > i {
                            lemma_key_order_trans(k, older.key_at(i as int), older.key_at(b - 1));
                        }
                        lemma_key_order_trans(older.key_at(a), k, older.key_at(b - 1));
                    } else if a == i {
                        lemma_key_order(older.key_at(i as int), k);
                        if b - 1 > i {
                            lemma_key_order_trans(k, older.key_at(i as int), older.key_at(b - 1));
                        }
                    } else {
                    }
                }
                assert forall|j: int| 0 <= j < s.len() implies (#[trigger] s[j]).2 > 0 by {
                    if j < i {
                        assert(s[j] == older.entries@[j]);
                    } else if j > i {
                        assert(s[j] == older.entries@[j - 1]);
                    }
                }
                self.lemma_count_at(i as int);
                assert forall|q: KeyV| q != k implies #[trigger] self.count(q) == older.count(q) by {
                    if exists|j: int| 0 <= j < older.entries@.len() && #[trigger] older.key_at(j) == q {
                        let j = choose|j: int| 0 <= j < older.entries@.len() && #[trigger] older.key_at(j) == q;
                        older.lemma_count_at(j);
                        if j < i {
                            self.lemma_count_at(j);
                        } else {
                            assert(self.key_at(j + 1) == q);
                            self.lemma_count_at(j + 1);
                            assert(s[j + 1] == older.entries@[j]);
                        }
                    } else {
                        assert forall|j: int| 0 <= j < s.len() implies #[trigger] self.key_at(j) != q by {
                            if j < i {
                                assert(self.key_at(j) == older.key_at(j));
                            } else if j > i {
                                assert(self.key_at(j) == older.key_at(j - 1));
                            }
                        }
                    }
                }
            }
        }
    }
}


/// The variables of a term.
pub open spec fn term_vars(t: TermV) -> Set<u64>
    decreases t,
{
    match t {
        TermV::Var(v) => set![v],
        TermV::App(_, xs) => terms_vars(xs),
    }
}

/// The variables of a list of terms.
pub open spec fn terms_vars(xs: Seq<TermV>) -> Set<u64>
    decreases xs,
{
    if xs.len() == 0 {
        Set::empty()
    } else {
        terms_vars(xs.drop_last()) + term_vars(xs.last())
    }
}

/// The variables of the arguments of a list of constraints.
pub open spec fn heads_vars(cs: Seq<ConstraintV>) -> Set<u64>
    decreases cs.len(),
{
    if cs.len() == 0 {
        Set::empty()
    } else {
        heads_vars(cs.drop_last()) + terms_vars(cs.last().args)
    }
}

/// The variables of a goal.
pub open spec fn goal_vars(g: GoalV) -> Set<u64>
    decreases g,
{
    match g {
        GoalV::Constraint(c) => terms_vars(c.args),
        GoalV::Unify(a, b) => term_vars(a) + term_vars(b),
        GoalV::And(gs) => goals_vars(gs),
        GoalV::Or(a, b) => goal_vars(*a) + goal_vars(*b),
        _ => Set::empty(),
    }
}

pub open spec fn goals_vars(gs: Seq<GoalV>) -> Set<u64>
    decreases gs,
{
    if gs.len() == 0 {
        Set::empty()
    } else {
        goals_vars(gs.drop_last()) + goal_vars(gs.last())
    }
}

/// The keys of the constraints a goal posts, in order.
pub open spec fn calls_v(g: GoalV) -> Seq<KeyV>
    decreases g,
{
    match g {
        GoalV::Constraint(c) => seq![key_v(c)],
        GoalV::And(gs) => calls_all(gs),
        GoalV::Or(a, b) => calls_v(*a) + calls_v(*b),
        _ => Seq::empty(),
    }
}

pub open spec fn calls_all(gs: Seq<GoalV>) -> Seq<KeyV>
    decreases gs,
{
    if gs.len() == 0 {
        Seq::empty()
    } else {
        calls_all(gs.drop_last()) + calls_v(gs.last())
    }
}

/// Replace every variable of a term by its image.
pub open spec fn subst_v(t: TermV, env: Map<u64, TermV>) -> TermV
    decreases t,
{
    match t {
        TermV::Var(v) => env[v],
        TermV::App(n, xs) => TermV::App(
            n,
            Seq::new(xs.len(), |i: int| if 0 <= i < xs.len() { subst_v(xs[i], env) } else { TermV::Var(0) }),
        ),
    }
}

pub open spec fn subst_c(c: ConstraintV, env: Map<u64, TermV>) -> ConstraintV {
    ConstraintV { name: c.name, args: c.args.map_values(|t: TermV| subst_v(t, env)) }
}

pub open spec fn subst_goal_v(g: GoalV, env: Map<u64, TermV>) -> GoalV
    decreases g,
{
    match g {
        GoalV::Constraint(c) => GoalV::Constraint(subst_c(c, env)),
        GoalV::Unify(a, b) => GoalV::Unify(subst_v(a, env), subst_v(b, env)),
        GoalV::And(gs) => GoalV::And(
            Seq::new(gs.len(), |i: int| if 0 <= i < gs.len() { subst_goal_v(gs[i], env) } else { GoalV::True }),
        ),
        GoalV::Or(a, b) => GoalV::Or(Box::new(subst_goal_v(*a, env)), Box::new(subst_goal_v(*b, env))),
        GoalV::True => GoalV::True,
        GoalV::Fail => GoalV::Fail,
    }
}

/// A term without variables.
pub open spec fn ground_v(t: TermV) -> bool {
    term_vars(t) == Set::<u64>::empty()
}

/// A set of variables, kept as a strictly increasing list.
pub struct VarSet {
    items: Vec<u64>,
}

impl VarSet {
    pub closed spec fn wf(&self) -> bool {
        forall|i: int, j: int| 0 <= i < j < self.items@.len() ==> self.items@[i] < self.items@[j]
    }

    /// The variables in the set.
    pub closed spec fn set(&self) -> Set<u64> {
        self.items@.to_set()
    }

    pub fn new() -> (r: VarSet)
        ensures
            r.wf(),
            r.set() == Set::<u64>::empty(),
    {
        let r = VarSet { items: Vec::new() };
        proof {
            assert(r.set() =~= Set::<u64>::empty());
        }
        r
    }

    pub fn contains(&self, v: u64) -> (r: bool)
        requires
            self.wf(),
        ensures
            r == self.set().contains(v),
    {
        let mut i: usize = 0;
        while i < self.items.len()
            invariant
                0 <= i <= self.items@.len(),
                forall|j: int| 0 <= j < i ==> self.items@[j] != v,
            decreases self.items.len() - i,
        {
            if self.items[i] == v {
                return true;
            }
            i += 1;
        }
        false
    }

    /// Whether every variable of this set is in `other`.
    pub fn subset_of(&self, other: &VarSet) -> (r: bool)
        requires
            other.wf(),
        ensures
            r == self.set().subset_of(other.set()),
    {
        let mut i: usize = 0;
        while i < self.items.len()
            invariant
                other.wf(),
                0 <= i <= self.items@.len(),
                forall|j: int| 0 <= j < i ==> other.set().contains(#[trigger] self.items@[j]),
            decreases self.items.len() - i,
        {
            if !other.contains(self.items[i]) {
                proof {
                    assert(self.set().contains(self.items@[i as int]));
                }
                return false;
            }
            i += 1;
        }
        proof {
            assert forall|x: u64| self.set().contains(x) implies other.set().contains(x) by {
                let j = choose|j: int| 0 <= j < self.items@.len() && self.items@[j] == x;
            }
        }
        true
    }

    pub fn insert(&mut self, v: u64)
        requires
            old(self).wf(),
        ensures
            final(self).wf(),
            final(self).set() == old(self).set().insert(v),
    {
        let mut i: usize = 0;
        while i < self.items.len() && self.items[i] < v
            invariant
                self.wf(),
                0 <= i <= self.items@.len(),
                forall|j: int| 0 <= j < i ==> self.items@[j] < v,
            decreases self.items.len() - i,
        {
            i += 1;
        }
        let ghost before = self.items@;
        if i < self.items.len() && self.items[i] == v {
            proof {
                assert(self.set() =~= before.to_set().insert(v));
            }
            return;
        }
        self.items.insert(i, v);
        proof {
            let s = self.items@;
            assert(s == before.insert(i as int, v));
            assert forall|a: int, b: int| 0 <= a < b < s.len() implies s[a] < s[b] by {
                if b < i {
                    assert(s[a] == before[a] && s[b] == before[b]);
                } else if b == i {
                    assert(s[a] == before[a]);
                } else if a < i {
                    assert(s[a] == before[a] && s[b] == before[b - 1]);
                    assert(before[i as int] > v);
                    if b - 1 > i {
                        assert(before[i as int] < before[b - 1]);
                    }
                } else if a == i {
                    assert(s[b] == before[b - 1]);
                    if b - 1 > i {
                        assert(before[i as int] < before[b - 1]);
                    }
                } else {
                    assert(s[a] == before[a - 1] && s[b] == before[b - 1]);
                }
            }
            assert forall|x: u64| #[trigger] s.to_set().contains(x) <==> before.to_set().insert(v).contains(x) by {
                if s.to_set().contains(x) {
                    let j = choose|j: int| 0 <= j < s.len() && s[j] == x;
                    if j < i {
                        assert(before[j] == x);
                    } else if j > i {
                        assert(before[j - 1] == x);
                    }
                }
                if before.to_set().contains(x) {
                    let j = choose|j: int| 0 <= j < before.len() && before[j] == x;
                    if j < i {
                        assert(s[j] == x);
                    } else {
                        assert(s[j + 1] == x);
                    }
                }
                if x == v {
                    assert(s[i as int] == v);
                }
            }
            assert(s.to_set() =~= before.to_set().insert(v));
        }
    }
}

/// Add the variables of a term.
pub fn term_vars_into(t: &Term, out: &mut VarSet)
    requires
        old(out).wf(),
    ensures
        final(out).wf(),
        final(out).set() == old(out).set() + term_vars(term_v(*t)),
    decreases t,
{
    match t {
        Term::Var(v) => {
            out.insert(v.0);
            proof {
                assert(final(out).set() =~= old(out).set() + term_vars(term_v(*t)));
            }
        },
        Term::App(_, xs) => {
            let ghost vs = term_v(*t)->App_1;
            let mut i: usize = 0;
            proof {
                assert(vs.subrange(0, 0) =~= Seq::<TermV>::empty());
                assert(out.set() =~= old(out).set() + terms_vars(vs.subrange(0, 0)));
            }
            while i < xs.len()
                invariant
                    *t == Term::App(t->App_0, *xs),
                    vs == term_v(*t)->App_1,
                    vs.len() == xs@.len(),
                    0 <= i <= xs.len(),
                    out.wf(),
                    out.set() == old(out).set() + terms_vars(vs.subrange(0, i as int)),
                decreases xs.len() - i,
            {
                proof {
                    assert(decreases_to!(*t => t->App_1));
                    assert(decreases_to!(*xs => xs[i as int]));
                    assert(vs[i as int] == term_v(xs@[i as int]));
                    assert(vs.subrange(0, i + 1).drop_last() =~= vs.subrange(0, i as int));
                }
                term_vars_into(&xs[i], out);
                proof {
                    assert(out.set() =~= old(out).set() + terms_vars(vs.subrange(0, i + 1)));
                }
                i += 1;
            }
            proof {
                assert(vs.subrange(0, i as int) =~= vs);
            }
        },
    }
}

fn terms_vars_into(xs: &Vec<Term>, out: &mut VarSet)
    requires
        old(out).wf(),
    ensures
        final(out).wf(),
        final(out).set() == old(out).set() + terms_vars(terms_v(xs@)),
{
    let ghost vs = terms_v(xs@);
    let mut i: usize = 0;
    proof {
        assert(vs.subrange(0, 0) =~= Seq::<TermV>::empty());
        assert(out.set() =~= old(out).set() + terms_vars(vs.subrange(0, 0)));
    }
    while i < xs.len()
        invariant
            vs == terms_v(xs@),
            0 <= i <= xs.len(),
            out.wf(),
            out.set() == old(out).set() + terms_vars(vs.subrange(0, i as int)),
        decreases xs.len() - i,
    {
        proof {
            assert(vs.subrange(0, i + 1).drop_last() =~= vs.subrange(0, i as int));
        }
        term_vars_into(&xs[i], out);
        proof {
            assert(out.set() =~= old(out).set() + terms_vars(vs.subrange(0, i + 1)));
        }
        i += 1;
    }
    proof {
        assert(vs.subrange(0, i as int) =~= vs);
    }
}

fn goal_vars_into(g: &Goal, out: &mut VarSet)
    requires
        old(out).wf(),
    ensures
        final(out).wf(),
        final(out).set() == old(out).set() + goal_vars(goal_v(*g)),
    decreases g,
{
    match g {
        Goal::Constraint(c) => {
            terms_vars_into(&c.args, out);
        },
        Goal::Unify(a, b) => {
            term_vars_into(a, out);
            term_vars_into(b, out);
            proof {
                assert(final(out).set() =~= old(out).set() + goal_vars(goal_v(*g)));
            }
        },
        Goal::And(gs) => {
            let ghost vs = goal_v(*g)->And_0;
            let mut i: usize = 0;
            proof {
                assert(vs.subrange(0, 0) =~= Seq::<GoalV>::empty());
                assert(out.set() =~= old(out).set() + goals_vars(vs.subrange(0, 0)));
            }
            while i < gs.len()
                invariant
                    *g == Goal::And(*gs),
                    vs == goal_v(*g)->And_0,
                    vs.len() == gs@.len(),
                    0 <= i <= gs.len(),
                    out.wf(),
                    out.set() == old(out).set() + goals_vars(vs.subrange(0, i as int)),
                decreases gs.len() - i,
            {
                proof {
                    assert(decreases_to!(*g => g->And_0));
                    assert(decreases_to!(*gs => gs[i as int]));
                    assert(vs[i as int] == goal_v(gs@[i as int]));
                    assert(vs.subrange(0, i + 1).drop_last() =~= vs.subrange(0, i as int));
                }
                goal_vars_into(&gs[i], out);
                proof {
                    assert(out.set() =~= old(out).set() + goals_vars(vs.subrange(0, i + 1)));
                }
                i += 1;
            }
            proof {
                assert(vs.subrange(0, i as int) =~= vs);
            }
        },
        Goal::Or(a, b) => {
            goal_vars_into(a, out);
            goal_vars_into(b, out);
            proof {
                assert(final(out).set() =~= old(out).set() + goal_vars(goal_v(*g)));
            }
        },
        _ => {
            proof {
                assert(final(out).set() =~= old(out).set() + goal_vars(goal_v(*g)));
            }
        },
    }
}

/// The keys of the constraints a goal posts, appended in order.
fn goal_calls(g: &Goal, out: &mut Vec<(String, usize)>)
    ensures
        final(out)@.map_values(|k: (String, usize)| (k.0@, k.1 as nat)) == old(out)@.map_values(
            |k: (String, usize)| (k.0@, k.1 as nat),
        ) + calls_v(goal_v(*g)),
    decreases g,
{
    let ghost before = out@.map_values(|k: (String, usize)| (k.0@, k.1 as nat));
    match g {
        Goal::Constraint(c) => {
            out.push((c.name.clone(), c.args.len()));
            proof {
                assert(out@.map_values(|k: (String, usize)| (k.0@, k.1 as nat)) =~= before + calls_v(goal_v(*g)));
            }
        },
        Goal::And(gs) => {
            let ghost vs = goal_v(*g)->And_0;
            let mut i: usize = 0;
            proof {
                assert(vs.subrange(0, 0) =~= Seq::<GoalV>::empty());
                assert(out@.map_values(|k: (String, usize)| (k.0@, k.1 as nat)) =~= before + calls_all(vs.subrange(0, 0)));
            }
            while i < gs.len()
                invariant
                    *g == Goal::And(*gs),
                    vs == goal_v(*g)->And_0,
                    vs.len() == gs@.len(),
                    0 <= i <= gs.len(),
                    out@.map_values(|k: (String, usize)| (k.0@, k.1 as nat)) == before + calls_all(vs.subrange(0, i as int)),
                decreases gs.len() - i,
            {
                proof {
                    assert(decreases_to!(*g => g->And_0));
                    assert(decreases_to!(*gs => gs[i as int]));
                    assert(vs[i as int] == goal_v(gs@[i as int]));
                    assert(vs.subrange(0, i + 1).drop_last() =~= vs.subrange(0, i as int));
                }
                goal_calls(&gs[i], out);
                proof {
                    assert(before + calls_all(vs.subrange(0, i + 1)) =~= before + calls_all(vs.subrange(0, i as int)) + calls_v(goal_v(gs@[i as int])));
                }
                i += 1;
            }
            proof {
                assert(vs.subrange(0, i as int) =~= vs);
            }
        },
        Goal::Or(a, b) => {
            goal_calls(a, out);
            goal_calls(b, out);
            proof {
                assert(out@.map_values(|k: (String, usize)| (k.0@, k.1 as nat)) =~= before + calls_v(goal_v(*g)));
            }
        },
        _ => {
            proof {
                assert(out@.map_values(|k: (String, usize)| (k.0@, k.1 as nat)) =~= before + calls_v(goal_v(*g)));
            }
        },
    }
}

/// A strictly increasing sequence.
pub open spec fn ascending(s: Seq<u64>) -> bool {
    forall|i: int, j: int| 0 <= i < j < s.len() ==> s[i] < s[j]
}

/// The variables of a finite set in increasing order.
pub open spec fn in_order(u: Set<u64>) -> Seq<u64> {
    choose|s: Seq<u64>| ascending(s) && s.to_set() == u
}

/// Two increasing sequences with the same elements are equal.
proof fn lemma_ascending_unique(a: Seq<u64>, b: Seq<u64>)
    requires
        ascending(a),
        ascending(b),
        a.to_set() == b.to_set(),
    ensures
        a == b,
    decreases a.len(),
{
    if a.len() == 0 {
        if b.len() > 0 {
            assert(b.to_set().contains(b[0]));
        }
        assert(a =~= b);
    } else {
        assert(a.to_set().contains(a[0]));
        assert(b.len() > 0);
        assert(b.to_set().contains(b[0]));
        let ja = choose|j: int| 0 <= j < a.len() && a[j] == b[0];
        let jb = choose|j: int| 0 <= j < b.len() && b[j] == a[0];
        assert(a[0] <= a[ja]);
        assert(b[0] <= b[jb]);
        assert(a[0] == b[0]);
        let ta = a.drop_first();
        let tb = b.drop_first();
        assert forall|x: u64| #[trigger] ta.to_set().contains(x) <==> tb.to_set().contains(x) by {
            if ta.to_set().contains(x) {
                let j = choose|j: int| 0 <= j < ta.len() && ta[j] == x;
                assert(a[j + 1] == x);
                assert(a.to_set().contains(x));
                let k = choose|k: int| 0 <= k < b.len() && b[k] == x;
                assert(a[0] < a[j + 1]);
                assert(k != 0);
                assert(tb[k - 1] == x);
            }
            if tb.to_set().contains(x) {
                let j = choose|j: int| 0 <= j < tb.len() && tb[j] == x;
                assert(b[j + 1] == x);
                assert(b.to_set().contains(x));
                let k = choose|k: int| 0 <= k < a.len() && a[k] == x;
                assert(b[0] < b[j + 1]);
                assert(k != 0);
                assert(ta[k - 1] == x);
            }
        }
        assert(ta.to_set() =~= tb.to_set());
        lemma_ascending_unique(ta, tb);
        assert(a =~= seq![a[0]] + ta);
        assert(b =~= seq![b[0]] + tb);
    }
}

/// How many of the first `i` variables are outside `params`.
pub open spec fn outside_before(s: Seq<u64>, params: Set<u64>, i: int) -> nat
    decreases i,
{
    if i <= 0 {
        0
    } else {
        outside_before(s, params, i - 1) + if params.contains(s[i - 1]) {
            0nat
        } else {
            1nat
        }
    }
}

/// One more than every variable of `u`, and one more than some (or one if `u` is empty).
pub open spec fn is_top(u: Set<u64>, b: int) -> bool {
    &&& forall|y: u64| u.contains(y) ==> y < b
    &&& (u == Set::<u64>::empty() && b == 1) || exists|x: u64| u.contains(x) && b == x + 1
}

pub open spec fn top(u: Set<u64>) -> int {
    choose|b: int| is_top(u, b)
}

/// Images of variables, by variable.
struct Env {
    pairs: Vec<(u64, Term)>,
}

impl Env {
    spec fn wf(&self) -> bool {
        forall|i: int, j: int| 0 <= i < j < self.pairs@.len() ==> self.pairs@[i].0 != self.pairs@[j].0
    }

    spec fn has(&self, v: u64) -> bool {
        exists|i: int| 0 <= i < self.pairs@.len() && #[trigger] self.pairs@[i].0 == v
    }

    spec fn map(&self) -> Map<u64, TermV> {
        Map::new(
            |v: u64| self.has(v),
            |v: u64| term_v(self.pairs@[choose|i: int| 0 <= i < self.pairs@.len() && #[trigger] self.pairs@[i].0 == v].1),
        )
    }

    proof fn lemma_at(&self, i: int)
        requires
            self.wf(),
            0 <= i < self.pairs@.len(),
        ensures
            self.has(self.pairs@[i].0),
            self.map()[self.pairs@[i].0] == term_v(self.pairs@[i].1),
    {
        let v = self.pairs@[i].0;
        let j = choose|j: int| 0 <= j < self.pairs@.len() && #[trigger] self.pairs@[j].0 == v;
        assert(i == j);
    }

    fn new() -> (r: Env)
        ensures
            r.wf(),
            r.map() == Map::<u64, TermV>::empty(),
    {
        let r = Env { pairs: Vec::new() };
        proof {
            assert(r.map() =~= Map::<u64, TermV>::empty());
        }
        r
    }

    fn find(&self, v: u64) -> (r: Option<usize>)
        requires
            self.wf(),
        ensures
            match r {
                Some(i) => i < self.pairs@.len() && self.pairs@[i as int].0 == v,
                None => !self.has(v),
            },
    {
        let mut i: usize = 0;
        while i < self.pairs.len()
            invariant
                0 <= i <= self.pairs@.len(),
                forall|j: int| 0 <= j < i ==> self.pairs@[j].0 != v,
            decreases self.pairs.len() - i,
        {
            if self.pairs[i].0 == v {
                return Some(i);
            }
            i += 1;
        }
        None
    }

    fn contains(&self, v: u64) -> (r: bool)
        requires
            self.wf(),
        ensures
            r == self.map().dom().contains(v),
    {
        self.find(v).is_some()
    }

    fn insert(&mut self, v: u64, t: Term)
        requires
            old(self).wf(),
            !old(self).map().dom().contains(v),
        ensures
            final(self).wf(),
            final(self).map() == old(self).map().insert(v, term_v(t)),
    {
        let ghost older = *self;
        let ghost tv = term_v(t);
        self.pairs.push((v, t));
        proof {
            let n = older.pairs@.len();
            assert forall|i: int, j: int| 0 <= i < j < self.pairs@.len() implies self.pairs@[i].0 != self.pairs@[j].0 by {
                if j == n {
                    assert(self.pairs@[i] == older.pairs@[i]);
                    if older.pairs@[i].0 == v {
                        assert(older.has(v));
                    }
                } else {
                    assert(self.pairs@[i] == older.pairs@[i] && self.pairs@[j] == older.pairs@[j]);
                }
            }
            assert forall|x: u64| #[trigger] self.map().dom().contains(x) <==> older.map().insert(v, tv).dom().contains(x) by {
                if self.has(x) {
                    let i = choose|i: int| 0 <= i < self.pairs@.len() && #[trigger] self.pairs@[i].0 == x;
                    if i < n {
                        assert(self.pairs@[i] == older.pairs@[i]);
                    }
                }
                if older.has(x) {
                    let i = choose|i: int| 0 <= i < older.pairs@.len() && #[trigger] older.pairs@[i].0 == x;
                    assert(self.pairs@[i] == older.pairs@[i]);
                }
                if x == v {
                    assert(self.pairs@[n as int].0 == v);
                }
            }
            assert forall|x: u64| #[trigger] self.map().dom().contains(x) implies self.map()[x] == older.map().insert(v, tv)[x] by {
                let i = choose|i: int| 0 <= i < self.pairs@.len() && #[trigger] self.pairs@[i].0 == x;
                self.lemma_at(i);
                if i < n {
                    assert(self.pairs@[i] == older.pairs@[i]);
                    older.lemma_at(i);
                }
            }
            assert(self.map() =~= older.map().insert(v, tv));
        }
    }

    fn get(&self, v: u64) -> (r: &Term)
        requires
            self.wf(),
            self.map().dom().contains(v),
        ensures
            term_v(*r) == self.map()[v],
    {
        match self.find(v) {
            Some(i) => {
                proof {
                    self.lemma_at(i as int);
                }
                &self.pairs[i].1
            },
            None => {
                proof {
                    assert(false);
                }
                &self.pairs[0].1
            },
        }
    }
}

pub proof fn lemma_terms_vars_index(xs: Seq<TermV>, i: int)
    requires
        0 <= i < xs.len(),
    ensures
        term_vars(xs[i]).subset_of(terms_vars(xs)),
    decreases xs.len(),
{
    if i < xs.len() - 1 {
        lemma_terms_vars_index(xs.drop_last(), i);
        assert(xs.drop_last()[i] == xs[i]);
    }
}

proof fn lemma_goals_vars_index(gs: Seq<GoalV>, i: int)
    requires
        0 <= i < gs.len(),
    ensures
        goal_vars(gs[i]).subset_of(goals_vars(gs)),
    decreases gs.len(),
{
    if i < gs.len() - 1 {
        lemma_goals_vars_index(gs.drop_last(), i);
        assert(gs.drop_last()[i] == gs[i]);
    }
}

fn subst_term(t: &Term, env: &Env) -> (r: Term)
    requires
        env.wf(),
        term_vars(term_v(*t)).subset_of(env.map().dom()),
    ensures
        term_v(r) == subst_v(term_v(*t), env.map()),
    decreases t,
{
    match t {
        Term::Var(v) => {
            proof {
                assert(term_vars(term_v(*t)).contains(v.0));
            }
            copy_term(env.get(v.0))
        },
        Term::App(n, xs) => {
            let ghost vs = term_v(*t)->App_1;
            let mut out: Vec<Term> = Vec::new();
            let mut i: usize = 0;
            while i < xs.len()
                invariant
                    env.wf(),
                    *t == Term::App(*n, *xs),
                    vs == term_v(*t)->App_1,
                    vs.len() == xs@.len(),
                    term_vars(term_v(*t)).subset_of(env.map().dom()),
                    0 <= i <= xs.len(),
                    out@.len() == i,
                    forall|j: int| 0 <= j < i ==> term_v(#[trigger] out@[j]) == subst_v(vs[j], env.map()),
                decreases xs.len() - i,
            {
                proof {
                    assert(decreases_to!(*t => t->App_1));
                    assert(decreases_to!(*xs => xs[i as int]));
                    assert(vs[i as int] == term_v(xs@[i as int]));
                    lemma_terms_vars_index(vs, i as int);
                }
                out.push(subst_term(&xs[i], env));
                i += 1;
            }
            let r = Term::App(n.clone(), out);
            proof {
                let a = term_v(r)->App_1;
                let b = subst_v(term_v(*t), env.map())->App_1;
                assert forall|j: int| 0 <= j < a.len() implies a[j] == b[j] by {
                    assert(a[j] == term_v(out@[j]));
                }
                assert(a =~= b);
            }
            r
        },
    }
}

fn subst_terms(xs: &Vec<Term>, env: &Env) -> (r: Vec<Term>)
    requires
        env.wf(),
        terms_vars(terms_v(xs@)).subset_of(env.map().dom()),
    ensures
        terms_v(r@) == terms_v(xs@).map_values(|t: TermV| subst_v(t, env.map())),
{
    let ghost vs = terms_v(xs@);
    let mut out: Vec<Term> = Vec::new();
    let mut i: usize = 0;
    while i < xs.len()
        invariant
            env.wf(),
            vs == terms_v(xs@),
            terms_vars(vs).subset_of(env.map().dom()),
            0 <= i <= xs.len(),
            out@.len() == i,
            forall|j: int| 0 <= j < i ==> term_v(#[trigger] out@[j]) == subst_v(vs[j], env.map()),
        decreases xs.len() - i,
    {
        proof {
            lemma_terms_vars_index(vs, i as int);
        }
        out.push(subst_term(&xs[i], env));
        i += 1;
    }
    proof {
        assert(terms_v(out@) =~= vs.map_values(|t: TermV| subst_v(t, env.map())));
    }
    out
}

fn subst_constraint(c: &Constraint, env: &Env) -> (r: Constraint)
    requires
        env.wf(),
        terms_vars(constraint_v(*c).args).subset_of(env.map().dom()),
    ensures
        constraint_v(r) == subst_c(constraint_v(*c), env.map()),
{
    Constraint { name: c.name.clone(), args: subst_terms(&c.args, env) }
}

fn subst_goal(g: &Goal, env: &Env) -> (r: Goal)
    requires
        env.wf(),
        goal_vars(goal_v(*g)).subset_of(env.map().dom()),
    ensures
        goal_v(r) == subst_goal_v(goal_v(*g), env.map()),
    decreases g,
{
    match g {
        Goal::Constraint(c) => Goal::Constraint(subst_constraint(c, env)),
        Goal::Unify(a, b) => Goal::Unify(subst_term(a, env), subst_term(b, env)),
        Goal::And(gs) => {
            let ghost vs = goal_v(*g)->And_0;
            let mut out: Vec<Goal> = Vec::new();
            let mut i: usize = 0;
            while i < gs.len()
                invariant
                    env.wf(),
                    *g == Goal::And(*gs),
                    vs == goal_v(*g)->And_0,
                    vs.len() == gs@.len(),
                    goal_vars(goal_v(*g)).subset_of(env.map().dom()),
                    0 <= i <= gs.len(),
                    out@.len() == i,
                    forall|j: int| 0 <= j < i ==> goal_v(#[trigger] out@[j]) == subst_goal_v(vs[j], env.map()),
                decreases gs.len() - i,
            {
                proof {
                    assert(decreases_to!(*g => g->And_0));
                    assert(decreases_to!(*gs => gs[i as int]));
                    assert(vs[i as int] == goal_v(gs@[i as int]));
                    lemma_goals_vars_index(vs, i as int);
                }
                out.push(subst_goal(&gs[i], env));
                i += 1;
            }
            let r = Goal::And(out);
            proof {
                let a = goal_v(r)->And_0;
                let b = subst_goal_v(goal_v(*g), env.map())->And_0;
                assert forall|j: int| 0 <= j < a.len() implies a[j] == b[j] by {
                    assert(a[j] == goal_v(out@[j]));
                }
                assert(a =~= b);
            }
            r
        },
        Goal::Or(a, b) => Goal::Or(Box::new(subst_goal(a, env)), Box::new(subst_goal(b, env))),
        Goal::True => Goal::True,
        Goal::Fail => Goal::Fail,
    }
}

pub open spec fn var_of(t: TermV) -> u64 {
    t->Var_0
}

/// The intermediate constraint a producer rule posts.
pub open spec fn middle_of(p: RuleV) -> ConstraintV {
    p.body->Constraint_0
}

/// A producer head: keyed by `pk`, with variables after the key.
pub open spec fn head_ok(h: ConstraintV, pk: u64) -> bool {
    &&& h.args.len() > 0
    &&& h.args[0] == TermV::Var(pk)
    &&& forall|j: int| 1 <= j < h.args.len() ==> (#[trigger] h.args[j]) is Var
}

/// The variables after the key argument of a head.
pub open spec fn tail_vars(h: ConstraintV) -> Seq<u64> {
    h.args.subrange(1, h.args.len() as int).map_values(|t: TermV| var_of(t))
}

/// The variables after the key argument of each head, head by head.
pub open spec fn tails(hs: Seq<ConstraintV>) -> Seq<u64>
    decreases hs.len(),
{
    if hs.len() == 0 {
        Seq::empty()
    } else {
        tails(hs.drop_last()) + tail_vars(hs.last())
    }
}

/// A producer rule: it removes heads keyed by the first argument of the one
/// constraint it posts, binds distinct fresh variables in them, and posts only
/// variables it bound.
pub open spec fn producer_ok(p: RuleV) -> bool {
    let m = middle_of(p);
    &&& p.kept.len() == 0
    &&& p.guards.len() == 0
    &&& p.removed.len() > 0
    &&& p.body is Constraint
    &&& m.args.len() > 0
    &&& m.args[0] is Var
    &&& forall|i: int| 0 <= i < p.removed.len() ==> #[trigger] head_ok(p.removed[i], var_of(m.args[0]))
    &&& tails(p.removed).no_duplicates()
    &&& !tails(p.removed).contains(var_of(m.args[0]))
    &&& forall|j: int|
        0 <= j < m.args.len() ==> (#[trigger] m.args[j]) is Var && (var_of(m.args[j]) == var_of(m.args[0])
            || tails(p.removed).contains(var_of(m.args[j])))
}

/// The position of the consumer head that removes the intermediate.
pub open spec fn middle_index(c: RuleV, m: ConstraintV) -> int {
    choose|i: int| 0 <= i < c.removed.len() && key_v(c.removed[i]) == key_v(m)
}

/// A consumer rule: exactly one of its heads removes the intermediate, with
/// distinct variables; every other head is a resource of the intermediate's key.
pub open spec fn consumer_ok(c: RuleV, m: ConstraintV) -> bool {
    let mi = middle_index(c, m);
    let mh = c.removed[mi];
    &&& c.kept.len() == 0
    &&& c.guards.len() == 0
    &&& c.removed.len() >= 2
    &&& exists|i: int| 0 <= i < c.removed.len() && key_v(c.removed[i]) == key_v(m)
    &&& forall|i: int| 0 <= i < c.removed.len() && i != mi ==> key_v(#[trigger] c.removed[i]) != key_v(m)
    &&& forall|j: int| 0 <= j < mh.args.len() ==> (#[trigger] mh.args[j]) is Var
    &&& mh.args.map_values(|t: TermV| var_of(t)).no_duplicates()
    &&& forall|i: int| 0 <= i < c.removed.len() && i != mi ==> (#[trigger] c.removed[i]).args == seq![mh.args[0]]
}

pub open spec fn heads_of(r: RuleV) -> Seq<ConstraintV> {
    r.kept + r.removed
}

/// The resource keys of a fusion.
pub open spec fn producer_keys(p: RuleV) -> Seq<KeyV> {
    keys_v(p.removed)
}

pub open spec fn extra_keys(c: RuleV, m: ConstraintV) -> Seq<KeyV> {
    keys_v(c.removed.remove(middle_index(c, m)))
}

/// The intermediate and the resources are private to the two rules.
pub open spec fn private_ok(rules: Seq<RuleV>, pi: int, ci: int) -> bool {
    let p = rules[pi];
    let c = rules[ci];
    let m = middle_of(p);
    let ps = producer_keys(p);
    let es = extra_keys(c, m);
    let mid = key_v(m);
    &&& !ps.contains(mid)
    &&& !es.contains(mid)
    &&& forall|k: KeyV| ps.contains(k) ==> !es.contains(k)
    &&& forall|i: int, j: int|
        0 <= i < rules.len() && 0 <= j < heads_of(rules[i]).len() ==> {
            let k = key_v(#[trigger] heads_of(rules[i])[j]);
            &&& (k == mid ==> i == ci)
            &&& (ps.contains(k) ==> i == pi)
            &&& (es.contains(k) ==> i == ci)
        }
    &&& forall|i: int, j: int|
        0 <= i < rules.len() && 0 <= j < calls_v(rules[i].body).len() ==> {
            let k = #[trigger] calls_v(rules[i].body)[j];
            &&& !ps.contains(k)
            &&& !es.contains(k)
            &&& (k == mid ==> i == pi)
        }
}

/// Rules `pi` and `ci` form a certified private resource boundary.
pub open spec fn certified(rules: Seq<RuleV>, pi: int, ci: int) -> bool {
    &&& producer_ok(rules[pi])
    &&& consumer_ok(rules[ci], middle_of(rules[pi]))
    &&& private_ok(rules, pi, ci)
}

/// The variables the fused rule has to name.
pub open spec fn used_of(p: RuleV, c: RuleV) -> Set<u64> {
    heads_vars(p.removed) + heads_vars(c.removed) + goal_vars(c.body)
}

/// The variables of the consumer's intermediate head.
pub open spec fn params_of(c: RuleV, m: ConstraintV) -> Set<u64> {
    terms_vars(c.removed[middle_index(c, m)].args)
}

/// Renaming the consumer's other variables apart runs out of variable numbers.
pub open spec fn exhausted(p: RuleV, c: RuleV) -> bool {
    let u = used_of(p, c);
    let s = in_order(u);
    top(u) + outside_before(s, params_of(c, middle_of(p)), s.len() as int) > u64::MAX
}

/// The consumer's variables in the fused rule: its intermediate head's variables
/// become the posted arguments, the others become fresh variables in increasing order.
pub open spec fn fusion_env(p: RuleV, c: RuleV) -> Map<u64, TermV> {
    let m = middle_of(p);
    let mh = c.removed[middle_index(c, m)];
    let u = used_of(p, c);
    let ps = params_of(c, m);
    let s = in_order(u);
    Map::new(
        |v: u64| u.contains(v),
        |v: u64|
            if ps.contains(v) {
                m.args[choose|j: int| 0 <= j < mh.args.len() && mh.args[j] == TermV::Var(v)]
            } else {
                TermV::Var((top(u) + outside_before(s, ps, choose|i: int| 0 <= i < s.len() && s[i] == v)) as u64)
            },
    )
}

/// The fused rule.
pub open spec fn fused_rule(p: RuleV, c: RuleV) -> RuleV {
    let env = fusion_env(p, c);
    let mi = middle_index(c, middle_of(p));
    RuleV {
        name: p.name + seq!['+'] + c.name,
        kept: p.kept,
        removed: p.removed + c.removed.remove(mi).map_values(|h: ConstraintV| subst_c(h, env)),
        guards: p.guards,
        body: subst_goal_v(c.body, env),
    }
}

/// Fusion keeps every guard of both rules: the fused rule of a certified pair
/// guards what the producer guards and what the consumer guards, the latter
/// under the consumer's renaming, so it fires only when the two rules would
/// have fired one after the other. Neither rule of a certified boundary is
/// guarded, so the fused rule is unguarded.
pub proof fn lemma_fused_guards(rules: Seq<RuleV>, pi: int, ci: int)
    requires
        0 <= pi < rules.len(),
        0 <= ci < rules.len(),
        certified(rules, pi, ci),
    ensures
        fused_rule(rules[pi], rules[ci]).guards == rules[pi].guards + rules[ci].guards.map_values(
            |g: (TermV, TermV)|
                (
                    subst_v(g.0, fusion_env(rules[pi], rules[ci])),
                    subst_v(g.1, fusion_env(rules[pi], rules[ci])),
                ),
        ),
        rules[pi].guards.len() == 0,
        rules[ci].guards.len() == 0,
        fused_rule(rules[pi], rules[ci]).guards.len() == 0,
{
    let env = fusion_env(rules[pi], rules[ci]);
    assert(rules[ci].guards.map_values(|g: (TermV, TermV)| (subst_v(g.0, env), subst_v(g.1, env))) =~= Seq::<(TermV, TermV)>::empty());
    assert(rules[pi].guards + Seq::<(TermV, TermV)>::empty() =~= rules[pi].guards);
}

/// The program after fusion: the consumer is gone and the producer is fused.
pub open spec fn fused_program(rules: Seq<RuleV>, pi: int, ci: int) -> Seq<RuleV> {
    rules.update(pi, fused_rule(rules[pi], rules[ci])).remove(ci)
}

proof fn lemma_tails_step(hs: Seq<ConstraintV>, h: int)
    requires
        0 <= h < hs.len(),
    ensures
        tails(hs.take(h + 1)) == tails(hs.take(h)) + tail_vars(hs[h]),
{
    assert(hs.take(h + 1).drop_last() =~= hs.take(h));
}

proof fn lemma_tails_prefix(hs: Seq<ConstraintV>, h: int)
    requires
        0 <= h <= hs.len(),
    ensures
        tails(hs) == tails(hs.take(h)) + tails(hs).subrange(tails(hs.take(h)).len() as int, tails(hs).len() as int),
    decreases hs.len() - h,
{
    if h < hs.len() {
        lemma_tails_prefix(hs, h + 1);
        lemma_tails_step(hs, h);
        let a = tails(hs.take(h));
        let b = tails(hs.take(h + 1));
        assert(tails(hs) == b + tails(hs).subrange(b.len() as int, tails(hs).len() as int));
        assert(tails(hs) =~= a + tails(hs).subrange(a.len() as int, tails(hs).len() as int));
    } else {
        assert(hs.take(h) =~= hs);
    }
}

proof fn lemma_heads_vars_step(hs: Seq<ConstraintV>, h: int)
    requires
        0 <= h < hs.len(),
    ensures
        heads_vars(hs.take(h + 1)) == heads_vars(hs.take(h)) + terms_vars(hs[h].args),
{
    assert(hs.take(h + 1).drop_last() =~= hs.take(h));
}

proof fn lemma_occ_step(ks: Seq<KeyV>, h: int, k: KeyV)
    requires
        0 <= h < ks.len(),
    ensures
        occ(ks.take(h + 1), k) == occ(ks.take(h), k) + if ks[h] == k {
            1nat
        } else {
            0nat
        },
{
    assert(ks.take(h + 1).drop_last() =~= ks.take(h));
}

proof fn lemma_occ_bound(ks: Seq<KeyV>, k: KeyV)
    ensures
        occ(ks, k) <= ks.len(),
    decreases ks.len(),
{
    if ks.len() > 0 {
        lemma_occ_bound(ks.drop_last(), k);
    }
}

proof fn lemma_occ_contains(ks: Seq<KeyV>, k: KeyV)
    ensures
        (occ(ks, k) > 0) == ks.contains(k),
    decreases ks.len(),
{
    if ks.len() > 0 {
        lemma_occ_contains(ks.drop_last(), k);
        if ks.drop_last().contains(k) {
            let j = choose|j: int| 0 <= j < ks.drop_last().len() && ks.drop_last()[j] == k;
            assert(ks[j] == k);
        }
        if ks.contains(k) {
            let j = choose|j: int| 0 <= j < ks.len() && ks[j] == k;
            if j < ks.len() - 1 {
                assert(ks.drop_last()[j] == k);
            }
        }
    }
}

proof fn lemma_push_to_set(s: Seq<u64>, v: u64)
    ensures
        s.push(v).to_set() == s.to_set().insert(v),
{
    assert forall|x: u64| #[trigger] s.push(v).to_set().contains(x) <==> s.to_set().insert(v).contains(x) by {
        if s.push(v).to_set().contains(x) {
            let i = choose|i: int| 0 <= i < s.push(v).len() && s.push(v)[i] == x;
            if i < s.len() {
                assert(s[i] == x);
            }
        }
        if s.to_set().contains(x) {
            let i = choose|i: int| 0 <= i < s.len() && s[i] == x;
            assert(s.push(v)[i] == x);
        }
        if x == v {
            assert(s.push(v)[s.len() as int] == v);
        }
    }
    assert(s.push(v).to_set() =~= s.to_set().insert(v));
}

/// Where a later head's tail variable sits in the tails of all heads.
proof fn lemma_tails_index(hs: Seq<ConstraintV>, h: int, j: int)
    requires
        0 <= h < hs.len(),
        1 <= j < hs[h].args.len(),
    ensures
        tails(hs.take(h)).len() + j - 1 < tails(hs).len(),
        tails(hs)[tails(hs.take(h)).len() + j - 1] == var_of(hs[h].args[j]),
        forall|q: int| 0 <= q < tails(hs.take(h)).len() ==> tails(hs)[q] == #[trigger] tails(hs.take(h))[q],
        forall|q: int| 0 <= q < j - 1 ==> tails(hs)[tails(hs.take(h)).len() + q] == #[trigger] tail_vars(hs[h])[q],
{
    lemma_tails_prefix(hs, h + 1);
    lemma_tails_step(hs, h);
    let a = tails(hs.take(h));
    let b = tails(hs.take(h + 1));
    assert(b == a + tail_vars(hs[h]));
    assert(tails(hs) == b + tails(hs).subrange(b.len() as int, tails(hs).len() as int));
    assert(tail_vars(hs[h])[j - 1] == var_of(hs[h].args[j]));
    assert forall|q: int| 0 <= q < a.len() implies tails(hs)[q] == #[trigger] a[q] by {
        assert(tails(hs)[q] == b[q]);
    }
    assert forall|q: int| 0 <= q < j - 1 implies tails(hs)[a.len() + q] == #[trigger] tail_vars(hs[h])[q] by {
        assert(tails(hs)[a.len() + q] == b[a.len() + q]);
    }
    assert(tails(hs)[a.len() + j - 1] == b[a.len() + j - 1]);
}

/// Check a producer rule; on success return its head key counts and the
/// variables its heads bind.
fn check_producer(p: &Rule) -> (r: Option<(Counts, VarSet)>)
    ensures
        r is Some <==> producer_ok(rule_v(*p)),
        r matches Some((counts, bound)) ==> {
            &&& counts.wf()
            &&& counts.size() > 0
            &&& forall|k: KeyV| #[trigger] counts.count(k) == occ(producer_keys(rule_v(*p)), k)
            &&& bound.wf()
            &&& bound.set() == set![var_of(middle_of(rule_v(*p)).args[0])] + tails(rule_v(*p).removed).to_set()
        },
{
    let ghost pv = rule_v(*p);
    if p.kept.len() != 0 || p.guards.len() != 0 || p.removed.len() == 0 {
        return None;
    }
    let middle = match &p.body {
        Goal::Constraint(m) => m,
        _ => {
            return None;
        },
    };
    let ghost mv = constraint_v(*middle);
    proof {
        assert(mv == middle_of(pv));
    }
    if middle.args.len() == 0 {
        return None;
    }
    let pk = match &middle.args[0] {
        Term::Var(v) => v.0,
        _ => {
            return None;
        },
    };
    proof {
        assert(mv.args[0] == term_v(middle.args@[0]));
        assert(var_of(mv.args[0]) == pk);
    }
    let mut bound = VarSet::new();
    bound.insert(pk);
    let mut producer = Counts::new();
    let ghost hs = pv.removed;
    let mut h: usize = 0;
    proof {
        assert(hs.take(0) =~= Seq::<ConstraintV>::empty());
        assert(bound.set() =~= set![pk] + tails(hs.take(0)).to_set());
        assert(keys_v(hs).take(0) =~= Seq::<KeyV>::empty());
    }
    while h < p.removed.len()
        invariant
            pv == rule_v(*p),
            hs == pv.removed,
            hs.len() == p.removed@.len(),
            mv == middle_of(pv),
            mv.args.len() > 0,
            mv.args[0] == TermV::Var(pk),
            0 <= h <= p.removed.len(),
            forall|i: int| 0 <= i < h ==> #[trigger] head_ok(hs[i], pk),
            bound.wf(),
            bound.set() == set![pk] + tails(hs.take(h as int)).to_set(),
            tails(hs.take(h as int)).no_duplicates(),
            !tails(hs.take(h as int)).contains(pk),
            producer.wf(),
            forall|k: KeyV| #[trigger] producer.count(k) == occ(keys_v(hs).take(h as int), k),
            producer.size() <= h,
        decreases p.removed.len() - h,
    {
        let head = &p.removed[h];
        let ghost hv = hs[h as int];
        proof {
            assert(hv == constraint_v(*head));
        }
        let key_ok = head.args.len() > 0 && match &head.args[0] {
            Term::Var(v) => v.0 == pk,
            _ => false,
        };
        if !key_ok {
            proof {
                if head.args.len() > 0 {
                    assert(hv.args[0] == term_v(head.args@[0]));
                }
                assert(!head_ok(hs[h as int], pk));
            }
            return None;
        }
        proof {
            assert(hv.args[0] == term_v(head.args@[0]));
        }
        let ghost before = tails(hs.take(h as int));
        let mut j: usize = 1;
        proof {
            assert(before + tail_vars(hv).take(0) =~= before);
        }
        while j < head.args.len()
            invariant
                hv == constraint_v(*head),
                hv.args.len() == head.args@.len(),
                hv.args.len() > 0,
                hv.args[0] == TermV::Var(pk),
                before == tails(hs.take(h as int)),
                0 <= h < hs.len(),
                hs[h as int] == hv,
                1 <= j <= head.args.len(),
                forall|q: int| 1 <= q < j ==> (#[trigger] hv.args[q]) is Var,
                bound.wf(),
                bound.set() == set![pk] + (before + tail_vars(hv).take(j - 1)).to_set(),
                (before + tail_vars(hv).take(j - 1)).no_duplicates(),
                !(before + tail_vars(hv).take(j - 1)).contains(pk),
                mv == middle_of(pv),
                hs == pv.removed,
                pv == rule_v(*p),
                mv.args.len() > 0,
                mv.args[0] == TermV::Var(pk),
            decreases head.args.len() - j,
        {
            proof {
                assert(hv.args[j as int] == term_v(head.args@[j as int]));
            }
            let v = match &head.args[j] {
                Term::Var(v) => v.0,
                _ => {
                    proof {
                        assert(!head_ok(hs[h as int], pk));
                    }
                    return None;
                },
            };
            let ghost cur = before + tail_vars(hv).take(j - 1);
            proof {
                assert(tail_vars(hv)[j - 1] == v);
            }
            if bound.contains(v) {
                proof {
                    lemma_tails_index(hs, h as int, j as int);
                    let full = tails(hs);
                    let pos = before.len() + j - 1;
                    assert(full[pos] == v);
                    if v == pk {
                        assert(full.contains(pk));
                    } else {
                        assert(cur.to_set().contains(v));
                        let q = choose|q: int| 0 <= q < cur.len() && cur[q] == v;
                        if q < before.len() {
                            assert(full[q] == before[q]);
                        } else {
                            assert(cur[q] == tail_vars(hv).take(j - 1)[q - before.len()]);
                            assert(full[before.len() + (q - before.len())] == tail_vars(hs[h as int])[q - before.len()]);
                        }
                        assert(full[q] == v);
                        assert(q != pos);
                        assert(!full.no_duplicates());
                    }
                }
                return None;
            }
            bound.insert(v);
            proof {
                let next = before + tail_vars(hv).take(j as int);
                assert(next =~= cur.push(v));
                assert(bound.set() =~= set![pk] + next.to_set()) by {
                    lemma_push_to_set(cur, v);
                }
                assert(next.no_duplicates()) by {
                    assert forall|a: int, b: int| 0 <= a < b < next.len() implies next[a] != next[b] by {
                        if b == next.len() - 1 {
                            assert(cur.to_set().contains(next[a]));
                        }
                    }
                }
            }
            j += 1;
        }
        proof {
            assert(tail_vars(hv).take(j - 1) =~= tail_vars(hv));
            lemma_tails_step(hs, h as int);
            assert forall|q: int| 1 <= q < hv.args.len() implies (#[trigger] hv.args[q]) is Var by {}
            assert(head_ok(hs[h as int], pk));
            lemma_occ_bound(keys_v(hs).take(h as int), (head.name@, head.args@.len() as nat));
        }
        producer.add(head.name.as_str(), head.args.len());
        proof {
            assert(keys_v(hs)[h as int] == (head.name@, head.args@.len() as nat));
            assert forall|k: KeyV| #[trigger] producer.count(k) == occ(keys_v(hs).take(h + 1), k) by {
                lemma_occ_step(keys_v(hs), h as int, k);
            }
        }
        h += 1;
    }
    proof {
        assert(hs.take(h as int) =~= hs);
        assert(keys_v(hs).take(h as int) =~= keys_v(hs));
        lemma_occ_contains(keys_v(hs), keys_v(hs)[0]);
        assert(keys_v(hs).contains(keys_v(hs)[0]));
        assert(producer.count(keys_v(hs)[0]) > 0);
    }
    let mut j: usize = 0;
    while j < middle.args.len()
        invariant
            pv == rule_v(*p),
            hs == pv.removed,
            mv == constraint_v(*middle),
            mv == middle_of(pv),
            mv.args.len() > 0,
            mv.args[0] == TermV::Var(pk),
            forall|i: int| 0 <= i < hs.len() ==> #[trigger] head_ok(hs[i], pk),
            tails(hs).no_duplicates(),
            !tails(hs).contains(pk),
            bound.wf(),
            bound.set() == set![pk] + tails(hs).to_set(),
            0 <= j <= middle.args.len(),
            forall|q: int| 0 <= q < j ==> (#[trigger] mv.args[q]) is Var && (var_of(mv.args[q]) == pk || tails(hs).contains(var_of(mv.args[q]))),
        decreases middle.args.len() - j,
    {
        proof {
            assert(mv.args[j as int] == term_v(middle.args@[j as int]));
        }
        let ok = match &middle.args[j] {
            Term::Var(v) => bound.contains(v.0),
            _ => false,
        };
        if !ok {
            proof {
                if mv.args[j as int] is Var {
                    let v = var_of(mv.args[j as int]);
                    assert(!bound.set().contains(v));
                    assert(v != pk);
                    assert(!tails(hs).to_set().contains(v));
                }
            }
            return None;
        }
        proof {
            let v = var_of(mv.args[j as int]);
            if v != pk {
                assert(tails(hs).to_set().contains(v));
            }
        }
        j += 1;
    }
    Some((producer, bound))
}

/// Check a consumer rule against the intermediate; on success return the
/// position of its intermediate head, the images of that head's variables and
/// the counts of its other heads' keys.
fn check_consumer(c: &Rule, middle: &Constraint) -> (r: Option<(usize, Env, Counts)>)
    requires
        constraint_v(*middle).args.len() > 0,
    ensures
        r is Some <==> consumer_ok(rule_v(*c), constraint_v(*middle)),
        r matches Some((mi, env, extra)) ==> {
            let cv = rule_v(*c);
            let mv = constraint_v(*middle);
            let mh = cv.removed[mi as int];
            &&& mi as int == middle_index(cv, mv)
            &&& mh.args.len() == mv.args.len()
            &&& env.wf()
            &&& env.map().dom() == terms_vars(mh.args)
            &&& forall|j: int| 0 <= j < mh.args.len() ==> env.map()[var_of(#[trigger] mh.args[j])] == mv.args[j]
            &&& extra.wf()
            &&& forall|k: KeyV| #[trigger] extra.count(k) == occ(extra_keys(cv, mv), k)
        },
{
    let ghost cv = rule_v(*c);
    let ghost mv = constraint_v(*middle);
    if c.kept.len() != 0 || c.guards.len() != 0 {
        return None;
    }
    let mut count: usize = 0;
    let mut mi: usize = 0;
    let mut i: usize = 0;
    while i < c.removed.len()
        invariant
            cv == rule_v(*c),
            mv == constraint_v(*middle),
            0 <= i <= c.removed.len(),
            count <= i,
            count == 0 ==> forall|q: int| 0 <= q < i ==> key_v(#[trigger] cv.removed[q]) != key_v(mv),
            count >= 1 ==> mi < i && key_v(cv.removed[mi as int]) == key_v(mv) && forall|q: int| 0 <= q < mi ==> key_v(#[trigger] cv.removed[q]) != key_v(mv),
            count == 1 ==> forall|q: int| 0 <= q < i && q != mi ==> key_v(#[trigger] cv.removed[q]) != key_v(mv),
            count >= 2 ==> exists|q: int| 0 <= q < i && q != mi && key_v(#[trigger] cv.removed[q]) == key_v(mv),
        decreases c.removed.len() - i,
    {
        proof {
            assert(cv.removed[i as int] == constraint_v(c.removed@[i as int]));
        }
        if c.removed[i].name == middle.name && c.removed[i].args.len() == middle.args.len() {
            if count == 0 {
                mi = i;
            }
            count += 1;
        }
        i += 1;
    }
    if count != 1 || c.removed.len() < 2 {
        proof {
            if count >= 2 && exists|i: int| 0 <= i < cv.removed.len() && key_v(cv.removed[i]) == key_v(mv) {
                let q = choose|q: int| 0 <= q < i && q != mi && key_v(#[trigger] cv.removed[q]) == key_v(mv);
                let m0 = middle_index(cv, mv);
                if m0 == q {
                    assert(key_v(cv.removed[mi as int]) == key_v(mv));
                } else {
                    assert(key_v(cv.removed[q]) == key_v(mv));
                }
            }
        }
        return None;
    }
    proof {
        let m0 = middle_index(cv, mv);
        assert(key_v(cv.removed[mi as int]) == key_v(mv));
        assert(m0 == mi);
    }
    let mh = &c.removed[mi];
    let ghost mhv = cv.removed[mi as int];
    proof {
        assert(mhv == constraint_v(*mh));
        assert(mhv.args.len() == mv.args.len());
    }
    let mut params = VarSet::new();
    let mut env = Env::new();
    let mut j: usize = 0;
    while j < mh.args.len()
        invariant
            cv == rule_v(*c),
            mv == constraint_v(*middle),
            mi as int == middle_index(cv, mv),
            mhv == cv.removed[mi as int],
            mhv == constraint_v(*mh),
            mhv.args.len() == mv.args.len(),
            mv.args.len() == middle.args@.len(),
            c.kept.len() == 0 && c.guards.len() == 0 && c.removed.len() >= 2,
            forall|q: int| 0 <= q < c.removed.len() && q != mi ==> key_v(#[trigger] cv.removed[q]) != key_v(mv),
            0 <= j <= mh.args.len(),
            forall|q: int| 0 <= q < j ==> (#[trigger] mhv.args[q]) is Var,
            mhv.args.take(j as int).map_values(|t: TermV| var_of(t)).no_duplicates(),
            params.wf(),
            params.set() == mhv.args.take(j as int).map_values(|t: TermV| var_of(t)).to_set(),
            env.wf(),
            env.map().dom() == params.set(),
            forall|q: int| 0 <= q < j ==> env.map()[var_of(#[trigger] mhv.args[q])] == mv.args[q],
        decreases mh.args.len() - j,
    {
        proof {
            assert(mhv.args[j as int] == term_v(mh.args@[j as int]));
            assert(mv.args[j as int] == term_v(middle.args@[j as int]));
        }
        let ghost vars_j = mhv.args.take(j as int).map_values(|t: TermV| var_of(t));
        let v = match &mh.args[j] {
            Term::Var(v) => v.0,
            _ => {
                return None;
            },
        };
        if params.contains(v) {
            proof {
                let all = mhv.args.map_values(|t: TermV| var_of(t));
                let q = choose|q: int| 0 <= q < vars_j.len() && vars_j[q] == v;
                assert(all[q] == vars_j[q]);
                assert(all[j as int] == v);
            }
            return None;
        }
        let ghost old_env = env.map();
        proof {
            assert forall|q: int| 0 <= q < j implies var_of(#[trigger] mhv.args[q]) != v by {
                assert(vars_j[q] == var_of(mhv.args[q]));
                assert(vars_j.to_set().contains(vars_j[q]));
            }
        }
        params.insert(v);
        let image = copy_term(&middle.args[j]);
        env.insert(v, image);
        proof {
            assert forall|q: int| 0 <= q < j + 1 implies env.map()[var_of(#[trigger] mhv.args[q])] == mv.args[q] by {
                if q < j {
                    assert(var_of(mhv.args[q]) != v);
                    assert(old_env[var_of(mhv.args[q])] == mv.args[q]);
                } else {
                    assert(var_of(mhv.args[q]) == v);
                }
            }
            let next = mhv.args.take(j + 1).map_values(|t: TermV| var_of(t));
            assert(next =~= vars_j.push(v));
            lemma_push_to_set(vars_j, v);
            assert forall|a: int, b: int| 0 <= a < b < next.len() implies next[a] != next[b] by {
                if b == next.len() - 1 {
                    assert(vars_j.to_set().contains(next[a]));
                }
            }
            assert(env.map().dom() =~= params.set());
        }
        j += 1;
    }
    proof {
        assert(mhv.args.take(j as int) =~= mhv.args);
        assert forall|x: u64| #[trigger] terms_vars(mhv.args).contains(x) <==> params.set().contains(x) by {
            lemma_terms_vars_of_vars(mhv.args, x);
        }
        assert(terms_vars(mhv.args) =~= params.set());
    }
    let ck = match &mh.args[0] {
        Term::Var(v) => v.0,
        _ => {
            proof {
                assert(mhv.args[0] == term_v(mh.args@[0]));
            }
            return None;
        },
    };
    proof {
        assert(mhv.args[0] == term_v(mh.args@[0]));
        assert(mhv.args[0] == TermV::Var(ck));
    }
    let ghost rest = cv.removed.remove(mi as int);
    let mut extra = Counts::new();
    let mut i: usize = 0;
    proof {
        assert(keys_v(rest).take(0) =~= Seq::<KeyV>::empty());
    }
    while i < c.removed.len()
        invariant
            cv == rule_v(*c),
            mv == constraint_v(*middle),
            mi as int == middle_index(cv, mv),
            mi < c.removed.len(),
            mhv == cv.removed[mi as int],
            mhv.args.len() > 0,
            mhv.args[0] == TermV::Var(ck),
            rest == cv.removed.remove(mi as int),
            0 <= i <= c.removed.len(),
            forall|q: int| 0 <= q < i && q != mi ==> (#[trigger] cv.removed[q]).args == seq![mhv.args[0]],
            extra.wf(),
            extra.size() <= i,
            forall|k: KeyV| #[trigger] extra.count(k) == occ(keys_v(rest).take(if i <= mi { i as int } else { i - 1 }), k),
        decreases c.removed.len() - i,
    {
        if i == mi {
            i += 1;
            continue;
        }
        let head = &c.removed[i];
        proof {
            assert(cv.removed[i as int] == constraint_v(*head));
        }
        let ok = head.args.len() == 1 && match &head.args[0] {
            Term::Var(v) => v.0 == ck,
            _ => false,
        };
        if !ok {
            proof {
                if head.args.len() == 1 {
                    assert(cv.removed[i as int].args[0] == term_v(head.args@[0]));
                    assert(cv.removed[i as int].args != seq![mhv.args[0]]) by {
                        assert(cv.removed[i as int].args[0] != seq![mhv.args[0]][0]);
                    }
                } else {
                    assert(cv.removed[i as int].args.len() != seq![mhv.args[0]].len());
                }
            }
            return None;
        }
        proof {
            assert(cv.removed[i as int].args[0] == term_v(head.args@[0]));
            assert(cv.removed[i as int].args =~= seq![mhv.args[0]]);
            let d = if i < mi { i as int } else { i - 1 };
            assert(rest[d] == cv.removed[i as int]);
            assert(keys_v(rest)[d] == (head.name@, 1nat));
            lemma_occ_bound(keys_v(rest).take(d), (head.name@, 1nat));
        }
        extra.add(head.name.as_str(), 1);
        proof {
            let d = if i < mi { i as int } else { i - 1 };
            assert forall|k: KeyV| #[trigger] extra.count(k) == occ(keys_v(rest).take(d + 1), k) by {
                lemma_occ_step(keys_v(rest), d, k);
            }
        }
        i += 1;
    }
    proof {
        assert(keys_v(rest).take(i - 1) =~= keys_v(rest));
    }
    Some((mi, env, extra))
}

/// The variables of a list of variables.
proof fn lemma_terms_vars_of_vars(xs: Seq<TermV>, x: u64)
    requires
        forall|q: int| 0 <= q < xs.len() ==> (#[trigger] xs[q]) is Var,
    ensures
        terms_vars(xs).contains(x) == xs.map_values(|t: TermV| var_of(t)).to_set().contains(x),
    decreases xs.len(),
{
    if xs.len() > 0 {
        let ys = xs.drop_last();
        assert forall|q: int| 0 <= q < ys.len() implies (#[trigger] ys[q]) is Var by {
            assert(ys[q] == xs[q]);
        }
        lemma_terms_vars_of_vars(ys, x);
        let s = xs.map_values(|t: TermV| var_of(t));
        let sy = ys.map_values(|t: TermV| var_of(t));
        assert(s =~= sy.push(var_of(xs.last())));
        lemma_push_to_set(sy, var_of(xs.last()));
        assert(xs.last() == TermV::Var(var_of(xs.last())));
        assert(term_vars(xs.last()) == set![var_of(xs.last())]);
        assert(terms_vars(xs) == terms_vars(ys) + term_vars(xs.last()));
    } else {
        assert(xs.map_values(|t: TermV| var_of(t)).to_set() =~= Set::<u64>::empty());
    }
}

/// Check that the intermediate and the resources are private to the two rules.
fn check_private(
    rules: &[Rule],
    pi: usize,
    ci: usize,
    producer: &Counts,
    extra: &Counts,
    middle: &Constraint,
) -> (r: bool)
    requires
        pi < rules@.len(),
        ci < rules@.len(),
        producer.wf(),
        extra.wf(),
        constraint_v(*middle) == middle_of(rules_v(rules@)[pi as int]),
        forall|k: KeyV| #[trigger] producer.count(k) == occ(producer_keys(rules_v(rules@)[pi as int]), k),
        forall|k: KeyV| #[trigger] extra.count(k) == occ(extra_keys(rules_v(rules@)[ci as int], constraint_v(*middle)), k),
    ensures
        r == private_ok(rules_v(rules@), pi as int, ci as int),
{
    let ghost rs = rules_v(rules@);
    let ghost mv = constraint_v(*middle);
    let ghost ps = producer_keys(rs[pi as int]);
    let ghost es = extra_keys(rs[ci as int], mv);
    let ghost mid = key_v(mv);
    proof {
        assert forall|k: KeyV| #[trigger] ps.contains(k) == (producer.count(k) > 0) by {
            lemma_occ_contains(ps, k);
        }
        assert forall|k: KeyV| #[trigger] es.contains(k) == (extra.count(k) > 0) by {
            lemma_occ_contains(es, k);
        }
    }
    let mname = middle.name.as_str();
    let marity = middle.args.len();
    proof {
        assert(mid == (mname@, marity as nat));
    }
    if producer.get(mname, marity) > 0 || extra.get(mname, marity) > 0 {
        return false;
    }
    let mut e: usize = 0;
    while e < producer.len()
        invariant
            producer.wf(),
            extra.wf(),
            forall|k: KeyV| #[trigger] es.contains(k) == (extra.count(k) > 0),
            forall|k: KeyV| #[trigger] ps.contains(k) == (producer.count(k) > 0),
            rs == rules_v(rules@),
            pi < rules@.len(),
            ci < rules@.len(),
            ps == producer_keys(rs[pi as int]),
            es == extra_keys(rs[ci as int], mv),
            mv == middle_of(rs[pi as int]),
            0 <= e <= producer.size(),
            forall|q: int| 0 <= q < e ==> extra.count((#[trigger] producer.entries_v()[q]).0) == 0,
        decreases producer.size() - e,
    {
        let (name, arity, _) = producer.entry(e);
        if extra.get(name, arity) > 0 {
            proof {
                let k = (name@, arity as nat);
                assert(producer.count(k) > 0);
                assert(ps.contains(k));
                assert(es.contains(k));
                assert(!private_ok(rs, pi as int, ci as int));
            }
            return false;
        }
        e += 1;
    }
    proof {
        assert forall|k: KeyV| ps.contains(k) implies !es.contains(k) by {
            producer.lemma_counted(k);
            let q = choose|q: int| 0 <= q < producer.size() && (#[trigger] producer.entries_v()[q]).0 == k;
        }
    }
    let mut i: usize = 0;
    while i < rules.len()
        invariant
            rs == rules_v(rules@),
            pi < rules@.len(),
            ci < rules@.len(),
            producer.wf(),
            extra.wf(),
            mv == constraint_v(*middle),
            mid == key_v(mv),
            mname@ == mv.name,
            marity == mv.args.len(),
            forall|k: KeyV| #[trigger] ps.contains(k) == (producer.count(k) > 0),
            forall|k: KeyV| #[trigger] es.contains(k) == (extra.count(k) > 0),
            ps == producer_keys(rs[pi as int]),
            es == extra_keys(rs[ci as int], mv),
            mv == middle_of(rs[pi as int]),
            !ps.contains(mid),
            !es.contains(mid),
            forall|k: KeyV| ps.contains(k) ==> !es.contains(k),
            0 <= i <= rules.len(),
            forall|a: int, j: int|
                0 <= a < i && 0 <= j < heads_of(rs[a]).len() ==> {
                    let k = key_v(#[trigger] heads_of(rs[a])[j]);
                    &&& (k == mid ==> a == ci)
                    &&& (ps.contains(k) ==> a == pi)
                    &&& (es.contains(k) ==> a == ci)
                },
            forall|a: int, j: int|
                0 <= a < i && 0 <= j < calls_v(rs[a].body).len() ==> {
                    let k = #[trigger] calls_v(rs[a].body)[j];
                    &&& !ps.contains(k)
                    &&& !es.contains(k)
                    &&& (k == mid ==> a == pi)
                },
        decreases rules.len() - i,
    {
        let r = &rules[i];
        let ghost rv = rs[i as int];
        proof {
            assert(rv == rule_v(*r));
        }
        let nk = r.kept.len();
        let mut j: usize = 0;
        while j < nk
            invariant
                rv == rule_v(*r),
                i < rules@.len(),
                rs == rules_v(rules@),
                rs.len() == rules@.len(),
                pi < rules@.len(),
                ci < rules@.len(),
                ps == producer_keys(rs[pi as int]),
                es == extra_keys(rs[ci as int], mv),
                mv == middle_of(rs[pi as int]),
                rv == rs[i as int],
                nk == r.kept@.len(),
                producer.wf(),
                extra.wf(),
                mid == key_v(mv),
                mname@ == mv.name,
                marity == mv.args.len(),
                forall|k: KeyV| #[trigger] ps.contains(k) == (producer.count(k) > 0),
                forall|k: KeyV| #[trigger] es.contains(k) == (extra.count(k) > 0),
                0 <= j <= nk,
                forall|q: int| 0 <= q < j ==> {
                    let k = key_v(#[trigger] heads_of(rv)[q]);
                    &&& (k == mid ==> i == ci)
                    &&& (ps.contains(k) ==> i == pi)
                    &&& (es.contains(k) ==> i == ci)
                },
            decreases nk - j,
        {
            let h = &r.kept[j];
            proof {
                assert(heads_of(rv)[j as int] == rv.kept[j as int]);
                assert(heads_of(rv)[j as int] == constraint_v(*h));
            }
            let name = h.name.as_str();
            let arity = h.args.len();
            let is_mid = compare_key((name, arity), (mname, marity)) == Order::Equal;
            proof {
                lemma_key_order((name@, arity as nat), mid);
            }
            if (is_mid && i != ci) || (producer.get(name, arity) > 0 && i != pi) || (extra.get(name, arity) > 0 && i != ci) {
                proof {
                    let k = (name@, arity as nat);
                    assert(key_v(heads_of(rs[i as int])[j as int]) == k);
                    assert(0 <= j < heads_of(rs[i as int]).len());
                    if producer.count(k) > 0 {
                        assert(ps.contains(k));
                    }
                    if extra.count(k) > 0 {
                        assert(es.contains(k));
                    }
                    assert(!private_ok(rs, pi as int, ci as int));
                }
                return false;
            }
            j += 1;
        }
        let mut j: usize = 0;
        while j < r.removed.len()
            invariant
                rv == rule_v(*r),
                i < rules@.len(),
                rs == rules_v(rules@),
                rs.len() == rules@.len(),
                pi < rules@.len(),
                ci < rules@.len(),
                ps == producer_keys(rs[pi as int]),
                es == extra_keys(rs[ci as int], mv),
                mv == middle_of(rs[pi as int]),
                rv == rs[i as int],
                nk == r.kept@.len(),
                producer.wf(),
                extra.wf(),
                mid == key_v(mv),
                mname@ == mv.name,
                marity == mv.args.len(),
                forall|k: KeyV| #[trigger] ps.contains(k) == (producer.count(k) > 0),
                forall|k: KeyV| #[trigger] es.contains(k) == (extra.count(k) > 0),
                0 <= j <= r.removed.len(),
                forall|q: int| 0 <= q < nk + j ==> {
                    let k = key_v(#[trigger] heads_of(rv)[q]);
                    &&& (k == mid ==> i == ci)
                    &&& (ps.contains(k) ==> i == pi)
                    &&& (es.contains(k) ==> i == ci)
                },
            decreases r.removed.len() - j,
        {
            let h = &r.removed[j];
            proof {
                assert(heads_of(rv)[nk + j] == rv.removed[j as int]);
                assert(heads_of(rv)[nk + j] == constraint_v(*h));
            }
            let name = h.name.as_str();
            let arity = h.args.len();
            let is_mid = compare_key((name, arity), (mname, marity)) == Order::Equal;
            proof {
                lemma_key_order((name@, arity as nat), mid);
            }
            if (is_mid && i != ci) || (producer.get(name, arity) > 0 && i != pi) || (extra.get(name, arity) > 0 && i != ci) {
                proof {
                    let k = (name@, arity as nat);
                    assert(key_v(heads_of(rs[i as int])[nk + j]) == k);
                    assert(0 <= nk + j < heads_of(rs[i as int]).len());
                    if producer.count(k) > 0 {
                        assert(ps.contains(k));
                    }
                    if extra.count(k) > 0 {
                        assert(es.contains(k));
                    }
                    assert(!private_ok(rs, pi as int, ci as int));
                }
                return false;
            }
            j += 1;
        }
        let mut calls: Vec<(String, usize)> = Vec::new();
        goal_calls(&r.body, &mut calls);
        proof {
            assert(calls@.map_values(|k: (String, usize)| (k.0@, k.1 as nat)) =~= calls_v(rv.body));
        }
        let mut q: usize = 0;
        while q < calls.len()
            invariant
                i < rules@.len(),
                rs == rules_v(rules@),
                rs.len() == rules@.len(),
                pi < rules@.len(),
                ci < rules@.len(),
                ps == producer_keys(rs[pi as int]),
                es == extra_keys(rs[ci as int], mv),
                mv == middle_of(rs[pi as int]),
                rv == rs[i as int],
                calls@.map_values(|k: (String, usize)| (k.0@, k.1 as nat)) == calls_v(rv.body),
                producer.wf(),
                extra.wf(),
                mid == key_v(mv),
                mname@ == mv.name,
                marity == mv.args.len(),
                forall|k: KeyV| #[trigger] ps.contains(k) == (producer.count(k) > 0),
                forall|k: KeyV| #[trigger] es.contains(k) == (extra.count(k) > 0),
                0 <= q <= calls.len(),
                forall|t: int| 0 <= t < q ==> {
                    let k = #[trigger] calls_v(rv.body)[t];
                    &&& !ps.contains(k)
                    &&& !es.contains(k)
                    &&& (k == mid ==> i == pi)
                },
            decreases calls.len() - q,
        {
            let name = calls[q].0.as_str();
            let arity = calls[q].1;
            proof {
                assert(calls_v(rv.body)[q as int] == (name@, arity as nat));
                lemma_key_order((name@, arity as nat), mid);
            }
            let is_mid = compare_key((name, arity), (mname, marity)) == Order::Equal;
            if producer.get(name, arity) > 0 || extra.get(name, arity) > 0 || (is_mid && i != pi) {
                proof {
                    let k = (name@, arity as nat);
                    assert(calls_v(rs[i as int].body)[q as int] == k);
                    if producer.count(k) > 0 {
                        assert(ps.contains(k));
                    }
                    if extra.count(k) > 0 {
                        assert(es.contains(k));
                    }
                    assert(!private_ok(rs, pi as int, ci as int));
                }
                return false;
            }
            q += 1;
        }
        i += 1;
    }
    true
}

/// The error when renaming the consumer's variables apart runs out of numbers.
pub const VARIABLES_EXHAUSTED: &'static str = "variable identity exhausted";

/// The error when no pair of rules forms a certified boundary.
pub const NO_BOUNDARY: &'static str = "no certified private resource boundary";

proof fn lemma_outside_step(s: Seq<u64>, ps: Set<u64>, i: int)
    requires
        0 <= i,
    ensures
        outside_before(s, ps, i + 1) == outside_before(s, ps, i) + if ps.contains(s[i]) {
            0nat
        } else {
            1nat
        },
{
}

proof fn lemma_outside_mono(s: Seq<u64>, ps: Set<u64>, i: int, j: int)
    requires
        0 <= i <= j,
    ensures
        outside_before(s, ps, i) <= outside_before(s, ps, j),
    decreases j - i,
{
    if i < j {
        lemma_outside_mono(s, ps, i, j - 1);
        lemma_outside_step(s, ps, j - 1);
    }
}

/// An increasing list is the increasing order of its elements.
proof fn lemma_in_order(s: Seq<u64>)
    requires
        ascending(s),
    ensures
        in_order(s.to_set()) == s,
{
    let u = s.to_set();
    assert(ascending(s) && s.to_set() == u);
    let t = in_order(u);
    assert(ascending(t) && t.to_set() == u);
    lemma_ascending_unique(t, s);
}

/// One more than the largest element of an increasing list, or one.
proof fn lemma_top(s: Seq<u64>)
    requires
        ascending(s),
    ensures
        top(s.to_set()) == if s.len() == 0 {
            1
        } else {
            s.last() + 1
        },
{
    let u = s.to_set();
    let b: int = if s.len() == 0 {
        1
    } else {
        s.last() + 1
    };
    assert forall|y: u64| u.contains(y) implies y < b by {
        let j = choose|j: int| 0 <= j < s.len() && s[j] == y;
        if j < s.len() - 1 {
            assert(s[j] < s[s.len() - 1]);
        }
    }
    if s.len() == 0 {
        assert(u =~= Set::<u64>::empty());
    } else {
        assert(s[s.len() - 1] == s.last());
        assert(u.contains(s.last()));
    }
    assert(is_top(u, b));
    let t = top(u);
    assert(is_top(u, t));
    if s.len() > 0 {
        assert(u.contains(s.last()));
        assert(u != Set::<u64>::empty());
        let x = choose|x: u64| u.contains(x) && t == x + 1;
        assert(x < b);
        assert(s.last() < t);
    }
}

/// The variables of one head are among the variables of all heads.
proof fn lemma_heads_vars_index(cs: Seq<ConstraintV>, i: int)
    requires
        0 <= i < cs.len(),
    ensures
        terms_vars(cs[i].args).subset_of(heads_vars(cs)),
    decreases cs.len(),
{
    if i < cs.len() - 1 {
        lemma_heads_vars_index(cs.drop_last(), i);
        assert(cs.drop_last()[i] == cs[i]);
    }
}

/// A fused program, together with the resource counts that a query must
/// guarantee before it is handed out.
pub struct Program {
    emitted: Vec<Rule>,
    producer: Counts,
    extra: Counts,
    middle: (String, usize),
    pub fused_rules: (usize, usize),
}

/// `prog` is the fusion of rules `pi` and `ci` of `rules`.
pub open spec fn describes(prog: Program, rules: Seq<RuleV>, pi: int, ci: int) -> bool {
    &&& prog.wf()
    &&& prog.emitted_v() == fused_program(rules, pi, ci)
    &&& prog.fused_v() == (pi, ci)
    &&& prog.middle_v() == key_v(middle_of(rules[pi]))
    &&& forall|k: KeyV| #[trigger] prog.producer_count(k) == occ(producer_keys(rules[pi]), k)
    &&& forall|k: KeyV| #[trigger] prog.extra_count(k) == occ(extra_keys(rules[ci], middle_of(rules[pi])), k)
}

impl Program {
    pub closed spec fn wf(&self) -> bool {
        &&& self.producer.wf()
        &&& self.extra.wf()
        &&& self.producer.size() > 0
    }

    /// The rules handed out.
    pub closed spec fn emitted_v(&self) -> Seq<RuleV> {
        rules_v(self.emitted@)
    }

    /// The positions of the producer and the consumer in the original rules.
    pub closed spec fn fused_v(&self) -> (int, int) {
        (self.fused_rules.0 as int, self.fused_rules.1 as int)
    }

    /// The key of the private intermediate.
    pub closed spec fn middle_v(&self) -> KeyV {
        (self.middle.0@, self.middle.1 as nat)
    }

    /// How many heads of key `k` one firing of the producer removes.
    pub closed spec fn producer_count(&self, k: KeyV) -> nat {
        self.producer.count(k)
    }

    /// How many resources of key `k` one firing of the consumer removes.
    pub closed spec fn extra_count(&self, k: KeyV) -> nat {
        self.extra.count(k)
    }
}


/// Add the variables of the arguments of some heads.
fn heads_vars_into(hs: &Vec<Constraint>, out: &mut VarSet)
    requires
        old(out).wf(),
    ensures
        final(out).wf(),
        final(out).set() == old(out).set() + heads_vars(constraints_v(hs@)),
{
    let ghost cs = constraints_v(hs@);
    let mut h: usize = 0;
    proof {
        assert(cs.take(0) =~= Seq::<ConstraintV>::empty());
        assert(out.set() =~= old(out).set() + heads_vars(cs.take(0)));
    }
    while h < hs.len()
        invariant
            cs == constraints_v(hs@),
            0 <= h <= hs.len(),
            out.wf(),
            out.set() == old(out).set() + heads_vars(cs.take(h as int)),
        decreases hs.len() - h,
    {
        proof {
            lemma_heads_vars_step(cs, h as int);
            assert(cs[h as int].args == terms_v(hs@[h as int].args@));
        }
        terms_vars_into(&hs[h].args, out);
        proof {
            assert(out.set() =~= old(out).set() + heads_vars(cs.take(h + 1)));
        }
        h += 1;
    }
    proof {
        assert(cs.take(h as int) =~= cs);
    }
}

/// The variables that the fused rule has to keep apart.
fn fusion_vars(p: &Rule, c: &Rule) -> (r: VarSet)
    ensures
        r.wf(),
        r.set() == used_of(rule_v(*p), rule_v(*c)),
{
    let mut used = VarSet::new();
    heads_vars_into(&p.removed, &mut used);
    heads_vars_into(&c.removed, &mut used);
    goal_vars_into(&c.body, &mut used);
    proof {
        assert(used.set() =~= used_of(rule_v(*p), rule_v(*c)));
    }
    used
}


/// Extend the images of the intermediate head's variables with fresh variables
/// for the other used variables, in increasing order, counting up from one
/// above the largest used variable. Fails when the numbers run out.
fn rename_apart(used: &VarSet, env: &mut Env, Ghost(p): Ghost<RuleV>, Ghost(c): Ghost<RuleV>) -> (ok: bool)
    requires
        used.wf(),
        used.set() == used_of(p, c),
        consumer_ok(c, middle_of(p)),
        old(env).wf(),
        old(env).map().dom() == params_of(c, middle_of(p)),
        forall|j: int|
            0 <= j < c.removed[middle_index(c, middle_of(p))].args.len() ==> old(env).map()[var_of(
                #[trigger] c.removed[middle_index(c, middle_of(p))].args[j],
            )] == middle_of(p).args[j],
    ensures
        ok == !exhausted(p, c),
        ok ==> final(env).wf() && final(env).map() == fusion_env(p, c),
{
    let ghost m = middle_of(p);
    let ghost mi = middle_index(c, m);
    let ghost mh = c.removed[mi];
    let ghost ps = params_of(c, m);
    let ghost u = used_of(p, c);
    let ghost s = used.items@;
    proof {
        lemma_in_order(s);
        lemma_top(s);
        lemma_heads_vars_index(c.removed, mi);
        assert(ps.subset_of(u));
    }
    let n = used.items.len();
    let mut next: u64 = 1;
    if n > 0 {
        let last = used.items[n - 1];
        if last == u64::MAX {
            proof {
                assert(top(u) > u64::MAX);
            }
            return false;
        }
        next = last + 1;
    }
    proof {
        assert forall|j: int| 0 <= j < mh.args.len() implies ps.contains(var_of(#[trigger] mh.args[j])) by {
            lemma_terms_vars_of_vars(mh.args, var_of(mh.args[j]));
            let vs = mh.args.map_values(|t: TermV| var_of(t));
            assert(vs[j] == var_of(mh.args[j]));
            assert(vs.to_set().contains(vs[j]));
        }
    }
    let mut idx: usize = 0;
    while idx < n
        invariant
            n == s.len(),
            u == used_of(p, c),
            ps == params_of(c, middle_of(p)),
            s == used.items@,
            ascending(s),
            s.to_set() == u,
            in_order(u) == s,
            ps.subset_of(u),
            0 <= idx <= n,
            env.wf(),
            next as int == top(u) + outside_before(s, ps, idx as int),
            forall|v: u64| #[trigger] env.map().dom().contains(v) <==> (ps.contains(v) || exists|q: int| 0 <= q < idx && s[q] == v),
            m == middle_of(p),
            mh == c.removed[middle_index(c, middle_of(p))],
            forall|j: int| 0 <= j < mh.args.len() ==> ps.contains(var_of(#[trigger] mh.args[j])),
            forall|j: int| 0 <= j < mh.args.len() ==> env.map()[var_of(#[trigger] mh.args[j])] == m.args[j],
            forall|q: int| 0 <= q < idx && !ps.contains(s[q]) ==> #[trigger] env.map()[s[q]] == TermV::Var((top(u) + outside_before(s, ps, q)) as u64),
        decreases n - idx,
    {
        let v = used.items[idx];
        proof {
            lemma_outside_step(s, ps, idx as int);
            assert forall|q: int| 0 <= q < idx implies s[q] != v by {
                assert(s[q] < s[idx as int]);
            }
        }
        if !env.contains(v) {
            let ghost before = env.map();
            proof {
                assert(!ps.contains(v));
                assert(outside_before(s, ps, idx + 1) == outside_before(s, ps, idx as int) + 1);
            }
            env.insert(v, Term::Var(Var(next)));
            proof {
                assert forall|j: int| 0 <= j < mh.args.len() implies env.map()[var_of(#[trigger] mh.args[j])] == m.args[j] by {
                    assert(ps.contains(var_of(mh.args[j])));
                    assert(before[var_of(mh.args[j])] == m.args[j]);
                }
                assert forall|q: int| 0 <= q < idx + 1 && !ps.contains(s[q]) implies #[trigger] env.map()[s[q]] == TermV::Var((top(u) + outside_before(s, ps, q)) as u64) by {
                    if q < idx {
                        assert(s[q] != v);
                        assert(before[s[q]] == env.map()[s[q]]);
                    }
                }
                assert forall|v2: u64| #[trigger] env.map().dom().contains(v2) <==> (ps.contains(v2) || exists|q: int| 0 <= q < idx + 1 && s[q] == v2) by {
                    if v2 == v {
                        assert(s[idx as int] == v2);
                    }
                    if exists|q: int| 0 <= q < idx + 1 && s[q] == v2 {
                        let q = choose|q: int| 0 <= q < idx + 1 && s[q] == v2;
                        if q < idx {
                            assert(before.dom().contains(v2));
                        }
                    }
                    if before.dom().contains(v2) && !ps.contains(v2) {
                        let q = choose|q: int| 0 <= q < idx && s[q] == v2;
                        assert(0 <= q < idx + 1 && s[q] == v2);
                    }
                }
            }
            if next == u64::MAX {
                proof {
                    lemma_outside_mono(s, ps, idx + 1, n as int);
                    assert(top(u) + outside_before(s, ps, s.len() as int) > u64::MAX);
                }
                return false;
            }
            next = next + 1;
            proof {
                assert forall|j: int| 0 <= j < mh.args.len() implies env.map()[var_of(#[trigger] mh.args[j])] == m.args[j] by {
                    assert(ps.contains(var_of(mh.args[j])));
                    assert(before[var_of(mh.args[j])] == m.args[j]);
                }
            }
        } else {
            proof {
                if !ps.contains(v) {
                    let q = choose|q: int| 0 <= q < idx && s[q] == v;
                    assert(false);
                }
                assert forall|v2: u64| #[trigger] env.map().dom().contains(v2) <==> (ps.contains(v2) || exists|q: int| 0 <= q < idx + 1 && s[q] == v2) by {
                    if exists|q: int| 0 <= q < idx + 1 && s[q] == v2 {
                        let q = choose|q: int| 0 <= q < idx + 1 && s[q] == v2;
                        if q < idx {
                            assert(env.map().dom().contains(v2));
                        } else {
                            assert(v2 == v);
                        }
                    }
                    if env.map().dom().contains(v2) && !ps.contains(v2) {
                        let q = choose|q: int| 0 <= q < idx && s[q] == v2;
                        assert(0 <= q < idx + 1 && s[q] == v2);
                    }
                }
            }
        }
        idx += 1;
    }
    proof {
        let f = fusion_env(p, c);
        assert forall|v: u64| #[trigger] env.map().dom().contains(v) <==> f.dom().contains(v) by {
            if u.contains(v) {
                assert(s.to_set().contains(v));
                let q = choose|q: int| 0 <= q < s.len() && s[q] == v;
            }
            if env.map().dom().contains(v) && !ps.contains(v) {
                let q = choose|q: int| 0 <= q < idx && s[q] == v;
                assert(s.to_set().contains(s[q]));
            }
        }
        assert forall|v: u64| #[trigger] env.map().dom().contains(v) implies env.map()[v] == f[v] by {
            if ps.contains(v) {
                assert(exists|j: int| 0 <= j < mh.args.len() && mh.args[j] == TermV::Var(v)) by {
                    lemma_terms_vars_of_vars(mh.args, v);
                    let vs = mh.args.map_values(|t: TermV| var_of(t));
                    assert(vs.to_set().contains(v));
                    let j = choose|j: int| 0 <= j < vs.len() && vs[j] == v;
                    assert(mh.args[j] is Var);
                    assert(mh.args[j] == TermV::Var(v));
                }
                let j = choose|j: int| 0 <= j < mh.args.len() && mh.args[j] == TermV::Var(v);
                assert(var_of(mh.args[j]) == v);
                assert(env.map()[var_of(mh.args[j])] == m.args[j]);
            } else {
                let q = choose|q: int| 0 <= q < idx && s[q] == v;
                let i = choose|i: int| 0 <= i < s.len() && s[i] == v;
                assert(exists|i: int| 0 <= i < s.len() && s[i] == v);
                assert(env.map()[s[i]] == TermV::Var((top(u) + outside_before(s, ps, i)) as u64));
            }
        }
        assert(env.map() =~= f);
    }
    true
}


/// The fused rule: the producer's heads, then the consumer's other heads and
/// its body, each with the consumer's variables replaced by their images.
fn fuse(p: &Rule, c: &Rule, mi: usize, env: &Env) -> (r: Rule)
    requires
        env.wf(),
        producer_ok(rule_v(*p)),
        consumer_ok(rule_v(*c), middle_of(rule_v(*p))),
        mi as int == middle_index(rule_v(*c), middle_of(rule_v(*p))),
        env.map() == fusion_env(rule_v(*p), rule_v(*c)),
    ensures
        rule_v(r) == fused_rule(rule_v(*p), rule_v(*c)),
{
    let ghost pv = rule_v(*p);
    let ghost cv = rule_v(*c);
    let ghost rest = cv.removed.remove(mi as int);
    let ghost f = env.map();
    proof {
        assert(f.dom() == used_of(pv, cv));
    }
    let mut name = p.name.clone();
    name.append("+");
    name.append(c.name.as_str());
    proof {
        reveal_strlit("+");
    }
    let mut removed = copy_constraints(&p.removed);
    let mut i: usize = 0;
    proof {
        assert(rest.take(0).map_values(|h: ConstraintV| subst_c(h, f)) =~= Seq::<ConstraintV>::empty());
        assert(constraints_v(removed@) =~= pv.removed + rest.take(0).map_values(|h: ConstraintV| subst_c(h, f)));
    }
    while i < c.removed.len()
        invariant
            pv == rule_v(*p),
            cv == rule_v(*c),
            rest == cv.removed.remove(mi as int),
            f == env.map(),
            f.dom() == used_of(pv, cv),
            env.wf(),
            mi < c.removed@.len(),
            0 <= i <= c.removed.len(),
            constraints_v(removed@) == pv.removed + rest.take(if i <= mi { i as int } else { i - 1 }).map_values(
                |h: ConstraintV| subst_c(h, f),
            ),
        decreases c.removed.len() - i,
    {
        if i == mi {
            i += 1;
            continue;
        }
        let ghost d: int = if i < mi { i as int } else { i - 1 };
        let ghost before = constraints_v(removed@);
        proof {
            assert(cv.removed[i as int] == constraint_v(c.removed@[i as int]));
            assert(rest[d] == cv.removed[i as int]);
            lemma_heads_vars_index(cv.removed, i as int);
        }
        let h = subst_constraint(&c.removed[i], env);
        removed.push(h);
        proof {
            assert(constraints_v(removed@) =~= before.push(subst_c(rest[d], f)));
            assert(rest.take(d + 1).map_values(|h: ConstraintV| subst_c(h, f)) =~= rest.take(d).map_values(
                |h: ConstraintV| subst_c(h, f),
            ).push(subst_c(rest[d], f)));
        }
        i += 1;
    }
    let body = subst_goal(&c.body, env);
    let r = Rule { name, kept: Vec::new(), removed, guards: Vec::new(), body };
    proof {
        assert(rest.take(i - 1) =~= rest);
        assert(constraints_v(r.kept@) =~= pv.kept);
        assert(r.guards@.map_values(|g: Guard| guard_v(g)) =~= pv.guards);
        let fr = fused_rule(pv, cv);
        assert(rule_v(r).name =~= fr.name);
        assert(rule_v(r).removed =~= fr.removed);
        assert(rule_v(r).body == fr.body);
        assert(rule_v(r).kept =~= fr.kept);
        assert(rule_v(r).guards =~= fr.guards);
    }
    r
}

/// The rules without the consumer, with the producer replaced by `fused`.
fn emit(rules: &[Rule], pi: usize, ci: usize, fused: &Rule) -> (r: Vec<Rule>)
    requires
        pi < rules@.len(),
        ci < rules@.len(),
        pi != ci,
    ensures
        rules_v(r@) == rules_v(rules@).update(pi as int, rule_v(*fused)).remove(ci as int),
{
    let ghost want = rules_v(rules@).update(pi as int, rule_v(*fused)).remove(ci as int);
    let mut out: Vec<Rule> = Vec::new();
    let mut i: usize = 0;
    while i < rules.len()
        invariant
            pi < rules@.len(),
            ci < rules@.len(),
            pi != ci,
            want == rules_v(rules@).update(pi as int, rule_v(*fused)).remove(ci as int),
            0 <= i <= rules.len(),
            out@.len() == if i <= ci { i as int } else { i - 1 },
            forall|k: int| 0 <= k < out@.len() ==> rule_v(#[trigger] out@[k]) == want[k],
        decreases rules.len() - i,
    {
        if i == ci {
            i += 1;
            continue;
        }
        let ghost d: int = if i < ci { i as int } else { i - 1 };
        if i == pi {
            out.push(copy_rule(fused));
        } else {
            out.push(copy_rule(&rules[i]));
        }
        proof {
            assert(rule_v(out@[d]) == want[d]);
        }
        i += 1;
    }
    proof {
        assert(rules_v(out@) =~= want);
    }
    out
}


impl Program {
    /// Fuse producer rule `pi` with consumer rule `ci` when they form a
    /// certified private resource boundary; `None` when they do not.
    pub fn pair(rules: &[Rule], pi: usize, ci: usize) -> (r: Result<Option<Program>, &'static str>)
        requires
            ci < pi < rules@.len(),
        ensures
            match r {
                Ok(None) => !certified(rules_v(rules@), pi as int, ci as int),
                Ok(Some(prog)) => {
                    &&& certified(rules_v(rules@), pi as int, ci as int)
                    &&& !exhausted(rules_v(rules@)[pi as int], rules_v(rules@)[ci as int])
                    &&& describes(prog, rules_v(rules@), pi as int, ci as int)
                },
                Err(e) => {
                    &&& certified(rules_v(rules@), pi as int, ci as int)
                    &&& exhausted(rules_v(rules@)[pi as int], rules_v(rules@)[ci as int])
                    &&& e == VARIABLES_EXHAUSTED
                },
            },
    {
        let ghost rs = rules_v(rules@);
        let p = &rules[pi];
        let c = &rules[ci];
        proof {
            assert(rs[pi as int] == rule_v(*p));
            assert(rs[ci as int] == rule_v(*c));
        }
        let (producer, _bound) = match check_producer(p) {
            Some(x) => x,
            None => {
                return Ok(None);
            },
        };
        let middle = match &p.body {
            Goal::Constraint(m) => m,
            _ => {
                return Ok(None);
            },
        };
        proof {
            assert(constraint_v(*middle) == middle_of(rs[pi as int]));
        }
        let (mi, mut env, extra) = match check_consumer(c, middle) {
            Some(x) => x,
            None => {
                return Ok(None);
            },
        };
        if !check_private(rules, pi, ci, &producer, &extra, middle) {
            return Ok(None);
        }
        let used = fusion_vars(p, c);
        if !rename_apart(&used, &mut env, Ghost(rs[pi as int]), Ghost(rs[ci as int])) {
            return Err(VARIABLES_EXHAUSTED);
        }
        let fused = fuse(p, c, mi, &env);
        let emitted = emit(rules, pi, ci, &fused);
        let prog = Program {
            emitted,
            producer,
            extra,
            middle: (middle.name.clone(), middle.args.len()),
            fused_rules: (pi, ci),
        };
        proof {
            assert(prog.emitted_v() == fused_program(rs, pi as int, ci as int));
        }
        Ok(Some(prog))
    }
}


/// Rules `pi` and `ci` are the first certified pair: producers in increasing
/// position, and for each producer its earlier rules as consumers in increasing position.
pub open spec fn first_pair(rules: Seq<RuleV>, pi: int, ci: int) -> bool {
    &&& 0 <= ci < pi < rules.len()
    &&& certified(rules, pi, ci)
    &&& forall|a: int, b: int| 0 <= b < a < rules.len() && (a < pi || (a == pi && b < ci)) ==> !#[trigger] certified(rules, a, b)
}

/// Some pair of rules forms a certified boundary.
pub open spec fn any_pair(rules: Seq<RuleV>) -> bool {
    exists|a: int, b: int| 0 <= b < a < rules.len() && #[trigger] certified(rules, a, b)
}

impl Program {
    /// Fuse the first certified pair of rules.
    pub fn infer(rules: &[Rule]) -> (r: Result<Program, &'static str>)
        ensures
            match r {
                Ok(prog) => {
                    let (pi, ci) = prog.fused_v();
                    &&& first_pair(rules_v(rules@), pi, ci)
                    &&& !exhausted(rules_v(rules@)[pi], rules_v(rules@)[ci])
                    &&& describes(prog, rules_v(rules@), pi, ci)
                },
                Err(e) => {
                    ||| !any_pair(rules_v(rules@)) && e == NO_BOUNDARY
                    ||| exists|pi: int, ci: int|
                        #[trigger] first_pair(rules_v(rules@), pi, ci) && exhausted(rules_v(rules@)[pi], rules_v(rules@)[ci])
                            && e == VARIABLES_EXHAUSTED
                },
            },
    {
        let ghost rs = rules_v(rules@);
        let mut producer: usize = 0;
        while producer < rules.len()
            invariant
                rs == rules_v(rules@),
                rs.len() == rules@.len(),
                0 <= producer <= rules.len(),
                forall|a: int, b: int| 0 <= b < a < producer ==> !#[trigger] certified(rs, a, b),
            decreases rules.len() - producer,
        {
            let mut consumer: usize = 0;
            while consumer < producer
                invariant
                    rs == rules_v(rules@),
                    rs.len() == rules@.len(),
                    producer < rules.len(),
                    0 <= consumer <= producer,
                    forall|a: int, b: int| 0 <= b < a < producer ==> !#[trigger] certified(rs, a, b),
                    forall|b: int| 0 <= b < consumer ==> !#[trigger] certified(rs, producer as int, b),
                decreases producer - consumer,
            {
                match Self::pair(rules, producer, consumer) {
                    Err(e) => {
                        proof {
                            assert(first_pair(rs, producer as int, consumer as int));
                        }
                        return Err(e);
                    },
                    Ok(Some(prog)) => {
                        proof {
                            assert(first_pair(rs, producer as int, consumer as int));
                        }
                        return Ok(prog);
                    },
                    Ok(None) => {},
                }
                consumer += 1;
            }
            producer += 1;
        }
        proof {
            assert(!any_pair(rs));
        }
        Err(NO_BOUNDARY)
    }
}


/// The errors of `Program::lower`.
pub const INITIAL_INTERMEDIATE: &'static str = "initial private intermediate requires ordinary execution";

pub const MISSING_KEY: &'static str = "missing key";

pub const KEY_NOT_GROUND: &'static str = "resource key must be ground";

pub const COUNT_EXHAUSTED: &'static str = "resource count exhausted";

pub const INSUFFICIENT: &'static str = "insufficient guaranteed consumer resources";

impl Program {
    /// Key `k` is removed by the producer or by the consumer as a resource.
    pub open spec fn is_resource(&self, k: KeyV) -> bool {
        self.producer_count(k) > 0 || self.extra_count(k) > 0
    }

    /// Why one initial constraint of a query keeps the fused program from it, if it does.
    pub open spec fn admit_error(&self, c: ConstraintV) -> Option<&'static str> {
        if key_v(c) == self.middle_v() {
            Some(INITIAL_INTERMEDIATE)
        } else if !self.is_resource(key_v(c)) {
            None
        } else if c.args.len() == 0 {
            Some(MISSING_KEY)
        } else if !ground_v(c.args[0]) {
            Some(KEY_NOT_GROUND)
        } else {
            None
        }
    }

    /// The reason given by the earliest initial constraint that has one.
    pub open spec fn scan_error(&self, cs: Seq<ConstraintV>) -> Option<&'static str>
        decreases cs.len(),
    {
        if cs.len() == 0 {
            None
        } else {
            match self.scan_error(cs.drop_last()) {
                Some(e) => Some(e),
                None => self.admit_error(cs.last()),
            }
        }
    }

    /// Constraint `c` is a resource of key `k` whose owner (first argument) is `o`.
    pub open spec fn owns(&self, c: ConstraintV, o: TermV, k: KeyV) -> bool {
        &&& key_v(c) == k
        &&& self.is_resource(k)
        &&& c.args.len() > 0
        &&& c.args[0] == o
    }

    /// How many initial constraints are resources of key `k` owned by `o`.
    pub open spec fn owned(&self, cs: Seq<ConstraintV>, o: TermV, k: KeyV) -> nat
        decreases cs.len(),
    {
        if cs.len() == 0 {
            0
        } else {
            self.owned(cs.drop_last(), o, k) + if self.owns(cs.last(), o, k) {
                1nat
            } else {
                0nat
            }
        }
    }

    /// Some initial constraint is a resource owned by `o`.
    pub open spec fn is_owner(&self, cs: Seq<ConstraintV>, o: TermV) -> bool {
        exists|i: int| 0 <= i < cs.len() && self.is_resource(key_v(#[trigger] cs[i])) && cs[i].args.len() > 0 && cs[i].args[0] == o
    }

    /// `f` is how often the producer can fire for owner `o`: the least, over the
    /// producer's keys, of the owned resources divided by what one firing removes.
    pub open spec fn is_firings(&self, cs: Seq<ConstraintV>, o: TermV, f: nat) -> bool {
        &&& exists|k: KeyV| #[trigger] self.producer_count(k) > 0 && f == self.owned(cs, o, k) / self.producer_count(k)
        &&& forall|k: KeyV| #[trigger] self.producer_count(k) > 0 ==> f <= self.owned(cs, o, k) / self.producer_count(k)
    }

    pub open spec fn firings(&self, cs: Seq<ConstraintV>, o: TermV) -> nat {
        choose|f: nat| self.is_firings(cs, o, f)
    }

    /// Whether the resources of key `k` owned by `o` fall short of what the
    /// consumer needs for every firing of the producer, and how.
    pub open spec fn shortfall(&self, cs: Seq<ConstraintV>, o: TermV, k: KeyV) -> Option<&'static str> {
        let required = self.firings(cs, o) * self.extra_count(k);
        if self.extra_count(k) == 0 {
            None
        } else if required > usize::MAX {
            Some(COUNT_EXHAUSTED)
        } else if self.owned(cs, o, k) < required {
            Some(INSUFFICIENT)
        } else {
            None
        }
    }

    /// Owner `o` falls short on some key.
    pub open spec fn group_fails(&self, cs: Seq<ConstraintV>, o: TermV) -> bool {
        exists|k: KeyV| #[trigger] self.shortfall(cs, o, k) is Some
    }

    /// Owner `o` falls short with `e` on its least failing key.
    pub open spec fn group_error(&self, cs: Seq<ConstraintV>, o: TermV, e: &'static str) -> bool {
        exists|k: KeyV|
            #[trigger] self.shortfall(cs, o, k) == Some(e) && forall|k2: KeyV|
                key_order(k2, k) == Order::Less ==> (#[trigger] self.shortfall(cs, o, k2)) is None
    }
}

/// Whether a term has no variables.
pub(crate) fn ground_term(t: &Term) -> (r: bool)
    ensures
        r == ground_v(term_v(*t)),
{
    let mut vs = VarSet::new();
    term_vars_into(t, &mut vs);
    proof {
        assert(vs.set() =~= term_vars(term_v(*t)));
        if vs.items@.len() > 0 {
            assert(vs.set().contains(vs.items@[0]));
        } else {
            assert(vs.set() =~= Set::<u64>::empty());
        }
    }
    vs.items.len() == 0
}


impl Program {
    /// How often the producer can fire for an owner whose resources are tallied in `g`.
    fn firings_of(&self, g: &Counts, Ghost(cs): Ghost<Seq<ConstraintV>>, Ghost(o): Ghost<TermV>) -> (f: usize)
        requires
            self.wf(),
            g.wf(),
            forall|k: KeyV| #[trigger] g.count(k) == self.owned(cs, o, k),
        ensures
            f == self.firings(cs, o),
    {
        let n = self.producer.len();
        let (name0, arity0, m0) = self.producer.entry(0);
        let mut f: usize = g.get(name0, arity0) / m0;
        let mut e: usize = 1;
        proof {
            assert(f == self.owned(cs, o, self.producer.entries_v()[0].0) / self.producer.entries_v()[0].1);
            assert forall|q: int| 0 <= q < n implies self.producer.count(#[trigger] self.producer.entries_v()[q].0) == self.producer.entries_v()[q].1 by {
                self.producer.lemma_count_at(q);
            }
        }
        while e < n
            invariant
                self.wf(),
                g.wf(),
                forall|k: KeyV| #[trigger] g.count(k) == self.owned(cs, o, k),
                n == self.producer.size(),
                1 <= e <= n,
                exists|q: int| 0 <= q < e && f == self.owned(cs, o, #[trigger] self.producer.entries_v()[q].0) / self.producer.entries_v()[q].1,
                forall|q: int| 0 <= q < e ==> f <= self.owned(cs, o, #[trigger] self.producer.entries_v()[q].0) / self.producer.entries_v()[q].1,
                forall|q: int| 0 <= q < n ==> self.producer.count(#[trigger] self.producer.entries_v()[q].0) == self.producer.entries_v()[q].1,
            decreases n - e,
        {
            let ghost old_f = f;
            let (name, arity, m) = self.producer.entry(e);
            let x = g.get(name, arity) / m;
            proof {
                assert(x == self.owned(cs, o, self.producer.entries_v()[e as int].0) / self.producer.entries_v()[e as int].1);
            }
            if x < f {
                f = x;
            }
            proof {
                if x < old_f {
                    assert(f == self.owned(cs, o, self.producer.entries_v()[e as int].0) / self.producer.entries_v()[e as int].1);
                } else {
                    let q0 = choose|q: int| 0 <= q < e && old_f == self.owned(cs, o, #[trigger] self.producer.entries_v()[q].0) / self.producer.entries_v()[q].1;
                    assert(f == self.owned(cs, o, self.producer.entries_v()[q0].0) / self.producer.entries_v()[q0].1);
                }
            }
            e += 1;
        }
        proof {
            assert(self.is_firings(cs, o, f as nat)) by {
                let q = choose|q: int| 0 <= q < e && f == self.owned(cs, o, #[trigger] self.producer.entries_v()[q].0) / self.producer.entries_v()[q].1;
                let kq = self.producer.entries_v()[q].0;
                assert(self.producer_count(kq) > 0);
                assert forall|k: KeyV| #[trigger] self.producer_count(k) > 0 implies f <= self.owned(cs, o, k) / self.producer_count(k) by {
                    self.producer.lemma_counted(k);
                    let j = choose|j: int| 0 <= j < self.producer.size() && (#[trigger] self.producer.entries_v()[j]).0 == k;
                }
            }
            let g2 = self.firings(cs, o);
            assert(self.is_firings(cs, o, g2));
            let k1 = choose|k: KeyV| #[trigger] self.producer_count(k) > 0 && g2 == self.owned(cs, o, k) / self.producer_count(k);
            let k2 = choose|k: KeyV| #[trigger] self.producer_count(k) > 0 && f == self.owned(cs, o, k) / self.producer_count(k);
            assert(f <= self.owned(cs, o, k1) / self.producer_count(k1));
            assert(g2 <= self.owned(cs, o, k2) / self.producer_count(k2));
        }
        f
    }
}


impl Program {
    /// Check the consumer's resources of an owner, key by key in increasing order,
    /// against `f` firings of the producer.
    fn shortfall_of(&self, g: &Counts, f: usize, Ghost(cs): Ghost<Seq<ConstraintV>>, Ghost(o): Ghost<TermV>) -> (r: Option<&'static str>)
        requires
            self.wf(),
            g.wf(),
            forall|k: KeyV| #[trigger] g.count(k) == self.owned(cs, o, k),
            f == self.firings(cs, o),
        ensures
            r is None <==> !self.group_fails(cs, o),
            r matches Some(e) ==> self.group_error(cs, o, e),
    {
        let n = self.extra.len();
        let mut e: usize = 0;
        while e < n
            invariant
                self.wf(),
                g.wf(),
                forall|k: KeyV| #[trigger] g.count(k) == self.owned(cs, o, k),
                f == self.firings(cs, o),
                n == self.extra.size(),
                0 <= e <= n,
                forall|q: int| 0 <= q < e ==> (#[trigger] self.shortfall(cs, o, self.extra.entries_v()[q].0)) is None,
            decreases n - e,
        {
            let (name, arity, m) = self.extra.entry(e);
            let ghost k = (name@, arity as nat);
            proof {
                assert(self.extra_count(k) == m);
            }
            let failure = match f.checked_mul(m) {
                None => Some(COUNT_EXHAUSTED),
                Some(required) => if g.get(name, arity) < required {
                    Some(INSUFFICIENT)
                } else {
                    None
                },
            };
            if let Some(err) = failure {
                proof {
                    assert(self.shortfall(cs, o, k) == Some(err));
                    assert forall|k2: KeyV| key_order(k2, k) == Order::Less implies (#[trigger] self.shortfall(cs, o, k2)) is None by {
                        if self.extra_count(k2) > 0 {
                            self.extra.lemma_counted(k2);
                            let j = choose|j: int| 0 <= j < self.extra.size() && (#[trigger] self.extra.entries_v()[j]).0 == k2;
                            lemma_key_order(k2, k);
                            if j == e {
                                assert(k2 == k);
                            } else if j > e {
                                self.extra.lemma_count_at(j);
                                self.extra.lemma_count_at(e as int);
                                assert(key_order(k, k2) == Order::Less);
                            }
                        }
                    }
                    assert(self.group_error(cs, o, err));
                }
                return Some(err);
            }
            proof {
                assert(self.shortfall(cs, o, self.extra.entries_v()[e as int].0) is None);
            }
            e += 1;
        }
        proof {
            assert forall|k: KeyV| #[trigger] self.shortfall(cs, o, k) is None by {
                if self.extra_count(k) > 0 {
                    self.extra.lemma_counted(k);
                    let j = choose|j: int| 0 <= j < self.extra.size() && (#[trigger] self.extra.entries_v()[j]).0 == k;
                    assert(self.shortfall(cs, o, self.extra.entries_v()[j].0) is None);
                }
            }
        }
        None
    }
}


impl Program {
    /// A reason found among the first initial constraints is the reason for all of them.
    proof fn lemma_scan_prefix(&self, cs: Seq<ConstraintV>, j: int)
        requires
            0 <= j <= cs.len(),
            self.scan_error(cs.take(j)) is Some,
        ensures
            self.scan_error(cs) == self.scan_error(cs.take(j)),
        decreases cs.len() - j,
    {
        if j < cs.len() {
            assert(cs.take(j + 1).drop_last() =~= cs.take(j));
            self.lemma_scan_prefix(cs, j + 1);
        } else {
            assert(cs.take(j) =~= cs);
        }
    }

    /// The fused rules, for a query whose initial resources certify every firing:
    /// for each owner, the consumer's resources suffice for as many firings as the
    /// producer's resources allow.
    pub fn lower(&self, q: &Query) -> (r: Result<&[Rule], &'static str>)
        requires
            self.wf(),
        ensures
            match r {
                Ok(out) => {
                    &&& self.scan_error(constraints_v(q.constraints@)) is None
                    &&& forall|o: TermV|
                        #[trigger] self.is_owner(constraints_v(q.constraints@), o) ==> !self.group_fails(
                            constraints_v(q.constraints@),
                            o,
                        )
                    &&& rules_v(out@) == self.emitted_v()
                },
                Err(e) => {
                    ||| self.scan_error(constraints_v(q.constraints@)) == Some(e)
                    ||| self.scan_error(constraints_v(q.constraints@)) is None && exists|o: TermV|
                        #[trigger] self.is_owner(constraints_v(q.constraints@), o) && self.group_error(
                            constraints_v(q.constraints@),
                            o,
                            e,
                        ) && forall|o2: TermV|
                            #[trigger] self.is_owner(constraints_v(q.constraints@), o2) && term_order(o2, o) == Order::Less
                                ==> !self.group_fails(constraints_v(q.constraints@), o2)
                },
            },
    {
        let ghost cs = constraints_v(q.constraints@);
        let mut groups: Vec<(Term, Counts)> = Vec::new();
        let mut i: usize = 0;
        proof {
            assert(cs.take(0) =~= Seq::<ConstraintV>::empty());
        }
        while i < q.constraints.len()
            invariant
                self.wf(),
                cs == constraints_v(q.constraints@),
                cs.len() == q.constraints@.len(),
                0 <= i <= q.constraints.len(),
                self.scan_error(cs.take(i as int)) is None,
                forall|a: int| 0 <= a < groups@.len() ==> (#[trigger] groups@[a]).1.wf(),
                forall|a: int, b: int|
                    0 <= a < groups@.len() && 0 <= b < groups@.len() && a != b ==> term_v((#[trigger] groups@[a]).0) != term_v(
                        (#[trigger] groups@[b]).0,
                    ),
                forall|o: TermV|
                    #[trigger] self.is_owner(cs.take(i as int), o) <==> exists|a: int| 0 <= a < groups@.len() && term_v((#[trigger] groups@[a]).0) == o,
                forall|a: int, k: KeyV|
                    0 <= a < groups@.len() ==> #[trigger] groups@[a].1.count(k) == self.owned(cs.take(i as int), term_v(groups@[a].0), k)
                        && groups@[a].1.count(k) <= i,
            decreases q.constraints.len() - i,
        {
            let c = &q.constraints[i];
            let ghost cv = cs[i as int];
            let ghost pre = cs.take(i as int);
            let ghost post = cs.take(i + 1);
            proof {
                assert(cv == constraint_v(*c));
                assert(post.drop_last() =~= pre);
                assert(post.last() == cv);
            }
            let name = c.name.as_str();
            let arity = c.args.len();
            let is_mid = compare_key((name, arity), (self.middle.0.as_str(), self.middle.1)) == Order::Equal;
            proof {
                lemma_key_order(key_v(cv), self.middle_v());
            }
            if is_mid {
                proof {
                    assert(self.scan_error(post) == Some(INITIAL_INTERMEDIATE));
                    self.lemma_scan_prefix(cs, i + 1);
                }
                return Err(INITIAL_INTERMEDIATE);
            }
            let resource = self.producer.get(name, arity) > 0 || self.extra.get(name, arity) > 0;
            if !resource {
                proof {
                    assert(self.scan_error(post) is None);
                    assert forall|a: int, k: KeyV| 0 <= a < groups@.len() implies #[trigger] groups@[a].1.count(k) == self.owned(post, term_v(groups@[a].0), k)
                        && groups@[a].1.count(k) <= i + 1 by {
                        assert(!self.owns(cv, term_v(groups@[a].0), k));
                    }
                    assert forall|o: TermV| #[trigger] self.is_owner(post, o) <==> self.is_owner(pre, o) by {
                        if self.is_owner(post, o) {
                            let j = choose|j: int| 0 <= j < post.len() && self.is_resource(key_v(#[trigger] post[j])) && post[j].args.len() > 0 && post[j].args[0] == o;
                            assert(pre[j] == post[j]);
                        }
                        if self.is_owner(pre, o) {
                            let j = choose|j: int| 0 <= j < pre.len() && self.is_resource(key_v(#[trigger] pre[j])) && pre[j].args.len() > 0 && pre[j].args[0] == o;
                            assert(pre[j] == post[j]);
                        }
                    }
                }
                i += 1;
                continue;
            }
            if arity == 0 {
                proof {
                    assert(self.scan_error(post) == Some(MISSING_KEY));
                    self.lemma_scan_prefix(cs, i + 1);
                }
                return Err(MISSING_KEY);
            }
            let owner = &c.args[0];
            let ghost ov = term_v(*owner);
            proof {
                assert(cv.args[0] == ov);
            }
            if !ground_term(owner) {
                proof {
                    assert(self.scan_error(post) == Some(KEY_NOT_GROUND));
                    self.lemma_scan_prefix(cs, i + 1);
                }
                return Err(KEY_NOT_GROUND);
            }
            proof {
                assert(self.scan_error(post) is None);
            }
            let mut a: usize = 0;
            let mut found = false;
            while a < groups.len() && !found
                invariant
                    0 <= a <= groups@.len(),
                    ov == term_v(*owner),
                    found ==> a < groups@.len() && term_v(groups@[a as int].0) == ov,
                    !found ==> forall|b: int| 0 <= b < a ==> term_v((#[trigger] groups@[b]).0) != ov,
                decreases groups@.len() - a + if found { 0int } else { 1int },
            {
                let o = compare_term(&groups[a].0, owner);
                proof {
                    lemma_term_order(term_v(groups@[a as int].0), ov);
                }
                if o == Order::Equal {
                    found = true;
                } else {
                    a += 1;
                }
            }
            let ghost old_groups = groups@;
            let ghost k = (name@, arity as nat);
            proof {
                assert(self.owns(cv, ov, k));
                assert forall|a2: int, k2: KeyV| 0 <= a2 < old_groups.len() && (term_v(old_groups[a2].0) != ov || k2 != k) implies #[trigger] old_groups[a2].1.count(k2) == self.owned(post, term_v(old_groups[a2].0), k2) by {
                }
                assert forall|o: TermV| #[trigger] self.is_owner(post, o) <==> (self.is_owner(pre, o) || o == ov) by {
                    if self.is_owner(post, o) {
                        let j = choose|j: int| 0 <= j < post.len() && self.is_resource(key_v(#[trigger] post[j])) && post[j].args.len() > 0 && post[j].args[0] == o;
                        if j < pre.len() {
                            assert(pre[j] == post[j]);
                        }
                    }
                    if self.is_owner(pre, o) {
                        let j = choose|j: int| 0 <= j < pre.len() && self.is_resource(key_v(#[trigger] pre[j])) && pre[j].args.len() > 0 && pre[j].args[0] == o;
                        assert(pre[j] == post[j]);
                    }
                    if o == ov {
                        assert(post[i as int] == cv);
                    }
                }
            }
            if found {
                let (g_owner, mut g_counts) = groups.remove(a);
                proof {
                    assert(g_counts.count(k) <= i);
                }
                g_counts.add(name, arity);
                groups.insert(a, (g_owner, g_counts));
                proof {
                    assert(groups@ == old_groups.update(a as int, groups@[a as int]));
                    assert forall|a2: int, k2: KeyV| 0 <= a2 < groups@.len() implies #[trigger] groups@[a2].1.count(k2) == self.owned(post, term_v(groups@[a2].0), k2)
                        && groups@[a2].1.count(k2) <= i + 1 by {
                        if a2 != a {
                            assert(groups@[a2] == old_groups[a2]);
                            assert(term_v(old_groups[a2].0) != ov);
                        }
                    }
                    assert forall|o: TermV| #[trigger] self.is_owner(post, o) <==> exists|a2: int| 0 <= a2 < groups@.len() && term_v((#[trigger] groups@[a2]).0) == o by {
                        if self.is_owner(post, o) {
                            if o == ov {
                                assert(term_v(groups@[a as int].0) == o);
                            } else {
                                let a2 = choose|a2: int| 0 <= a2 < old_groups.len() && term_v((#[trigger] old_groups[a2]).0) == o;
                                assert(groups@[a2] == old_groups[a2]);
                            }
                        }
                        if exists|a2: int| 0 <= a2 < groups@.len() && term_v((#[trigger] groups@[a2]).0) == o {
                            let a2 = choose|a2: int| 0 <= a2 < groups@.len() && term_v((#[trigger] groups@[a2]).0) == o;
                            if a2 != a {
                                assert(groups@[a2] == old_groups[a2]);
                            }
                        }
                    }
                    assert forall|a2: int| 0 <= a2 < groups@.len() implies (#[trigger] groups@[a2]).1.wf() by {
                        if a2 != a {
                            assert(groups@[a2] == old_groups[a2]);
                        }
                    }
                    assert forall|a2: int, b2: int|
                        0 <= a2 < groups@.len() && 0 <= b2 < groups@.len() && a2 != b2 implies term_v((#[trigger] groups@[a2]).0) != term_v(
                            (#[trigger] groups@[b2]).0,
                        ) by {
                        assert(term_v(groups@[a2].0) == term_v(old_groups[a2].0));
                        assert(term_v(groups@[b2].0) == term_v(old_groups[b2].0));
                    }
                }
            } else {
                let mut g_counts = Counts::new();
                g_counts.add(name, arity);
                groups.push((copy_term(owner), g_counts));
                proof {
                    let n = old_groups.len() as int;
                    assert(term_v(groups@[n].0) == ov);
                    assert(!self.is_owner(pre, ov));
                    assert(self.owned(pre, ov, k) == 0) by {
                        self.lemma_owned_owner(pre, ov, k);
                    }
                    assert forall|a2: int, k2: KeyV| 0 <= a2 < groups@.len() implies #[trigger] groups@[a2].1.count(k2) == self.owned(post, term_v(groups@[a2].0), k2)
                        && groups@[a2].1.count(k2) <= i + 1 by {
                        if a2 < n {
                            assert(groups@[a2] == old_groups[a2]);
                        } else {
                            self.lemma_owned_owner(pre, ov, k2);
                        }
                    }
                    assert forall|o: TermV| #[trigger] self.is_owner(post, o) <==> exists|a2: int| 0 <= a2 < groups@.len() && term_v((#[trigger] groups@[a2]).0) == o by {
                        if self.is_owner(post, o) {
                            if o == ov {
                                assert(term_v(groups@[n].0) == o);
                            } else {
                                let a2 = choose|a2: int| 0 <= a2 < old_groups.len() && term_v((#[trigger] old_groups[a2]).0) == o;
                                assert(groups@[a2] == old_groups[a2]);
                            }
                        }
                        if exists|a2: int| 0 <= a2 < groups@.len() && term_v((#[trigger] groups@[a2]).0) == o {
                            let a2 = choose|a2: int| 0 <= a2 < groups@.len() && term_v((#[trigger] groups@[a2]).0) == o;
                            if a2 < n {
                                assert(groups@[a2] == old_groups[a2]);
                            }
                        }
                    }
                    assert forall|a2: int| 0 <= a2 < groups@.len() implies (#[trigger] groups@[a2]).1.wf() by {
                        if a2 < n {
                            assert(groups@[a2] == old_groups[a2]);
                        }
                    }
                    assert forall|a2: int, b2: int|
                        0 <= a2 < groups@.len() && 0 <= b2 < groups@.len() && a2 != b2 implies term_v((#[trigger] groups@[a2]).0) != term_v(
                            (#[trigger] groups@[b2]).0,
                        ) by {
                        if a2 < n {
                            assert(groups@[a2] == old_groups[a2]);
                        }
                        if b2 < n {
                            assert(groups@[b2] == old_groups[b2]);
                        }
                    }
                }
            }
            i += 1;
        }
        proof {
            assert(cs.take(i as int) =~= cs);
        }
        let mut best: Option<(usize, &'static str)> = None;
        let mut a: usize = 0;
        while a < groups.len()
            invariant
                self.wf(),
                cs == constraints_v(q.constraints@),
                self.scan_error(cs) is None,
                forall|a2: int| 0 <= a2 < groups@.len() ==> (#[trigger] groups@[a2]).1.wf(),
                forall|a2: int, b2: int|
                    0 <= a2 < groups@.len() && 0 <= b2 < groups@.len() && a2 != b2 ==> term_v((#[trigger] groups@[a2]).0) != term_v(
                        (#[trigger] groups@[b2]).0,
                    ),
                forall|o: TermV|
                    #[trigger] self.is_owner(cs, o) <==> exists|a2: int| 0 <= a2 < groups@.len() && term_v((#[trigger] groups@[a2]).0) == o,
                forall|a2: int, k: KeyV|
                    0 <= a2 < groups@.len() ==> #[trigger] groups@[a2].1.count(k) == self.owned(cs, term_v(groups@[a2].0), k),
                0 <= a <= groups@.len(),
                best is None ==> forall|b2: int| 0 <= b2 < a ==> !self.group_fails(cs, term_v((#[trigger] groups@[b2]).0)),
                best matches Some((b, e)) ==> {
                    &&& b < a
                    &&& self.group_error(cs, term_v(groups@[b as int].0), e)
                    &&& forall|b2: int|
                        0 <= b2 < a && self.group_fails(cs, term_v((#[trigger] groups@[b2]).0)) ==> b2 == b || term_order(
                            term_v(groups@[b as int].0),
                            term_v(groups@[b2].0),
                        ) == Order::Less
                },
            decreases groups@.len() - a,
        {
            let ghost oa = term_v(groups@[a as int].0);
            let f = self.firings_of(&groups[a].1, Ghost(cs), Ghost(oa));
            let failure = self.shortfall_of(&groups[a].1, f, Ghost(cs), Ghost(oa));
            let ghost old_best = best;
            match failure {
                None => {},
                Some(err) => {
                    match best {
                        None => {
                            best = Some((a, err));
                        },
                        Some((b, _)) => {
                            let o = compare_term(&groups[a].0, &groups[b].0);
                            proof {
                                lemma_term_order(oa, term_v(groups@[b as int].0));
                            }
                            if o == Order::Less {
                                best = Some((a, err));
                                proof {
                                    assert forall|b2: int|
                                        0 <= b2 < a + 1 && self.group_fails(cs, term_v((#[trigger] groups@[b2]).0)) implies b2 == a || term_order(
                                        oa,
                                        term_v(groups@[b2].0),
                                    ) == Order::Less by {
                                        if b2 != a && b2 != b {
                                            lemma_term_order_trans(oa, term_v(groups@[b as int].0), term_v(groups@[b2].0));
                                        }
                                    }
                                }
                            }
                        },
                    }
                },
            }
            a += 1;
        }
        match best {
            None => {
                proof {
                    assert forall|o: TermV| #[trigger] self.is_owner(cs, o) implies !self.group_fails(cs, o) by {
                        let a2 = choose|a2: int| 0 <= a2 < groups@.len() && term_v((#[trigger] groups@[a2]).0) == o;
                    }
                }
                Ok(self.emitted.as_slice())
            },
            Some((b, e)) => {
                proof {
                    let o = term_v(groups@[b as int].0);
                    assert(self.is_owner(cs, o));
                    assert forall|o2: TermV| #[trigger] self.is_owner(cs, o2) && term_order(o2, o) == Order::Less implies !self.group_fails(cs, o2) by {
                        let b2 = choose|a2: int| 0 <= a2 < groups@.len() && term_v((#[trigger] groups@[a2]).0) == o2;
                        lemma_term_order(o, o2);
                    }
                }
                Err(e)
            },
        }
    }

    /// Nothing is owned by a term that owns no initial constraint.
    proof fn lemma_owned_owner(&self, cs: Seq<ConstraintV>, o: TermV, k: KeyV)
        requires
            !self.is_owner(cs, o),
        ensures
            self.owned(cs, o, k) == 0,
        decreases cs.len(),
    {
        if cs.len() > 0 {
            let pre = cs.drop_last();
            assert(!self.is_owner(pre, o)) by {
                if self.is_owner(pre, o) {
                    let j = choose|j: int| 0 <= j < pre.len() && self.is_resource(key_v(#[trigger] pre[j])) && pre[j].args.len() > 0 && pre[j].args[0] == o;
                    assert(cs[j] == pre[j]);
                }
            }
            self.lemma_owned_owner(pre, o, k);
            if self.owns(cs.last(), o, k) {
                assert(cs[cs.len() - 1] == cs.last());
            }
        }
    }
}


/// Substitution keeps the keys of the constraints a goal posts.
proof fn lemma_calls_subst(g: GoalV, env: Map<u64, TermV>)
    ensures
        calls_v(subst_goal_v(g, env)) == calls_v(g),
    decreases g,
{
    match g {
        GoalV::And(gs) => {
            lemma_calls_all_subst(gs, env);
            let t = subst_goal_v(g, env)->And_0;
            assert(t =~= gs.map_values(|x: GoalV| subst_goal_v(x, env)));
        },
        GoalV::Or(a, b) => {
            lemma_calls_subst(*a, env);
            lemma_calls_subst(*b, env);
        },
        _ => {},
    }
}

proof fn lemma_calls_all_subst(gs: Seq<GoalV>, env: Map<u64, TermV>)
    ensures
        calls_all(gs.map_values(|x: GoalV| subst_goal_v(x, env))) == calls_all(gs),
    decreases gs,
{
    if gs.len() > 0 {
        let t = gs.map_values(|x: GoalV| subst_goal_v(x, env));
        assert(t.drop_last() =~= gs.drop_last().map_values(|x: GoalV| subst_goal_v(x, env)));
        lemma_calls_all_subst(gs.drop_last(), env);
        lemma_calls_subst(gs.last(), env);
    }
}

/// Fusion removes exactly the consumer and replaces the producer by the fused
/// rule; every other rule stays, in the same order.
pub proof fn lemma_fusion_shape(rules: Seq<RuleV>, pi: int, ci: int)
    requires
        0 <= ci < pi < rules.len(),
    ensures
        fused_program(rules, pi, ci).len() == rules.len() - 1,
        forall|k: int|
            0 <= k < rules.len() - 1 ==> #[trigger] fused_program(rules, pi, ci)[k] == if k == pi - 1 {
                fused_rule(rules[pi], rules[ci])
            } else if k < ci {
                rules[k]
            } else {
                rules[k + 1]
            },
{
}

/// After fusion the private intermediate is gone: no rule of the fused program
/// removes, keeps or posts a constraint with the intermediate's key.
pub proof fn lemma_intermediate_eliminated(rules: Seq<RuleV>, pi: int, ci: int)
    requires
        0 <= ci < pi < rules.len(),
        certified(rules, pi, ci),
    ensures
        forall|k: int, j: int|
            0 <= k < fused_program(rules, pi, ci).len() && 0 <= j < heads_of(fused_program(rules, pi, ci)[k]).len()
                ==> key_v(#[trigger] heads_of(fused_program(rules, pi, ci)[k])[j]) != key_v(middle_of(rules[pi])),
        forall|k: int, j: int|
            0 <= k < fused_program(rules, pi, ci).len() && 0 <= j < calls_v(fused_program(rules, pi, ci)[k].body).len()
                ==> #[trigger] calls_v(fused_program(rules, pi, ci)[k].body)[j] != key_v(middle_of(rules[pi])),
{
    let p = rules[pi];
    let c = rules[ci];
    let m = middle_of(p);
    let mid = key_v(m);
    let fp = fused_program(rules, pi, ci);
    let f = fused_rule(p, c);
    let mi = middle_index(c, m);
    let env = fusion_env(p, c);
    lemma_fusion_shape(rules, pi, ci);
    lemma_calls_subst(c.body, env);
    assert forall|k: int, j: int| 0 <= k < fp.len() && 0 <= j < heads_of(fp[k]).len() implies key_v(#[trigger] heads_of(fp[k])[j]) != mid by {
        if k == pi - 1 {
            let h = heads_of(f)[j];
            assert(f.kept.len() == 0);
            if j < p.removed.len() {
                assert(h == p.removed[j]);
                assert(keys_v(p.removed)[j] == key_v(h));
            } else {
                let r = c.removed.remove(mi);
                let d = j - p.removed.len();
                assert(h == subst_c(r[d], env));
                assert(key_v(h) == key_v(r[d]));
                assert(keys_v(r)[d] == key_v(r[d]));
                assert(extra_keys(c, m).contains(key_v(h)));
            }
        } else {
            let src = if k < ci { k } else { k + 1 };
            assert(fp[k] == rules[src]);
            assert(src != ci);
            assert(key_v(heads_of(rules[src])[j]) == mid ==> src == ci);
        }
    }
    assert forall|k: int, j: int| 0 <= k < fp.len() && 0 <= j < calls_v(fp[k].body).len() implies #[trigger] calls_v(fp[k].body)[j] != mid by {
        if k == pi - 1 {
            assert(f.body == subst_goal_v(c.body, env));
            assert(calls_v(c.body)[j] == mid ==> ci == pi);
        } else {
            let src = if k < ci { k } else { k + 1 };
            assert(fp[k] == rules[src]);
            assert(calls_v(rules[src].body)[j] == mid ==> src == pi);
        }
    }
}

} // verus!
