//! Solving a query within a finite initial phase.
//!
//! A state holds live private constraints, variable bindings, weighted atom
//! domains of unchosen variables and a weight. Each step takes the newest
//! state: it fires the first rule whose head matches a live constraint,
//! splitting a domain where the match needs one atom of it, or, with nothing
//! live, chooses the atoms of the least unchosen variable, or publishes the
//! state as a solution. Every term node visited is paid for from one budget.
use crate::finite::{Budget, Domain, Error, Limits, MAX_DEPTH, TERM_DEPTH, TERM_NODES, entries_v, intersection, lemma_listing_entries, listing, product_overflows};
use crate::order::{Order, compare_term, lemma_term_order};
use crate::phase::{Prepared, walk, walk_v, walks_v};
use crate::resource_fusion::{KeyV, VarSet, key_v, lemma_terms_vars_index, term_vars, term_vars_into, terms_vars};
use crate::syntax::{Constraint, ConstraintV, Goal, GoalV, Query, Rule, RuleV, Term, TermV, Var, rules_v, constraint_v, copy_constraint, constraints_v, copy_constraints, copy_term, goal_v, term_v};
use vstd::prelude::*;

verus! {

/// Paying for one term node at `depth`: what is left, or the limit met.
pub open spec fn node_v(left: nat, depth: nat) -> Result<nat, Error> {
    if depth > MAX_DEPTH {
        Err(Error::Limit(TERM_DEPTH))
    } else if left == 0 {
        Err(Error::Limit(TERM_NODES))
    } else {
        Ok((left - 1) as nat)
    }
}

/// A term with its bound variables replaced by their bindings, followed
/// through chains of bindings, paying for every node visited.
pub open spec fn resolve_v(t: TermV, env: Map<u64, TermV>, left: nat, depth: nat) -> Result<(TermV, nat), Error>
    decreases MAX_DEPTH + 2 - depth, 0int,
{
    match node_v(left, depth) {
        Err(e) => Err(e),
        Ok(l) => match t {
            TermV::Var(v) => if env.contains_key(v) {
                resolve_v(env[v], env, l, depth + 1)
            } else {
                Ok((t, l))
            },
            TermV::App(n, xs) => match resolves_v(xs, env, l, depth + 1) {
                Err(e) => Err(e),
                Ok((ys, l2)) => Ok((TermV::App(n, ys), l2)),
            },
        },
    }
}

/// Resolving terms one after another at `depth`.
pub open spec fn resolves_v(xs: Seq<TermV>, env: Map<u64, TermV>, left: nat, depth: nat) -> Result<(Seq<TermV>, nat), Error>
    decreases MAX_DEPTH + 2 - depth, 1 + xs.len(),
{
    if xs.len() == 0 {
        Ok((Seq::empty(), left))
    } else {
        match resolves_v(xs.drop_last(), env, left, depth) {
            Err(e) => Err(e),
            Ok((ys, l)) => match resolve_v(xs.last(), env, l, depth) {
                Err(e) => Err(e),
                Ok((y, l2)) => Ok((ys.push(y), l2)),
            },
        }
    }
}

proof fn lemma_resolves_prefix(xs: Seq<TermV>, j: int, env: Map<u64, TermV>, left: nat, depth: nat)
    requires
        0 <= j <= xs.len(),
        resolves_v(xs.take(j), env, left, depth) is Err,
    ensures
        resolves_v(xs, env, left, depth) == resolves_v(xs.take(j), env, left, depth),
    decreases xs.len() - j,
{
    if j < xs.len() {
        assert(xs.take(j + 1).drop_last() =~= xs.take(j));
        lemma_resolves_prefix(xs, j + 1, env, left, depth);
    } else {
        assert(xs.take(j) =~= xs);
    }
}

/// Resolving pays for at least one node.
pub proof fn lemma_resolve_pays(t: TermV, env: Map<u64, TermV>, left: nat, depth: nat)
    requires
        resolve_v(t, env, left, depth) is Ok,
    ensures
        resolve_v(t, env, left, depth)->Ok_0.1 < left,
    decreases MAX_DEPTH + 2 - depth, 0int,
{
    let l = (left - 1) as nat;
    match t {
        TermV::Var(v) => if env.contains_key(v) {
            lemma_resolve_pays(env[v], env, l, depth + 1);
        },
        TermV::App(n, xs) => {
            lemma_resolves_pays(xs, env, l, depth + 1);
        },
    }
}

pub proof fn lemma_resolves_pays(xs: Seq<TermV>, env: Map<u64, TermV>, left: nat, depth: nat)
    requires
        resolves_v(xs, env, left, depth) is Ok,
    ensures
        resolves_v(xs, env, left, depth)->Ok_0.1 <= left,
    decreases MAX_DEPTH + 2 - depth, 1 + xs.len(),
{
    if xs.len() > 0 {
        lemma_resolves_pays(xs.drop_last(), env, left, depth);
        let l = resolves_v(xs.drop_last(), env, left, depth)->Ok_0.1;
        lemma_resolve_pays(xs.last(), env, l, depth);
    }
}

/// Variable bindings: each variable bound at most once.
pub struct Bindings {
    pairs: Vec<(u64, Term)>,
}

impl Bindings {
    pub closed spec fn wf(&self) -> bool {
        forall|i: int, j: int| 0 <= i < j < self.pairs@.len() ==> self.pairs@[i].0 != self.pairs@[j].0
    }

    spec fn has(&self, v: u64) -> bool {
        exists|i: int| 0 <= i < self.pairs@.len() && #[trigger] self.pairs@[i].0 == v
    }

    /// The binding of every bound variable.
    pub closed spec fn map(&self) -> Map<u64, TermV> {
        Map::new(
            |v: u64| self.has(v),
            |v: u64| term_v(self.pairs@[choose|i: int| 0 <= i < self.pairs@.len() && #[trigger] self.pairs@[i].0 == v].1),
        )
    }

    proof fn lemma_at(&self, i: int)
        requires
            self.wf(),
            0 <= i < self.pairs@.len(),
        ensures
            self.map().contains_key(self.pairs@[i].0),
            self.map()[self.pairs@[i].0] == term_v(self.pairs@[i].1),
    {
        let v = self.pairs@[i].0;
        let j = choose|j: int| 0 <= j < self.pairs@.len() && #[trigger] self.pairs@[j].0 == v;
        assert(self.has(v));
        if i != j {
            if i < j {
                assert(self.pairs@[i].0 != self.pairs@[j].0);
            } else {
                assert(self.pairs@[j].0 != self.pairs@[i].0);
            }
        }
    }

    pub fn new() -> (r: Bindings)
        ensures
            r.wf(),
            r.map() == Map::<u64, TermV>::empty(),
    {
        let r = Bindings { pairs: Vec::new() };
        proof {
            assert(r.map() =~= Map::<u64, TermV>::empty());
        }
        r
    }

    fn position(&self, v: u64) -> (r: Option<usize>)
        ensures
            match r {
                Some(i) => i < self.pairs@.len() && self.pairs@[i as int].0 == v,
                None => !self.has(v),
            },
    {
        let mut i: usize = 0;
        while i < self.pairs.len()
            invariant
                0 <= i <= self.pairs@.len(),
                forall|j: int| 0 <= j < i ==> #[trigger] self.pairs@[j].0 != v,
            decreases self.pairs.len() - i,
        {
            if self.pairs[i].0 == v {
                return Some(i);
            }
            i += 1;
        }
        None
    }

    /// The binding of `v`, if it is bound.
    pub fn get(&self, v: u64) -> (r: Option<&Term>)
        requires
            self.wf(),
        ensures
            match r {
                Some(t) => self.map().contains_key(v) && self.map()[v] == term_v(*t),
                None => !self.map().contains_key(v),
            },
    {
        match self.position(v) {
            Some(i) => {
                proof {
                    self.lemma_at(i as int);
                }
                Some(&self.pairs[i].1)
            },
            None => None,
        }
    }

    /// Bind `v` to `t`, replacing any binding it had.
    pub fn insert(&mut self, v: u64, t: Term)
        requires
            old(self).wf(),
        ensures
            final(self).wf(),
            final(self).map() == old(self).map().insert(v, term_v(t)),
    {
        let ghost before = *self;
        let ghost tv = term_v(t);
        match self.position(v) {
            Some(i) => {
                self.pairs.set(i, (v, t));
                proof {
                    assert forall|a: int, b: int| 0 <= a < b < self.pairs@.len() implies self.pairs@[a].0 != self.pairs@[b].0 by {
                        assert(self.pairs@[a].0 == before.pairs@[a].0);
                        assert(self.pairs@[b].0 == before.pairs@[b].0);
                    }
                    assert forall|x: u64| #[trigger] self.has(x) == before.has(x) by {
                        if self.has(x) {
                            let j = choose|j: int| 0 <= j < self.pairs@.len() && #[trigger] self.pairs@[j].0 == x;
                            assert(before.pairs@[j].0 == x);
                        }
                        if before.has(x) {
                            let j = choose|j: int| 0 <= j < before.pairs@.len() && #[trigger] before.pairs@[j].0 == x;
                            assert(self.pairs@[j].0 == x);
                        }
                    }
                    assert forall|x: u64| self.has(x) implies self.map()[x] == before.map().insert(v, tv)[x] by {
                        let j = choose|j: int| 0 <= j < self.pairs@.len() && #[trigger] self.pairs@[j].0 == x;
                        self.lemma_at(j);
                        if j != i {
                            assert(self.pairs@[j] == before.pairs@[j]);
                            before.lemma_at(j);
                        }
                    }
                    assert(self.map() =~= before.map().insert(v, tv));
                }
            },
            None => {
                self.pairs.push((v, t));
                proof {
                    let n = before.pairs@.len() as int;
                    assert forall|a: int, b: int| 0 <= a < b < self.pairs@.len() implies self.pairs@[a].0 != self.pairs@[b].0 by {
                        assert(self.pairs@[a] == before.pairs@[a]);
                        if b < n {
                            assert(self.pairs@[b] == before.pairs@[b]);
                        }
                    }
                    assert forall|x: u64| #[trigger] self.has(x) == (before.has(x) || x == v) by {
                        if self.has(x) {
                            let j = choose|j: int| 0 <= j < self.pairs@.len() && #[trigger] self.pairs@[j].0 == x;
                            if j < n {
                                assert(before.pairs@[j].0 == x);
                            }
                        }
                        if before.has(x) {
                            let j = choose|j: int| 0 <= j < before.pairs@.len() && #[trigger] before.pairs@[j].0 == x;
                            assert(self.pairs@[j].0 == x);
                        }
                        if x == v {
                            assert(self.pairs@[n].0 == v);
                        }
                    }
                    assert forall|x: u64| self.has(x) implies self.map()[x] == before.map().insert(v, tv)[x] by {
                        let j = choose|j: int| 0 <= j < self.pairs@.len() && #[trigger] self.pairs@[j].0 == x;
                        self.lemma_at(j);
                        if j < n {
                            assert(self.pairs@[j] == before.pairs@[j]);
                            before.lemma_at(j);
                        }
                    }
                    assert(self.map() =~= before.map().insert(v, tv));
                }
            },
        }
    }

    /// Bindings with the same values.
    pub fn copy(&self) -> (r: Bindings)
        requires
            self.wf(),
        ensures
            r.wf(),
            r.map() == self.map(),
    {
        let mut pairs: Vec<(u64, Term)> = Vec::new();
        let mut i: usize = 0;
        while i < self.pairs.len()
            invariant
                0 <= i <= self.pairs@.len(),
                pairs@.len() == i,
                forall|j: int| 0 <= j < i ==> (#[trigger] pairs@[j]).0 == self.pairs@[j].0 && term_v(pairs@[j].1) == term_v(
                    self.pairs@[j].1,
                ),
            decreases self.pairs.len() - i,
        {
            pairs.push((self.pairs[i].0, copy_term(&self.pairs[i].1)));
            i += 1;
        }
        let r = Bindings { pairs };
        proof {
            assert forall|a: int, b: int| 0 <= a < b < r.pairs@.len() implies r.pairs@[a].0 != r.pairs@[b].0 by {
                assert(self.pairs@[a].0 != self.pairs@[b].0);
            }
            assert forall|x: u64| #[trigger] r.has(x) == self.has(x) by {
                if r.has(x) {
                    let j = choose|j: int| 0 <= j < r.pairs@.len() && #[trigger] r.pairs@[j].0 == x;
                    assert(self.pairs@[j].0 == x);
                }
                if self.has(x) {
                    let j = choose|j: int| 0 <= j < self.pairs@.len() && #[trigger] self.pairs@[j].0 == x;
                    assert(r.pairs@[j].0 == x);
                }
            }
            assert forall|x: u64| r.has(x) implies r.map()[x] == self.map()[x] by {
                let j = choose|j: int| 0 <= j < r.pairs@.len() && #[trigger] r.pairs@[j].0 == x;
                r.lemma_at(j);
                self.lemma_at(j);
            }
            assert(r.map() =~= self.map());
        }
        r
    }
}

/// Resolve a term against bindings, paying for every node visited.
pub fn resolve(t: &Term, env: &Bindings, budget: &mut Budget, depth: usize) -> (r: Result<Term, Error>)
    requires
        env.wf(),
    ensures
        match resolve_v(term_v(*t), env.map(), old(budget).left as nat, depth as nat) {
            Ok((x, l)) => r matches Ok(y) && term_v(y) == x && final(budget).left == l,
            Err(e) => r == Err::<Term, Error>(e),
        },
    decreases MAX_DEPTH + 2 - depth, 0int, t,
{
    budget.node(depth)?;
    match t {
        Term::Var(v) => match env.get(v.0) {
            Some(b) => resolve(b, env, budget, depth + 1),
            None => Ok(Term::Var(*v)),
        },
        Term::App(n, xs) => {
            let ghost vs = term_v(*t)->App_1;
            let ghost start = (old(budget).left - 1) as nat;
            proof {
                assert(old(budget).left > 0 && depth <= MAX_DEPTH);
            }
            let mut out: Vec<Term> = Vec::new();
            let mut i: usize = 0;
            proof {
                assert(vs.take(0) =~= Seq::<TermV>::empty());
                assert(out@.map_values(|x: Term| term_v(x)) =~= Seq::<TermV>::empty());
            }
            while i < xs.len()
                invariant
                    *t == Term::App(*n, *xs),
                    vs == term_v(*t)->App_1,
                    vs.len() == xs@.len(),
                    env.wf(),
                    depth <= MAX_DEPTH,
                    old(budget).left > 0,
                    start == (old(budget).left - 1) as nat,
                    0 <= i <= xs.len(),
                    resolves_v(vs.take(i as int), env.map(), start, depth as nat + 1) == Ok::<(Seq<TermV>, nat), Error>(
                        (out@.map_values(|x: Term| term_v(x)), budget.left as nat),
                    ),
                decreases xs.len() - i,
            {
                proof {
                    assert(vs[i as int] == term_v(xs@[i as int]));
                    assert(vs.take(i + 1).drop_last() =~= vs.take(i as int));
                    assert(vs.take(i + 1).last() == vs[i as int]);
                }
                let ghost o0 = out@;
                let ghost l0 = budget.left as nat;
                match resolve(&xs[i], env, budget, depth + 1) {
                    Ok(y) => {
                        out.push(y);
                        proof {
                            assert(out@.map_values(|x: Term| term_v(x)) =~= o0.map_values(|x: Term| term_v(x)).push(term_v(y)));
                        }
                    },
                    Err(e) => {
                        proof {
                            assert(resolve_v(vs[i as int], env.map(), l0, depth as nat + 1) == Err::<(TermV, nat), Error>(e));
                            assert(resolves_v(vs.take(i + 1), env.map(), start, depth as nat + 1) == Err::<(Seq<TermV>, nat), Error>(e));
                            lemma_resolves_prefix(vs, i + 1, env.map(), start, depth as nat + 1);
                            assert(node_v(old(budget).left as nat, depth as nat) == Ok::<nat, Error>(start));
                        }
                        return Err(e);
                    },
                }
                i += 1;
            }
            proof {
                assert(vs.take(i as int) =~= vs);
            }
            let r = Term::App(n.clone(), out);
            proof {
                assert(term_v(r)->App_1 =~= out@.map_values(|x: Term| term_v(x)));
            }
            Ok(r)
        },
    }
}

/// The weighted atom domains of unchosen variables: each variable at most once.
pub struct Domains {
    entries: Vec<(u64, Domain)>,
}

/// `v` is the least variable with a domain.
pub open spec fn is_least_var(m: Map<u64, Map<Seq<char>, u128>>, v: u64) -> bool {
    m.contains_key(v) && forall|k: u64| #[trigger] m.contains_key(k) ==> v <= k
}

/// The least variable with a domain.
pub open spec fn least_var(m: Map<u64, Map<Seq<char>, u128>>) -> u64 {
    choose|v: u64| is_least_var(m, v)
}

proof fn lemma_least_var(m: Map<u64, Map<Seq<char>, u128>>, v: u64)
    requires
        is_least_var(m, v),
    ensures
        least_var(m) == v,
{
    let w = least_var(m);
    assert(is_least_var(m, w));
    assert(v <= w && w <= v);
}

impl Domains {
    pub closed spec fn wf(&self) -> bool {
        &&& forall|i: int, j: int| 0 <= i < j < self.entries@.len() ==> self.entries@[i].0 != self.entries@[j].0
        &&& forall|i: int| 0 <= i < self.entries@.len() ==> (#[trigger] self.entries@[i]).1.wf()
    }

    spec fn has(&self, v: u64) -> bool {
        exists|i: int| 0 <= i < self.entries@.len() && #[trigger] self.entries@[i].0 == v
    }

    /// The weighted atoms of every variable with a domain.
    pub closed spec fn map(&self) -> Map<u64, Map<Seq<char>, u128>> {
        Map::new(
            |v: u64| self.has(v),
            |v: u64| self.entries@[choose|i: int| 0 <= i < self.entries@.len() && #[trigger] self.entries@[i].0 == v].1.weights(),
        )
    }

    proof fn lemma_at(&self, i: int)
        requires
            self.wf(),
            0 <= i < self.entries@.len(),
        ensures
            self.map().contains_key(self.entries@[i].0),
            self.map()[self.entries@[i].0] == self.entries@[i].1.weights(),
    {
        let v = self.entries@[i].0;
        let j = choose|j: int| 0 <= j < self.entries@.len() && #[trigger] self.entries@[j].0 == v;
        assert(self.has(v));
        if i != j {
            if i < j {
                assert(self.entries@[i].0 != self.entries@[j].0);
            } else {
                assert(self.entries@[j].0 != self.entries@[i].0);
            }
        }
    }

    pub fn new() -> (r: Domains)
        ensures
            r.wf(),
            r.map() == Map::<u64, Map<Seq<char>, u128>>::empty(),
    {
        let r = Domains { entries: Vec::new() };
        proof {
            assert(r.map() =~= Map::<u64, Map<Seq<char>, u128>>::empty());
        }
        r
    }

    fn position(&self, v: u64) -> (r: Option<usize>)
        ensures
            match r {
                Some(i) => i < self.entries@.len() && self.entries@[i as int].0 == v,
                None => !self.has(v),
            },
    {
        let mut i: usize = 0;
        while i < self.entries.len()
            invariant
                0 <= i <= self.entries@.len(),
                forall|j: int| 0 <= j < i ==> #[trigger] self.entries@[j].0 != v,
            decreases self.entries.len() - i,
        {
            if self.entries[i].0 == v {
                return Some(i);
            }
            i += 1;
        }
        None
    }

    /// The domain of `v`, if it has one.
    pub fn get(&self, v: u64) -> (r: Option<&Domain>)
        requires
            self.wf(),
        ensures
            match r {
                Some(d) => d.wf() && self.map().contains_key(v) && self.map()[v] == d.weights(),
                None => !self.map().contains_key(v),
            },
    {
        match self.position(v) {
            Some(i) => {
                proof {
                    self.lemma_at(i as int);
                }
                Some(&self.entries[i].1)
            },
            None => None,
        }
    }

    /// Take the domain of `v` out, if it has one.
    pub fn remove(&mut self, v: u64) -> (r: Option<Domain>)
        requires
            old(self).wf(),
        ensures
            final(self).wf(),
            final(self).map() == old(self).map().remove(v),
            match r {
                Some(d) => d.wf() && old(self).map().contains_key(v) && old(self).map()[v] == d.weights(),
                None => !old(self).map().contains_key(v),
            },
    {
        let ghost before = *self;
        match self.position(v) {
            Some(i) => {
                proof {
                    before.lemma_at(i as int);
                }
                let e = self.entries.remove(i);
                proof {
                    let a = self.entries@;
                    let b = before.entries@;
                    assert(a == b.remove(i as int));
                    assert forall|x: int, y: int| 0 <= x < y < a.len() implies a[x].0 != a[y].0 by {
                        let x2 = if x < i { x } else { x + 1 };
                        let y2 = if y < i { y } else { y + 1 };
                        assert(a[x] == b[x2] && a[y] == b[y2]);
                    }
                    assert forall|x: int| 0 <= x < a.len() implies (#[trigger] a[x]).1.wf() by {
                        let x2 = if x < i { x } else { x + 1 };
                        assert(a[x] == b[x2]);
                    }
                    assert forall|k: u64| #[trigger] self.has(k) == (before.has(k) && k != v) by {
                        if self.has(k) {
                            let j = choose|j: int| 0 <= j < a.len() && #[trigger] a[j].0 == k;
                            let j2 = if j < i { j } else { j + 1 };
                            assert(a[j] == b[j2]);
                            assert(b[j2].0 == k);
                            if k == v {
                                assert(b[j2].0 == b[i as int].0);
                            }
                        }
                        if before.has(k) && k != v {
                            let j2 = choose|j: int| 0 <= j < b.len() && #[trigger] b[j].0 == k;
                            let j = if j2 < i { j2 } else { j2 - 1 };
                            assert(a[j] == b[j2]);
                        }
                    }
                    assert forall|k: u64| self.has(k) implies self.map()[k] == before.map()[k] by {
                        let j = choose|j: int| 0 <= j < a.len() && #[trigger] a[j].0 == k;
                        let j2 = if j < i { j } else { j + 1 };
                        assert(a[j] == b[j2]);
                        self.lemma_at(j);
                        before.lemma_at(j2);
                    }
                    assert(self.map() =~= before.map().remove(v));
                }
                Some(e.1)
            },
            None => {
                proof {
                    assert(self.map() =~= before.map().remove(v));
                }
                None
            },
        }
    }

    /// Give `v` the domain `d`, replacing any it had.
    pub fn insert(&mut self, v: u64, d: Domain)
        requires
            old(self).wf(),
            d.wf(),
        ensures
            final(self).wf(),
            final(self).map() == old(self).map().insert(v, d.weights()),
    {
        let ghost dw = d.weights();
        let _ = self.remove(v);
        let ghost mid = *self;
        self.entries.push((v, d));
        proof {
            let a = self.entries@;
            let b = mid.entries@;
            let n = b.len() as int;
            assert(!mid.map().contains_key(v));
            assert forall|x: int, y: int| 0 <= x < y < a.len() implies a[x].0 != a[y].0 by {
                assert(a[x] == b[x]);
                if y < n {
                    assert(a[y] == b[y]);
                } else {
                    if a[x].0 == v {
                        assert(mid.has(v));
                    }
                }
            }
            assert forall|x: int| 0 <= x < a.len() implies (#[trigger] a[x]).1.wf() by {
                if x < n {
                    assert(a[x] == b[x]);
                }
            }
            assert forall|k: u64| #[trigger] self.has(k) == (mid.has(k) || k == v) by {
                if self.has(k) {
                    let j = choose|j: int| 0 <= j < a.len() && #[trigger] a[j].0 == k;
                    if j < n {
                        assert(b[j].0 == k);
                    }
                }
                if mid.has(k) {
                    let j = choose|j: int| 0 <= j < b.len() && #[trigger] b[j].0 == k;
                    assert(a[j].0 == k);
                }
                if k == v {
                    assert(a[n].0 == v);
                }
            }
            assert forall|k: u64| self.has(k) implies self.map()[k] == mid.map().insert(v, dw)[k] by {
                let j = choose|j: int| 0 <= j < a.len() && #[trigger] a[j].0 == k;
                self.lemma_at(j);
                if j < n {
                    assert(a[j] == b[j]);
                    mid.lemma_at(j);
                }
            }
            assert(self.map() =~= mid.map().insert(v, dw));
            assert(mid.map().insert(v, dw) =~= old(self).map().insert(v, dw));
        }
    }

    /// The least variable with a domain, if any has one.
    pub fn least(&self) -> (r: Option<u64>)
        requires
            self.wf(),
        ensures
            match r {
                Some(v) => is_least_var(self.map(), v),
                None => self.map() == Map::<u64, Map<Seq<char>, u128>>::empty(),
            },
    {
        if self.entries.len() == 0 {
            proof {
                assert(self.map() =~= Map::<u64, Map<Seq<char>, u128>>::empty());
            }
            return None;
        }
        let mut best: usize = 0;
        let mut i: usize = 1;
        while i < self.entries.len()
            invariant
                0 <= best < i <= self.entries@.len(),
                forall|j: int| 0 <= j < i ==> self.entries@[best as int].0 <= #[trigger] self.entries@[j].0,
            decreases self.entries.len() - i,
        {
            if self.entries[i].0 < self.entries[best].0 {
                best = i;
            }
            i += 1;
        }
        proof {
            self.lemma_at(best as int);
            assert forall|k: u64| #[trigger] self.map().contains_key(k) implies self.entries@[best as int].0 <= k by {
                let j = choose|j: int| 0 <= j < self.entries@.len() && #[trigger] self.entries@[j].0 == k;
            }
        }
        Some(self.entries[best].0)
    }

    /// Domains with the same weights.
    pub fn copy(&self) -> (r: Domains)
        requires
            self.wf(),
        ensures
            r.wf(),
            r.map() == self.map(),
    {
        let mut entries: Vec<(u64, Domain)> = Vec::new();
        let mut i: usize = 0;
        while i < self.entries.len()
            invariant
                0 <= i <= self.entries@.len(),
                self.wf(),
                entries@.len() == i,
                forall|j: int| 0 <= j < i ==> (#[trigger] entries@[j]).0 == self.entries@[j].0 && entries@[j].1.wf()
                    && entries@[j].1.weights() == self.entries@[j].1.weights(),
            decreases self.entries.len() - i,
        {
            entries.push((self.entries[i].0, self.entries[i].1.copy()));
            i += 1;
        }
        let r = Domains { entries };
        proof {
            assert forall|a: int, b: int| 0 <= a < b < r.entries@.len() implies r.entries@[a].0 != r.entries@[b].0 by {
                assert(self.entries@[a].0 != self.entries@[b].0);
            }
            assert forall|x: u64| #[trigger] r.has(x) == self.has(x) by {
                if r.has(x) {
                    let j = choose|j: int| 0 <= j < r.entries@.len() && #[trigger] r.entries@[j].0 == x;
                    assert(self.entries@[j].0 == x);
                }
                if self.has(x) {
                    let j = choose|j: int| 0 <= j < self.entries@.len() && #[trigger] self.entries@[j].0 == x;
                    assert(r.entries@[j].0 == x);
                }
            }
            assert forall|x: u64| r.has(x) implies r.map()[x] == self.map()[x] by {
                let j = choose|j: int| 0 <= j < r.entries@.len() && #[trigger] r.entries@[j].0 == x;
                r.lemma_at(j);
                self.lemma_at(j);
            }
            assert(r.map() =~= self.map());
        }
        r
    }
}

/// The value of a state.
pub struct StateV {
    pub live: Seq<ConstraintV>,
    pub bindings: Map<u64, TermV>,
    pub domains: Map<u64, Map<Seq<char>, u128>>,
    pub weight: u128,
}

/// One symbolic state of a phase.
pub struct State {
    pub(crate) live: Vec<Constraint>,
    pub(crate) bindings: Bindings,
    pub(crate) domains: Domains,
    pub(crate) weight: u128,
}

impl State {
    pub closed spec fn wf(&self) -> bool {
        self.bindings.wf() && self.domains.wf()
    }

    pub closed spec fn view_v(&self) -> StateV {
        StateV {
            live: constraints_v(self.live@),
            bindings: self.bindings.map(),
            domains: self.domains.map(),
            weight: self.weight,
        }
    }

    /// What the value and well-formedness of a state are made of.
    pub(crate) proof fn reveal_view(&self)
        ensures
            self.wf() == (self.bindings.wf() && self.domains.wf()),
            self.view_v() == (StateV {
                live: constraints_v(self.live@),
                bindings: self.bindings.map(),
                domains: self.domains.map(),
                weight: self.weight,
            }),
    {
    }

    /// A state with the same value.
    pub(crate) fn copy(&self) -> (r: State)
        requires
            self.wf(),
        ensures
            r.wf(),
            r.view_v() == self.view_v(),
    {
        State {
            live: copy_constraints(&self.live),
            bindings: self.bindings.copy(),
            domains: self.domains.copy(),
            weight: self.weight,
        }
    }
}

/// Choosing atom `value` for `v`: its domain goes, its weight multiplies the
/// state's, and `v` is bound to the atom.
pub open spec fn select_v(st: StateV, v: u64, value: Seq<char>) -> Result<StateV, Error> {
    let w = st.domains[v][value];
    if st.weight * w > u128::MAX {
        Err(Error::MultiplicityOverflow)
    } else {
        Ok(
            StateV {
                live: st.live,
                bindings: st.bindings.insert(v, TermV::App(value, Seq::empty())),
                domains: st.domains.remove(v),
                weight: (st.weight * w) as u128,
            },
        )
    }
}

/// Choose atom `value` for `v`.
fn select(st: &mut State, v: u64, value: &String) -> (r: Result<(), Error>)
    requires
        old(st).wf(),
        old(st).view_v().domains.contains_key(v),
        old(st).view_v().domains[v].contains_key(value@),
    ensures
        match select_v(old(st).view_v(), v, value@) {
            Ok(s) => r is Ok && final(st).wf() && final(st).view_v() == s,
            Err(e) => r == Err::<(), Error>(e),
        },
{
    let d = match st.domains.remove(v) {
        Some(d) => d,
        None => {
            return Err(Error::MultiplicityOverflow);
        },
    };
    let w = match d.get(value) {
        Some(w) => w,
        None => {
            return Err(Error::MultiplicityOverflow);
        },
    };
    match st.weight.checked_mul(w) {
        Some(x) => {
            st.weight = x;
        },
        None => {
            return Err(Error::MultiplicityOverflow);
        },
    }
    let atom = Term::App(value.clone(), Vec::new());
    proof {
        assert(term_v(atom)->App_1 =~= Seq::<TermV>::empty());
    }
    st.bindings.insert(v, atom);
    Ok(())
}

/// Every condition before `p` is on a lesser variable, and the one at `p`, if
/// any, is not.
pub open spec fn is_var_slot(cs: Seq<(u64, Seq<char>)>, v: u64, p: int) -> bool {
    &&& 0 <= p <= cs.len()
    &&& forall|j: int| 0 <= j < p ==> (#[trigger] cs[j]).0 < v
    &&& p < cs.len() ==> cs[p].0 >= v
}

/// Where the condition on `v` stands or would stand.
pub open spec fn var_slot(cs: Seq<(u64, Seq<char>)>, v: u64) -> int {
    choose|p: int| is_var_slot(cs, v, p)
}

proof fn lemma_var_slot(cs: Seq<(u64, Seq<char>)>, v: u64, p: int)
    requires
        is_var_slot(cs, v, p),
    ensures
        var_slot(cs, v) == p,
{
    let q = var_slot(cs, v);
    assert(is_var_slot(cs, v, q));
    if q < p {
        assert(cs[q].0 < v);
    } else if p < q {
        assert(cs[p].0 < v);
    }
}

/// Conditions as values.
pub open spec fn conds_v(cs: Seq<(u64, String)>) -> Seq<(u64, Seq<char>)> {
    cs.map_values(|c: (u64, String)| (c.0, c.1@))
}

/// Matching a head pattern against a resolved term: pattern variables are
/// bound, and an atom of the pattern met by a variable with a domain becomes
/// a condition that the variable takes that atom.
pub open spec fn pattern_v(
    p: TermV,
    t: TermV,
    domains: Map<u64, Map<Seq<char>, u128>>,
    env: Map<u64, TermV>,
    conds: Seq<(u64, Seq<char>)>,
) -> Option<(Map<u64, TermV>, Seq<(u64, Seq<char>)>)>
    decreases p, 0nat,
{
    match p {
        TermV::Var(v) => Some((env.insert(v, t), conds)),
        TermV::App(n, xs) => match t {
            TermV::Var(v) => if xs.len() != 0 || !(domains.contains_key(v) && domains[v].contains_key(n)) {
                None
            } else {
                let q = var_slot(conds, v);
                if q < conds.len() && conds[q].0 == v {
                    if conds[q].1 == n {
                        Some((env, conds))
                    } else {
                        None
                    }
                } else {
                    Some((env, conds.insert(q, (v, n))))
                }
            },
            TermV::App(m, ys) => if n != m || xs.len() != ys.len() {
                None
            } else {
                patterns_v(xs, ys, domains, env, conds)
            },
        },
    }
}

/// Matching patterns against terms one pair after another.
pub open spec fn patterns_v(
    xs: Seq<TermV>,
    ys: Seq<TermV>,
    domains: Map<u64, Map<Seq<char>, u128>>,
    env: Map<u64, TermV>,
    conds: Seq<(u64, Seq<char>)>,
) -> Option<(Map<u64, TermV>, Seq<(u64, Seq<char>)>)>
    decreases xs, 1nat,
{
    if xs.len() == 0 || ys.len() == 0 {
        Some((env, conds))
    } else {
        match patterns_v(xs.drop_last(), ys.drop_last(), domains, env, conds) {
            None => None,
            Some((e, c)) => pattern_v(xs.last(), ys.last(), domains, e, c),
        }
    }
}

proof fn lemma_patterns_prefix(
    xs: Seq<TermV>,
    ys: Seq<TermV>,
    j: int,
    domains: Map<u64, Map<Seq<char>, u128>>,
    env: Map<u64, TermV>,
    conds: Seq<(u64, Seq<char>)>,
)
    requires
        0 <= j <= xs.len(),
        xs.len() == ys.len(),
        patterns_v(xs.take(j), ys.take(j), domains, env, conds) is None,
    ensures
        patterns_v(xs, ys, domains, env, conds) is None,
    decreases xs.len() - j,
{
    if j < xs.len() {
        assert(xs.take(j + 1).drop_last() =~= xs.take(j));
        assert(ys.take(j + 1).drop_last() =~= ys.take(j));
        lemma_patterns_prefix(xs, ys, j + 1, domains, env, conds);
    } else {
        assert(xs.take(j) =~= xs);
        assert(ys.take(j) =~= ys);
    }
}

/// Match a head pattern against a resolved term.
fn pattern(p: &Term, t: &Term, domains: &Domains, env: &mut Bindings, conds: &mut Vec<(u64, String)>) -> (r: bool)
    requires
        old(env).wf(),
        domains.wf(),
    ensures
        match pattern_v(term_v(*p), term_v(*t), domains.map(), old(env).map(), conds_v(old(conds)@)) {
            Some((e, c)) => r && final(env).wf() && final(env).map() == e && conds_v(final(conds)@) == c,
            None => !r,
        },
    decreases p,
{
    match p {
        Term::Var(v) => {
            env.insert(v.0, copy_term(t));
            true
        },
        Term::App(n, xs) => match t {
            Term::Var(v) => {
                if xs.len() != 0 {
                    return false;
                }
                match domains.get(v.0) {
                    None => {
                        return false;
                    },
                    Some(d) => {
                        if d.get(n).is_none() {
                            return false;
                        }
                    },
                }
                let ghost cv = conds_v(conds@);
                let mut q: usize = 0;
                while q < conds.len() && conds[q].0 < v.0
                    invariant
                        0 <= q <= conds@.len(),
                        cv == conds_v(conds@),
                        forall|j: int| 0 <= j < q ==> (#[trigger] cv[j]).0 < v.0,
                    decreases conds.len() - q,
                {
                    q += 1;
                }
                proof {
                    assert(is_var_slot(cv, v.0, q as int));
                    lemma_var_slot(cv, v.0, q as int);
                }
                if q < conds.len() && conds[q].0 == v.0 {
                    conds[q].1 == *n
                } else {
                    conds.insert(q, (v.0, n.clone()));
                    proof {
                        assert(conds_v(conds@) =~= cv.insert(q as int, (v.0, n@)));
                    }
                    true
                }
            },
            Term::App(m, ys) => {
                if *n != *m || xs.len() != ys.len() {
                    return false;
                }
                let ghost pv = term_v(*p)->App_1;
                let ghost tv = term_v(*t)->App_1;
                let ghost env0 = old(env).map();
                let ghost c0 = conds_v(old(conds)@);
                let mut k: usize = 0;
                proof {
                    assert(pv.take(0) =~= Seq::<TermV>::empty());
                    assert(tv.take(0) =~= Seq::<TermV>::empty());
                }
                while k < xs.len()
                    invariant
                        *p == Term::App(*n, *xs),
                        *t == Term::App(*m, *ys),
                        n@ == m@,
                        env0 == old(env).map(),
                        c0 == conds_v(old(conds)@),
                        pv == term_v(*p)->App_1,
                        tv == term_v(*t)->App_1,
                        pv.len() == xs@.len(),
                        tv.len() == ys@.len(),
                        xs@.len() == ys@.len(),
                        domains.wf(),
                        env.wf(),
                        0 <= k <= xs@.len(),
                        patterns_v(pv.take(k as int), tv.take(k as int), domains.map(), env0, c0) == Some(
                            (env.map(), conds_v(conds@)),
                        ),
                    decreases xs.len() - k,
                {
                    proof {
                        assert(decreases_to!(*p => p->App_1));
                        assert(decreases_to!(*xs => xs[k as int]));
                        assert(pv[k as int] == term_v(xs@[k as int]));
                        assert(tv[k as int] == term_v(ys@[k as int]));
                        assert(pv.take(k + 1).drop_last() =~= pv.take(k as int));
                        assert(tv.take(k + 1).drop_last() =~= tv.take(k as int));
                        assert(pv.take(k + 1).last() == pv[k as int]);
                        assert(tv.take(k + 1).last() == tv[k as int]);
                    }
                    let ghost e_before = env.map();
                    let ghost c_before = conds_v(conds@);
                    if !pattern(&xs[k], &ys[k], domains, env, conds) {
                        proof {
                            assert(pattern_v(pv[k as int], tv[k as int], domains.map(), e_before, c_before) is None);
                            assert(patterns_v(pv.take(k + 1), tv.take(k + 1), domains.map(), env0, c0) is None);
                            lemma_patterns_prefix(pv, tv, k + 1, domains.map(), env0, c0);
                        }
                        return false;
                    }
                    k += 1;
                }
                proof {
                    assert(pv.take(k as int) =~= pv);
                    assert(tv.take(k as int) =~= tv);
                }
                true
            },
        },
    }
}

/// A body term with the rule's variables replaced by what they matched,
/// paying for every node visited.
pub open spec fn instantiate_v(t: TermV, env: Map<u64, TermV>, left: nat, depth: nat) -> Result<(TermV, nat), Error>
    decreases t, 0nat,
{
    match node_v(left, depth) {
        Err(e) => Err(e),
        Ok(l) => match t {
            TermV::Var(v) => resolve_v(env[v], Map::empty(), l, depth + 1),
            TermV::App(n, xs) => match instantiates_v(xs, env, l, depth + 1) {
                Err(e) => Err(e),
                Ok((ys, l2)) => Ok((TermV::App(n, ys), l2)),
            },
        },
    }
}

/// Instantiating terms one after another.
pub open spec fn instantiates_v(xs: Seq<TermV>, env: Map<u64, TermV>, left: nat, depth: nat) -> Result<(Seq<TermV>, nat), Error>
    decreases xs, 1nat,
{
    if xs.len() == 0 {
        Ok((Seq::empty(), left))
    } else {
        match instantiates_v(xs.drop_last(), env, left, depth) {
            Err(e) => Err(e),
            Ok((ys, l)) => match instantiate_v(xs.last(), env, l, depth) {
                Err(e) => Err(e),
                Ok((y, l2)) => Ok((ys.push(y), l2)),
            },
        }
    }
}

proof fn lemma_instantiates_prefix(xs: Seq<TermV>, j: int, env: Map<u64, TermV>, left: nat, depth: nat)
    requires
        0 <= j <= xs.len(),
        instantiates_v(xs.take(j), env, left, depth) is Err,
    ensures
        instantiates_v(xs, env, left, depth) == instantiates_v(xs.take(j), env, left, depth),
    decreases xs.len() - j,
{
    if j < xs.len() {
        assert(xs.take(j + 1).drop_last() =~= xs.take(j));
        lemma_instantiates_prefix(xs, j + 1, env, left, depth);
    } else {
        assert(xs.take(j) =~= xs);
    }
}

/// Instantiate a body term.
fn instantiate(t: &Term, env: &Bindings, budget: &mut Budget, depth: usize) -> (r: Result<Term, Error>)
    requires
        env.wf(),
        term_vars(term_v(*t)).subset_of(env.map().dom()),
    ensures
        match instantiate_v(term_v(*t), env.map(), old(budget).left as nat, depth as nat) {
            Ok((x, l)) => r matches Ok(y) && term_v(y) == x && final(budget).left == l,
            Err(e) => r == Err::<Term, Error>(e),
        },
    decreases t,
{
    budget.node(depth)?;
    match t {
        Term::Var(v) => {
            proof {
                assert(term_vars(term_v(*t)).contains(v.0));
            }
            let b = env.get(v.0).unwrap();
            let empty = Bindings::new();
            proof {
                assert(empty.map() == Map::<u64, TermV>::empty());
            }
            resolve(b, &empty, budget, depth + 1)
        },
        Term::App(n, xs) => {
            let ghost vs = term_v(*t)->App_1;
            let ghost start = (old(budget).left - 1) as nat;
            proof {
                assert(old(budget).left > 0 && depth <= MAX_DEPTH);
            }
            let mut out: Vec<Term> = Vec::new();
            let mut i: usize = 0;
            proof {
                assert(vs.take(0) =~= Seq::<TermV>::empty());
                assert(out@.map_values(|x: Term| term_v(x)) =~= Seq::<TermV>::empty());
            }
            while i < xs.len()
                invariant
                    *t == Term::App(*n, *xs),
                    vs == term_v(*t)->App_1,
                    vs.len() == xs@.len(),
                    env.wf(),
                    term_vars(term_v(*t)).subset_of(env.map().dom()),
                    depth <= MAX_DEPTH,
                    old(budget).left > 0,
                    start == (old(budget).left - 1) as nat,
                    0 <= i <= xs.len(),
                    instantiates_v(vs.take(i as int), env.map(), start, depth as nat + 1) == Ok::<(Seq<TermV>, nat), Error>(
                        (out@.map_values(|x: Term| term_v(x)), budget.left as nat),
                    ),
                decreases xs.len() - i,
            {
                proof {
                    assert(decreases_to!(*t => t->App_1));
                    assert(decreases_to!(*xs => xs[i as int]));
                    assert(vs[i as int] == term_v(xs@[i as int]));
                    assert(vs.take(i + 1).drop_last() =~= vs.take(i as int));
                    assert(vs.take(i + 1).last() == vs[i as int]);
                    lemma_terms_vars_index(vs, i as int);
                }
                let ghost o0 = out@;
                let ghost l0 = budget.left as nat;
                match instantiate(&xs[i], env, budget, depth + 1) {
                    Ok(y) => {
                        out.push(y);
                        proof {
                            assert(out@.map_values(|x: Term| term_v(x)) =~= o0.map_values(|x: Term| term_v(x)).push(term_v(y)));
                        }
                    },
                    Err(e) => {
                        proof {
                            assert(instantiate_v(vs[i as int], env.map(), l0, depth as nat + 1) == Err::<(TermV, nat), Error>(e));
                            assert(instantiates_v(vs.take(i + 1), env.map(), start, depth as nat + 1) == Err::<(Seq<TermV>, nat), Error>(e));
                            lemma_instantiates_prefix(vs, i + 1, env.map(), start, depth as nat + 1);
                            assert(node_v(old(budget).left as nat, depth as nat) == Ok::<nat, Error>(start));
                        }
                        return Err(e);
                    },
                }
                i += 1;
            }
            proof {
                assert(vs.take(i as int) =~= vs);
            }
            let r = Term::App(n.clone(), out);
            proof {
                assert(term_v(r)->App_1 =~= out@.map_values(|x: Term| term_v(x)));
            }
            Ok(r)
        },
    }
}

/// Instantiate the arguments of a body constraint.
fn instantiate_all(xs: &Vec<Term>, env: &Bindings, budget: &mut Budget) -> (r: Result<Vec<Term>, Error>)
    requires
        env.wf(),
        terms_vars(xs@.map_values(|x: Term| term_v(x))).subset_of(env.map().dom()),
    ensures
        match instantiates_v(xs@.map_values(|x: Term| term_v(x)), env.map(), old(budget).left as nat, 0) {
            Ok((ys, l)) => r matches Ok(out) && out@.map_values(|x: Term| term_v(x)) == ys && final(budget).left == l,
            Err(e) => r == Err::<Vec<Term>, Error>(e),
        },
{
    let ghost vs = xs@.map_values(|x: Term| term_v(x));
    let ghost start = old(budget).left as nat;
    let mut out: Vec<Term> = Vec::new();
    let mut i: usize = 0;
    proof {
        assert(vs.take(0) =~= Seq::<TermV>::empty());
        assert(out@.map_values(|x: Term| term_v(x)) =~= Seq::<TermV>::empty());
    }
    while i < xs.len()
        invariant
            vs == xs@.map_values(|x: Term| term_v(x)),
            env.wf(),
            terms_vars(vs).subset_of(env.map().dom()),
            start == old(budget).left as nat,
            0 <= i <= xs.len(),
            instantiates_v(vs.take(i as int), env.map(), start, 0) == Ok::<(Seq<TermV>, nat), Error>(
                (out@.map_values(|x: Term| term_v(x)), budget.left as nat),
            ),
        decreases xs.len() - i,
    {
        proof {
            assert(vs[i as int] == term_v(xs@[i as int]));
            assert(vs.take(i + 1).drop_last() =~= vs.take(i as int));
            assert(vs.take(i + 1).last() == vs[i as int]);
            lemma_terms_vars_index(vs, i as int);
        }
        let ghost o0 = out@;
        let ghost l0 = budget.left as nat;
        match instantiate(&xs[i], env, budget, 0) {
            Ok(y) => {
                out.push(y);
                proof {
                    assert(out@.map_values(|x: Term| term_v(x)) =~= o0.map_values(|x: Term| term_v(x)).push(term_v(y)));
                }
            },
            Err(e) => {
                proof {
                    assert(instantiate_v(vs[i as int], env.map(), l0, 0) == Err::<(TermV, nat), Error>(e));
                    assert(instantiates_v(vs.take(i + 1), env.map(), start, 0) == Err::<(Seq<TermV>, nat), Error>(e));
                    lemma_instantiates_prefix(vs, i + 1, env.map(), start, 0);
                }
                return Err(e);
            },
        }
        i += 1;
    }
    proof {
        assert(vs.take(i as int) =~= vs);
    }
    Ok(out)
}

/// The atoms two domains share, each weighted by the product of its weights.
pub open spec fn meet_v(a: Map<Seq<char>, u128>, b: Map<Seq<char>, u128>) -> Map<Seq<char>, u128> {
    Map::new(|v: Seq<char>| a.contains_key(v) && b.contains_key(v), |v: Seq<char>| (a[v] * b[v]) as u128)
}

/// Equating variable `v` with the term `t` that is not a variable: a variable
/// with a domain must take an atom of it; one without is bound to `t` unless
/// it occurs in `t`. `None` when they cannot be equal.
pub open spec fn bind_step(st: StateV, v: u64, t: TermV) -> Result<Option<StateV>, Error> {
    if st.domains.contains_key(v) {
        match t {
            TermV::App(n, xs) => if xs.len() == 0 && st.domains[v].contains_key(n) {
                match select_v(st, v, n) {
                    Err(e) => Err(e),
                    Ok(s) => Ok(Some(s)),
                }
            } else {
                Ok(None)
            },
            _ => Ok(None),
        }
    } else if term_vars(t).contains(v) {
        Ok(None)
    } else {
        Ok(Some(StateV { live: st.live, bindings: st.bindings.insert(v, t), domains: st.domains, weight: st.weight }))
    }
}

/// Equating two variables: the second is bound to the first, which keeps the
/// meet of their domains. `None` when the meet is empty.
pub open spec fn alias_step(st: StateV, x: u64, y: u64) -> Result<Option<StateV>, Error> {
    let bnd = st.bindings.insert(y, TermV::Var(x));
    let rest = st.domains.remove(x).remove(y);
    if st.domains.contains_key(x) && st.domains.contains_key(y) {
        if product_overflows(st.domains[x], st.domains[y]) {
            Err(Error::MultiplicityOverflow)
        } else if meet_v(st.domains[x], st.domains[y]).len() == 0 {
            Ok(None)
        } else {
            Ok(
                Some(
                    StateV {
                        live: st.live,
                        bindings: bnd,
                        domains: rest.insert(x, meet_v(st.domains[x], st.domains[y])),
                        weight: st.weight,
                    },
                ),
            )
        }
    } else if st.domains.contains_key(x) {
        Ok(Some(StateV { live: st.live, bindings: bnd, domains: rest.insert(x, st.domains[x]), weight: st.weight }))
    } else if st.domains.contains_key(y) {
        Ok(Some(StateV { live: st.live, bindings: bnd, domains: rest.insert(x, st.domains[y]), weight: st.weight }))
    } else {
        Ok(Some(StateV { live: st.live, bindings: bnd, domains: st.domains, weight: st.weight }))
    }
}

/// Equating two variables that both have domains keeps, for the first, exactly
/// the atoms both could take, each with the product of its two multiplicities,
/// drops the second's domain and binds it to the first; where they share no
/// atom the state has no solution.
pub proof fn lemma_alias_meets(st: StateV, x: u64, y: u64)
    requires
        x != y,
        st.domains.contains_key(x),
        st.domains.contains_key(y),
    ensures
        alias_step(st, x, y) matches Ok(Some(s)) ==> {
            &&& s.domains.contains_key(x)
            &&& s.domains[x].dom() == st.domains[x].dom().intersect(st.domains[y].dom())
            &&& forall|v: Seq<char>| #[trigger] s.domains[x].contains_key(v) ==> s.domains[x][v] == st.domains[x][v] * st.domains[y][v]
            &&& !s.domains.contains_key(y)
            &&& s.bindings[y] == TermV::Var(x)
        },
        st.domains[x].dom().intersect(st.domains[y].dom()) == Set::<Seq<char>>::empty() ==> !(alias_step(st, x, y) matches Ok(
            Some(_),
        )),
{
    let m = meet_v(st.domains[x], st.domains[y]);
    assert(m.dom() =~= st.domains[x].dom().intersect(st.domains[y].dom()));
    if st.domains[x].dom().intersect(st.domains[y].dom()) == Set::<Seq<char>>::empty() {
        assert(m.len() == 0) by {
            assert(m.dom() =~= Set::<Seq<char>>::empty());
        }
    }
    if let Ok(Some(s)) = alias_step(st, x, y) {
        assert forall|v: Seq<char>| #[trigger] s.domains[x].contains_key(v) implies s.domains[x][v] == st.domains[x][v]
            * st.domains[y][v] by {
            assert(!product_overflows(st.domains[x], st.domains[y]));
            assert(st.domains[x][v] * st.domains[y][v] <= u128::MAX);
        }
    }
}

/// One equation taken from the end of the pending ones, after both sides are
/// resolved: what remains to be equated and the state, `None` when the sides
/// cannot be equal.
pub open spec fn equate_step(st: StateV, a: TermV, b: TermV, rest: Seq<(TermV, TermV)>) -> Result<Option<(StateV, Seq<(TermV, TermV)>)>, Error> {
    if a == b {
        Ok(Some((st, rest)))
    } else {
        match (a, b) {
            (TermV::Var(x), TermV::Var(y)) => match alias_step(st, x, y) {
                Err(e) => Err(e),
                Ok(None) => Ok(None),
                Ok(Some(s)) => Ok(Some((s, rest))),
            },
            (TermV::Var(v), t) => match bind_step(st, v, t) {
                Err(e) => Err(e),
                Ok(None) => Ok(None),
                Ok(Some(s)) => Ok(Some((s, rest))),
            },
            (t, TermV::Var(v)) => match bind_step(st, v, t) {
                Err(e) => Err(e),
                Ok(None) => Ok(None),
                Ok(Some(s)) => Ok(Some((s, rest))),
            },
            (TermV::App(an, ax), TermV::App(bn, bx)) => if an != bn || ax.len() != bx.len() {
                Ok(None)
            } else {
                Ok(Some((st, rest + Seq::new(ax.len(), |i: int| (ax[i], bx[i])))))
            },
        }
    }
}

/// Equating pending pairs of terms, newest first: the resulting state, `None`
/// when some pair cannot be equal, and what is left of the budget.
pub open spec fn unify_v(st: StateV, pending: Seq<(TermV, TermV)>, left: nat) -> Result<(Option<StateV>, nat), Error>
    decreases left,
{
    if pending.len() == 0 {
        Ok((Some(st), left))
    } else {
        let a = pending.last().0;
        let b = pending.last().1;
        match resolve_v(a, st.bindings, left, 0) {
            Err(e) => Err(e),
            Ok((a2, l1)) => match resolve_v(b, st.bindings, l1, 0) {
                Err(e) => Err(e),
                Ok((b2, l2)) => {
                    proof {
                        lemma_resolve_pays(a, st.bindings, left, 0);
                        lemma_resolve_pays(b, st.bindings, l1, 0);
                    }
                    match equate_step(st, a2, b2, pending.drop_last()) {
                        Err(e) => Err(e),
                        Ok(None) => Ok((None, l2)),
                        Ok(Some((s, p))) => unify_v(s, p, l2),
                    }
                },
            },
        }
    }
}

/// Equate two distinct variables.
fn alias(st: &mut State, x: u64, y: u64) -> (r: Result<bool, Error>)
    requires
        old(st).wf(),
        x != y,
    ensures
        match alias_step(old(st).view_v(), x, y) {
            Ok(Some(s)) => r == Ok::<bool, Error>(true) && final(st).wf() && final(st).view_v() == s,
            Ok(None) => r == Ok::<bool, Error>(false),
            Err(e) => r == Err::<bool, Error>(e),
        },
{
    let ghost s0 = st.view_v();
    let dx = st.domains.remove(x);
    let dy = st.domains.remove(y);
    proof {
        assert(st.domains.map() == s0.domains.remove(x).remove(y));
    }
    match (dx, dy) {
        (Some(a), Some(b)) => {
            let d = intersection(&a, &b)?;
            proof {
                assert(d.weights() =~= meet_v(a.weights(), b.weights()));
            }
            if d.len() == 0 {
                return Ok(false);
            }
            st.domains.insert(x, d);
        },
        (Some(d), None) => {
            st.domains.insert(x, d);
        },
        (None, Some(d)) => {
            st.domains.insert(x, d);
        },
        (None, None) => {},
    }
    st.bindings.insert(y, Term::Var(Var(x)));
    proof {
        assert(st.view_v().live == s0.live);
        if !s0.domains.contains_key(x) && !s0.domains.contains_key(y) {
            assert(st.domains.map() =~= s0.domains);
        }
    }
    Ok(true)
}

/// Equate variable `v` with a term that is not a variable.
fn bind(st: &mut State, v: u64, t: Term) -> (r: Result<bool, Error>)
    requires
        old(st).wf(),
        !(t is Var),
    ensures
        match bind_step(old(st).view_v(), v, term_v(t)) {
            Ok(Some(s)) => r == Ok::<bool, Error>(true) && final(st).wf() && final(st).view_v() == s,
            Ok(None) => r == Ok::<bool, Error>(false),
            Err(e) => r == Err::<bool, Error>(e),
        },
{
    let takes = match st.domains.get(v) {
        Some(d) => Some(
            match &t {
                Term::App(n, xs) => xs.len() == 0 && d.get(n).is_some(),
                _ => false,
            },
        ),
        None => None,
    };
    match takes {
        Some(true) => match &t {
            Term::App(n, _) => {
                select(st, v, n)?;
                Ok(true)
            },
            _ => Ok(false),
        },
        Some(false) => Ok(false),
        None => {
            let mut vars = VarSet::new();
            term_vars_into(&t, &mut vars);
            if vars.contains(v) {
                return Ok(false);
            }
            st.bindings.insert(v, t);
            Ok(true)
        },
    }
}

/// Pending pairs of terms, as values.
pub open spec fn pairs_tv(p: Seq<(Term, Term)>) -> Seq<(TermV, TermV)> {
    p.map_values(|e: (Term, Term)| (term_v(e.0), term_v(e.1)))
}

/// Equate two terms in a state.
fn unify(st: &mut State, a: Term, b: Term, budget: &mut Budget) -> (r: Result<bool, Error>)
    requires
        old(st).wf(),
    ensures
        match unify_v(old(st).view_v(), seq![(term_v(a), term_v(b))], old(budget).left as nat) {
            Ok((Some(s), l)) => r == Ok::<bool, Error>(true) && final(st).wf() && final(st).view_v() == s && final(budget).left
                == l,
            Ok((None, l)) => r == Ok::<bool, Error>(false) && final(budget).left == l,
            Err(e) => r == Err::<bool, Error>(e),
        },
{
    let ghost target = unify_v(st.view_v(), seq![(term_v(a), term_v(b))], budget.left as nat);
    let ghost av = term_v(a);
    let ghost bv = term_v(b);
    let mut pending: Vec<(Term, Term)> = Vec::new();
    pending.push((a, b));
    proof {
        assert(pairs_tv(pending@) =~= seq![(term_v(a), term_v(b))]);
    }
    while pending.len() > 0
        invariant
            st.wf(),
            unify_v(st.view_v(), pairs_tv(pending@), budget.left as nat) == target,
            target == unify_v(old(st).view_v(), seq![(av, bv)], old(budget).left as nat),
            av == term_v(a),
            bv == term_v(b),
        decreases budget.left,
    {
        let ghost s0 = st.view_v();
        let ghost p0 = pairs_tv(pending@);
        let ghost left0 = budget.left as nat;
        let (pa, pb) = pending.pop().unwrap();
        let ghost rest = pairs_tv(pending@);
        proof {
            assert(rest =~= p0.drop_last());
            assert(p0.last() == (term_v(pa), term_v(pb)));
        }
        let a2 = match resolve(&pa, &st.bindings, budget, 0) {
            Ok(x) => x,
            Err(e) => {
                proof {
                    assert(unify_v(s0, p0, left0) == Err::<(Option<StateV>, nat), Error>(e));
                }
                return Err(e);
            },
        };
        let ghost l1 = budget.left as nat;
        let b2 = match resolve(&pb, &st.bindings, budget, 0) {
            Ok(x) => x,
            Err(e) => {
                proof {
                    assert(unify_v(s0, p0, left0) == Err::<(Option<StateV>, nat), Error>(e));
                }
                return Err(e);
            },
        };
        proof {
            lemma_resolve_pays(term_v(pa), s0.bindings, left0, 0);
            lemma_resolve_pays(term_v(pb), s0.bindings, l1, 0);
            lemma_term_order(term_v(a2), term_v(b2));
            assert(unify_v(s0, p0, left0) == match equate_step(s0, term_v(a2), term_v(b2), rest) {
                Err(e) => Err(e),
                Ok(None) => Ok((None, budget.left as nat)),
                Ok(Some((s, p))) => unify_v(s, p, budget.left as nat),
            });
        }
        let ghost a2v = term_v(a2);
        let ghost b2v = term_v(b2);
        if compare_term(&a2, &b2) == Order::Equal {
            continue;
        }
        match (a2, b2) {
            (Term::Var(x), Term::Var(y)) => {
                if !alias(st, x.0, y.0)? {
                    return Ok(false);
                }
            },
            (Term::Var(v), t) => {
                if !bind(st, v.0, t)? {
                    return Ok(false);
                }
            },
            (t, Term::Var(v)) => {
                if !bind(st, v.0, t)? {
                    return Ok(false);
                }
            },
            (Term::App(an, ax), Term::App(bn, bx)) => {
                if an != bn || ax.len() != bx.len() {
                    return Ok(false);
                }
                let ghost axv = ax@.map_values(|x: Term| term_v(x));
                let ghost bxv = bx@.map_values(|x: Term| term_v(x));
                let mut i: usize = 0;
                while i < ax.len()
                    invariant
                        0 <= i <= ax@.len(),
                        ax@.len() == bx@.len(),
                        axv == ax@.map_values(|x: Term| term_v(x)),
                        bxv == bx@.map_values(|x: Term| term_v(x)),
                        pairs_tv(pending@) == rest + Seq::new(i as nat, |j: int| (axv[j], bxv[j])),
                    decreases ax.len() - i,
                {
                    let ghost before = pending@;
                    pending.push((copy_term(&ax[i]), copy_term(&bx[i])));
                    proof {
                        assert(pairs_tv(pending@) =~= pairs_tv(before).push((axv[i as int], bxv[i as int])));
                        assert(pairs_tv(pending@) =~= rest + Seq::new((i + 1) as nat, |j: int| (axv[j], bxv[j])));
                    }
                    i += 1;
                }
                proof {
                    assert(a2v->App_1 =~= axv);
                    assert(b2v->App_1 =~= bxv);
                    assert(equate_step(s0, a2v, b2v, rest) == Ok::<Option<(StateV, Seq<(TermV, TermV)>)>, Error>(
                        Some((s0, rest + Seq::new(axv.len(), |j: int| (axv[j], bxv[j])))),
                    ));
                    assert(pairs_tv(pending@) =~= rest + Seq::new(axv.len(), |j: int| (axv[j], bxv[j])));
                }
            },
        }
    }
    Ok(true)
}

/// A deterministic body: no alternatives, and no variable outside `vars`.
pub open spec fn det_body(g: GoalV, vars: Set<u64>) -> bool
    decreases g,
{
    match g {
        GoalV::Constraint(c) => terms_vars(c.args).subset_of(vars),
        GoalV::Unify(a, b) => term_vars(a).subset_of(vars) && term_vars(b).subset_of(vars),
        GoalV::And(gs) => forall|i: int| 0 <= i < gs.len() ==> det_body(#[trigger] gs[i], vars),
        GoalV::Or(_, _) => false,
        _ => true,
    }
}

/// Running a rule body in a state: the resulting state, `None` when the
/// body fails, and what is left of the budget.
pub open spec fn body_v(st: StateV, g: GoalV, env: Map<u64, TermV>, left: nat) -> Result<(Option<StateV>, nat), Error>
    decreases g, 0nat,
{
    match g {
        GoalV::True => Ok((Some(st), left)),
        GoalV::Fail => Ok((None, left)),
        GoalV::Unify(a, b) => match instantiate_v(a, env, left, 0) {
            Err(e) => Err(e),
            Ok((a2, l1)) => match instantiate_v(b, env, l1, 0) {
                Err(e) => Err(e),
                Ok((b2, l2)) => unify_v(st, seq![(a2, b2)], l2),
            },
        },
        GoalV::Constraint(c) => match instantiates_v(c.args, env, left, 0) {
            Err(e) => Err(e),
            Ok((args, l)) => Ok(
                (
                    Some(
                        StateV {
                            live: st.live.push(ConstraintV { name: c.name, args }),
                            bindings: st.bindings,
                            domains: st.domains,
                            weight: st.weight,
                        },
                    ),
                    l,
                ),
            ),
        },
        GoalV::And(gs) => bodies_v(st, gs, env, left),
        GoalV::Or(_, _) => Ok((None, left)),
    }
}

/// Running goals one after another until one fails.
pub open spec fn bodies_v(st: StateV, gs: Seq<GoalV>, env: Map<u64, TermV>, left: nat) -> Result<(Option<StateV>, nat), Error>
    decreases gs, 1nat,
{
    if gs.len() == 0 {
        Ok((Some(st), left))
    } else {
        match bodies_v(st, gs.drop_last(), env, left) {
            Err(e) => Err(e),
            Ok((None, l)) => Ok((None, l)),
            Ok((Some(s), l)) => body_v(s, gs.last(), env, l),
        }
    }
}

proof fn lemma_bodies_prefix(st: StateV, gs: Seq<GoalV>, j: int, env: Map<u64, TermV>, left: nat)
    requires
        0 <= j <= gs.len(),
        !(bodies_v(st, gs.take(j), env, left) matches Ok((Some(_), _))),
    ensures
        bodies_v(st, gs, env, left) == bodies_v(st, gs.take(j), env, left),
    decreases gs.len() - j,
{
    if j < gs.len() {
        assert(gs.take(j + 1).drop_last() =~= gs.take(j));
        lemma_bodies_prefix(st, gs, j + 1, env, left);
    } else {
        assert(gs.take(j) =~= gs);
    }
}

/// Run a rule body in a state.
fn body(st: &mut State, g: &Goal, env: &Bindings, budget: &mut Budget) -> (r: Result<bool, Error>)
    requires
        old(st).wf(),
        env.wf(),
        det_body(goal_v(*g), env.map().dom()),
    ensures
        match body_v(old(st).view_v(), goal_v(*g), env.map(), old(budget).left as nat) {
            Ok((Some(s), l)) => r == Ok::<bool, Error>(true) && final(st).wf() && final(st).view_v() == s && final(budget).left
                == l,
            Ok((None, l)) => r == Ok::<bool, Error>(false) && final(budget).left == l,
            Err(e) => r == Err::<bool, Error>(e),
        },
    decreases g,
{
    match g {
        Goal::True => Ok(true),
        Goal::Fail => Ok(false),
        Goal::Unify(a, b) => {
            let a2 = instantiate(a, env, budget, 0)?;
            let b2 = instantiate(b, env, budget, 0)?;
            unify(st, a2, b2, budget)
        },
        Goal::Constraint(c) => {
            let args = instantiate_all(&c.args, env, budget)?;
            let ghost before = st.live@;
            let ghost argsv = args@.map_values(|x: Term| term_v(x));
            st.live.push(Constraint { name: c.name.clone(), args });
            proof {
                assert(constraints_v(st.live@) =~= constraints_v(before).push(ConstraintV { name: c.name@, args: argsv }));
            }
            Ok(true)
        },
        Goal::And(gs) => {
            let ghost vs = goal_v(*g)->And_0;
            let ghost env_m = env.map();
            let ghost s0 = old(st).view_v();
            let ghost l0 = old(budget).left as nat;
            let mut i: usize = 0;
            proof {
                assert(vs.take(0) =~= Seq::<GoalV>::empty());
            }
            while i < gs.len()
                invariant
                    *g == Goal::And(*gs),
                    vs == goal_v(*g)->And_0,
                    vs.len() == gs@.len(),
                    env.wf(),
                    env_m == env.map(),
                    det_body(goal_v(*g), env.map().dom()),
                    st.wf(),
                    0 <= i <= gs.len(),
                    s0 == old(st).view_v(),
                    l0 == old(budget).left as nat,
                    bodies_v(s0, vs.take(i as int), env_m, l0) == Ok::<(Option<StateV>, nat), Error>(
                        (Some(st.view_v()), budget.left as nat),
                    ),
                decreases gs.len() - i,
            {
                proof {
                    assert(decreases_to!(*g => g->And_0));
                    assert(decreases_to!(*gs => gs[i as int]));
                    assert(vs[i as int] == goal_v(gs@[i as int]));
                    assert(det_body(vs[i as int], env.map().dom()));
                    assert(vs.take(i + 1).drop_last() =~= vs.take(i as int));
                    assert(vs.take(i + 1).last() == vs[i as int]);
                }
                let ghost si = st.view_v();
                let ghost li = budget.left as nat;
                match body(st, &gs[i], env, budget) {
                    Ok(true) => {},
                    Ok(false) => {
                        proof {
                            assert(body_v(si, vs[i as int], env_m, li) matches Ok((None, _)));
                            lemma_bodies_prefix(s0, vs, i + 1, env_m, l0);
                        }
                        return Ok(false);
                    },
                    Err(e) => {
                        proof {
                            lemma_bodies_prefix(s0, vs, i + 1, env_m, l0);
                        }
                        return Err(e);
                    },
                }
                i += 1;
            }
            proof {
                assert(vs.take(i as int) =~= vs);
            }
            Ok(true)
        },
        Goal::Or(_, _) => Ok(false),
    }
}

/// Conditions on distinct variables in ascending order, each naming an atom
/// of its variable's domain.
pub open spec fn conds_ok(cs: Seq<(u64, Seq<char>)>, domains: Map<u64, Map<Seq<char>, u128>>) -> bool {
    &&& forall|i: int, j: int| 0 <= i < j < cs.len() ==> cs[i].0 < cs[j].0
    &&& forall|i: int| 0 <= i < cs.len() ==> domains.contains_key((#[trigger] cs[i]).0) && domains[cs[i].0].contains_key(cs[i].1)
}

/// A successful match binds every variable of the pattern and keeps the
/// conditions well formed.
proof fn lemma_pattern(
    p: TermV,
    t: TermV,
    domains: Map<u64, Map<Seq<char>, u128>>,
    env: Map<u64, TermV>,
    conds: Seq<(u64, Seq<char>)>,
)
    requires
        conds_ok(conds, domains),
    ensures
        pattern_v(p, t, domains, env, conds) matches Some((e2, c2)) ==> env.dom().subset_of(e2.dom())
            && term_vars(p).subset_of(e2.dom()) && conds_ok(c2, domains),
    decreases p, 0nat,
{
    match p {
        TermV::Var(v) => {},
        TermV::App(n, xs) => match t {
            TermV::Var(v) => {
                if !(xs.len() != 0 || !(domains.contains_key(v) && domains[v].contains_key(n))) {
                    let q = var_slot(conds, v);
                    if !(q < conds.len() && conds[q].0 == v) {
                        assert(is_var_slot(conds, v, q)) by {
                            let w = choose|w: int| is_var_slot(conds, v, w);
                            assert(exists|w: int| is_var_slot(conds, v, w)) by {
                                lemma_var_slot_exists(conds, v);
                            }
                        }
                        let c2 = conds.insert(q, (v, n));
                        assert forall|i: int, j: int| 0 <= i < j < c2.len() implies c2[i].0 < c2[j].0 by {
                            if j < q {
                                assert(c2[i] == conds[i] && c2[j] == conds[j]);
                            } else if j == q {
                                assert(c2[i] == conds[i]);
                            } else if i == q {
                                assert(c2[j] == conds[j - 1]);
                                if j - 1 > q {
                                    assert(conds[q].0 < conds[j - 1].0);
                                }
                            } else if i < q {
                                assert(c2[i] == conds[i] && c2[j] == conds[j - 1]);
                            } else {
                                assert(c2[i] == conds[i - 1] && c2[j] == conds[j - 1]);
                            }
                        }
                        assert forall|i: int| 0 <= i < c2.len() implies domains.contains_key((#[trigger] c2[i]).0)
                            && domains[c2[i].0].contains_key(c2[i].1) by {
                            if i < q {
                                assert(c2[i] == conds[i]);
                            } else if i > q {
                                assert(c2[i] == conds[i - 1]);
                            }
                        }
                    }
                }
            },
            TermV::App(m, ys) => {
                if !(n != m || xs.len() != ys.len()) {
                    lemma_patterns(xs, ys, domains, env, conds);
                }
            },
        },
    }
}

proof fn lemma_patterns(
    xs: Seq<TermV>,
    ys: Seq<TermV>,
    domains: Map<u64, Map<Seq<char>, u128>>,
    env: Map<u64, TermV>,
    conds: Seq<(u64, Seq<char>)>,
)
    requires
        conds_ok(conds, domains),
        xs.len() == ys.len(),
    ensures
        patterns_v(xs, ys, domains, env, conds) matches Some((e2, c2)) ==> env.dom().subset_of(e2.dom())
            && terms_vars(xs).subset_of(e2.dom()) && conds_ok(c2, domains),
    decreases xs, 1nat,
{
    if xs.len() > 0 {
        lemma_patterns(xs.drop_last(), ys.drop_last(), domains, env, conds);
        if let Some((e, c)) = patterns_v(xs.drop_last(), ys.drop_last(), domains, env, conds) {
            lemma_pattern(xs.last(), ys.last(), domains, e, c);
        }
    }
}

proof fn lemma_var_slot_exists(cs: Seq<(u64, Seq<char>)>, v: u64)
    ensures
        exists|p: int| is_var_slot(cs, v, p),
    decreases cs.len(),
{
    if cs.len() == 0 {
        assert(is_var_slot(cs, v, 0));
    } else {
        let d = cs.drop_last();
        lemma_var_slot_exists(d, v);
        let p = choose|p: int| is_var_slot(d, v, p);
        assert forall|j: int| 0 <= j < p implies (#[trigger] cs[j]).0 < v by {
            assert(d[j] == cs[j]);
            assert(d[j].0 < v);
        }
        if p < cs.len() - 1 {
            assert(d[p] == cs[p]);
            assert(is_var_slot(cs, v, p));
        } else if cs.last().0 < v {
            assert forall|j: int| 0 <= j < cs.len() implies (#[trigger] cs[j]).0 < v by {
                if j < p {
                    assert(d[j] == cs[j]);
                }
            }
            assert(is_var_slot(cs, v, cs.len() as int));
        } else {
            assert(is_var_slot(cs, v, p));
        }
    }
}

/// What firing a rule needs: which rule, which live constraint, the rule's
/// variables bound by the match, and the conditions on domains it needs.
pub struct FoundV {
    pub rule: int,
    pub index: int,
    pub env: Map<u64, TermV>,
    pub conds: Seq<(u64, Seq<char>)>,
}

/// Matching head patterns against a live constraint's arguments from the
/// `k`-th on, resolving each argument first.
pub open spec fn match_v(
    ps: Seq<TermV>,
    ts: Seq<TermV>,
    st: StateV,
    k: int,
    env: Map<u64, TermV>,
    conds: Seq<(u64, Seq<char>)>,
    left: nat,
) -> Result<(Option<(Map<u64, TermV>, Seq<(u64, Seq<char>)>)>, nat), Error>
    decreases ps.len() - k,
{
    if k < 0 || k >= ps.len() || k >= ts.len() {
        Ok((Some((env, conds)), left))
    } else {
        match resolve_v(ts[k], st.bindings, left, 0) {
            Err(e) => Err(e),
            Ok((t2, l)) => match pattern_v(ps[k], t2, st.domains, env, conds) {
                None => Ok((None, l)),
                Some((e2, c2)) => match_v(ps, ts, st, k + 1, e2, c2, l),
            },
        }
    }
}

/// The first rule, and for it the first live constraint, that matches.
pub open spec fn find_v(rules: Seq<RuleV>, st: StateV, ri: int, li: int, left: nat) -> Result<(Option<FoundV>, nat), Error>
    decreases rules.len() - ri, st.live.len() - li,
{
    if ri < 0 || ri >= rules.len() {
        Ok((None, left))
    } else if li < 0 || li >= st.live.len() {
        find_v(rules, st, ri + 1, 0, left)
    } else if key_v(st.live[li]) != key_v(rules[ri].removed[0]) {
        find_v(rules, st, ri, li + 1, left)
    } else {
        match match_v(rules[ri].removed[0].args, st.live[li].args, st, 0, Map::empty(), Seq::empty(), left) {
            Err(e) => Err(e),
            Ok((Some((env, conds)), l)) => Ok((Some(FoundV { rule: ri, index: li, env, conds }), l)),
            Ok((None, l)) => find_v(rules, st, ri, li + 1, l),
        }
    }
}

proof fn lemma_match(
    ps: Seq<TermV>,
    ts: Seq<TermV>,
    st: StateV,
    k: int,
    env: Map<u64, TermV>,
    conds: Seq<(u64, Seq<char>)>,
    left: nat,
)
    requires
        0 <= k <= ps.len(),
        ps.len() == ts.len(),
        conds_ok(conds, st.domains),
        terms_vars(ps.take(k)).subset_of(env.dom()),
    ensures
        match_v(ps, ts, st, k, env, conds, left) matches Ok((Some((e2, c2)), _)) ==> terms_vars(ps).subset_of(e2.dom())
            && conds_ok(c2, st.domains),
    decreases ps.len() - k,
{
    if k < ps.len() {
        if let Ok((t2, l)) = resolve_v(ts[k], st.bindings, left, 0) {
            lemma_pattern(ps[k], t2, st.domains, env, conds);
            if let Some((e2, c2)) = pattern_v(ps[k], t2, st.domains, env, conds) {
                assert(ps.take(k + 1).drop_last() =~= ps.take(k));
                assert(ps.take(k + 1).last() == ps[k]);
                lemma_match(ps, ts, st, k + 1, e2, c2, l);
            }
        }
    } else {
        assert(ps.take(k) =~= ps);
    }
}

/// Match a head's argument patterns against a live constraint's arguments.
fn match_args(ps: &Vec<Term>, ts: &Vec<Term>, st: &State, budget: &mut Budget) -> (r: Result<Option<(Bindings, Vec<(u64, String)>)>, Error>)
    requires
        st.wf(),
        ps@.len() == ts@.len(),
    ensures
        match match_v(
            ps@.map_values(|x: Term| term_v(x)),
            ts@.map_values(|x: Term| term_v(x)),
            st.view_v(),
            0,
            Map::empty(),
            Seq::empty(),
            old(budget).left as nat,
        ) {
            Ok((Some((e, c)), l)) => r matches Ok(Some((env, conds))) && env.wf() && env.map() == e && conds_v(conds@) == c
                && final(budget).left == l,
            Ok((None, l)) => r matches Ok(None) && final(budget).left == l,
            Err(e) => r matches Err(e2) && e2 == e,
        },
{
    let ghost pv = ps@.map_values(|x: Term| term_v(x));
    let ghost tv = ts@.map_values(|x: Term| term_v(x));
    let ghost sv = st.view_v();
    let ghost target = match_v(pv, tv, sv, 0, Map::empty(), Seq::empty(), budget.left as nat);
    let mut env = Bindings::new();
    let mut conds: Vec<(u64, String)> = Vec::new();
    proof {
        assert(conds_v(conds@) =~= Seq::<(u64, Seq<char>)>::empty());
    }
    let mut k: usize = 0;
    while k < ps.len()
        invariant
            0 <= k <= ps@.len(),
            ps@.len() == ts@.len(),
            pv == ps@.map_values(|x: Term| term_v(x)),
            tv == ts@.map_values(|x: Term| term_v(x)),
            st.wf(),
            sv == st.view_v(),
            env.wf(),
            match_v(pv, tv, sv, k as int, env.map(), conds_v(conds@), budget.left as nat) == target,
            target == match_v(pv, tv, sv, 0, Map::empty(), Seq::empty(), old(budget).left as nat),
        decreases ps.len() - k,
    {
        proof {
            assert(tv[k as int] == term_v(ts@[k as int]));
            assert(pv[k as int] == term_v(ps@[k as int]));
        }
        let t2 = match resolve(&ts[k], &st.bindings, budget, 0) {
            Ok(t2) => t2,
            Err(e) => {
                return Err(e);
            },
        };
        if !pattern(&ps[k], &t2, &st.domains, &mut env, &mut conds) {
            return Ok(None);
        }
        k += 1;
    }
    Ok(Some((env, conds)))
}

/// Find the first rule, and for it the first live constraint, whose head matches.
fn find(rules: &Vec<Rule>, st: &State, budget: &mut Budget) -> (r: Result<Option<(usize, usize, Bindings, Vec<(u64, String)>)>, Error>)
    requires
        st.wf(),
        forall|i: int| 0 <= i < rules@.len() ==> (#[trigger] rules@[i]).removed@.len() >= 1,
    ensures
        match find_v(rules_v(rules@), st.view_v(), 0, 0, old(budget).left as nat) {
            Ok((Some(f), l)) => r matches Ok(Some((ri, li, env, conds))) && ri == f.rule && li == f.index && env.wf() && env.map()
                == f.env && conds_v(conds@) == f.conds && final(budget).left == l,
            Ok((None, l)) => r matches Ok(None) && final(budget).left == l,
            Err(e) => r matches Err(e2) && e2 == e,
        },
{
    let ghost rs = rules_v(rules@);
    let ghost sv = st.view_v();
    let ghost target = find_v(rs, sv, 0, 0, budget.left as nat);
    let mut ri: usize = 0;
    while ri < rules.len()
        invariant
            0 <= ri <= rules@.len(),
            rs == rules_v(rules@),
            st.wf(),
            sv == st.view_v(),
            forall|i: int| 0 <= i < rules@.len() ==> (#[trigger] rules@[i]).removed@.len() >= 1,
            find_v(rs, sv, ri as int, 0, budget.left as nat) == target,
            target == find_v(rs, sv, 0, 0, old(budget).left as nat),
        decreases rules.len() - ri,
    {
        let head = &rules[ri].removed[0];
        proof {
            assert(rs[ri as int] == crate::syntax::rule_v(rules@[ri as int]));
            assert(rs[ri as int].removed[0] == constraint_v(*head));
        }
        let mut li: usize = 0;
        while li < st.live.len()
            invariant
                0 <= li <= st.live@.len(),
                0 <= ri < rules@.len(),
                rs == rules_v(rules@),
                st.wf(),
                sv == st.view_v(),
                rs[ri as int].removed[0] == constraint_v(*head),
                find_v(rs, sv, ri as int, li as int, budget.left as nat) == target,
                target == find_v(rs, sv, 0, 0, old(budget).left as nat),
            decreases st.live.len() - li,
        {
            let c = &st.live[li];
            proof {
                assert(sv.live[li as int] == constraint_v(*c));
            }
            if c.name == head.name && c.args.len() == head.args.len() {
                match match_args(&head.args, &c.args, st, budget) {
                    Ok(Some((env, conds))) => {
                        return Ok(Some((ri, li, env, conds)));
                    },
                    Ok(None) => {},
                    Err(e) => {
                        return Err(e);
                    },
                }
            }
            li += 1;
        }
        ri += 1;
    }
    Ok(None)
}

/// The limit met when the steps run out.
pub const STEPS: &'static str = "steps";

/// The limit met when the partitions run out.
pub const PARTITIONS: &'static str = "partitions";

/// The limit met when the solutions run out.
pub const SOLUTIONS: &'static str = "solutions";

/// The value of a query.
pub struct QueryV {
    pub constraints: Seq<ConstraintV>,
    pub outputs: Seq<(Seq<char>, u64)>,
}

pub open spec fn outputs_of(os: Seq<(String, Var)>) -> Seq<(Seq<char>, u64)> {
    os.map_values(|o: (String, Var)| (o.0@, o.1.0))
}

pub open spec fn query_v(q: Query) -> QueryV {
    QueryV { constraints: constraints_v(q.constraints@), outputs: outputs_of(q.outputs@) }
}

/// The value of a solution: the caller's constraints and the outputs'
/// equations with the state's bindings applied, and the state's weight.
pub struct SolutionV {
    pub query: QueryV,
    pub equations: Seq<(TermV, TermV)>,
    pub multiplicity: u128,
}

/// The value of a report.
pub struct ReportV {
    pub solutions: Seq<SolutionV>,
    pub steps: nat,
    pub partitions: nat,
}

/// The value of the work of a query: the caller's part of the query, what is
/// left of the term budget, the limits, the states still to serve (the newest
/// last) and the report so far.
pub struct WorkV {
    pub caller: QueryV,
    pub left: nat,
    pub limits: Limits,
    pub queue: Seq<StateV>,
    pub report: ReportV,
}

/// Counting one more partition.
pub open spec fn fork_v(report: ReportV, limits: Limits) -> Result<ReportV, Error> {
    if report.partitions == limits.partitions {
        Err(Error::Limit(PARTITIONS))
    } else {
        Ok(ReportV { solutions: report.solutions, steps: report.steps, partitions: report.partitions + 1 })
    }
}

/// Meeting the conditions of a match from the `k`-th on, in variable order:
/// where a domain has other atoms, a state keeping them is queued first, then
/// the condition's atom is chosen.
pub open spec fn settle_v(
    st: StateV,
    conds: Seq<(u64, Seq<char>)>,
    k: int,
    report: ReportV,
    queue: Seq<StateV>,
    limits: Limits,
) -> Result<(StateV, ReportV, Seq<StateV>), Error>
    decreases conds.len() - k,
{
    if k < 0 || k >= conds.len() {
        Ok((st, report, queue))
    } else {
        let v = conds[k].0;
        let value = conds[k].1;
        let split = st.domains[v].len() > 1;
        let negative = StateV {
            live: st.live,
            bindings: st.bindings,
            domains: st.domains.insert(v, st.domains[v].remove(value)),
            weight: st.weight,
        };
        match (if split {
            fork_v(report, limits)
        } else {
            Ok(report)
        }) {
            Err(e) => Err(e),
            Ok(r2) => match select_v(st, v, value) {
                Err(e) => Err(e),
                Ok(s2) => settle_v(
                    s2,
                    conds,
                    k + 1,
                    r2,
                    if split {
                        queue.push(negative)
                    } else {
                        queue
                    },
                    limits,
                ),
            },
        }
    }
}

/// Queueing one state per atom of `v` from the `k`-th on, each with that atom chosen.
pub open spec fn split_v(
    st: StateV,
    v: u64,
    values: Seq<(Seq<char>, u128)>,
    k: int,
    report: ReportV,
    queue: Seq<StateV>,
    limits: Limits,
) -> Result<(ReportV, Seq<StateV>), Error>
    decreases values.len() - k,
{
    if k < 0 || k >= values.len() {
        Ok((report, queue))
    } else {
        match select_v(st, v, values[k].0) {
            Err(e) => Err(e),
            Ok(child) => match fork_v(report, limits) {
                Err(e) => Err(e),
                Ok(r2) => split_v(st, v, values, k + 1, r2, queue.push(child), limits),
            },
        }
    }
}

/// Constraints with every argument resolved, one after another.
pub open spec fn resolve_cs_v(cs: Seq<ConstraintV>, env: Map<u64, TermV>, left: nat) -> Result<(Seq<ConstraintV>, nat), Error>
    decreases cs.len(),
{
    if cs.len() == 0 {
        Ok((Seq::empty(), left))
    } else {
        match resolve_cs_v(cs.drop_last(), env, left) {
            Err(e) => Err(e),
            Ok((ds, l)) => match resolves_v(cs.last().args, env, l, 0) {
                Err(e) => Err(e),
                Ok((args, l2)) => Ok((ds.push(ConstraintV { name: cs.last().name, args }), l2)),
            },
        }
    }
}

/// Each output variable with what it resolves to, one after another.
pub open spec fn equations_v(outs: Seq<(Seq<char>, u64)>, env: Map<u64, TermV>, left: nat) -> Result<(Seq<(TermV, TermV)>, nat), Error>
    decreases outs.len(),
{
    if outs.len() == 0 {
        Ok((Seq::empty(), left))
    } else {
        match equations_v(outs.drop_last(), env, left) {
            Err(e) => Err(e),
            Ok((eqs, l)) => match resolve_v(TermV::Var(outs.last().1), env, l, 0) {
                Err(e) => Err(e),
                Ok((t, l2)) => Ok((eqs.push((TermV::Var(outs.last().1), t)), l2)),
            },
        }
    }
}

/// The solution a finished state gives the caller.
pub open spec fn solution_v(caller: QueryV, st: StateV, left: nat) -> Result<(SolutionV, nat), Error> {
    match resolve_cs_v(caller.constraints, st.bindings, left) {
        Err(e) => Err(e),
        Ok((cs, l)) => match equations_v(caller.outputs, st.bindings, l) {
            Err(e) => Err(e),
            Ok((eqs, l2)) => Ok(
                (SolutionV { query: QueryV { constraints: cs, outputs: caller.outputs }, equations: eqs, multiplicity: st.weight }, l2),
            ),
        },
    }
}

/// One step of the work: `true` when no state is left; otherwise the newest
/// state fires the first matching rule, or, with nothing live, is split on
/// the atoms of its least unchosen variable, or is published as a solution.
pub open spec fn step_v(rules: Seq<RuleV>, w: WorkV) -> Result<(bool, WorkV), Error> {
    if w.queue.len() == 0 {
        Ok((true, w))
    } else if w.report.steps == w.limits.steps {
        Err(Error::Limit(STEPS))
    } else {
        let st = w.queue.last();
        let queue = w.queue.drop_last();
        let report = ReportV { solutions: w.report.solutions, steps: w.report.steps + 1, partitions: w.report.partitions };
        match find_v(rules, st, 0, 0, w.left) {
            Err(e) => Err(e),
            Ok((Some(f), l)) => match settle_v(st, f.conds, 0, report, queue, w.limits) {
                Err(e) => Err(e),
                Ok((s2, r2, q2)) => {
                    let s3 = StateV { live: s2.live.remove(f.index), bindings: s2.bindings, domains: s2.domains, weight: s2.weight };
                    match body_v(s3, rules[f.rule].body, f.env, l) {
                        Err(e) => Err(e),
                        Ok((kept, l2)) => Ok(
                            (
                                false,
                                WorkV {
                                    caller: w.caller,
                                    left: l2,
                                    limits: w.limits,
                                    queue: match kept {
                                        Some(s4) => q2.push(s4),
                                        None => q2,
                                    },
                                    report: r2,
                                },
                            ),
                        ),
                    }
                },
            },
            Ok((None, l)) => if st.live.len() != 0 {
                Err(Error::Suspended)
            } else if st.domains != Map::<u64, Map<Seq<char>, u128>>::empty() {
                let v = least_var(st.domains);
                match split_v(st, v, listing(st.domains[v]), 0, report, queue, w.limits) {
                    Err(e) => Err(e),
                    Ok((r2, q2)) => Ok((false, WorkV { caller: w.caller, left: l, limits: w.limits, queue: q2, report: r2 })),
                }
            } else if report.solutions.len() == w.limits.solutions {
                Err(Error::Limit(SOLUTIONS))
            } else {
                match solution_v(w.caller, st, l) {
                    Err(e) => Err(e),
                    Ok((sol, l2)) => Ok(
                        (
                            false,
                            WorkV {
                                caller: w.caller,
                                left: l2,
                                limits: w.limits,
                                queue,
                                report: ReportV {
                                    solutions: report.solutions.push(sol),
                                    steps: report.steps,
                                    partitions: report.partitions,
                                },
                            },
                        ),
                    ),
                }
            },
        }
    }
}

/// A solution: the caller's constraints and the outputs' equations with the
/// state's bindings applied, and how many ways it arises.
#[derive(Debug)]
pub struct Solution {
    pub query: Query,
    pub equations: Vec<(Term, Term)>,
    pub multiplicity: u128,
}

pub open spec fn solution_of(s: Solution) -> SolutionV {
    SolutionV { query: query_v(s.query), equations: pairs_tv(s.equations@), multiplicity: s.multiplicity }
}

/// The solutions and counts of a query's work.
#[derive(Debug)]
pub struct Report {
    pub solutions: Vec<Solution>,
    pub steps: usize,
    pub partitions: usize,
}

pub open spec fn report_of(r: Report) -> ReportV {
    ReportV {
        solutions: r.solutions@.map_values(|s: Solution| solution_of(s)),
        steps: r.steps as nat,
        partitions: r.partitions as nat,
    }
}

pub open spec fn states_v(q: Seq<State>) -> Seq<StateV> {
    q.map_values(|s: State| s.view_v())
}

pub open spec fn states_wf(q: Seq<State>) -> bool {
    forall|i: int| 0 <= i < q.len() ==> (#[trigger] q[i]).wf()
}

/// Count one more partition.
pub(crate) fn fork(report: &mut Report, limits: &Limits) -> (r: Result<(), Error>)
    requires
        old(report).partitions <= limits.partitions,
    ensures
        match fork_v(report_of(*old(report)), *limits) {
            Ok(r2) => r is Ok && report_of(*final(report)) == r2 && final(report).partitions <= limits.partitions
                && final(report).steps == old(report).steps && final(report).solutions@ == old(report).solutions@,
            Err(e) => r == Err::<(), Error>(e),
        },
{
    if report.partitions == limits.partitions {
        return Err(Error::Limit(PARTITIONS));
    }
    report.partitions = report.partitions + 1;
    Ok(())
}

/// Meet the conditions of a match.
fn settle(st: &mut State, conds: &Vec<(u64, String)>, report: &mut Report, queue: &mut Vec<State>, limits: &Limits) -> (r: Result<(), Error>)
    requires
        old(st).wf(),
        conds_ok(conds_v(conds@), old(st).view_v().domains),
        states_wf(old(queue)@),
        old(report).partitions <= limits.partitions,
    ensures
        match settle_v(old(st).view_v(), conds_v(conds@), 0, report_of(*old(report)), states_v(old(queue)@), *limits) {
            Ok((s, r2, q)) => r is Ok && final(st).wf() && final(st).view_v() == s && report_of(*final(report)) == r2
                && states_v(final(queue)@) == q && states_wf(final(queue)@) && final(report).partitions <= limits.partitions
                && final(report).steps == old(report).steps && final(report).solutions@ == old(report).solutions@,
            Err(e) => r == Err::<(), Error>(e),
        },
{
    let ghost cv = conds_v(conds@);
    let ghost target = settle_v(st.view_v(), cv, 0, report_of(*report), states_v(queue@), *limits);
    let mut k: usize = 0;
    while k < conds.len()
        invariant
            0 <= k <= conds@.len(),
            cv == conds_v(conds@),
            conds_ok(cv, old(st).view_v().domains),
            st.wf(),
            forall|j: int| k <= j < cv.len() ==> st.view_v().domains.contains_key((#[trigger] cv[j]).0)
                && st.view_v().domains[cv[j].0].contains_key(cv[j].1),
            states_wf(queue@),
            report.partitions <= limits.partitions,
            report.steps == old(report).steps,
            report.solutions@ == old(report).solutions@,
            settle_v(st.view_v(), cv, k as int, report_of(*report), states_v(queue@), *limits) == target,
            target == settle_v(old(st).view_v(), cv, 0, report_of(*old(report)), states_v(old(queue)@), *limits),
        decreases conds.len() - k,
    {
        let v = conds[k].0;
        let value = &conds[k].1;
        let ghost s0 = st.view_v();
        proof {
            assert(cv[k as int] == (v, value@));
        }
        let split = st.domains.get(v).unwrap().len() > 1;
        if split {
            let mut negative = st.copy();
            let mut d = negative.domains.remove(v).unwrap();
            d.remove(value);
            negative.domains.insert(v, d);
            proof {
                assert(negative.view_v().domains =~= s0.domains.insert(v, s0.domains[v].remove(value@)));
            }
            match fork(report, limits) {
                Ok(()) => {},
                Err(e) => {
                    return Err(e);
                },
            }
            let ghost q0 = queue@;
            let ghost nv = negative.view_v();
            queue.push(negative);
            proof {
                assert(states_v(queue@) =~= states_v(q0).push(nv));
                assert forall|i: int| 0 <= i < queue@.len() implies (#[trigger] queue@[i]).wf() by {
                    if i < q0.len() {
                        assert(queue@[i] == q0[i]);
                    }
                }
            }
        }
        match select(st, v, value) {
            Ok(()) => {},
            Err(e) => {
                return Err(e);
            },
        }
        proof {
            assert forall|j: int| k + 1 <= j < cv.len() implies st.view_v().domains.contains_key((#[trigger] cv[j]).0)
                && st.view_v().domains[cv[j].0].contains_key(cv[j].1) by {
                assert(cv[k as int].0 < cv[j].0);
            }
        }
        k += 1;
    }
    Ok(())
}

/// Queue one state per atom of `v`, each with that atom chosen.
fn split(st: &State, v: u64, report: &mut Report, queue: &mut Vec<State>, limits: &Limits) -> (r: Result<(), Error>)
    requires
        st.wf(),
        st.view_v().domains.contains_key(v),
        states_wf(old(queue)@),
        old(report).partitions <= limits.partitions,
    ensures
        match split_v(st.view_v(), v, listing(st.view_v().domains[v]), 0, report_of(*old(report)), states_v(old(queue)@), *limits) {
            Ok((r2, q)) => r is Ok && report_of(*final(report)) == r2 && states_v(final(queue)@) == q && states_wf(final(queue)@)
                && final(report).partitions <= limits.partitions && final(report).steps == old(report).steps
                && final(report).solutions@ == old(report).solutions@,
            Err(e) => r == Err::<(), Error>(e),
        },
{
    let ghost sv = st.view_v();
    let d = st.domains.get(v).unwrap();
    let values = d.ascending();
    let ghost vals = listing(sv.domains[v]);
    proof {
        d.lemma_finite();
        lemma_listing_entries(d.weights());
    }
    let ghost target = split_v(sv, v, vals, 0, report_of(*report), states_v(queue@), *limits);
    let mut k: usize = 0;
    while k < values.len()
        invariant
            0 <= k <= values@.len(),
            st.wf(),
            sv == st.view_v(),
            entries_v(values@) == vals,
            vals == listing(sv.domains[v]),
            sv.domains.contains_key(v),
            forall|j: int| 0 <= j < vals.len() ==> sv.domains[v].contains_key(#[trigger] vals[j].0),
            states_wf(queue@),
            report.partitions <= limits.partitions,
            report.steps == old(report).steps,
            report.solutions@ == old(report).solutions@,
            split_v(sv, v, vals, k as int, report_of(*report), states_v(queue@), *limits) == target,
            target == split_v(sv, v, vals, 0, report_of(*old(report)), states_v(old(queue)@), *limits),
        decreases values.len() - k,
    {
        proof {
            assert(vals[k as int].0 == values@[k as int].0@);
            assert(sv.domains[v].contains_key(vals[k as int].0));
        }
        let mut child = st.copy();
        match select(&mut child, v, &values[k].0) {
            Ok(()) => {},
            Err(e) => {
                return Err(e);
            },
        }
        match fork(report, limits) {
            Ok(()) => {},
            Err(e) => {
                return Err(e);
            },
        }
        let ghost q0 = queue@;
        let ghost cv = child.view_v();
        queue.push(child);
        proof {
            assert(states_v(queue@) =~= states_v(q0).push(cv));
            assert forall|i: int| 0 <= i < queue@.len() implies (#[trigger] queue@[i]).wf() by {
                if i < q0.len() {
                    assert(queue@[i] == q0[i]);
                }
            }
        }
        k += 1;
    }
    Ok(())
}

/// Resolve terms one after another at depth zero.
fn resolve_args(xs: &Vec<Term>, env: &Bindings, budget: &mut Budget) -> (r: Result<Vec<Term>, Error>)
    requires
        env.wf(),
    ensures
        match resolves_v(xs@.map_values(|x: Term| term_v(x)), env.map(), old(budget).left as nat, 0) {
            Ok((ys, l)) => r matches Ok(out) && out@.map_values(|x: Term| term_v(x)) == ys && final(budget).left == l,
            Err(e) => r == Err::<Vec<Term>, Error>(e),
        },
{
    let ghost vs = xs@.map_values(|x: Term| term_v(x));
    let ghost start = old(budget).left as nat;
    let mut out: Vec<Term> = Vec::new();
    let mut i: usize = 0;
    proof {
        assert(vs.take(0) =~= Seq::<TermV>::empty());
        assert(out@.map_values(|x: Term| term_v(x)) =~= Seq::<TermV>::empty());
    }
    while i < xs.len()
        invariant
            vs == xs@.map_values(|x: Term| term_v(x)),
            env.wf(),
            start == old(budget).left as nat,
            0 <= i <= xs.len(),
            resolves_v(vs.take(i as int), env.map(), start, 0) == Ok::<(Seq<TermV>, nat), Error>(
                (out@.map_values(|x: Term| term_v(x)), budget.left as nat),
            ),
        decreases xs.len() - i,
    {
        proof {
            assert(vs[i as int] == term_v(xs@[i as int]));
            assert(vs.take(i + 1).drop_last() =~= vs.take(i as int));
            assert(vs.take(i + 1).last() == vs[i as int]);
        }
        let ghost o0 = out@;
        let ghost l0 = budget.left as nat;
        match resolve(&xs[i], env, budget, 0) {
            Ok(y) => {
                out.push(y);
                proof {
                    assert(out@.map_values(|x: Term| term_v(x)) =~= o0.map_values(|x: Term| term_v(x)).push(term_v(y)));
                }
            },
            Err(e) => {
                proof {
                    assert(resolve_v(vs[i as int], env.map(), l0, 0) == Err::<(TermV, nat), Error>(e));
                    assert(resolves_v(vs.take(i + 1), env.map(), start, 0) == Err::<(Seq<TermV>, nat), Error>(e));
                    lemma_resolves_prefix(vs, i + 1, env.map(), start, 0);
                }
                return Err(e);
            },
        }
        i += 1;
    }
    proof {
        assert(vs.take(i as int) =~= vs);
    }
    Ok(out)
}

proof fn lemma_resolve_cs_prefix(cs: Seq<ConstraintV>, j: int, env: Map<u64, TermV>, left: nat)
    requires
        0 <= j <= cs.len(),
        resolve_cs_v(cs.take(j), env, left) is Err,
    ensures
        resolve_cs_v(cs, env, left) == resolve_cs_v(cs.take(j), env, left),
    decreases cs.len() - j,
{
    if j < cs.len() {
        assert(cs.take(j + 1).drop_last() =~= cs.take(j));
        lemma_resolve_cs_prefix(cs, j + 1, env, left);
    } else {
        assert(cs.take(j) =~= cs);
    }
}

proof fn lemma_equations_prefix(outs: Seq<(Seq<char>, u64)>, j: int, env: Map<u64, TermV>, left: nat)
    requires
        0 <= j <= outs.len(),
        equations_v(outs.take(j), env, left) is Err,
    ensures
        equations_v(outs, env, left) == equations_v(outs.take(j), env, left),
    decreases outs.len() - j,
{
    if j < outs.len() {
        assert(outs.take(j + 1).drop_last() =~= outs.take(j));
        lemma_equations_prefix(outs, j + 1, env, left);
    } else {
        assert(outs.take(j) =~= outs);
    }
}

/// The solution a finished state gives the caller.
fn solution(caller: &Query, st: &State, budget: &mut Budget) -> (r: Result<Solution, Error>)
    requires
        st.wf(),
    ensures
        match solution_v(query_v(*caller), st.view_v(), old(budget).left as nat) {
            Ok((sol, l)) => r matches Ok(s) && solution_of(s) == sol && final(budget).left == l,
            Err(e) => r == Err::<Solution, Error>(e),
        },
{
    let ghost qv = query_v(*caller);
    let ghost env = st.view_v().bindings;
    let ghost start = old(budget).left as nat;
    let mut cs: Vec<Constraint> = Vec::new();
    let mut i: usize = 0;
    proof {
        assert(qv.constraints.take(0) =~= Seq::<ConstraintV>::empty());
        assert(constraints_v(cs@) =~= Seq::<ConstraintV>::empty());
    }
    while i < caller.constraints.len()
        invariant
            qv == query_v(*caller),
            env == st.view_v().bindings,
            st.wf(),
            start == old(budget).left as nat,
            0 <= i <= caller.constraints@.len(),
            resolve_cs_v(qv.constraints.take(i as int), env, start) == Ok::<(Seq<ConstraintV>, nat), Error>(
                (constraints_v(cs@), budget.left as nat),
            ),
        decreases caller.constraints.len() - i,
    {
        let c = &caller.constraints[i];
        proof {
            assert(qv.constraints[i as int] == constraint_v(*c));
            assert(qv.constraints.take(i + 1).drop_last() =~= qv.constraints.take(i as int));
            assert(qv.constraints.take(i + 1).last() == qv.constraints[i as int]);
            assert(constraint_v(*c).args == c.args@.map_values(|x: Term| term_v(x)));
        }
        let ghost c0 = cs@;
        match resolve_args(&c.args, &st.bindings, budget) {
            Ok(args) => {
                let ghost av = args@.map_values(|x: Term| term_v(x));
                cs.push(Constraint { name: c.name.clone(), args });
                proof {
                    assert(constraints_v(cs@) =~= constraints_v(c0).push(ConstraintV { name: c.name@, args: av }));
                }
            },
            Err(e) => {
                proof {
                    lemma_resolve_cs_prefix(qv.constraints, i + 1, env, start);
                }
                return Err(e);
            },
        }
        i += 1;
    }
    proof {
        assert(qv.constraints.take(i as int) =~= qv.constraints);
    }
    let ghost l1 = budget.left as nat;
    let mut outputs: Vec<(String, Var)> = Vec::new();
    let mut equations: Vec<(Term, Term)> = Vec::new();
    let mut j: usize = 0;
    proof {
        assert(qv.outputs.take(0) =~= Seq::<(Seq<char>, u64)>::empty());
        assert(pairs_tv(equations@) =~= Seq::<(TermV, TermV)>::empty());
        assert(outputs_of(outputs@) =~= Seq::<(Seq<char>, u64)>::empty());
    }
    while j < caller.outputs.len()
        invariant
            qv == query_v(*caller),
            env == st.view_v().bindings,
            st.wf(),
            0 <= j <= caller.outputs@.len(),
            start == old(budget).left as nat,
            resolve_cs_v(qv.constraints, env, start) == Ok::<(Seq<ConstraintV>, nat), Error>((constraints_v(cs@), l1)),
            outputs_of(outputs@) == qv.outputs.take(j as int),
            equations_v(qv.outputs.take(j as int), env, l1) == Ok::<(Seq<(TermV, TermV)>, nat), Error>(
                (pairs_tv(equations@), budget.left as nat),
            ),
        decreases caller.outputs.len() - j,
    {
        let v = caller.outputs[j].1;
        proof {
            assert(qv.outputs[j as int] == (caller.outputs@[j as int].0@, v.0));
            assert(qv.outputs.take(j + 1).drop_last() =~= qv.outputs.take(j as int));
            assert(qv.outputs.take(j + 1).last() == qv.outputs[j as int]);
        }
        let ghost e0 = equations@;
        let ghost o0 = outputs@;
        let ghost lj = budget.left as nat;
        match resolve(&Term::Var(v), &st.bindings, budget, 0) {
            Ok(t) => {
                let ghost tv = term_v(t);
                equations.push((Term::Var(v), t));
                outputs.push((caller.outputs[j].0.clone(), v));
                proof {
                    assert(pairs_tv(equations@) =~= pairs_tv(e0).push((TermV::Var(v.0), tv)));
                    assert(outputs_of(outputs@) =~= outputs_of(o0).push(qv.outputs[j as int]));
                    assert(qv.outputs.take(j + 1) =~= qv.outputs.take(j as int).push(qv.outputs[j as int]));
                }
            },
            Err(e) => {
                proof {
                    assert(resolve_v(TermV::Var(v.0), env, lj, 0) == Err::<(TermV, nat), Error>(e));
                    assert(equations_v(qv.outputs.take(j + 1), env, l1) == Err::<(Seq<(TermV, TermV)>, nat), Error>(e));
                    lemma_equations_prefix(qv.outputs, j + 1, env, l1);
                }
                return Err(e);
            },
        }
        j += 1;
    }
    proof {
        assert(qv.outputs.take(j as int) =~= qv.outputs);
    }
    let sol = Solution { query: Query { constraints: cs, outputs }, equations, multiplicity: st.weight };
    Ok(sol)
}

proof fn lemma_find(rules: Seq<RuleV>, st: StateV, ri: int, li: int, left: nat)
    requires
        forall|i: int| 0 <= i < rules.len() ==> (#[trigger] rules[i]).removed.len() >= 1,
    ensures
        find_v(rules, st, ri, li, left) matches Ok((Some(f), _)) ==> 0 <= f.rule < rules.len() && 0 <= f.index
            < st.live.len() && terms_vars(rules[f.rule].removed[0].args).subset_of(f.env.dom()) && conds_ok(
            f.conds,
            st.domains,
        ),
    decreases rules.len() - ri, st.live.len() - li,
{
    if ri < 0 || ri >= rules.len() {
    } else if li < 0 || li >= st.live.len() {
        lemma_find(rules, st, ri + 1, 0, left);
    } else if key_v(st.live[li]) != key_v(rules[ri].removed[0]) {
        lemma_find(rules, st, ri, li + 1, left);
    } else {
        let ps = rules[ri].removed[0].args;
        let ts = st.live[li].args;
        assert(ps.take(0) =~= Seq::<TermV>::empty());
        assert(terms_vars(Seq::<TermV>::empty()) =~= Set::<u64>::empty());
        lemma_match(ps, ts, st, 0, Map::empty(), Seq::empty(), left);
        if let Ok((None, l)) = match_v(ps, ts, st, 0, Map::empty(), Seq::empty(), left) {
            lemma_find(rules, st, ri, li + 1, l);
        }
    }
}

proof fn lemma_settle(
    st: StateV,
    conds: Seq<(u64, Seq<char>)>,
    k: int,
    report: ReportV,
    queue: Seq<StateV>,
    limits: Limits,
)
    ensures
        settle_v(st, conds, k, report, queue, limits) matches Ok((s, r2, q2)) ==> s.live == st.live && r2.steps == report.steps
            && r2.solutions == report.solutions && q2.len() + report.partitions == queue.len() + r2.partitions
            && (report.partitions <= limits.partitions ==> r2.partitions <= limits.partitions),
    decreases conds.len() - k,
{
    if 0 <= k < conds.len() {
        let v = conds[k].0;
        let value = conds[k].1;
        let split = st.domains[v].len() > 1;
        let negative = StateV {
            live: st.live,
            bindings: st.bindings,
            domains: st.domains.insert(v, st.domains[v].remove(value)),
            weight: st.weight,
        };
        let forked = if split {
            fork_v(report, limits)
        } else {
            Ok(report)
        };
        if let Ok(r2) = forked {
            if let Ok(s2) = select_v(st, v, value) {
                lemma_settle(s2, conds, k + 1, r2, if split {
                    queue.push(negative)
                } else {
                    queue
                }, limits);
            }
        }
    }
}

proof fn lemma_split(
    st: StateV,
    v: u64,
    values: Seq<(Seq<char>, u128)>,
    k: int,
    report: ReportV,
    queue: Seq<StateV>,
    limits: Limits,
)
    ensures
        split_v(st, v, values, k, report, queue, limits) matches Ok((r2, q2)) ==> r2.steps == report.steps && r2.solutions
            == report.solutions && q2.len() + report.partitions == queue.len() + r2.partitions
            && (report.partitions <= limits.partitions ==> r2.partitions <= limits.partitions),
    decreases values.len() - k,
{
    if 0 <= k < values.len() {
        if let Ok(child) = select_v(st, v, values[k].0) {
            if let Ok(r2) = fork_v(report, limits) {
                lemma_split(st, v, values, k + 1, r2, queue.push(child), limits);
            }
        }
    }
}

/// The work of a query.
pub(crate) struct Work {
    pub(crate) caller: Query,
    pub(crate) budget: Budget,
    pub(crate) limits: Limits,
    pub(crate) queue: Vec<State>,
    pub(crate) report: Report,
}

impl Work {
    pub(crate) open spec fn wf(&self) -> bool {
        &&& states_wf(self.queue@)
        &&& self.report.steps <= self.limits.steps
        &&& self.report.partitions <= self.limits.partitions
        &&& self.report.solutions@.len() <= self.limits.solutions
    }

    pub(crate) open spec fn view_v(&self) -> WorkV {
        WorkV {
            caller: query_v(self.caller),
            left: self.budget.left as nat,
            limits: self.limits,
            queue: states_v(self.queue@),
            report: report_of(self.report),
        }
    }
}

/// What the rules of a phase satisfy once admitted.
pub open spec fn rules_ok(rules: Seq<Rule>) -> bool {
    forall|i: int| 0 <= i < rules.len() ==> (#[trigger] rules[i]).removed@.len() == 1 && det_body(
        goal_v(rules[i].body),
        terms_vars(constraint_v(rules[i].removed@[0]).args),
    )
}

/// Take one step of the work.
fn step(work: &mut Work, rules: &Vec<Rule>) -> (r: Result<bool, Error>)
    requires
        old(work).wf(),
        rules_ok(rules@),
    ensures
        match step_v(rules_v(rules@), old(work).view_v()) {
            Ok((done, w)) => r == Ok::<bool, Error>(done) && final(work).wf() && final(work).view_v() == w,
            Err(e) => r == Err::<bool, Error>(e),
        },
{
    let ghost w0 = work.view_v();
    let ghost rs = rules_v(rules@);
    let ghost q0 = work.queue@;
    let mut state = match work.queue.pop() {
        Some(s) => s,
        None => {
            return Ok(true);
        },
    };
    proof {
        assert(work.queue@ == q0.drop_last());
        assert(state == q0.last());
        assert(states_v(work.queue@) =~= w0.queue.drop_last());
        assert(state.view_v() == w0.queue.last());
        assert forall|i: int| 0 <= i < work.queue@.len() implies (#[trigger] work.queue@[i]).wf() by {
            assert(work.queue@[i] == q0[i]);
        }
        assert(state.wf());
    }
    if work.report.steps == work.limits.steps {
        return Err(Error::Limit(STEPS));
    }
    work.report.steps = work.report.steps + 1;
    let ghost sv = state.view_v();
    proof {
        assert forall|i: int| 0 <= i < rules@.len() implies (#[trigger] rules@[i]).removed@.len() >= 1 by {}
        assert forall|i: int| 0 <= i < rs.len() implies (#[trigger] rs[i]).removed.len() >= 1 by {
            assert(rs[i] == crate::syntax::rule_v(rules@[i]));
        }
        lemma_find(rs, sv, 0, 0, work.budget.left as nat);
    }
    match find(rules, &state, &mut work.budget) {
        Err(e) => {
            return Err(e);
        },
        Ok(Some((ri, li, env, conds))) => {
            let ghost f = find_v(rs, sv, 0, 0, w0.left)->Ok_0.0->Some_0;
            proof {
                assert(report_of(work.report) == ReportV { solutions: w0.report.solutions, steps: w0.report.steps + 1, partitions: w0.report.partitions });
            }
            match settle(&mut state, &conds, &mut work.report, &mut work.queue, &work.limits) {
                Ok(()) => {},
                Err(e) => {
                    return Err(e);
                },
            }
            proof {
                lemma_settle(sv, f.conds, 0, ReportV { solutions: w0.report.solutions, steps: w0.report.steps + 1, partitions: w0.report.partitions }, w0.queue.drop_last(), w0.limits);
            }
            let ghost s2 = state.view_v();
            state.live.remove(li);
            proof {
                assert(constraints_v(state.live@) =~= s2.live.remove(li as int));
                assert(rs[ri as int] == crate::syntax::rule_v(rules@[ri as int]));
                assert(rs[ri as int].removed[0] == constraint_v(rules@[ri as int].removed@[0]));
                crate::phase::lemma_det_body_mono(
                    goal_v(rules@[ri as int].body),
                    terms_vars(constraint_v(rules@[ri as int].removed@[0]).args),
                    env.map().dom(),
                );
            }
            let kept = match body(&mut state, &rules[ri].body, &env, &mut work.budget) {
                Ok(k) => k,
                Err(e) => {
                    return Err(e);
                },
            };
            if kept {
                let ghost qa = work.queue@;
                let ghost stv = state.view_v();
                work.queue.push(state);
                proof {
                    assert(states_v(work.queue@) =~= states_v(qa).push(stv));
                    assert forall|i: int| 0 <= i < work.queue@.len() implies (#[trigger] work.queue@[i]).wf() by {
                        if i < qa.len() {
                            assert(work.queue@[i] == qa[i]);
                        }
                    }
                }
            }
            Ok(false)
        },
        Ok(None) => {
            if state.live.len() != 0 {
                return Err(Error::Suspended);
            }
            match state.domains.least() {
                Some(v) => {
                    proof {
                        lemma_least_var(sv.domains, v);
                        assert(sv.domains != Map::<u64, Map<Seq<char>, u128>>::empty()) by {
                            assert(sv.domains.contains_key(v));
                        }
                    }
                    match split(&state, v, &mut work.report, &mut work.queue, &work.limits) {
                        Ok(()) => {},
                        Err(e) => {
                            return Err(e);
                        },
                    }
                    proof {
                        lemma_split(sv, v, listing(sv.domains[v]), 0, ReportV { solutions: w0.report.solutions, steps: w0.report.steps + 1, partitions: w0.report.partitions }, w0.queue.drop_last(), w0.limits);
                    }
                    Ok(false)
                },
                None => {
                    if work.report.solutions.len() == work.limits.solutions {
                        return Err(Error::Limit(SOLUTIONS));
                    }
                    let sol = match solution(&work.caller, &state, &mut work.budget) {
                        Ok(s) => s,
                        Err(e) => {
                            return Err(e);
                        },
                    };
                    let ghost sa = work.report.solutions@;
                    let ghost solv = solution_of(sol);
                    work.report.solutions.push(sol);
                    proof {
                        assert(work.report.solutions@.map_values(|s: Solution| solution_of(s)) =~= sa.map_values(
                            |s: Solution| solution_of(s),
                        ).push(solv));
                    }
                    Ok(false)
                },
            }
        },
    }
}

pub proof fn lemma_step(rules: Seq<RuleV>, w: WorkV)
    requires
        w.report.steps <= w.limits.steps,
    ensures
        step_v(rules, w) matches Ok((false, w2)) ==> w2.limits == w.limits && w2.report.steps == w.report.steps + 1
            && w2.report.steps <= w2.limits.steps && w2.queue.len() + w.report.partitions <= w.queue.len() + w2.report.partitions
            && (w.report.partitions <= w.limits.partitions ==> w2.report.partitions <= w2.limits.partitions),
{
    if w.queue.len() > 0 && w.report.steps != w.limits.steps {
        let st = w.queue.last();
        let queue = w.queue.drop_last();
        let report = ReportV { solutions: w.report.solutions, steps: w.report.steps + 1, partitions: w.report.partitions };
        match find_v(rules, st, 0, 0, w.left) {
            Ok((Some(f), l)) => {
                lemma_settle(st, f.conds, 0, report, queue, w.limits);
            },
            Ok((None, l)) => {
                if st.live.len() == 0 && st.domains != Map::<u64, Map<Seq<char>, u128>>::empty() {
                    let v = least_var(st.domains);
                    lemma_split(st, v, listing(st.domains[v]), 0, report, queue, w.limits);
                }
            },
            _ => {},
        }
    }
}

/// Running the work step by step until no state is left: the report, or the
/// first error.
pub open spec fn run_v(rules: Seq<RuleV>, w: WorkV) -> Result<ReportV, Error>
    decreases w.limits.steps - w.report.steps,
    when w.report.steps <= w.limits.steps
{
    match step_v(rules, w) {
        Err(e) => Err(e),
        Ok((true, w2)) => Ok(w2.report),
        Ok((false, w2)) => {
            proof {
                lemma_step(rules, w);
            }
            run_v(rules, w2)
        },
    }
}

/// What finishing a machine gives: an error if its work is gone, else the
/// report of running the work to the end.
pub open spec fn finish_v(rules: Seq<RuleV>, work: Option<WorkV>) -> Result<ReportV, Error> {
    match work {
        None => Err(Error::AlreadyFinished),
        Some(w) => run_v(rules, w),
    }
}

/// What one call of `advance` did.
#[derive(Debug)]
pub enum Event {
    Progress,
    Complete(Report),
    Exhausted,
}

/// Owns all query work. Dropping it cancels; the prepared rules are only borrowed.
pub struct Machine<'a> {
    pub(crate) prepared: &'a Prepared,
    pub(crate) work: Option<Work>,
}

impl<'a> Machine<'a> {
    /// What the well-formedness and the work of a machine are made of.
    pub(crate) proof fn reveal_work(&self)
        ensures
            self.wf() == (self.prepared.wf() && match self.work {
                Some(w) => w.wf(),
                None => true,
            }),
            self.work_v() == (match self.work {
                Some(w) => Some(w.view_v()),
                None => None,
            }),
            self.rules_of() == self.prepared.rules_v(),
    {
    }

    pub closed spec fn wf(&self) -> bool {
        &&& self.prepared.wf()
        &&& match self.work {
            Some(w) => w.wf(),
            None => true,
        }
    }

    /// The rules the machine runs.
    pub closed spec fn rules_of(&self) -> Seq<RuleV> {
        self.prepared.rules_v()
    }

    /// The work still to do, if any.
    pub closed spec fn work_v(&self) -> Option<WorkV> {
        match self.work {
            Some(w) => Some(w.view_v()),
            None => None,
        }
    }

    /// Take one step: `Progress` while states remain, `Complete` with the
    /// report once none does, `Exhausted` when the work is already gone. An
    /// error drops the work, with its pending states and unpublished solutions.
    pub fn advance(&mut self) -> (r: Result<Event, Error>)
        requires
            old(self).wf(),
        ensures
            final(self).wf(),
            final(self).rules_of() == old(self).rules_of(),
            match old(self).work_v() {
                None => r matches Ok(Event::Exhausted) && final(self).work_v() is None,
                Some(w) => match step_v(old(self).rules_of(), w) {
                    Err(e) => r == Err::<Event, Error>(e) && final(self).work_v() is None,
                    Ok((true, w2)) => r matches Ok(Event::Complete(rep)) && report_of(rep) == w2.report
                        && final(self).work_v() is None,
                    Ok((false, w2)) => r matches Ok(Event::Progress) && final(self).work_v() == Some(w2),
                },
            },
    {
        let mut work = match self.work.take() {
            Some(w) => w,
            None => {
                return Ok(Event::Exhausted);
            },
        };
        let rules = self.prepared.rules_ref();
        match step(&mut work, rules) {
            Ok(true) => Ok(Event::Complete(work.report)),
            Ok(false) => {
                self.work = Some(work);
                Ok(Event::Progress)
            },
            Err(e) => Err(e),
        }
    }

    /// How many states and solutions the work holds.
    pub fn retained(&self) -> (r: (usize, usize))
        ensures
            match self.work_v() {
                None => r == (0usize, 0usize),
                Some(w) => r.0 == w.queue.len() && r.1 == w.report.solutions.len(),
            },
    {
        match &self.work {
            Some(w) => {
                proof {
                    assert(states_v(w.queue@).len() == w.queue@.len());
                }
                (w.queue.len(), w.report.solutions.len())
            },
            None => (0, 0),
        }
    }

    /// Run the work to the end.
    pub fn finish(self) -> (r: Result<Report, Error>)
        requires
            self.wf(),
        ensures
            match finish_v(self.rules_of(), self.work_v()) {
                Ok(rep) => r matches Ok(x) && report_of(x) == rep,
                Err(e) => r matches Err(e2) && e2 == e,
            },
    {
        let ghost rules = self.rules_of();
        let ghost target = finish_v(rules, self.work_v());
        let mut m = self;
        loop
            invariant
                m.wf(),
                m.rules_of() == rules,
                finish_v(rules, m.work_v()) == target,
                rules == self.rules_of(),
                target == finish_v(self.rules_of(), self.work_v()),
            decreases match m.work_v() {
                Some(w) => w.limits.steps - w.report.steps + 1,
                None => 0,
            },
        {
            let ghost before = m.work_v();
            proof {
                if let Some(w) = before {
                    assert(w.report.steps <= w.limits.steps);
                    lemma_step(rules, w);
                }
            }
            match m.advance() {
                Ok(Event::Progress) => {},
                Ok(Event::Complete(rep)) => {
                    return Ok(rep);
                },
                Ok(Event::Exhausted) => {
                    return Err(Error::AlreadyFinished);
                },
                Err(e) => {
                    return Err(e);
                },
            }
        }
    }
}

/// The error for a choice constraint whose argument is neither a variable nor an atom.
pub const CHOICE_INPUT: &'static str = "choice input must be a variable or atom";

/// Paying for the arguments of the query's constraints, one after another.
pub open spec fn walk_all_v(cs: Seq<ConstraintV>, left: nat) -> Result<nat, Error>
    decreases cs.len(),
{
    if cs.len() == 0 {
        Ok(left)
    } else {
        match walk_all_v(cs.drop_last(), left) {
            Err(e) => Err(e),
            Ok(l) => walks_v(cs.last().args, l, 0),
        }
    }
}

/// What starting has gathered: the initial state, the caller's constraints,
/// and whether some choice input already has no atom left.
pub struct StartV {
    pub st: StateV,
    pub caller: Seq<ConstraintV>,
    pub stopped: bool,
}

/// Gathering one query constraint: a choice input narrows its variable's
/// domain or multiplies the weight by its atom's; a private constraint goes
/// live; anything else is the caller's.
pub open spec fn start_step_v(
    private: Set<KeyV>,
    producers: Map<KeyV, Map<Seq<char>, u128>>,
    sg: StartV,
    c: ConstraintV,
) -> Result<StartV, Error> {
    let st = sg.st;
    if sg.stopped {
        Ok(sg)
    } else if producers.contains_key(key_v(c)) {
        let domain = producers[key_v(c)];
        match c.args[0] {
            TermV::Var(v) => {
                let has = st.domains.contains_key(v);
                if has && product_overflows(st.domains[v], domain) {
                    Err(Error::MultiplicityOverflow)
                } else {
                    let joined = if has {
                        meet_v(st.domains[v], domain)
                    } else {
                        domain
                    };
                    if joined.len() == 0 {
                        Ok(StartV { st, caller: sg.caller, stopped: true })
                    } else {
                        Ok(
                            StartV {
                                st: StateV { live: st.live, bindings: st.bindings, domains: st.domains.insert(v, joined), weight: st.weight },
                                caller: sg.caller,
                                stopped: false,
                            },
                        )
                    }
                }
            },
            TermV::App(n, xs) => if xs.len() != 0 {
                Err(Error::Source(CHOICE_INPUT))
            } else if !domain.contains_key(n) {
                Ok(StartV { st, caller: sg.caller, stopped: true })
            } else if st.weight * domain[n] > u128::MAX {
                Err(Error::MultiplicityOverflow)
            } else {
                Ok(
                    StartV {
                        st: StateV { live: st.live, bindings: st.bindings, domains: st.domains, weight: (st.weight * domain[n]) as u128 },
                        caller: sg.caller,
                        stopped: false,
                    },
                )
            },
        }
    } else if private.contains(key_v(c)) {
        Ok(
            StartV {
                st: StateV { live: st.live.push(c), bindings: st.bindings, domains: st.domains, weight: st.weight },
                caller: sg.caller,
                stopped: false,
            },
        )
    } else {
        Ok(StartV { st, caller: sg.caller.push(c), stopped: false })
    }
}

/// Gathering the first `n` query constraints.
pub open spec fn start_fold_v(
    private: Set<KeyV>,
    producers: Map<KeyV, Map<Seq<char>, u128>>,
    cs: Seq<ConstraintV>,
    n: int,
) -> Result<StartV, Error>
    decreases n,
{
    if n <= 0 {
        Ok(
            StartV {
                st: StateV { live: Seq::empty(), bindings: Map::empty(), domains: Map::empty(), weight: 1 },
                caller: Seq::empty(),
                stopped: false,
            },
        )
    } else {
        match start_fold_v(private, producers, cs, n - 1) {
            Err(e) => Err(e),
            Ok(sg) => start_step_v(private, producers, sg, cs[n - 1]),
        }
    }
}

/// Starting the work of a query: its arguments are paid for, then gathered
/// into one initial state, or none where a choice input has no atom.
pub open spec fn start_v(private: Set<KeyV>, producers: Map<KeyV, Map<Seq<char>, u128>>, q: Query, limits: Limits) -> Result<WorkV, Error> {
    let cs = constraints_v(q.constraints@);
    match walk_all_v(cs, limits.term_nodes as nat) {
        Err(e) => Err(e),
        Ok(left) => match start_fold_v(private, producers, cs, cs.len() as int) {
            Err(e) => Err(e),
            Ok(sg) => Ok(
                WorkV {
                    caller: QueryV { constraints: sg.caller, outputs: outputs_of(q.outputs@) },
                    left,
                    limits,
                    queue: if sg.stopped {
                        Seq::empty()
                    } else {
                        seq![sg.st]
                    },
                    report: ReportV { solutions: Seq::empty(), steps: 0, partitions: 0 },
                },
            ),
        },
    }
}

proof fn lemma_walk_all_prefix(cs: Seq<ConstraintV>, j: int, left: nat)
    requires
        0 <= j <= cs.len(),
        walk_all_v(cs.take(j), left) is Err,
    ensures
        walk_all_v(cs, left) == walk_all_v(cs.take(j), left),
    decreases cs.len() - j,
{
    if j < cs.len() {
        assert(cs.take(j + 1).drop_last() =~= cs.take(j));
        lemma_walk_all_prefix(cs, j + 1, left);
    } else {
        assert(cs.take(j) =~= cs);
    }
}

proof fn lemma_walks_prefix_at(xs: Seq<TermV>, j: int, left: nat, depth: nat)
    requires
        0 <= j <= xs.len(),
        walks_v(xs.take(j), left, depth) is Err,
    ensures
        walks_v(xs, left, depth) == walks_v(xs.take(j), left, depth),
    decreases xs.len() - j,
{
    if j < xs.len() {
        assert(xs.take(j + 1).drop_last() =~= xs.take(j));
        lemma_walks_prefix_at(xs, j + 1, left, depth);
    } else {
        assert(xs.take(j) =~= xs);
    }
}

proof fn lemma_start_stopped(
    private: Set<KeyV>,
    producers: Map<KeyV, Map<Seq<char>, u128>>,
    cs: Seq<ConstraintV>,
    j: int,
    n: int,
)
    requires
        0 <= j <= n,
        start_fold_v(private, producers, cs, j) matches Ok(sg) && sg.stopped,
    ensures
        start_fold_v(private, producers, cs, n) == start_fold_v(private, producers, cs, j),
    decreases n - j,
{
    if j < n {
        lemma_start_stopped(private, producers, cs, j, n - 1);
    }
}

proof fn lemma_start_error(
    private: Set<KeyV>,
    producers: Map<KeyV, Map<Seq<char>, u128>>,
    cs: Seq<ConstraintV>,
    j: int,
    n: int,
)
    requires
        0 <= j <= n,
        start_fold_v(private, producers, cs, j) is Err,
    ensures
        start_fold_v(private, producers, cs, n) == start_fold_v(private, producers, cs, j),
    decreases n - j,
{
    if j < n {
        lemma_start_error(private, producers, cs, j, n - 1);
    }
}

/// The caller's outputs, copied.
fn copy_outputs(os: &Vec<(String, Var)>) -> (r: Vec<(String, Var)>)
    ensures
        outputs_of(r@) == outputs_of(os@),
{
    let mut out: Vec<(String, Var)> = Vec::new();
    let mut i: usize = 0;
    while i < os.len()
        invariant
            0 <= i <= os@.len(),
            out@.len() == i,
            forall|j: int| 0 <= j < i ==> (#[trigger] out@[j]).0@ == os@[j].0@ && out@[j].1 == os@[j].1,
        decreases os.len() - i,
    {
        out.push((os[i].0.clone(), os[i].1));
        i += 1;
    }
    proof {
        assert(outputs_of(out@) =~= outputs_of(os@));
    }
    out
}

/// A machine whose work starts from `queue`.
fn machine<'a>(p: &'a Prepared, caller: Query, budget: Budget, limits: Limits, queue: Vec<State>) -> (m: Machine<'a>)
    requires
        p.wf(),
        states_wf(queue@),
    ensures
        m.wf(),
        m.rules_of() == p.rules_v(),
        m.work_v() == Some(
            WorkV {
                caller: query_v(caller),
                left: budget.left as nat,
                limits,
                queue: states_v(queue@),
                report: ReportV { solutions: Seq::empty(), steps: 0, partitions: 0 },
            },
        ),
{
    let report = Report { solutions: Vec::new(), steps: 0, partitions: 0 };
    proof {
        assert(report.solutions@.map_values(|s: Solution| solution_of(s)) =~= Seq::<SolutionV>::empty());
    }
    Machine { prepared: p, work: Some(Work { caller, budget, limits, queue, report }) }
}

/// Start the work of a query within a phase.
pub(crate) fn start<'a>(p: &'a Prepared, q: &Query, limits: Limits) -> (r: Result<Machine<'a>, Error>)
    requires
        p.wf(),
    ensures
        match start_v(p.private_v(), p.producers_v(), *q, limits) {
            Ok(w) => r matches Ok(m) && m.wf() && m.rules_of() == p.rules_v() && m.work_v() == Some(w),
            Err(e) => r matches Err(e2) && e2 == e,
        },
{
    let ghost cs = constraints_v(q.constraints@);
    let ghost private = p.private_v();
    let ghost producers = p.producers_v();
    let mut budget = Budget { left: limits.term_nodes };
    let mut i: usize = 0;
    proof {
        assert(cs.take(0) =~= Seq::<ConstraintV>::empty());
    }
    while i < q.constraints.len()
        invariant
            cs == constraints_v(q.constraints@),
            0 <= i <= q.constraints@.len(),
            walk_all_v(cs.take(i as int), limits.term_nodes as nat) == Ok::<nat, Error>(budget.left as nat),
        decreases q.constraints.len() - i,
    {
        let c = &q.constraints[i];
        let ghost l0 = budget.left as nat;
        let ghost args = constraint_v(*c).args;
        proof {
            assert(cs[i as int] == constraint_v(*c));
            assert(cs.take(i + 1).drop_last() =~= cs.take(i as int));
            assert(cs.take(i + 1).last() == cs[i as int]);
            assert(args.take(0) =~= Seq::<TermV>::empty());
        }
        let mut j: usize = 0;
        while j < c.args.len()
            invariant
                0 <= j <= c.args@.len(),
                args == constraint_v(*c).args,
                args.len() == c.args@.len(),
                walks_v(args.take(j as int), l0, 0) == Ok::<nat, Error>(budget.left as nat),
                cs == constraints_v(q.constraints@),
                0 <= i < q.constraints@.len(),
                *c == q.constraints@[i as int],
                cs[i as int] == constraint_v(*c),
                walk_all_v(cs.take(i as int), limits.term_nodes as nat) == Ok::<nat, Error>(l0),
                cs.take(i + 1).drop_last() == cs.take(i as int),
                cs.take(i + 1).last() == cs[i as int],
            decreases c.args.len() - j,
        {
            proof {
                assert(args[j as int] == term_v(c.args@[j as int]));
                assert(args.take(j + 1).drop_last() =~= args.take(j as int));
                assert(args.take(j + 1).last() == args[j as int]);
            }
            let ghost lj = budget.left as nat;
            match walk(&c.args[j], &mut budget, 0) {
                Ok(()) => {},
                Err(e) => {
                    proof {
                        assert(walk_v(args[j as int], lj, 0) == Err::<nat, Error>(e));
                        assert(walks_v(args.take(j + 1), l0, 0) == Err::<nat, Error>(e));
                        lemma_walks_prefix_at(args, j + 1, l0, 0);
                        assert(walk_all_v(cs.take(i + 1), limits.term_nodes as nat) == Err::<nat, Error>(e));
                        lemma_walk_all_prefix(cs, i + 1, limits.term_nodes as nat);
                    }
                    return Err(e);
                },
            }
            j += 1;
        }
        proof {
            assert(args.take(j as int) =~= args);
        }
        i += 1;
    }
    proof {
        assert(cs.take(i as int) =~= cs);
    }
    let ghost left = budget.left as nat;
    let mut state = State { live: Vec::new(), bindings: Bindings::new(), domains: Domains::new(), weight: 1 };
    let mut caller_cs: Vec<Constraint> = Vec::new();
    proof {
        assert(constraints_v(state.live@) =~= Seq::<ConstraintV>::empty());
        assert(constraints_v(caller_cs@) =~= Seq::<ConstraintV>::empty());
    }
    let mut k: usize = 0;
    while k < q.constraints.len()
        invariant
            p.wf(),
            cs == constraints_v(q.constraints@),
            private == p.private_v(),
            producers == p.producers_v(),
            0 <= k <= q.constraints@.len(),
            state.wf(),
            walk_all_v(cs, limits.term_nodes as nat) == Ok::<nat, Error>(left),
            left == budget.left as nat,
            start_fold_v(private, producers, cs, k as int) == Ok::<StartV, Error>(
                StartV { st: state.view_v(), caller: constraints_v(caller_cs@), stopped: false },
            ),
        decreases q.constraints.len() - k,
    {
        let c = &q.constraints[k];
        let ghost sg = StartV { st: state.view_v(), caller: constraints_v(caller_cs@), stopped: false };
        proof {
            assert(cs[k as int] == constraint_v(*c));
            assert(constraint_v(*c).args.len() == c.args@.len());
            assert(key_v(constraint_v(*c)) == (c.name@, c.args@.len() as nat));
            assert(start_fold_v(private, producers, cs, k + 1) == start_step_v(private, producers, sg, cs[k as int]));
        }
        match p.producer(c.name.as_str(), c.args.len()) {
            Some(domain) => {
                proof {
                    assert(constraint_v(*c).args[0] == term_v(c.args@[0]));
                }
                match &c.args[0] {
                    Term::Var(v) => {
                        let joined = match state.domains.remove(v.0) {
                            Some(old_d) => match intersection(&old_d, domain) {
                                Ok(d) => {
                                    proof {
                                        assert(d.weights() =~= meet_v(old_d.weights(), domain.weights()));
                                    }
                                    d
                                },
                                Err(e) => {
                                    proof {
                                        assert(sg.st.domains.contains_key(v.0));
                                        assert(start_fold_v(private, producers, cs, k + 1) == start_step_v(private, producers, sg, cs[k as int]));
                                        assert(start_fold_v(private, producers, cs, k + 1) == Err::<StartV, Error>(e));
                                        lemma_start_error(private, producers, cs, k + 1, cs.len() as int);
                                    }
                                    return Err(e);
                                },
                            },
                            None => domain.copy(),
                        };
                        if joined.len() == 0 {
                            proof {
                                lemma_start_stopped(private, producers, cs, k + 1, cs.len() as int);
                            }
                            let caller = Query { constraints: caller_cs, outputs: copy_outputs(&q.outputs) };
                            let none: Vec<State> = Vec::new();
                            proof {
                                assert(states_v(none@) =~= Seq::<StateV>::empty());
                            }
                            return Ok(machine(p, caller, budget, limits, none));
                        }
                        let ghost jw = joined.weights();
                        state.domains.insert(v.0, joined);
                        proof {
                            assert(state.view_v().domains =~= sg.st.domains.insert(v.0, jw));
                            assert(state.view_v().live == sg.st.live);
                        }
                    },
                    Term::App(n, xs) => {
                        if xs.len() != 0 {
                            proof {
                                assert(start_fold_v(private, producers, cs, k + 1) == start_step_v(private, producers, sg, cs[k as int]));
                                assert(constraint_v(*c).args[0] == TermV::App(n@, term_v(c.args@[0])->App_1));
                                assert(start_fold_v(private, producers, cs, k + 1) == Err::<StartV, Error>(Error::Source(CHOICE_INPUT)));
                                lemma_start_error(private, producers, cs, k + 1, cs.len() as int);
                            }
                            return Err(Error::Source(CHOICE_INPUT));
                        }
                        match domain.get(n) {
                            Some(w) => match state.weight.checked_mul(w) {
                                Some(x) => {
                                    state.weight = x;
                                },
                                None => {
                                    proof {
                                        lemma_start_error(private, producers, cs, k + 1, cs.len() as int);
                                    }
                                    return Err(Error::MultiplicityOverflow);
                                },
                            },
                            None => {
                                proof {
                                    lemma_start_stopped(private, producers, cs, k + 1, cs.len() as int);
                                }
                                let caller = Query { constraints: caller_cs, outputs: copy_outputs(&q.outputs) };
                                let none: Vec<State> = Vec::new();
                                proof {
                                    assert(states_v(none@) =~= Seq::<StateV>::empty());
                                }
                                return Ok(machine(p, caller, budget, limits, none));
                            },
                        }
                    },
                }
            },
            None => {
                if p.is_private(c.name.as_str(), c.args.len()) {
                    let ghost l0 = state.live@;
                    state.live.push(copy_constraint(c));
                    proof {
                        assert(constraints_v(state.live@) =~= constraints_v(l0).push(constraint_v(*c)));
                    }
                } else {
                    let ghost c0 = caller_cs@;
                    caller_cs.push(copy_constraint(c));
                    proof {
                        assert(constraints_v(caller_cs@) =~= constraints_v(c0).push(constraint_v(*c)));
                    }
                }
            },
        }
        k += 1;
    }
    let caller = Query { constraints: caller_cs, outputs: copy_outputs(&q.outputs) };
    let ghost sv = state.view_v();
    let mut queue: Vec<State> = Vec::new();
    queue.push(state);
    proof {
        assert(states_v(queue@) =~= seq![sv]);
    }
    Ok(machine(p, caller, budget, limits, queue))
}

/// Solving a query within a phase: its work started and run to the end.
pub open spec fn solve_v(
    private: Set<KeyV>,
    producers: Map<KeyV, Map<Seq<char>, u128>>,
    rules: Seq<RuleV>,
    q: Query,
    limits: Limits,
) -> Result<ReportV, Error> {
    match start_v(private, producers, q, limits) {
        Err(e) => Err(e),
        Ok(w) => run_v(rules, w),
    }
}

} // verus!
