//! Checked resource access and ground-query declarations.
//!
//! These properties do not promise counting eligibility, resource sufficiency,
//! termination, or ground results. Source checks apply to the complete rule set.
use crate::syntax::{Constraint, Goal, Query, Rule, Term, ground, spec_ground};
use vstd::prelude::*;

verus! {

pub const GROUND_OUTSIDE_ARITY: &'static str = "ground argument outside entry arity";

pub const ACCESS_REGION_INVALID: &'static str = "resource access region is empty or outside rule set";

pub const ACCESS_OUTSIDE_REGION: &'static str = "resource accessed outside declared rule region";

pub const RESOURCE_ABSENT: &'static str = "declared resource absent from rule set";

pub const ENTRY_ABSENT: &'static str = "declared entry absent from rule heads";

pub const ENTRY_NOT_GROUND: &'static str = "entry argument is not ground at query submission";

/// A predicate symbol: a name with an arity.
#[derive(Clone, Debug, PartialEq, Eq)]
pub struct Predicate {
    pub name: String,
    pub arity: usize,
}

/// The constraint is an occurrence of the predicate.
pub open spec fn spec_matches(p: Predicate, c: Constraint) -> bool {
    p.name@ == c.name@ && p.arity == c.args.len()
}

impl Predicate {
    fn matches(&self, c: &Constraint) -> (r: bool)
        ensures
            r == spec_matches(*self, *c),
    {
        self.name == c.name && self.arity == c.args.len()
    }
}

/// `access_rules` is the explicit region allowed to read, consume or produce the
/// resource. Indices refer to this complete rule set, not separately linked units.
#[derive(Clone, Debug)]
pub struct Declaration {
    pub resource: Predicate,
    pub access_rules: Vec<usize>,
    pub entry: Predicate,
    pub ground_argument: usize,
}

/// The goal posts an occurrence of the predicate somewhere in it.
pub open spec fn spec_posts(goal: Goal, p: Predicate) -> bool
    decreases goal,
{
    match goal {
        Goal::Constraint(c) => spec_matches(p, c),
        Goal::And(xs) => exists|i: int| 0 <= i < xs.len() && spec_posts(#[trigger] xs[i], p),
        Goal::Or(a, b) => spec_posts(*a, p) || spec_posts(*b, p),
        _ => false,
    }
}

fn posts(goal: &Goal, predicate: &Predicate) -> (r: bool)
    ensures
        r == spec_posts(*goal, *predicate),
    decreases goal,
{
    match goal {
        Goal::Constraint(c) => predicate.matches(c),
        Goal::And(xs) => {
            let mut i: usize = 0;
            while i < xs.len()
                invariant
                    *goal == Goal::And(*xs),
                    0 <= i <= xs.len(),
                    forall|j: int| 0 <= j < i ==> !spec_posts(#[trigger] xs[j], *predicate),
                decreases xs.len() - i,
            {
                proof {
                    assert(decreases_to!(*goal => goal->And_0));
                    assert(decreases_to!(*xs => xs[i as int]));
                }
                if posts(&xs[i], predicate) {
                    return true;
                }
                i += 1;
            }
            false
        },
        Goal::Or(a, b) => {
            proof {
                assert(decreases_to!(*goal => goal->Or_0));
                assert(decreases_to!(*goal => goal->Or_1));
            }
            posts(a, predicate) || posts(b, predicate)
        },
        _ => false,
    }
}

/// Some head of the rule, kept or removed, is an occurrence of the predicate.
pub open spec fn head_mentions(rule: Rule, p: Predicate) -> bool {
    ||| exists|i: int| 0 <= i < rule.kept.len() && spec_matches(p, #[trigger] rule.kept[i])
    ||| exists|i: int| 0 <= i < rule.removed.len() && spec_matches(p, #[trigger] rule.removed[i])
}

/// The rule reads, consumes or produces the predicate.
pub open spec fn accesses(rule: Rule, p: Predicate) -> bool {
    head_mentions(rule, p) || spec_posts(rule.body, p)
}

/// Why a declaration does not fit a rule set, in the order the checks are made.
pub open spec fn source_error(rules: Seq<Rule>, d: Declaration) -> Option<&'static str> {
    if d.ground_argument >= d.entry.arity {
        Some(GROUND_OUTSIDE_ARITY)
    } else if d.access_rules.len() == 0 || exists|i: int|
        0 <= i < d.access_rules.len() && #[trigger] d.access_rules[i] >= rules.len() {
        Some(ACCESS_REGION_INVALID)
    } else if exists|r: int|
        0 <= r < rules.len() && accesses(#[trigger] rules[r], d.resource)
            && !d.access_rules@.contains(r as usize) {
        Some(ACCESS_OUTSIDE_REGION)
    } else if !exists|r: int| 0 <= r < rules.len() && accesses(#[trigger] rules[r], d.resource) {
        Some(RESOURCE_ABSENT)
    } else if !exists|r: int| 0 <= r < rules.len() && head_mentions(#[trigger] rules[r], d.entry) {
        Some(ENTRY_ABSENT)
    } else {
        None
    }
}

/// Every initial entry occurrence has a ground declared argument.
pub open spec fn query_ok(d: Declaration, query: Query) -> bool {
    forall|i: int|
        0 <= i < query.constraints.len() && spec_matches(d.entry, #[trigger] query.constraints[i])
            ==> spec_ground(query.constraints[i].args[d.ground_argument as int])
}

/// The declared argument exists in every entry occurrence of the query.
pub open spec fn query_indexable(d: Declaration, query: Query) -> bool {
    forall|i: int|
        0 <= i < query.constraints.len() && spec_matches(d.entry, #[trigger] query.constraints[i])
            ==> d.ground_argument < query.constraints[i].args.len()
}

pub struct CheckedSource<'a> {
    rules: &'a [Rule],
    declaration: Declaration,
}

fn head_has(heads: &Vec<Constraint>, p: &Predicate) -> (r: bool)
    ensures
        r == exists|i: int| 0 <= i < heads.len() && spec_matches(*p, #[trigger] heads[i]),
{
    let mut i: usize = 0;
    while i < heads.len()
        invariant
            0 <= i <= heads.len(),
            forall|j: int| 0 <= j < i ==> !spec_matches(*p, #[trigger] heads[j]),
        decreases heads.len() - i,
    {
        if p.matches(&heads[i]) {
            return true;
        }
        i += 1;
    }
    false
}

fn contains_index(indices: &Vec<usize>, x: usize) -> (r: bool)
    ensures
        r == indices@.contains(x),
{
    let mut i: usize = 0;
    while i < indices.len()
        invariant
            0 <= i <= indices.len(),
            forall|j: int| 0 <= j < i ==> indices[j] != x,
        decreases indices.len() - i,
    {
        if indices[i] == x {
            return true;
        }
        i += 1;
    }
    false
}

impl<'a> CheckedSource<'a> {
    #[verifier::type_invariant]
    spec fn inv(self) -> bool {
        self.declaration.ground_argument < self.declaration.entry.arity
    }

    /// The checked rule set.
    pub closed spec fn spec_rules(self) -> Seq<Rule> {
        self.rules@
    }

    /// The declaration it was checked against.
    pub closed spec fn spec_declaration(self) -> Declaration {
        self.declaration
    }

    pub fn check(rules: &'a [Rule], declaration: Declaration) -> (r: Result<Self, &'static str>)
        ensures
            match r {
                Ok(s) => {
                    &&& source_error(rules@, declaration) is None
                    &&& s.spec_rules() == rules@
                    &&& s.spec_declaration() == declaration
                },
                Err(e) => source_error(rules@, declaration) == Some(e),
            },
    {
        if declaration.ground_argument >= declaration.entry.arity {
            return Err(GROUND_OUTSIDE_ARITY);
        }
        let mut k: usize = 0;
        let mut outside = declaration.access_rules.is_empty();
        while k < declaration.access_rules.len()
            invariant
                0 <= k <= declaration.access_rules.len(),
                outside == (declaration.access_rules.len() == 0 || exists|i: int|
                    0 <= i < k && #[trigger] declaration.access_rules[i] >= rules.len()),
            decreases declaration.access_rules.len() - k,
        {
            if declaration.access_rules[k] >= rules.len() {
                outside = true;
            }
            k += 1;
        }
        if outside {
            return Err(ACCESS_REGION_INVALID);
        }
        let mut resource_present = false;
        let mut entry_present = false;
        let mut i: usize = 0;
        while i < rules.len()
            invariant
                0 <= i <= rules.len(),
                declaration.ground_argument < declaration.entry.arity,
                !(declaration.access_rules.len() == 0 || exists|j: int|
                    0 <= j < declaration.access_rules.len() && #[trigger] declaration.access_rules[j]
                        >= rules.len()),
                resource_present == exists|r: int|
                    0 <= r < i && accesses(#[trigger] rules[r], declaration.resource),
                entry_present == exists|r: int|
                    0 <= r < i && head_mentions(#[trigger] rules[r], declaration.entry),
                forall|r: int|
                    0 <= r < i && accesses(#[trigger] rules[r], declaration.resource)
                        ==> declaration.access_rules@.contains(r as usize),
            decreases rules.len() - i,
        {
            let rule = &rules[i];
            let resource_access = head_has(&rule.kept, &declaration.resource) || head_has(
                &rule.removed,
                &declaration.resource,
            ) || posts(&rule.body, &declaration.resource);
            let entry_head = head_has(&rule.kept, &declaration.entry) || head_has(
                &rule.removed,
                &declaration.entry,
            );
            proof {
                assert(resource_access == accesses(rules[i as int], declaration.resource));
                assert(entry_head == head_mentions(rules[i as int], declaration.entry));
            }
            resource_present = resource_present || resource_access;
            entry_present = entry_present || entry_head;
            if resource_access && !contains_index(&declaration.access_rules, i) {
                return Err(ACCESS_OUTSIDE_REGION);
            }
            i += 1;
        }
        if !resource_present {
            return Err(RESOURCE_ABSENT);
        }
        if !entry_present {
            return Err(ENTRY_ABSENT);
        }
        Ok(CheckedSource { rules, declaration })
    }

    pub fn rules(&self) -> (r: &'a [Rule])
        ensures
            r@ == self.spec_rules(),
    {
        self.rules
    }

    /// Checks every matching initial entry. No entry satisfies this universal
    /// property vacuously; multiple entries are allowed. This is a submission
    /// boundary, not a promise about entries later produced by rule bodies.
    /// The result is not a transferable certificate for a subsequently mutated
    /// query: callers must check the actual query they submit.
    pub fn check_query(&self, query: &Query) -> (r: Result<(), &'static str>)
        ensures
            r is Ok <==> query_ok(self.spec_declaration(), *query),
            r matches Err(e) ==> e == ENTRY_NOT_GROUND,
    {
        proof {
            use_type_invariant(self);
        }
        check_query(&self.declaration, query)
    }
}

/// Check a query against a declaration whose ground argument every entry occurrence has.
pub fn check_query(declaration: &Declaration, query: &Query) -> (r: Result<(), &'static str>)
    requires
        query_indexable(*declaration, *query),
    ensures
        r is Ok <==> query_ok(*declaration, *query),
        r matches Err(e) ==> e == ENTRY_NOT_GROUND,
{
    let mut i: usize = 0;
    while i < query.constraints.len()
        invariant
            0 <= i <= query.constraints.len(),
            query_indexable(*declaration, *query),
            forall|j: int|
                0 <= j < i && spec_matches(declaration.entry, #[trigger] query.constraints[j])
                    ==> spec_ground(query.constraints[j].args[declaration.ground_argument as int]),
        decreases query.constraints.len() - i,
    {
        let c = &query.constraints[i];
        if declaration.entry.matches(c) && !ground(&c.args[declaration.ground_argument]) {
            return Err(ENTRY_NOT_GROUND);
        }
        i += 1;
    }
    Ok(())
}

/// Whether a declaration is needed before rules are admitted.
#[derive(Clone, Copy)]
pub enum Admission {
    Optional,
    Required,
}


/// Posting does not depend on where a goal stands in a conjunction: two
/// conjunctions of the same goals, in any order, post the same predicates.
pub proof fn lemma_posts_any_order(g: Goal, h: Goal, p: Predicate)
    requires
        g is And,
        h is And,
        forall|i: int|
            #![trigger g->And_0[i]]
            0 <= i < g->And_0.len() ==> exists|j: int| 0 <= j < h->And_0.len() && #[trigger] h->And_0[j] == g->And_0[i],
        forall|j: int|
            #![trigger h->And_0[j]]
            0 <= j < h->And_0.len() ==> exists|i: int| 0 <= i < g->And_0.len() && #[trigger] g->And_0[i] == h->And_0[j],
    ensures
        spec_posts(g, p) == spec_posts(h, p),
{
    let xs = g->And_0;
    let ys = h->And_0;
    if spec_posts(g, p) {
        let i = choose|i: int| 0 <= i < xs.len() && spec_posts(#[trigger] xs[i], p);
        assert(xs[i] == g->And_0[i]);
        let j = choose|j: int| 0 <= j < ys.len() && #[trigger] h->And_0[j] == g->And_0[i];
        assert(spec_posts(ys[j], p));
    }
    if spec_posts(h, p) {
        let j = choose|j: int| 0 <= j < ys.len() && spec_posts(#[trigger] ys[j], p);
        assert(ys[j] == h->And_0[j]);
        let i = choose|i: int| 0 <= i < xs.len() && #[trigger] g->And_0[i] == h->And_0[j];
        assert(spec_posts(xs[i], p));
    }
}

/// A rule outside the declared region whose body is a conjunction with a goal
/// posting the resource, at any position, makes a declaration with a valid
/// ground argument and region fail with the access error.
pub proof fn lemma_conjunct_access_outside(rules: Seq<Rule>, d: Declaration, r: int, i: int)
    requires
        d.ground_argument < d.entry.arity,
        d.access_rules.len() > 0,
        forall|k: int| 0 <= k < d.access_rules.len() ==> #[trigger] d.access_rules[k] < rules.len(),
        0 <= r < rules.len(),
        !d.access_rules@.contains(r as usize),
        rules[r].body is And,
        0 <= i < rules[r].body->And_0.len(),
        spec_posts(rules[r].body->And_0[i], d.resource),
    ensures
        source_error(rules, d) == Some(ACCESS_OUTSIDE_REGION),
{
    let xs = rules[r].body->And_0;
    assert(spec_posts(xs[i], d.resource));
    assert(spec_posts(rules[r].body, d.resource));
    assert(accesses(rules[r], d.resource));
}


/// A disjunction posts the same predicates whichever way round its branches stand.
pub proof fn lemma_posts_either_branch(g: Goal, h: Goal, p: Predicate)
    requires
        g is Or,
        h is Or,
        *g->Or_0 == *h->Or_1,
        *g->Or_1 == *h->Or_0,
    ensures
        spec_posts(g, p) == spec_posts(h, p),
{
}

/// A rule outside the declared region whose body is a disjunction with a
/// branch posting the resource makes a declaration with a valid ground
/// argument and region fail with the access error.
pub proof fn lemma_branch_access_outside(rules: Seq<Rule>, d: Declaration, r: int, left: bool)
    requires
        d.ground_argument < d.entry.arity,
        d.access_rules.len() > 0,
        forall|k: int| 0 <= k < d.access_rules.len() ==> #[trigger] d.access_rules[k] < rules.len(),
        0 <= r < rules.len(),
        !d.access_rules@.contains(r as usize),
        rules[r].body is Or,
        spec_posts(if left { *rules[r].body->Or_0 } else { *rules[r].body->Or_1 }, d.resource),
    ensures
        source_error(rules, d) == Some(ACCESS_OUTSIDE_REGION),
{
    assert(spec_posts(rules[r].body, d.resource));
    assert(accesses(rules[r], d.resource));
}

} // verus!
