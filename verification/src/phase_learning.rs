//! Failed regions learned over the queries of one finite phase.
//!
//! A region is the live goals of a query's initial state, its variables
//! renamed in order of first occurrence, with the atoms each of them may still
//! take. A query that completes without a solution teaches its region; no
//! successful result is kept. A learner either subtracts the known regions of
//! the same goals from a new query's states before solving them (eager), or
//! drops the newest state once a known region covers it (when covered).
use crate::finite::{Budget, Error, Limits, contains_text, texts_set};
use crate::order::{Order, compare_term, lemma_term_order};
use crate::phase::Prepared;
use crate::phase_solve::{Event, Machine, Report, ReportV, State, StateV, Work, WorkV, fork, fork_v, lemma_step, report_of, resolve, resolve_v, start, start_v, states_v, states_wf, step_v};
use crate::syntax::Query;
use crate::syntax::{Constraint, ConstraintV, Term, TermV, Var, constraint_v, constraints_v, term_v, terms_v};
use std::collections::VecDeque;
use vstd::prelude::*;

verus! {

/// The error for a region variable without a domain.
pub const FINITE_VARIABLES: &'static str = "learning requires finite private variables";

/// The error for a region variable whose root lost its domain.
pub const LOST_DOMAIN: &'static str = "lost finite learning domain";

/// The error for a region variable bound to a compound term.
pub const NONFINITE_VALUE: &'static str = "nonfinite learning value";

/// The position of `v` among distinct variables.
pub open spec fn slot_of(vars: Seq<u64>, v: u64) -> int {
    choose|i: int| 0 <= i < vars.len() && #[trigger] vars[i] == v
}

/// A term with each variable replaced by its position among the variables met
/// so far, a new variable taking the next position.
pub open spec fn renamed_v(t: TermV, vars: Seq<u64>) -> (TermV, Seq<u64>)
    decreases t, 0nat,
{
    match t {
        TermV::Var(v) => if vars.contains(v) {
            (TermV::Var(slot_of(vars, v) as u64), vars)
        } else {
            (TermV::Var(vars.len() as u64), vars.push(v))
        },
        TermV::App(n, xs) => {
            let (ys, w) = renamed_all_v(xs, vars);
            (TermV::App(n, ys), w)
        },
    }
}

/// Terms renamed one after another.
pub open spec fn renamed_all_v(xs: Seq<TermV>, vars: Seq<u64>) -> (Seq<TermV>, Seq<u64>)
    decreases xs, 1nat,
{
    if xs.len() == 0 {
        (Seq::empty(), vars)
    } else {
        let (ys, w) = renamed_all_v(xs.drop_last(), vars);
        let (y, w2) = renamed_v(xs.last(), w);
        (ys.push(y), w2)
    }
}

/// Constraints renamed one after another.
pub open spec fn renamed_cs_v(cs: Seq<ConstraintV>, vars: Seq<u64>) -> (Seq<ConstraintV>, Seq<u64>)
    decreases cs.len(),
{
    if cs.len() == 0 {
        (Seq::empty(), vars)
    } else {
        let (ds, w) = renamed_cs_v(cs.drop_last(), vars);
        let (args, w2) = renamed_all_v(cs.last().args, w);
        (ds.push(ConstraintV { name: cs.last().name, args }), w2)
    }
}

/// The value of a region: renamed goals and, per variable, its atoms.
pub struct RegionV {
    pub goals: Seq<ConstraintV>,
    pub domains: Seq<Set<Seq<char>>>,
}

/// The region of a state, with the state's variables in the order of their
/// renaming; an error where one of them has no domain.
pub open spec fn region_v(st: StateV) -> Result<(RegionV, Seq<u64>), Error> {
    let (goals, vars) = renamed_cs_v(st.live, Seq::empty());
    if forall|i: int| 0 <= i < vars.len() ==> st.domains.contains_key(#[trigger] vars[i]) {
        Ok((RegionV { goals, domains: vars.map_values(|v: u64| st.domains[v].dom()) }, vars))
    } else {
        Err(Error::Source(FINITE_VARIABLES))
    }
}

/// Lists of texts as sets.
pub open spec fn sets_v(d: Seq<Vec<String>>) -> Seq<Set<Seq<char>>> {
    d.map_values(|x: Vec<String>| texts_set(x@))
}

/// Renamed goals with the atoms their variables may take.
pub struct Region {
    goals: Vec<Constraint>,
    domains: Vec<Vec<String>>,
}

impl Region {
    pub closed spec fn view_v(&self) -> RegionV {
        RegionV { goals: constraints_v(self.goals@), domains: sets_v(self.domains@) }
    }
}

/// The position of `v` among distinct variables, if it is one of them.
fn slot(vars: &Vec<u64>, v: u64) -> (r: Option<usize>)
    requires
        vars@.no_duplicates(),
    ensures
        match r {
            Some(i) => i < vars@.len() && vars@[i as int] == v && slot_of(vars@, v) == i,
            None => !vars@.contains(v),
        },
{
    let mut i: usize = 0;
    while i < vars.len()
        invariant
            0 <= i <= vars@.len(),
            vars@.no_duplicates(),
            forall|j: int| 0 <= j < i ==> #[trigger] vars@[j] != v,
        decreases vars.len() - i,
    {
        if vars[i] == v {
            proof {
                let k = slot_of(vars@, v);
                assert(vars@[i as int] == v);
                assert(0 <= k < vars@.len() && vars@[k] == v);
            }
            return Some(i);
        }
        i += 1;
    }
    None
}

/// Rename a term.
fn rename(t: &Term, vars: &mut Vec<u64>) -> (r: Term)
    requires
        old(vars)@.no_duplicates(),
    ensures
        final(vars)@.no_duplicates(),
        (term_v(r), final(vars)@) == renamed_v(term_v(*t), old(vars)@),
    decreases t,
{
    match t {
        Term::Var(v) => match slot(vars, v.0) {
            Some(i) => Term::Var(Var(i as u64)),
            None => {
                let n = vars.len();
                vars.push(v.0);
                proof {
                    assert forall|a: int, b: int| 0 <= a < b < vars@.len() implies vars@[a] != vars@[b] by {
                        if b == n {
                            assert(old(vars)@.contains(old(vars)@[a]));
                        }
                    }
                }
                Term::Var(Var(n as u64))
            },
        },
        Term::App(n, xs) => {
            let ghost args = term_v(*t)->App_1;
            let ghost v0 = vars@;
            let mut ys: Vec<Term> = Vec::new();
            let mut i: usize = 0;
            proof {
                assert(args.take(0) =~= Seq::<TermV>::empty());
                assert(terms_v(ys@) =~= Seq::<TermV>::empty());
            }
            while i < xs.len()
                invariant
                    *t == Term::App(*n, *xs),
                    args == term_v(*t)->App_1,
                    args.len() == xs@.len(),
                    0 <= i <= xs.len(),
                    vars@.no_duplicates(),
                    (terms_v(ys@), vars@) == renamed_all_v(args.take(i as int), v0),
                decreases xs.len() - i,
            {
                proof {
                    assert(decreases_to!(*t => t->App_1));
                    assert(decreases_to!(*xs => xs[i as int]));
                    assert(args[i as int] == term_v(xs@[i as int]));
                    assert(args.take(i + 1).drop_last() =~= args.take(i as int));
                    assert(args.take(i + 1).last() == args[i as int]);
                }
                let ghost before = ys@;
                let y = rename(&xs[i], vars);
                ys.push(y);
                proof {
                    assert(terms_v(ys@) =~= terms_v(before).push(term_v(y)));
                }
                i += 1;
            }
            let r = Term::App(n.clone(), ys);
            proof {
                assert(args.take(i as int) =~= args);
                assert(term_v(r)->App_1 =~= terms_v(ys@));
            }
            r
        },
    }
}

/// Rename terms one after another.
fn rename_all(xs: &Vec<Term>, vars: &mut Vec<u64>) -> (r: Vec<Term>)
    requires
        old(vars)@.no_duplicates(),
    ensures
        final(vars)@.no_duplicates(),
        (terms_v(r@), final(vars)@) == renamed_all_v(terms_v(xs@), old(vars)@),
{
    let ghost args = terms_v(xs@);
    let ghost v0 = vars@;
    let mut ys: Vec<Term> = Vec::new();
    let mut i: usize = 0;
    proof {
        assert(args.take(0) =~= Seq::<TermV>::empty());
        assert(terms_v(ys@) =~= Seq::<TermV>::empty());
    }
    while i < xs.len()
        invariant
            args == terms_v(xs@),
            0 <= i <= xs.len(),
            vars@.no_duplicates(),
            (terms_v(ys@), vars@) == renamed_all_v(args.take(i as int), v0),
        decreases xs.len() - i,
    {
        proof {
            assert(args.take(i + 1).drop_last() =~= args.take(i as int));
            assert(args.take(i + 1).last() == args[i as int]);
        }
        let ghost before = ys@;
        let y = rename(&xs[i], vars);
        ys.push(y);
        proof {
            assert(terms_v(ys@) =~= terms_v(before).push(term_v(y)));
        }
        i += 1;
    }
    proof {
        assert(args.take(i as int) =~= args);
    }
    ys
}

/// The region of a state, with the state's variables in renaming order.
fn region(st: &State) -> (r: Result<(Region, Vec<u64>), Error>)
    requires
        st.wf(),
    ensures
        match region_v(st.view_v()) {
            Ok((rv, vars)) => r matches Ok((reg, vs)) && reg.view_v() == rv && vs@ == vars && vars.no_duplicates(),
            Err(e) => r matches Err(e2) && e2 == e,
        },
{
    proof {
        st.reveal_view();
    }
    let ghost live = st.view_v().live;
    let mut vars: Vec<u64> = Vec::new();
    let mut goals: Vec<Constraint> = Vec::new();
    let mut i: usize = 0;
    proof {
        assert(live.take(0) =~= Seq::<ConstraintV>::empty());
        assert(constraints_v(goals@) =~= Seq::<ConstraintV>::empty());
        assert(vars@.no_duplicates());
    }
    while i < st.live.len()
        invariant
            live == constraints_v(st.live@),
            0 <= i <= st.live@.len(),
            vars@.no_duplicates(),
            (constraints_v(goals@), vars@) == renamed_cs_v(live.take(i as int), Seq::empty()),
        decreases st.live.len() - i,
    {
        let c = &st.live[i];
        proof {
            assert(live[i as int] == constraint_v(*c));
            assert(live.take(i + 1).drop_last() =~= live.take(i as int));
            assert(live.take(i + 1).last() == live[i as int]);
        }
        let ghost before = goals@;
        let args = rename_all(&c.args, &mut vars);
        let d = Constraint { name: c.name.clone(), args };
        goals.push(d);
        proof {
            assert(constraints_v(goals@) =~= constraints_v(before).push(constraint_v(d)));
        }
        i += 1;
    }
    proof {
        assert(live.take(i as int) =~= live);
    }
    let ghost vs = vars@;
    let ghost doms = st.view_v().domains;
    let mut domains: Vec<Vec<String>> = Vec::new();
    let mut k: usize = 0;
    while k < vars.len()
        invariant
            vs == vars@,
            st.wf(),
            st.domains.wf(),
            live == st.view_v().live,
            vs == renamed_cs_v(live, Seq::empty()).1,
            doms == st.view_v().domains,
            doms == st.domains.map(),
            0 <= k <= vars@.len(),
            domains@.len() == k,
            forall|j: int| 0 <= j < k ==> doms.contains_key(#[trigger] vs[j]) && texts_set(domains@[j]@) == doms[vs[j]].dom(),
        decreases vars.len() - k,
    {
        match st.domains.get(vars[k]) {
            Some(d) => {
                domains.push(d.keys());
            },
            None => {
                proof {
                    assert(!doms.contains_key(vs[k as int]));
                }
                return Err(Error::Source(FINITE_VARIABLES));
            },
        }
        k += 1;
    }
    let reg = Region { goals, domains };
    proof {
        assert(reg.view_v().domains =~= vs.map_values(|v: u64| doms[v].dom()));
    }
    Ok((reg, vars))
}

/// Whether every text of `a` is one of `b`.
fn subset_texts(a: &Vec<String>, b: &Vec<String>) -> (r: bool)
    ensures
        r == texts_set(a@).subset_of(texts_set(b@)),
{
    let mut i: usize = 0;
    while i < a.len()
        invariant
            0 <= i <= a@.len(),
            forall|j: int| 0 <= j < i ==> texts_set(b@).contains(#[trigger] a@[j]@),
        decreases a.len() - i,
    {
        if !contains_text(b, &a[i]) {
            proof {
                assert(texts_set(a@).contains(a@[i as int]@));
            }
            return false;
        }
        i += 1;
    }
    proof {
        assert forall|x: Seq<char>| #[trigger] texts_set(a@).contains(x) implies texts_set(b@).contains(x) by {
            let j = choose|j: int| 0 <= j < a@.len() && #[trigger] a@[j]@ == x;
            assert(texts_set(b@).contains(a@[j]@));
        }
    }
    true
}

/// Whether two terms have equal values.
fn same_term(a: &Term, b: &Term) -> (r: bool)
    ensures
        r == (term_v(*a) == term_v(*b)),
{
    proof {
        lemma_term_order(term_v(*a), term_v(*b));
    }
    compare_term(a, b) == Order::Equal
}

/// Whether two lists of constraints have equal values.
fn same_constraints(a: &Vec<Constraint>, b: &Vec<Constraint>) -> (r: bool)
    ensures
        r == (constraints_v(a@) == constraints_v(b@)),
{
    if a.len() != b.len() {
        proof {
            assert(constraints_v(a@).len() != constraints_v(b@).len());
        }
        return false;
    }
    let mut i: usize = 0;
    while i < a.len()
        invariant
            a@.len() == b@.len(),
            0 <= i <= a@.len(),
            forall|j: int| 0 <= j < i ==> constraint_v(#[trigger] a@[j]) == constraint_v(b@[j]),
        decreases a.len() - i,
    {
        let x = &a[i];
        let y = &b[i];
        let mut same = x.name == y.name && x.args.len() == y.args.len();
        proof {
            assert(constraint_v(*x).args.len() == x.args@.len());
            assert(constraint_v(*y).args.len() == y.args@.len());
        }
        let mut k: usize = 0;
        while same && k < x.args.len()
            invariant
                same ==> x.name@ == y.name@ && x.args@.len() == y.args@.len(),
                0 <= k <= x.args@.len(),
                same ==> forall|j: int| 0 <= j < k ==> term_v(#[trigger] x.args@[j]) == term_v(y.args@[j]),
                !same ==> constraint_v(*x) != constraint_v(*y),
            decreases x.args.len() - k,
        {
            if !same_term(&x.args[k], &y.args[k]) {
                proof {
                    assert(constraint_v(*x).args[k as int] != constraint_v(*y).args[k as int]);
                }
                same = false;
            }
            k += 1;
        }
        if !same {
            proof {
                if x.name@ != y.name@ || x.args@.len() != y.args@.len() {
                    assert(constraint_v(*x).args.len() == x.args@.len());
                    assert(constraint_v(*y).args.len() == y.args@.len());
                }
                assert(constraints_v(a@)[i as int] != constraints_v(b@)[i as int]);
            }
            return false;
        }
        proof {
            assert(constraint_v(*x).args =~= constraint_v(*y).args);
        }
        i += 1;
    }
    proof {
        assert(constraints_v(a@) =~= constraints_v(b@));
    }
    true
}

/// Whether two regions have equal values.
fn same_region(a: &Region, b: &Region) -> (r: bool)
    ensures
        r == (a.view_v() == b.view_v()),
{
    if !same_constraints(&a.goals, &b.goals) {
        return false;
    }
    if a.domains.len() != b.domains.len() {
        proof {
            assert(a.view_v().domains.len() != b.view_v().domains.len());
        }
        return false;
    }
    let mut i: usize = 0;
    while i < a.domains.len()
        invariant
            a.domains@.len() == b.domains@.len(),
            0 <= i <= a.domains@.len(),
            forall|j: int| 0 <= j < i ==> texts_set(#[trigger] a.domains@[j]@) == texts_set(b.domains@[j]@),
        decreases a.domains.len() - i,
    {
        if !(subset_texts(&a.domains[i], &b.domains[i]) && subset_texts(&b.domains[i], &a.domains[i])) {
            proof {
                assert(a.view_v().domains[i as int] != b.view_v().domains[i as int]);
            }
            return false;
        }
        proof {
            assert(texts_set(a.domains@[i as int]@) =~= texts_set(b.domains@[i as int]@));
        }
        i += 1;
    }
    proof {
        assert(a.view_v().domains =~= b.view_v().domains);
    }
    true
}

/// How a learner uses its known regions.
#[derive(Clone, Copy, Debug, PartialEq, Eq, Structural)]
pub enum Pruning {
    /// Subtract known regions from a query's states before solving them.
    Eager,
    /// Drop the newest state once a known region covers it.
    WhenCovered,
}

/// Diagnostic counts of a learner: regions looked at, states or queries
/// excluded by a region, and regions learned.
#[derive(Clone, Copy, Debug, Default, PartialEq, Eq, Structural)]
pub struct Stats {
    pub probes: usize,
    pub excluded_regions: usize,
    pub learned_regions: usize,
}

/// Counts with more probes, exclusions and learned regions, where diagnostics are kept.
pub open spec fn counted(s: Stats, diagnostics: bool, probes: nat, excluded: nat, learned: nat) -> Stats {
    if diagnostics {
        Stats {
            probes: (s.probes + probes) as usize,
            excluded_regions: (s.excluded_regions + excluded) as usize,
            learned_regions: (s.learned_regions + learned) as usize,
        }
    } else {
        s
    }
}

/// A known region covers a candidate of the same goals whose every domain lies
/// within the known one's.
pub open spec fn covers(known: RegionV, cand: RegionV) -> bool {
    &&& cand.goals == known.goals
    &&& forall|i: int| 0 <= i < cand.domains.len() && i < known.domains.len() ==> (#[trigger] cand.domains[i]).subset_of(known.domains[i])
}

/// Whether a region from the `j`-th on covers the candidate, and how many are
/// looked at: up to the first that does, or all of them.
pub open spec fn cover_scan(regions: Seq<RegionV>, cand: RegionV, j: int) -> (bool, nat)
    decreases regions.len() - j,
{
    if j < 0 || j >= regions.len() {
        (false, 0)
    } else if covers(regions[j], cand) {
        (true, 1)
    } else {
        let (c, n) = cover_scan(regions, cand, j + 1);
        (c, n + 1)
    }
}

/// Some atom of the domain lies in the set.
pub open spec fn meets(d: Map<Seq<char>, u128>, s: Set<Seq<char>>) -> bool {
    exists|x: Seq<char>| #[trigger] d.contains_key(x) && s.contains(x)
}

/// Every variable of a state can still take one of a known region's atoms.
pub open spec fn overlaps(vars: Seq<u64>, doms: Seq<Set<Seq<char>>>, st: StateV) -> bool {
    forall|i: int| 0 <= i < vars.len() && i < doms.len() ==> #[trigger] meets(st.domains[vars[i]], doms[i])
}

/// The atoms of a domain inside a set (`keep`), or outside it.
pub open spec fn inside_v(d: Map<Seq<char>, u128>, s: Set<Seq<char>>, keep: bool) -> Map<Seq<char>, u128> {
    d.restrict(Set::new(|x: Seq<char>| s.contains(x) == keep))
}

/// A state with a new domain for `v`.
pub open spec fn with_domain(st: StateV, v: u64, d: Map<Seq<char>, u128>) -> StateV {
    StateV { live: st.live, bindings: st.bindings, domains: st.domains.insert(v, d), weight: st.weight }
}

/// The boxes of a state outside a known region, from the `i`-th variable on:
/// where the variable has atoms outside the region, a state with just those is
/// queued, each costing a partition; the variable then keeps only the atoms
/// inside the region for the boxes after it.
pub open spec fn boxes_v(
    vars: Seq<u64>,
    doms: Seq<Set<Seq<char>>>,
    st: StateV,
    i: int,
    out: Seq<StateV>,
    report: ReportV,
    limits: Limits,
) -> Result<(Seq<StateV>, ReportV), Error>
    decreases vars.len() - i,
{
    if i < 0 || i >= vars.len() || i >= doms.len() {
        Ok((out, report))
    } else {
        let v = vars[i];
        let outside = inside_v(st.domains[v], doms[i], false);
        let rest = with_domain(st, v, inside_v(st.domains[v], doms[i], true));
        if outside.len() > 0 {
            match fork_v(report, limits) {
                Err(e) => Err(e),
                Ok(r2) => boxes_v(vars, doms, rest, i + 1, out.push(with_domain(st, v, outside)), r2, limits),
            }
        } else {
            boxes_v(vars, doms, rest, i + 1, out, report, limits)
        }
    }
}

/// Subtracting a known region from the queued states from the `k`-th on: a
/// state that does not overlap it is kept, one that does is replaced by its
/// boxes outside it. Also the count of states excluded, up to an error.
pub open spec fn subtract_v(
    vars: Seq<u64>,
    doms: Seq<Set<Seq<char>>>,
    queue: Seq<StateV>,
    k: int,
    out: Seq<StateV>,
    report: ReportV,
    limits: Limits,
    excluded: nat,
) -> (Result<(Seq<StateV>, ReportV), Error>, nat)
    decreases queue.len() - k,
{
    if k < 0 || k >= queue.len() {
        (Ok((out, report)), excluded)
    } else if !overlaps(vars, doms, queue[k]) {
        subtract_v(vars, doms, queue, k + 1, out.push(queue[k]), report, limits, excluded)
    } else {
        match boxes_v(vars, doms, queue[k], 0, out, report, limits) {
            Err(e) => (Err(e), excluded + 1),
            Ok((o2, r2)) => subtract_v(vars, doms, queue, k + 1, o2, r2, limits, excluded + 1),
        }
    }
}

/// Subtracting the known regions of the candidate's goals, from the `j`-th on,
/// while states remain; also the counts of regions looked at and of states
/// excluded, up to an error.
pub open spec fn eager_v(
    vars: Seq<u64>,
    cand: RegionV,
    regions: Seq<RegionV>,
    j: int,
    queue: Seq<StateV>,
    report: ReportV,
    limits: Limits,
    probes: nat,
    excluded: nat,
) -> (Result<(Seq<StateV>, ReportV), Error>, nat, nat)
    decreases regions.len() - j,
{
    if j < 0 || j >= regions.len() || queue.len() == 0 {
        (Ok((queue, report)), probes, excluded)
    } else if cand.goals != regions[j].goals {
        eager_v(vars, cand, regions, j + 1, queue, report, limits, probes + 1, excluded)
    } else {
        match subtract_v(vars, regions[j].domains, queue, 0, Seq::empty(), report, limits, excluded) {
            (Err(e), x) => (Err(e), probes + 1, x),
            (Ok((q2, r2)), x) => eager_v(vars, cand, regions, j + 1, q2, r2, limits, probes + 1, x),
        }
    }
}

/// Every variable has a domain in the state.
pub open spec fn has_vars(st: StateV, vars: Seq<u64>) -> bool {
    forall|i: int| 0 <= i < vars.len() ==> st.domains.contains_key(#[trigger] vars[i])
}

/// Every queued state has a domain for every variable.
pub open spec fn all_have_vars(q: Seq<StateV>, vars: Seq<u64>) -> bool {
    forall|k: int| 0 <= k < q.len() ==> has_vars(#[trigger] q[k], vars)
}

proof fn lemma_boxes(
    vars: Seq<u64>,
    doms: Seq<Set<Seq<char>>>,
    st: StateV,
    i: int,
    out: Seq<StateV>,
    report: ReportV,
    limits: Limits,
)
    requires
        0 <= i,
        has_vars(st, vars),
        all_have_vars(out, vars),
    ensures
        boxes_v(vars, doms, st, i, out, report, limits) matches Ok((o, r2)) ==> all_have_vars(o, vars) && o.len() + report.partitions
            == out.len() + r2.partitions && r2.steps == report.steps && r2.solutions == report.solutions && r2.partitions
            >= report.partitions && (report.partitions <= limits.partitions ==> r2.partitions <= limits.partitions),
    decreases vars.len() - i,
{
    if i < vars.len() && i < doms.len() {
        let v = vars[i];
        let outside = inside_v(st.domains[v], doms[i], false);
        let rest = with_domain(st, v, inside_v(st.domains[v], doms[i], true));
        assert(has_vars(rest, vars)) by {
            assert forall|a: int| 0 <= a < vars.len() implies rest.domains.contains_key(#[trigger] vars[a]) by {
                assert(st.domains.contains_key(vars[a]));
            }
        }
        if outside.len() > 0 {
            if let Ok(r2) = fork_v(report, limits) {
                let sib = with_domain(st, v, outside);
                assert(has_vars(sib, vars)) by {
                    assert forall|a: int| 0 <= a < vars.len() implies sib.domains.contains_key(#[trigger] vars[a]) by {
                        assert(st.domains.contains_key(vars[a]));
                    }
                }
                assert(all_have_vars(out.push(sib), vars)) by {
                    assert forall|k: int| 0 <= k < out.push(sib).len() implies has_vars(#[trigger] out.push(sib)[k], vars) by {
                        if k < out.len() {
                            assert(out.push(sib)[k] == out[k]);
                        }
                    }
                }
                lemma_boxes(vars, doms, rest, i + 1, out.push(sib), r2, limits);
            }
        } else {
            lemma_boxes(vars, doms, rest, i + 1, out, report, limits);
        }
    }
}

proof fn lemma_subtract(
    vars: Seq<u64>,
    doms: Seq<Set<Seq<char>>>,
    queue: Seq<StateV>,
    k: int,
    out: Seq<StateV>,
    report: ReportV,
    limits: Limits,
    excluded: nat,
)
    requires
        0 <= k <= queue.len(),
        all_have_vars(queue, vars),
        all_have_vars(out, vars),
    ensures
        ({
            let (res, x) = subtract_v(vars, doms, queue, k, out, report, limits, excluded);
            &&& excluded <= x <= excluded + queue.len() - k
            &&& res matches Ok((o, r2)) ==> all_have_vars(o, vars) && o.len() + report.partitions <= out.len() + queue.len() - k
                + r2.partitions && r2.steps == report.steps && r2.solutions == report.solutions && r2.partitions >= report.partitions
                && (report.partitions <= limits.partitions ==> r2.partitions <= limits.partitions)
        }),
    decreases queue.len() - k,
{
    if k < queue.len() {
        assert(has_vars(queue[k], vars));
        if !overlaps(vars, doms, queue[k]) {
            assert(all_have_vars(out.push(queue[k]), vars)) by {
                assert forall|a: int| 0 <= a < out.push(queue[k]).len() implies has_vars(#[trigger] out.push(queue[k])[a], vars) by {
                    if a < out.len() {
                        assert(out.push(queue[k])[a] == out[a]);
                    }
                }
            }
            lemma_subtract(vars, doms, queue, k + 1, out.push(queue[k]), report, limits, excluded);
        } else {
            lemma_boxes(vars, doms, queue[k], 0, out, report, limits);
            if let Ok((o2, r2)) = boxes_v(vars, doms, queue[k], 0, out, report, limits) {
                lemma_subtract(vars, doms, queue, k + 1, o2, r2, limits, excluded + 1);
            }
        }
    }
}

/// The values of regions.
pub open spec fn regions_v(q: Seq<Region>) -> Seq<RegionV> {
    q.map_values(|r: Region| r.view_v())
}

/// Whether a known region covers a candidate.
fn covers_exec(known: &Region, cand: &Region) -> (r: bool)
    ensures
        r == covers(known.view_v(), cand.view_v()),
{
    if !same_constraints(&cand.goals, &known.goals) {
        return false;
    }
    let mut i: usize = 0;
    while i < cand.domains.len() && i < known.domains.len()
        invariant
            0 <= i <= cand.domains@.len(),
            forall|j: int| 0 <= j < i && j < known.domains@.len() ==> (#[trigger] sets_v(cand.domains@)[j]).subset_of(sets_v(known.domains@)[j]),
        decreases cand.domains.len() - i,
    {
        if !subset_texts(&cand.domains[i], &known.domains[i]) {
            proof {
                assert(cand.view_v().domains[i as int] == sets_v(cand.domains@)[i as int]);
                assert(known.view_v().domains[i as int] == sets_v(known.domains@)[i as int]);
                assert(!cand.view_v().domains[i as int].subset_of(known.view_v().domains[i as int]));
            }
            return false;
        }
        i += 1;
    }
    true
}

/// Whether some known region covers the candidate, and how many were looked at.
fn cover_scan_exec(regions: &VecDeque<Region>, cand: &Region) -> (r: (bool, usize))
    ensures
        r.0 == cover_scan(regions_v(regions@), cand.view_v(), 0).0,
        r.1 == cover_scan(regions_v(regions@), cand.view_v(), 0).1,
{
    let ghost rv = regions_v(regions@);
    let ghost cv = cand.view_v();
    let mut j: usize = 0;
    while j < regions.len()
        invariant
            rv == regions_v(regions@),
            cv == cand.view_v(),
            0 <= j <= regions@.len(),
            cover_scan(rv, cv, 0).0 == cover_scan(rv, cv, j as int).0,
            cover_scan(rv, cv, 0).1 == cover_scan(rv, cv, j as int).1 + j,
        decreases regions.len() - j,
    {
        if covers_exec(&regions[j], cand) {
            return (true, j + 1);
        }
        j += 1;
    }
    (false, j)
}

/// Whether every variable of a state can still take one of the known atoms.
fn overlaps_exec(vars: &Vec<u64>, known: &Vec<Vec<String>>, st: &State) -> (r: bool)
    requires
        st.wf(),
        has_vars(st.view_v(), vars@),
    ensures
        r == overlaps(vars@, sets_v(known@), st.view_v()),
{
    proof {
        st.reveal_view();
    }
    let mut i: usize = 0;
    while i < vars.len() && i < known.len()
        invariant
            st.domains.wf(),
            st.view_v().domains == st.domains.map(),
            has_vars(st.view_v(), vars@),
            0 <= i <= vars@.len(),
            forall|j: int| 0 <= j < i && j < known@.len() ==> #[trigger] meets(st.view_v().domains[vars@[j]], sets_v(known@)[j]),
        decreases vars.len() - i,
    {
        let v = vars[i];
        proof {
            assert(st.view_v().domains.contains_key(vars@[i as int]));
        }
        match st.domains.get(v) {
            Some(d) => {
                if !d.some_in(&known[i]) {
                    proof {
                        assert(!meets(st.view_v().domains[vars@[i as int]], sets_v(known@)[i as int]));
                    }
                    return false;
                }
            },
            None => {
                return false;
            },
        }
        i += 1;
    }
    true
}

/// Queue the boxes of a state outside a known region.
fn boxes(vars: &Vec<u64>, known: &Vec<Vec<String>>, st: State, out: &mut Vec<State>, report: &mut Report, limits: &Limits) -> (r: Result<(), Error>)
    requires
        st.wf(),
        states_wf(old(out)@),
        has_vars(st.view_v(), vars@),
        old(report).partitions <= limits.partitions,
    ensures
        match boxes_v(vars@, sets_v(known@), st.view_v(), 0, states_v(old(out)@), report_of(*old(report)), *limits) {
            Ok((o, r2)) => r is Ok && states_v(final(out)@) == o && states_wf(final(out)@) && report_of(*final(report)) == r2
                && final(report).partitions <= limits.partitions,
            Err(e) => r == Err::<(), Error>(e),
        },
{
    let ghost doms = sets_v(known@);
    let ghost target = boxes_v(vars@, doms, st.view_v(), 0, states_v(out@), report_of(*report), *limits);
    let mut cur = st;
    let mut i: usize = 0;
    while i < vars.len() && i < known.len()
        invariant
            doms == sets_v(known@),
            cur.wf(),
            states_wf(out@),
            has_vars(cur.view_v(), vars@),
            report.partitions <= limits.partitions,
            0 <= i <= vars@.len(),
            boxes_v(vars@, doms, cur.view_v(), i as int, states_v(out@), report_of(*report), *limits) == target,
            target == boxes_v(vars@, sets_v(known@), st.view_v(), 0, states_v(old(out)@), report_of(*old(report)), *limits),
        decreases vars.len() - i,
    {
        let v = vars[i];
        let ghost c0 = cur.view_v();
        proof {
            cur.reveal_view();
            assert(c0.domains.contains_key(vars@[i as int]));
        }
        let (outside, inside) = match cur.domains.get(v) {
            Some(d) => (d.restricted(&known[i], false), d.restricted(&known[i], true)),
            None => {
                return Ok(());
            },
        };
        proof {
            assert(doms.len() == known@.len());
            assert(doms[i as int] == texts_set(known@[i as int]@));
            assert(outside.weights() == inside_v(c0.domains[v], doms[i as int], false));
            assert(inside.weights() == inside_v(c0.domains[v], doms[i as int], true));
            outside.lemma_finite();
        }
        if outside.len() > 0 {
            let ghost r0 = report_of(*report);
            match fork(report, limits) {
                Ok(()) => {},
                Err(e) => {
                    proof {
                        assert(fork_v(r0, *limits) == Err::<ReportV, Error>(e));
                        assert(boxes_v(vars@, doms, c0, i as int, states_v(out@), r0, *limits) == Err::<(Seq<StateV>, ReportV), Error>(e));
                        assert(target == Err::<(Seq<StateV>, ReportV), Error>(e));
                    }
                    return Err(e);
                },
            }
            let mut sib = cur.copy();
            proof {
                sib.reveal_view();
            }
            sib.domains.insert(v, outside);
            let ghost q0 = out@;
            proof {
                sib.reveal_view();
                assert(sib.view_v() == with_domain(c0, v, outside.weights()));
            }
            out.push(sib);
            proof {
                assert(states_v(out@) =~= states_v(q0).push(sib.view_v()));
                assert forall|k: int| 0 <= k < out@.len() implies (#[trigger] out@[k]).wf() by {
                    if k < q0.len() {
                        assert(out@[k] == q0[k]);
                    }
                }
            }
        }
        cur.domains.insert(v, inside);
        proof {
            cur.reveal_view();
            assert(cur.view_v() == with_domain(c0, v, inside.weights()));
            assert forall|a: int| 0 <= a < vars@.len() implies cur.view_v().domains.contains_key(#[trigger] vars@[a]) by {
                assert(c0.domains.contains_key(vars@[a]));
            }
        }
        i += 1;
    }
    Ok(())
}

proof fn lemma_eager(
    vars: Seq<u64>,
    cand: RegionV,
    regions: Seq<RegionV>,
    j: int,
    queue: Seq<StateV>,
    report: ReportV,
    limits: Limits,
    probes: nat,
    excluded: nat,
)
    requires
        0 <= j <= regions.len(),
        all_have_vars(queue, vars),
        queue.len() <= 1 + report.partitions,
        report.partitions <= limits.partitions,
    ensures
        ({
            let (res, p, x) = eager_v(vars, cand, regions, j, queue, report, limits, probes, excluded);
            &&& probes <= p <= probes + regions.len() - j
            &&& excluded <= x <= excluded + (regions.len() - j) * (1 + limits.partitions)
            &&& res matches Ok((q, r)) ==> all_have_vars(q, vars) && q.len() <= 1 + r.partitions && r.partitions <= limits.partitions
                && r.steps == report.steps && r.solutions == report.solutions
        }),
    decreases regions.len() - j,
{
    let n = regions.len() - j;
    let c = 1 + limits.partitions;
    if j < regions.len() && queue.len() > 0 {
        if cand.goals != regions[j].goals {
            lemma_eager(vars, cand, regions, j + 1, queue, report, limits, probes + 1, excluded);
            assert((n - 1) * c <= n * c) by (nonlinear_arith)
                requires
                    n >= 1,
                    c >= 1,
            ;
        } else {
            lemma_subtract(vars, regions[j].domains, queue, 0, Seq::empty(), report, limits, excluded);
            let (res, x) = subtract_v(vars, regions[j].domains, queue, 0, Seq::empty(), report, limits, excluded);
            assert(n * c == (n - 1) * c + c) by (nonlinear_arith);
            if let Ok((q2, r2)) = res {
                lemma_eager(vars, cand, regions, j + 1, q2, r2, limits, probes + 1, x);
            } else {
                assert(0 <= (n - 1) * c) by (nonlinear_arith)
                    requires
                        n >= 1,
                        c >= 1,
                ;
            }
        }
    }
}

/// Subtract a known region from queued states.
fn subtract(
    vars: &Vec<u64>,
    known: &Vec<Vec<String>>,
    queue: Vec<State>,
    report: &mut Report,
    limits: &Limits,
    stats: &mut Stats,
    diagnostics: bool,
    Ghost(excluded): Ghost<nat>,
) -> (r: Result<Vec<State>, Error>)
    requires
        states_wf(queue@),
        all_have_vars(states_v(queue@), vars@),
        old(report).partitions <= limits.partitions,
        diagnostics ==> old(stats).excluded_regions + queue@.len() <= usize::MAX,
    ensures
        ({
            let (res, x) = subtract_v(vars@, sets_v(known@), states_v(queue@), 0, Seq::empty(), report_of(*old(report)), *limits, excluded);
            &&& *final(stats) == counted(*old(stats), diagnostics, 0, (x - excluded) as nat, 0)
            &&& match res {
                Ok((o, r2)) => r matches Ok(q) && states_v(q@) == o && states_wf(q@) && report_of(*final(report)) == r2
                    && final(report).partitions <= limits.partitions,
                Err(e) => r matches Err(e2) && e2 == e,
            }
        }),
{
    let ghost doms = sets_v(known@);
    let ghost qv = states_v(queue@);
    let ghost target = subtract_v(vars@, doms, qv, 0, Seq::empty(), report_of(*report), *limits, excluded);
    let ghost s0 = *stats;
    let mut out: Vec<State> = Vec::new();
    let ghost mut count: nat = 0;
    let mut k: usize = 0;
    proof {
        assert(states_v(out@) =~= Seq::<StateV>::empty());
        lemma_subtract(vars@, doms, qv, 0, Seq::empty(), report_of(*report), *limits, excluded);
    }
    while k < queue.len()
        invariant
            doms == sets_v(known@),
            qv == states_v(queue@),
            states_wf(queue@),
            all_have_vars(qv, vars@),
            states_wf(out@),
            all_have_vars(states_v(out@), vars@),
            report.partitions <= limits.partitions,
            0 <= k <= queue@.len(),
            count <= k,
            diagnostics ==> s0.excluded_regions + queue@.len() <= usize::MAX,
            *stats == counted(s0, diagnostics, 0, count, 0),
            subtract_v(vars@, doms, qv, k as int, states_v(out@), report_of(*report), *limits, excluded + count) == target,
            target == subtract_v(vars@, sets_v(known@), states_v(queue@), 0, Seq::empty(), report_of(*old(report)), *limits, excluded),
            s0 == *old(stats),
        decreases queue.len() - k,
    {
        let st = &queue[k];
        proof {
            assert(qv[k as int] == st.view_v());
            assert(has_vars(qv[k as int], vars@));
            assert(st.wf());
        }
        let ghost o0 = out@;
        if !overlaps_exec(vars, known, st) {
            out.push(st.copy());
            proof {
                assert(states_v(out@) =~= states_v(o0).push(qv[k as int]));
                assert forall|a: int| 0 <= a < out@.len() implies (#[trigger] out@[a]).wf() by {
                    if a < o0.len() {
                        assert(out@[a] == o0[a]);
                    }
                }
                assert forall|a: int| 0 <= a < states_v(out@).len() implies has_vars(#[trigger] states_v(out@)[a], vars@) by {
                    if a < o0.len() {
                        assert(states_v(out@)[a] == states_v(o0)[a]);
                    }
                }
            }
        } else {
            if diagnostics {
                stats.excluded_regions = stats.excluded_regions + 1;
            }
            let ghost r0 = report_of(*report);
            proof {
                lemma_boxes(vars@, doms, qv[k as int], 0, states_v(o0), r0, *limits);
            }
            match boxes(vars, known, st.copy(), &mut out, report, limits) {
                Ok(()) => {},
                Err(e) => {
                    proof {
                        count = count + 1;
                    }
                    return Err(e);
                },
            }
            proof {
                count = count + 1;
            }
        }
        k += 1;
    }
    Ok(out)
}

/// Subtract the known regions of the candidate's goals from queued states.
fn eager(
    vars: &Vec<u64>,
    cand: &Region,
    regions: &VecDeque<Region>,
    queue: Vec<State>,
    report: &mut Report,
    limits: &Limits,
    stats: &mut Stats,
    diagnostics: bool,
) -> (r: Result<Vec<State>, Error>)
    requires
        states_wf(queue@),
        all_have_vars(states_v(queue@), vars@),
        queue@.len() <= 1 + old(report).partitions,
        old(report).partitions <= limits.partitions,
        diagnostics ==> old(stats).probes + regions@.len() <= usize::MAX && old(stats).excluded_regions + regions@.len() * (1
            + limits.partitions) <= usize::MAX,
    ensures
        ({
            let (res, p, x) = eager_v(vars@, cand.view_v(), regions_v(regions@), 0, states_v(queue@), report_of(*old(report)), *limits, 0, 0);
            &&& *final(stats) == counted(*old(stats), diagnostics, p, x, 0)
            &&& match res {
                Ok((q, r2)) => r matches Ok(q2) && states_v(q2@) == q && states_wf(q2@) && report_of(*final(report)) == r2
                    && final(report).partitions <= limits.partitions,
                Err(e) => r matches Err(e2) && e2 == e,
            }
        }),
{
    let ghost rv = regions_v(regions@);
    let ghost cv = cand.view_v();
    let ghost c = 1 + limits.partitions;
    let ghost target = eager_v(vars@, cv, rv, 0, states_v(queue@), report_of(*report), *limits, 0, 0);
    let ghost s0 = *stats;
    let ghost mut probes: nat = 0;
    let ghost mut excluded: nat = 0;
    let mut q = queue;
    let mut j: usize = 0;
    while j < regions.len() && q.len() > 0
        invariant
            rv == regions_v(regions@),
            cv == cand.view_v(),
            c == 1 + limits.partitions,
            states_wf(q@),
            all_have_vars(states_v(q@), vars@),
            q@.len() <= 1 + report.partitions,
            report.partitions <= limits.partitions,
            0 <= j <= regions@.len(),
            probes <= j,
            excluded <= j * c,
            diagnostics ==> s0.probes + regions@.len() <= usize::MAX && s0.excluded_regions + regions@.len() * c <= usize::MAX,
            *stats == counted(s0, diagnostics, probes, excluded, 0),
            eager_v(vars@, cv, rv, j as int, states_v(q@), report_of(*report), *limits, probes, excluded) == target,
            target == eager_v(vars@, cand.view_v(), regions_v(regions@), 0, states_v(queue@), report_of(*old(report)), *limits, 0, 0),
            s0 == *old(stats),
        decreases regions.len() - j,
    {
        proof {
            assert(rv[j as int] == regions@[j as int].view_v());
            assert(states_v(q@).len() == q@.len());
            assert((j + 1) * c == j * c + c) by (nonlinear_arith);
            assert(j * c <= regions@.len() * c) by (nonlinear_arith)
                requires
                    j <= regions@.len(),
                    c >= 1,
            ;
            assert((j + 1) * c <= regions@.len() * c) by (nonlinear_arith)
                requires
                    j + 1 <= regions@.len(),
                    c >= 1,
            ;
        }
        if diagnostics {
            stats.probes = stats.probes + 1;
        }
        let known = &regions[j];
        if same_constraints(&cand.goals, &known.goals) {
            let ghost r0 = report_of(*report);
            let ghost qv = states_v(q@);
            proof {
                lemma_subtract(vars@, rv[j as int].domains, qv, 0, Seq::empty(), r0, *limits, excluded);
            }
            let ghost sx = subtract_v(vars@, rv[j as int].domains, qv, 0, Seq::empty(), r0, *limits, excluded);
            match subtract(vars, &known.domains, q, report, limits, stats, diagnostics, Ghost(excluded)) {
                Ok(q2) => {
                    q = q2;
                    proof {
                        probes = probes + 1;
                        excluded = sx.1;
                    }
                },
                Err(e) => {
                    proof {
                        probes = probes + 1;
                        excluded = sx.1;
                    }
                    return Err(e);
                },
            }
        } else {
            proof {
                probes = probes + 1;
                assert(j * c <= (j + 1) * c) by (nonlinear_arith)
                    requires
                        c >= 1,
                ;
            }
        }
        j += 1;
    }
    Ok(q)
}

/// The value of a learner: how it prunes, how many regions it keeps, the
/// regions it knows (the oldest first) and its diagnostic counts.
pub struct LearnerV {
    pub pruning: Pruning,
    pub capacity: nat,
    pub regions: Seq<RegionV>,
    pub stats: Stats,
}

/// The value of a session: the work of its query, the region it may teach and
/// the variables of that region in renaming order.
pub struct SessionV {
    pub work: Option<WorkV>,
    pub candidate: Option<RegionV>,
    pub vars: Seq<u64>,
}

/// Starting a session on the work of a query: with a state queued, its region
/// becomes the candidate; under eager pruning a covering known region empties
/// the queue, and the known regions of the same goals are subtracted from it.
/// Also the diagnostic counts, up to an error.
pub open spec fn learn_start_v(l: LearnerV, diagnostics: bool, started: Result<WorkV, Error>) -> (Result<SessionV, Error>, Stats) {
    match started {
        Err(e) => (Err(e), l.stats),
        Ok(w) => if w.queue.len() == 0 {
            (Ok(SessionV { work: Some(w), candidate: None, vars: Seq::empty() }), l.stats)
        } else {
            match region_v(w.queue[0]) {
                Err(e) => (Err(e), l.stats),
                Ok((cand, vars)) => {
                    let eager = l.pruning == Pruning::Eager;
                    let (cov, n) = if eager {
                        cover_scan(l.regions, cand, 0)
                    } else {
                        (false, 0nat)
                    };
                    let q1 = if cov {
                        Seq::empty()
                    } else {
                        w.queue
                    };
                    let (res, p, x) = if eager {
                        eager_v(vars, cand, l.regions, 0, q1, w.report, w.limits, 0, 0)
                    } else {
                        (Ok((q1, w.report)), 0nat, 0nat)
                    };
                    let stats = counted(l.stats, diagnostics, n + p, (if cov { 1nat } else { 0nat }) + x, 0);
                    match res {
                        Err(e) => (Err(e), stats),
                        Ok((q2, r2)) => (
                            Ok(
                                SessionV {
                                    work: Some(WorkV { caller: w.caller, left: w.left, limits: w.limits, queue: q2, report: r2 }),
                                    candidate: Some(cand),
                                    vars,
                                },
                            ),
                            stats,
                        ),
                    }
                },
            }
        },
    }
}

/// Room in the diagnostic counts for starting a session.
pub open spec fn start_room(s: Stats, regions: nat, limits: Limits) -> bool {
    &&& s.probes + 2 * regions <= usize::MAX
    &&& s.excluded_regions + 1 + regions * (1 + limits.partitions) <= usize::MAX
}

/// Learns the failed regions of queries over one prepared phase; `DIAGNOSTICS`
/// keeps diagnostic counts.
pub struct Learner<'p, const DIAGNOSTICS: bool> {
    prepared: &'p Prepared,
    pruning: Pruning,
    capacity: usize,
    regions: VecDeque<Region>,
    stats: Stats,
}

/// One query served with the regions of a learner.
pub struct Session<'p, const DIAGNOSTICS: bool> {
    machine: Machine<'p>,
    candidate: Option<Region>,
    vars: Vec<u64>,
}

impl<'p, const DIAGNOSTICS: bool> Session<'p, DIAGNOSTICS> {
    pub closed spec fn wf(&self) -> bool {
        &&& self.machine.wf()
        &&& self.vars@.no_duplicates()
    }

    pub closed spec fn view_v(&self) -> SessionV {
        SessionV {
            work: self.machine.work_v(),
            candidate: match self.candidate {
                Some(c) => Some(c.view_v()),
                None => None,
            },
            vars: self.vars@,
        }
    }

    /// The rules the session runs.
    pub closed spec fn rules_of(&self) -> Seq<crate::syntax::RuleV> {
        self.machine.rules_of()
    }
}

impl<'p, const DIAGNOSTICS: bool> Learner<'p, DIAGNOSTICS> {
    pub closed spec fn wf(&self) -> bool {
        &&& self.prepared.wf()
        &&& self.regions@.len() <= self.capacity
    }

    pub closed spec fn view_v(&self) -> LearnerV {
        LearnerV { pruning: self.pruning, capacity: self.capacity as nat, regions: regions_v(self.regions@), stats: self.stats }
    }

    /// The phase the learner serves.
    pub closed spec fn prepared(&self) -> Prepared {
        *self.prepared
    }

    /// A learner that knows no region yet and keeps at most `capacity` of them.
    pub fn new(prepared: &'p Prepared, capacity: usize, pruning: Pruning) -> (r: Self)
        requires
            prepared.wf(),
        ensures
            r.wf(),
            r.prepared() == *prepared,
            r.view_v() == (LearnerV {
                pruning,
                capacity: capacity as nat,
                regions: Seq::empty(),
                stats: Stats { probes: 0, excluded_regions: 0, learned_regions: 0 },
            }),
    {
        let r = Learner {
            prepared,
            pruning,
            capacity,
            regions: VecDeque::new(),
            stats: Stats { probes: 0, excluded_regions: 0, learned_regions: 0 },
        };
        proof {
            assert(regions_v(r.regions@) =~= Seq::<RegionV>::empty());
        }
        r
    }

    /// How many regions the learner knows.
    pub fn retained(&self) -> (r: usize)
        ensures
            r == self.view_v().regions.len(),
    {
        self.regions.len()
    }

    /// The diagnostic counts.
    pub fn stats(&self) -> (r: Stats)
        ensures
            r == self.view_v().stats,
    {
        self.stats
    }

    /// Start a session on a query.
    pub fn start(&mut self, query: &Query, limits: Limits) -> (r: Result<Session<'p, DIAGNOSTICS>, Error>)
        requires
            old(self).wf(),
            DIAGNOSTICS ==> start_room(old(self).view_v().stats, old(self).view_v().regions.len(), limits),
        ensures
            final(self).wf(),
            final(self).prepared() == old(self).prepared(),
            ({
                let l = old(self).view_v();
                let p = old(self).prepared();
                let (res, stats) = learn_start_v(l, DIAGNOSTICS, start_v(p.private_v(), p.producers_v(), *query, limits));
                &&& final(self).view_v() == (LearnerV { stats, ..l })
                &&& match res {
                    Ok(sv) => r matches Ok(s) && s.wf() && s.view_v() == sv && s.rules_of() == p.rules_v(),
                    Err(e) => r matches Err(e2) && e2 == e,
                }
            }),
    {
        let mut machine = match start(self.prepared, query, limits) {
            Ok(m) => m,
            Err(e) => {
                return Err(e);
            },
        };
        proof {
            machine.reveal_work();
        }
        let mut work = match machine.work.take() {
            Some(w) => w,
            None => {
                return Err(Error::AlreadyFinished);
            },
        };
        let ghost w0 = work.view_v();
        if work.queue.len() == 0 {
            machine.work = Some(work);
            proof {
                machine.reveal_work();
            }
            return Ok(Session { machine, candidate: None, vars: Vec::new() });
        }
        proof {
            assert(w0.queue[0] == work.queue@[0].view_v());
        }
        let (cand, vars) = match region(&work.queue[0]) {
            Ok(x) => x,
            Err(e) => {
                return Err(e);
            },
        };
        let ghost l0 = self.view_v();
        let eager_mode = self.pruning == Pruning::Eager;
        let mut covered = false;
        if eager_mode {
            let (c, n) = cover_scan_exec(&self.regions, &cand);
            proof {
                lemma_cover_scan_count(regions_v(self.regions@), cand.view_v(), 0);
            }
            covered = c;
            if DIAGNOSTICS {
                self.stats.probes = self.stats.probes + n;
                if c {
                    self.stats.excluded_regions = self.stats.excluded_regions + 1;
                }
            }
        }
        let ghost cs = if eager_mode {
            cover_scan(l0.regions, cand.view_v(), 0)
        } else {
            (false, 0nat)
        };
        proof {
            assert(covered == cs.0);
            assert(self.stats == counted(l0.stats, DIAGNOSTICS, cs.1, if cs.0 { 1nat } else { 0nat }, 0));
        }
        if covered {
            work.queue = Vec::new();
        }
        let ghost s1 = self.stats;
        let ghost q1 = states_v(work.queue@);
        proof {
            if covered {
                assert(q1 =~= Seq::<StateV>::empty());
            } else {
                assert(q1 == w0.queue);
            }
            assert(states_v(work.queue@).len() == work.queue@.len());
            assert(all_have_vars(states_v(work.queue@), vars@)) by {
                assert forall|k: int| 0 <= k < states_v(work.queue@).len() implies has_vars(#[trigger] states_v(work.queue@)[k], vars@) by {
                    assert(k == 0);
                }
            }
        }
        if eager_mode {
            let mut q: Vec<State> = Vec::new();
            std::mem::swap(&mut q, &mut work.queue);
            let ghost ev = eager_v(vars@, cand.view_v(), l0.regions, 0, q1, w0.report, w0.limits, 0, 0);
            proof {
                lemma_eager(vars@, cand.view_v(), l0.regions, 0, q1, w0.report, w0.limits, 0, 0);
            }
            match eager(&vars, &cand, &self.regions, q, &mut work.report, &limits, &mut self.stats, DIAGNOSTICS) {
                Ok(q2) => {
                    work.queue = q2;
                    proof {
                        assert(self.stats == counted(l0.stats, DIAGNOSTICS, cs.1 + ev.1, (if cs.0 { 1nat } else { 0nat }) + ev.2, 0));
                    }
                },
                Err(e) => {
                    return Err(e);
                },
            }
        }
        proof {
            assert(report_of(work.report).solutions.len() == work.report.solutions@.len());
            assert(report_of(work.report).steps == w0.report.steps);
            assert(work.report.solutions@.len() <= work.limits.solutions);
            assert(work.wf());
        }
        machine.work = Some(work);
        proof {
            machine.reveal_work();
        }
        let sess = Session { machine, candidate: Some(cand), vars };
        proof {
            let p = old(self).prepared();
            assert(start_v(p.private_v(), p.producers_v(), *query, limits) == Ok::<WorkV, Error>(w0));
            let t = learn_start_v(l0, DIAGNOSTICS, Ok(w0));
            assert(region_v(w0.queue[0]) == Ok::<(RegionV, Seq<u64>), Error>((cand.view_v(), vars@)));
            assert(self.stats == t.1);
            assert(self.view_v() == (LearnerV { stats: t.1, ..l0 }));
            assert(t.0 == Ok::<SessionV, Error>(sess.view_v()));
            assert(sess.rules_of() == p.rules_v());
            assert(sess.wf());
        }
        Ok(sess)
    }
}

proof fn lemma_cover_scan_count(regions: Seq<RegionV>, cand: RegionV, j: int)
    requires
        0 <= j <= regions.len(),
    ensures
        cover_scan(regions, cand, j).1 <= regions.len() - j,
    decreases regions.len() - j,
{
    if j < regions.len() {
        lemma_cover_scan_count(regions, cand, j + 1);
    }
}

/// Whether the atoms a state leaves its region's variables, from the `i`-th on,
/// all lie within a known region: each variable is resolved, paying for its
/// nodes; a variable left unbound needs a domain, a bound one an atom.
pub open spec fn contained_v(vars: Seq<u64>, doms: Seq<Set<Seq<char>>>, st: StateV, i: int, left: nat) -> Result<(bool, nat), Error>
    decreases vars.len() - i,
{
    if i < 0 || i >= vars.len() || i >= doms.len() {
        Ok((true, left))
    } else {
        match resolve_v(TermV::Var(vars[i]), st.bindings, left, 0) {
            Err(e) => Err(e),
            Ok((t, l)) => match t {
                TermV::Var(root) => if !st.domains.contains_key(root) {
                    Err(Error::Source(LOST_DOMAIN))
                } else if st.domains[root].dom().subset_of(doms[i]) {
                    contained_v(vars, doms, st, i + 1, l)
                } else {
                    Ok((false, l))
                },
                TermV::App(n, xs) => if xs.len() != 0 {
                    Err(Error::Source(NONFINITE_VALUE))
                } else if doms[i].contains(n) {
                    contained_v(vars, doms, st, i + 1, l)
                } else {
                    Ok((false, l))
                },
            },
        }
    }
}

/// Looking for a known region, from the `j`-th on, of the candidate's goals
/// that contains the newest state: such a state is dropped. Also the counts of
/// regions looked at and of states excluded, up to an error.
pub open spec fn prune_scan_v(cand: RegionV, vars: Seq<u64>, regions: Seq<RegionV>, j: int, w: WorkV, probes: nat) -> (
    Result<(bool, WorkV), Error>,
    nat,
    nat,
)
    decreases regions.len() - j,
{
    if j < 0 || j >= regions.len() {
        (Ok((false, w)), probes, 0)
    } else if cand.goals != regions[j].goals {
        prune_scan_v(cand, vars, regions, j + 1, w, probes + 1)
    } else {
        match contained_v(vars, regions[j].domains, w.queue.last(), 0, w.left) {
            Err(e) => (Err(e), probes + 1, 0),
            Ok((true, l)) => (
                Ok((true, WorkV { caller: w.caller, left: l, limits: w.limits, queue: w.queue.drop_last(), report: w.report })),
                probes + 1,
                1,
            ),
            Ok((false, l)) => prune_scan_v(
                cand,
                vars,
                regions,
                j + 1,
                WorkV { caller: w.caller, left: l, limits: w.limits, queue: w.queue, report: w.report },
                probes + 1,
            ),
        }
    }
}

/// Pruning before a step: only when covered, with a candidate and a state queued.
pub open spec fn prune_v(l: LearnerV, s: SessionV) -> (Result<(bool, Option<WorkV>), Error>, nat, nat) {
    if l.pruning != Pruning::WhenCovered {
        (Ok((false, s.work)), 0, 0)
    } else {
        match (s.candidate, s.work) {
            (Some(c), Some(w)) => if w.queue.len() == 0 {
                (Ok((false, s.work)), 0, 0)
            } else {
                let (res, p, x) = prune_scan_v(c, s.vars, l.regions, 0, w, 0);
                (
                    match res {
                        Ok((b, w2)) => Ok((b, Some(w2))),
                        Err(e) => Err(e),
                    },
                    p,
                    x,
                )
            },
            _ => (Ok((false, s.work)), 0, 0),
        }
    }
}

/// What one advance of a session did.
pub enum EventV {
    Progress,
    Complete(ReportV),
    Exhausted,
}

/// The value of an event.
pub open spec fn event_v(e: Event) -> EventV {
    match e {
        Event::Progress => EventV::Progress,
        Event::Complete(r) => EventV::Complete(report_of(r)),
        Event::Exhausted => EventV::Exhausted,
    }
}

/// The regions after learning a region: the oldest goes where the capacity is reached.
pub open spec fn learned_v(regions: Seq<RegionV>, capacity: nat, c: RegionV) -> Seq<RegionV> {
    (if regions.len() == capacity {
        regions.drop_first()
    } else {
        regions
    }).push(c)
}

/// One advance of a session: a pruned state is progress; otherwise the work
/// takes a step. A completed query without a solution teaches its candidate,
/// unless the learner keeps no region or knows it already; the candidate is
/// spent once the query completes or fails.
pub open spec fn advance_v(l: LearnerV, diagnostics: bool, rules: Seq<crate::syntax::RuleV>, s: SessionV) -> (
    Result<EventV, Error>,
    LearnerV,
    SessionV,
) {
    let (pr, p, x) = prune_v(l, s);
    let stats = counted(l.stats, diagnostics, p, x, 0);
    let (ev, work): (Result<EventV, Error>, Option<WorkV>) = match pr {
        Err(e) => (Err(e), None),
        Ok((true, w)) => (Ok(EventV::Progress), w),
        Ok((false, w)) => match w {
            None => (Ok(EventV::Exhausted), None),
            Some(w1) => match step_v(rules, w1) {
                Err(e) => (Err(e), None),
                Ok((true, w3)) => (Ok(EventV::Complete(w3.report)), None),
                Ok((false, w3)) => (Ok(EventV::Progress), Some(w3)),
            },
        },
    };
    match ev {
        Ok(EventV::Complete(rep)) => {
            let learn = s.candidate matches Some(c) && rep.solutions.len() == 0 && l.capacity > 0 && !l.regions.contains(c);
            (
                ev,
                LearnerV {
                    regions: if learn {
                        learned_v(l.regions, l.capacity, s.candidate->Some_0)
                    } else {
                        l.regions
                    },
                    stats: counted(stats, diagnostics, 0, 0, if learn { 1nat } else { 0nat }),
                    ..l
                },
                SessionV { work: None, candidate: None, vars: s.vars },
            )
        },
        Err(_) => (ev, LearnerV { stats, ..l }, SessionV { work: None, candidate: None, vars: s.vars }),
        _ => (ev, LearnerV { stats, ..l }, SessionV { work, candidate: s.candidate, vars: s.vars }),
    }
}

/// Room in the diagnostic counts for one advance.
pub open spec fn advance_room(s: Stats, regions: nat) -> bool {
    &&& s.probes + regions <= usize::MAX
    &&& s.excluded_regions + 1 <= usize::MAX
    &&& s.learned_regions + 1 <= usize::MAX
}

/// Whether the variables of a state, resolved, stay within a known region's atoms.
fn contained(vars: &Vec<u64>, known: &Vec<Vec<String>>, st: &State, budget: &mut Budget) -> (r: Result<bool, Error>)
    requires
        st.wf(),
    ensures
        match contained_v(vars@, sets_v(known@), st.view_v(), 0, old(budget).left as nat) {
            Ok((b, l)) => r == Ok::<bool, Error>(b) && final(budget).left == l,
            Err(e) => r matches Err(e2) && e2 == e,
        },
{
    proof {
        st.reveal_view();
    }
    let ghost doms = sets_v(known@);
    let ghost target = contained_v(vars@, doms, st.view_v(), 0, budget.left as nat);
    let mut i: usize = 0;
    while i < vars.len() && i < known.len()
        invariant
            doms == sets_v(known@),
            st.wf(),
            st.bindings.wf(),
            st.domains.wf(),
            st.view_v().bindings == st.bindings.map(),
            st.view_v().domains == st.domains.map(),
            0 <= i <= vars@.len(),
            contained_v(vars@, doms, st.view_v(), i as int, budget.left as nat) == target,
            target == contained_v(vars@, sets_v(known@), st.view_v(), 0, old(budget).left as nat),
        decreases vars.len() - i,
    {
        let x = Term::Var(Var(vars[i]));
        proof {
            assert(term_v(x) == TermV::Var(vars@[i as int]));
            assert(doms[i as int] == texts_set(known@[i as int]@));
        }
        let value = match resolve(&x, &st.bindings, budget, 0) {
            Ok(t) => t,
            Err(e) => {
                return Err(e);
            },
        };
        let inside = match &value {
            Term::Var(root) => match st.domains.get(root.0) {
                Some(d) => d.all_in(&known[i]),
                None => {
                    return Err(Error::Source(LOST_DOMAIN));
                },
            },
            Term::App(name, args) => {
                if args.len() != 0 {
                    proof {
                        assert(term_v(value)->App_1.len() == args@.len());
                    }
                    return Err(Error::Source(NONFINITE_VALUE));
                }
                proof {
                    assert(term_v(value)->App_1.len() == args@.len());
                }
                contains_text(&known[i], name)
            },
        };
        if !inside {
            return Ok(false);
        }
        i += 1;
    }
    Ok(true)
}

/// Drop the newest state where a known region of the candidate's goals contains it.
fn prune_scan(
    cand: &Region,
    vars: &Vec<u64>,
    regions: &VecDeque<Region>,
    work: &mut Work,
    stats: &mut Stats,
    diagnostics: bool,
) -> (r: Result<bool, Error>)
    requires
        old(work).wf(),
        old(work).queue@.len() > 0,
        diagnostics ==> old(stats).probes + regions@.len() <= usize::MAX && old(stats).excluded_regions + 1 <= usize::MAX,
    ensures
        ({
            let (res, p, x) = prune_scan_v(cand.view_v(), vars@, regions_v(regions@), 0, old(work).view_v(), 0);
            &&& *final(stats) == counted(*old(stats), diagnostics, p, x, 0)
            &&& match res {
                Ok((b, w2)) => r == Ok::<bool, Error>(b) && final(work).wf() && final(work).view_v() == w2,
                Err(e) => r matches Err(e2) && e2 == e,
            }
        }),
{
    let ghost rv = regions_v(regions@);
    let ghost cv = cand.view_v();
    let ghost target = prune_scan_v(cv, vars@, rv, 0, work.view_v(), 0);
    let ghost s0 = *stats;
    let ghost mut probes: nat = 0;
    let mut j: usize = 0;
    while j < regions.len()
        invariant
            rv == regions_v(regions@),
            cv == cand.view_v(),
            work.wf(),
            work.queue@.len() > 0,
            0 <= j <= regions@.len(),
            probes == j,
            diagnostics ==> s0.probes + regions@.len() <= usize::MAX && s0.excluded_regions + 1 <= usize::MAX,
            *stats == counted(s0, diagnostics, probes, 0, 0),
            prune_scan_v(cv, vars@, rv, j as int, work.view_v(), probes) == target,
            target == prune_scan_v(cand.view_v(), vars@, regions_v(regions@), 0, old(work).view_v(), 0),
            s0 == *old(stats),
        decreases regions.len() - j,
    {
        proof {
            assert(rv[j as int] == regions@[j as int].view_v());
        }
        if diagnostics {
            stats.probes = stats.probes + 1;
        }
        let known = &regions[j];
        if same_constraints(&cand.goals, &known.goals) {
            let last = work.queue.len() - 1;
            proof {
                assert(work.view_v().queue.last() == work.queue@[last as int].view_v());
                assert(work.queue@[last as int].wf());
            }
            match contained(vars, &known.domains, &work.queue[last], &mut work.budget) {
                Ok(true) => {
                    let ghost q0 = work.queue@;
                    work.queue.pop();
                    if diagnostics {
                        stats.excluded_regions = stats.excluded_regions + 1;
                    }
                    proof {
                        assert(states_v(work.queue@) =~= states_v(q0).drop_last());
                        assert forall|k: int| 0 <= k < work.queue@.len() implies (#[trigger] work.queue@[k]).wf() by {
                            assert(work.queue@[k] == q0[k]);
                        }
                    }
                    return Ok(true);
                },
                Ok(false) => {},
                Err(e) => {
                    return Err(e);
                },
            }
        }
        proof {
            probes = probes + 1;
        }
        j += 1;
    }
    Ok(false)
}

/// Whether a region with the value of `c` is among the regions.
fn knows(regions: &VecDeque<Region>, c: &Region) -> (r: bool)
    ensures
        r == regions_v(regions@).contains(c.view_v()),
{
    let mut j: usize = 0;
    while j < regions.len()
        invariant
            0 <= j <= regions@.len(),
            forall|k: int| 0 <= k < j ==> (#[trigger] regions@[k]).view_v() != c.view_v(),
        decreases regions.len() - j,
    {
        if same_region(&regions[j], c) {
            proof {
                assert(regions_v(regions@)[j as int] == c.view_v());
            }
            return true;
        }
        j += 1;
    }
    proof {
        assert forall|k: int| 0 <= k < regions_v(regions@).len() implies regions_v(regions@)[k] != c.view_v() by {
            assert(regions_v(regions@)[k] == regions@[k].view_v());
        }
    }
    false
}

impl<'p, const DIAGNOSTICS: bool> Session<'p, DIAGNOSTICS> {
    /// Advance the query by one step of the learner: `Progress` after a
    /// pruned state or a step, `Complete` with the report once no state is
    /// left, `Exhausted` when the work is already gone. A completed query with
    /// no solution teaches the learner its region.
    pub fn advance(&mut self, owner: &mut Learner<'p, DIAGNOSTICS>) -> (r: Result<Event, Error>)
        requires
            old(self).wf(),
            old(owner).wf(),
            DIAGNOSTICS ==> advance_room(old(owner).view_v().stats, old(owner).view_v().regions.len()),
        ensures
            final(self).wf(),
            final(owner).wf(),
            final(owner).prepared() == old(owner).prepared(),
            final(self).rules_of() == old(self).rules_of(),
            ({
                let (ev, l2, s2) = advance_v(old(owner).view_v(), DIAGNOSTICS, old(self).rules_of(), old(self).view_v());
                &&& final(owner).view_v() == l2
                &&& final(self).view_v() == s2
                &&& match ev {
                    Ok(e) => r matches Ok(x) && event_v(x) == e,
                    Err(e) => r matches Err(e2) && e2 == e,
                }
            }),
    {
        let ghost l0 = owner.view_v();
        let ghost s0 = self.view_v();
        let ghost rules = self.rules_of();
        proof {
            self.machine.reveal_work();
        }
        let mut pruned = false;
        let mut failure: Option<Error> = None;
        if owner.pruning == Pruning::WhenCovered {
            match &self.candidate {
                Some(cand) => {
                    match self.machine.work.take() {
                        Some(mut work) => {
                            if work.queue.len() > 0 {
                                match prune_scan(cand, &self.vars, &owner.regions, &mut work, &mut owner.stats, DIAGNOSTICS) {
                                    Ok(b) => {
                                        pruned = b;
                                        self.machine.work = Some(work);
                                    },
                                    Err(e) => {
                                        failure = Some(e);
                                    },
                                }
                            } else {
                                self.machine.work = Some(work);
                            }
                        },
                        None => {},
                    }
                },
                None => {},
            }
        }
        proof {
            self.machine.reveal_work();
        }
        let ghost pv = prune_v(l0, s0);
        proof {
            assert(owner.stats == counted(l0.stats, DIAGNOSTICS, pv.1, pv.2, 0));
        }
        if let Some(e) = failure {
            self.candidate = None;
            proof {
                assert(pv.0 == Err::<(bool, Option<WorkV>), Error>(e));
            }
            return Err(e);
        }
        proof {
            assert(pv.0 == Ok::<(bool, Option<WorkV>), Error>((pruned, self.machine.work_v())));
            assert(self.machine.rules_of() == rules);
        }
        let event = if pruned {
            Ok(Event::Progress)
        } else {
            self.machine.advance()
        };
        match event {
            Ok(Event::Complete(report)) => {
                let cand = self.candidate.take();
                match cand {
                    Some(c) => {
                        if report.solutions.len() == 0 && owner.capacity > 0 && !knows(&owner.regions, &c) {
                            let ghost before = owner.regions@;
                            if owner.regions.len() == owner.capacity {
                                owner.regions.pop_front();
                            }
                            owner.regions.push_back(c);
                            if DIAGNOSTICS {
                                owner.stats.learned_regions = owner.stats.learned_regions + 1;
                            }
                            proof {
                                assert(report_of(report).solutions.len() == report.solutions@.len());
                                assert(regions_v(owner.regions@) =~= learned_v(regions_v(before), l0.capacity, c.view_v()));
                            }
                        } else {
                            proof {
                                assert(report_of(report).solutions.len() == report.solutions@.len());
                            }
                        }
                    },
                    None => {},
                }
                Ok(Event::Complete(report))
            },
            Err(e) => {
                self.candidate = None;
                Err(e)
            },
            other => other,
        }
    }
}

/// What remains of the work's budget of steps, partitions and queued states:
/// every advance that makes progress lowers it.
pub open spec fn potential(w: WorkV) -> nat {
    ((w.limits.steps - w.report.steps) + (w.limits.partitions - w.report.partitions) + w.queue.len()) as nat
}

/// The work stays within its limits.
pub open spec fn within(s: SessionV) -> bool {
    s.work matches Some(w) ==> w.report.steps <= w.limits.steps && w.report.partitions <= w.limits.partitions
}

/// The potential of a session's work, none without work.
pub open spec fn session_potential(s: SessionV) -> nat {
    match s.work {
        Some(w) => potential(w) + 1,
        None => 0,
    }
}

pub proof fn lemma_prune_scan(cand: RegionV, vars: Seq<u64>, regions: Seq<RegionV>, j: int, w: WorkV, probes: nat)
    requires
        0 <= j <= regions.len(),
        w.queue.len() > 0,
    ensures
        ({
            let (res, p, x) = prune_scan_v(cand, vars, regions, j, w, probes);
            &&& probes <= p <= probes + regions.len() - j
            &&& x <= 1
            &&& res matches Ok((b, w2)) ==> w2.limits == w.limits && w2.report == w.report && w2.caller == w.caller && w2.queue.len()
                == (if b {
                w.queue.len() - 1
            } else {
                w.queue.len() as int
            })
        }),
    decreases regions.len() - j,
{
    if j < regions.len() {
        if cand.goals != regions[j].goals {
            lemma_prune_scan(cand, vars, regions, j + 1, w, probes + 1);
        } else if let Ok((false, l)) = contained_v(vars, regions[j].domains, w.queue.last(), 0, w.left) {
            lemma_prune_scan(
                cand,
                vars,
                regions,
                j + 1,
                WorkV { caller: w.caller, left: l, limits: w.limits, queue: w.queue, report: w.report },
                probes + 1,
            );
        }
    }
}

/// What an advance gives: progress lowers the potential, the regions change
/// only once the query completes, and each advance looks at each region at
/// most once and excludes at most one state.
pub proof fn lemma_advance(l: LearnerV, diagnostics: bool, rules: Seq<crate::syntax::RuleV>, s: SessionV)
    requires
        within(s),
    ensures
        ({
            let (pr, p, x) = prune_v(l, s);
            &&& p <= l.regions.len()
            &&& x <= 1
        }),
        ({
            let (ev, l2, s2) = advance_v(l, diagnostics, rules, s);
            &&& ev matches Ok(EventV::Progress) ==> within(s2) && session_potential(s2) < session_potential(s) && l2.regions
                == l.regions && s2.vars == s.vars
        }),
{
    if l.pruning == Pruning::WhenCovered {
        if let (Some(c), Some(w)) = (s.candidate, s.work) {
            if w.queue.len() > 0 {
                lemma_prune_scan(c, s.vars, l.regions, 0, w, 0);
            }
        }
    }
    let (pr, p, x) = prune_v(l, s);
    if let Ok((false, Some(w1))) = pr {
        lemma_step(rules, w1);
    }
}

/// Running a session to the end: the report, or the first error, and the
/// learner after it.
pub open spec fn learn_run_v(l: LearnerV, diagnostics: bool, rules: Seq<crate::syntax::RuleV>, s: SessionV) -> (
    Result<ReportV, Error>,
    LearnerV,
)
    decreases session_potential(s),
    when within(s)
{
    let (ev, l2, s2) = advance_v(l, diagnostics, rules, s);
    match ev {
        Err(e) => (Err(e), l2),
        Ok(EventV::Complete(rep)) => (Ok(rep), l2),
        Ok(EventV::Exhausted) => (Err(Error::AlreadyFinished), l2),
        Ok(EventV::Progress) => {
            proof {
                lemma_advance(l, diagnostics, rules, s);
            }
            learn_run_v(l2, diagnostics, rules, s2)
        },
    }
}

/// Room in the diagnostic counts for running a session of the given potential to the end.
pub open spec fn finish_room(st: Stats, regions: nat, potential: nat) -> bool {
    &&& st.probes + (potential + 1) * regions <= usize::MAX
    &&& st.excluded_regions + potential + 1 <= usize::MAX
    &&& st.learned_regions + 1 <= usize::MAX
}

impl<'p, const DIAGNOSTICS: bool> Session<'p, DIAGNOSTICS> {
    /// The session's work stays within its limits.
    pub proof fn lemma_within(&self)
        requires
            self.wf(),
        ensures
            within(self.view_v()),
    {
        self.machine.reveal_work();
    }

    /// Run the query to the end with the learner.
    pub fn finish(self, owner: &mut Learner<'p, DIAGNOSTICS>) -> (r: Result<Report, Error>)
        requires
            self.wf(),
            old(owner).wf(),
            DIAGNOSTICS ==> finish_room(old(owner).view_v().stats, old(owner).view_v().regions.len(), session_potential(self.view_v())),
        ensures
            final(owner).wf(),
            final(owner).prepared() == old(owner).prepared(),
            ({
                let (res, l2) = learn_run_v(old(owner).view_v(), DIAGNOSTICS, self.rules_of(), self.view_v());
                &&& final(owner).view_v() == l2
                &&& match res {
                    Ok(rep) => r matches Ok(x) && report_of(x) == rep,
                    Err(e) => r matches Err(e2) && e2 == e,
                }
            }),
    {
        proof {
            self.lemma_within();
        }
        let ghost rules = self.rules_of();
        let ghost target = learn_run_v(owner.view_v(), DIAGNOSTICS, rules, self.view_v());
        let ghost n = owner.view_v().regions.len();
        let mut m = self;
        loop
            invariant
                m.wf(),
                owner.wf(),
                owner.prepared() == old(owner).prepared(),
                m.rules_of() == rules,
                within(m.view_v()),
                owner.view_v().regions.len() == n,
                DIAGNOSTICS ==> finish_room(owner.view_v().stats, n, session_potential(m.view_v())),
                learn_run_v(owner.view_v(), DIAGNOSTICS, rules, m.view_v()) == target,
                target == learn_run_v(old(owner).view_v(), DIAGNOSTICS, self.rules_of(), self.view_v()),
            decreases session_potential(m.view_v()),
        {
            let ghost l0 = owner.view_v();
            let ghost s0 = m.view_v();
            let ghost p0 = session_potential(s0);
            proof {
                lemma_advance(l0, DIAGNOSTICS, rules, s0);
                let (pr, p, x) = prune_v(l0, s0);
                if DIAGNOSTICS {
                    assert(p0 * n >= 0) by (nonlinear_arith);
                    assert((p0 + 1) * n == p0 * n + n) by (nonlinear_arith);
                    assert(p <= (p0 + 1) * n);
                }
            }
            match m.advance(owner) {
                Ok(Event::Progress) => {
                    proof {
                        m.lemma_within();
                        if DIAGNOSTICS {
                            let p1 = session_potential(m.view_v());
                            assert((p1 + 1) * n <= p0 * n) by (nonlinear_arith)
                                requires
                                    p1 + 1 <= p0,
                            ;
                            assert((p0 + 1) * n == p0 * n + n) by (nonlinear_arith);
                        }
                    }
                },
                Ok(Event::Complete(rep)) => {
                    return Ok(rep);
                },
                Ok(Event::Exhausted) => {
                    return Err(Error::AlreadyFinished);
                },
                Err(e) => {
                    return Err(e);
                },
            }
        }
    }
}

/// Solving a query with a learner: starting a session, then running it.
pub open spec fn learn_solve_v(l: LearnerV, diagnostics: bool, rules: Seq<crate::syntax::RuleV>, started: Result<WorkV, Error>) -> (
    Result<ReportV, Error>,
    LearnerV,
) {
    let (res, stats) = learn_start_v(l, diagnostics, started);
    match res {
        Err(e) => (Err(e), LearnerV { stats, ..l }),
        Ok(sv) => learn_run_v(LearnerV { stats, ..l }, diagnostics, rules, sv),
    }
}

/// Room in the diagnostic counts for solving a query.
pub open spec fn solve_room(st: Stats, regions: nat, limits: Limits) -> bool {
    &&& st.probes + regions * (limits.steps + limits.partitions + 5) <= usize::MAX
    &&& st.excluded_regions + regions * (1 + limits.partitions) + limits.steps + limits.partitions + 4 <= usize::MAX
    &&& st.learned_regions + 1 <= usize::MAX
}

/// What starting gives: counts within their bounds, and work within its
/// limits whose potential is at most the limits' steps and partitions and one.
pub proof fn lemma_learn_start(l: LearnerV, diagnostics: bool, w: WorkV)
    requires
        w.queue.len() <= 1,
        w.report.steps == 0,
        w.report.partitions == 0,
    ensures
        ({
            let (res, st) = learn_start_v(l, diagnostics, Ok(w));
            &&& diagnostics ==> st.probes <= l.stats.probes + 2 * l.regions.len() && st.excluded_regions <= l.stats.excluded_regions
                + 1 + l.regions.len() * (1 + w.limits.partitions) && st.learned_regions == l.stats.learned_regions
            &&& !diagnostics ==> st == l.stats
            &&& res matches Ok(sv) ==> within(sv) && session_potential(sv) <= w.limits.steps + w.limits.partitions + 2
        }),
{
    if w.queue.len() > 0 {
        if let Ok((cand, vars)) = region_v(w.queue[0]) {
            let eager = l.pruning == Pruning::Eager;
            lemma_cover_scan_count(l.regions, cand, 0);
            let (cov, n) = if eager {
                cover_scan(l.regions, cand, 0)
            } else {
                (false, 0nat)
            };
            let q1 = if cov {
                Seq::empty()
            } else {
                w.queue
            };
            if eager {
                assert(all_have_vars(q1, vars)) by {
                    assert forall|k: int| 0 <= k < q1.len() implies has_vars(#[trigger] q1[k], vars) by {
                        assert(k == 0);
                    }
                }
                lemma_eager(vars, cand, l.regions, 0, q1, w.report, w.limits, 0, 0);
            }
        }
    }
}

impl<'p, const DIAGNOSTICS: bool> Learner<'p, DIAGNOSTICS> {
    /// Solve a query: start a session and run it to the end.
    pub fn solve(&mut self, query: &Query, limits: Limits) -> (r: Result<Report, Error>)
        requires
            old(self).wf(),
            DIAGNOSTICS ==> solve_room(old(self).view_v().stats, old(self).view_v().regions.len(), limits),
        ensures
            final(self).wf(),
            final(self).prepared() == old(self).prepared(),
            ({
                let p = old(self).prepared();
                let (res, l2) = learn_solve_v(old(self).view_v(), DIAGNOSTICS, p.rules_v(), start_v(p.private_v(), p.producers_v(), *query, limits));
                &&& final(self).view_v() == l2
                &&& match res {
                    Ok(rep) => r matches Ok(x) && report_of(x) == rep,
                    Err(e) => r matches Err(e2) && e2 == e,
                }
            }),
    {
        let ghost l0 = self.view_v();
        let ghost p = self.prepared();
        let ghost sv = start_v(p.private_v(), p.producers_v(), *query, limits);
        let ghost n = l0.regions.len();
        proof {
            if let Ok(w) = sv {
                lemma_learn_start(l0, DIAGNOSTICS, w);
            }
            if DIAGNOSTICS {
                assert(n * (limits.steps + limits.partitions + 5) == 2 * n + n * (limits.steps + limits.partitions + 3))
                    by (nonlinear_arith);
                assert(n * (1 + limits.partitions) >= 0) by (nonlinear_arith);
            }
        }
        let session = match self.start(query, limits) {
            Ok(s) => s,
            Err(e) => {
                return Err(e);
            },
        };
        proof {
            if DIAGNOSTICS {
                let sp = session_potential(session.view_v());
                assert((sp + 1) * n <= (limits.steps + limits.partitions + 3) * n) by (nonlinear_arith)
                    requires
                        sp <= limits.steps + limits.partitions + 2,
                ;
                assert((limits.steps + limits.partitions + 3) * n == n * (limits.steps + limits.partitions + 3)) by (nonlinear_arith);
            }
        }
        session.finish(self)
    }
}

/// No successful result is kept: an advance that completes a query with a
/// solution leaves the known regions as they were, and no advance lets the
/// known regions exceed the learner's capacity.
pub proof fn lemma_only_failures_learned(l: LearnerV, diagnostics: bool, rules: Seq<crate::syntax::RuleV>, s: SessionV)
    requires
        l.regions.len() <= l.capacity,
    ensures
        ({
            let (ev, l2, _s2) = advance_v(l, diagnostics, rules, s);
            &&& (ev matches Ok(EventV::Complete(rep)) && rep.solutions.len() > 0) ==> l2.regions == l.regions
            &&& l2.regions.len() <= l2.capacity
            &&& l2.capacity == l.capacity && l2.pruning == l.pruning
        }),
{
}


/// A renamed term with each variable position replaced by the atom picked for it.
pub open spec fn fill_v(t: TermV, pick: spec_fn(u64) -> Seq<char>) -> TermV
    decreases t,
{
    match t {
        TermV::Var(i) => TermV::App(pick(i), Seq::empty()),
        TermV::App(n, xs) => TermV::App(
            n,
            Seq::new(xs.len(), |k: int| if 0 <= k < xs.len() { fill_v(xs[k], pick) } else { TermV::Var(0) }),
        ),
    }
}

/// Renamed goals with each variable position replaced by its picked atom.
pub open spec fn fill_cs(cs: Seq<ConstraintV>, pick: spec_fn(u64) -> Seq<char>) -> Seq<ConstraintV> {
    cs.map_values(|c: ConstraintV| ConstraintV { name: c.name, args: c.args.map_values(|t: TermV| fill_v(t, pick)) })
}

/// The pick takes, for every variable position of the region, one of its atoms.
pub open spec fn picks(r: RegionV, pick: spec_fn(u64) -> Seq<char>) -> bool {
    forall|i: int| 0 <= i < r.domains.len() ==> #[trigger] r.domains[i].contains(pick(i as u64))
}

/// Pruning only drops what is already known to fail: every ground store that a
/// covered candidate stands for is one the covering region stands for. Each
/// pick of atoms from the candidate's domains is a pick from the known
/// region's, and it gives the same ground goals.
pub proof fn lemma_covered_instances(known: RegionV, cand: RegionV, pick: spec_fn(u64) -> Seq<char>)
    requires
        covers(known, cand),
        cand.domains.len() == known.domains.len(),
        picks(cand, pick),
    ensures
        picks(known, pick),
        fill_cs(cand.goals, pick) == fill_cs(known.goals, pick),
{
    assert forall|i: int| 0 <= i < known.domains.len() implies #[trigger] known.domains[i].contains(pick(i as u64)) by {
        assert(cand.domains[i].contains(pick(i as u64)));
        assert(cand.domains[i].subset_of(known.domains[i]));
    }
}

} // verus!
