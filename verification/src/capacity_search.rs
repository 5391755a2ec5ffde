//! Solving a query against a closed consuming-capacity relation.
//!
//! Producer constraints are gathered into groups, one per variable or atom
//! they stand for; tokens become a supply of atoms; everything else is inert.
//! The search then gives each group, in identity order, one atom of its domain
//! whose supply covers the group's demand, and prunes every state in which some
//! group, or the groups together, could no longer be served.
use crate::capacity::{AdmittedV, Error, Limits, MAX_DEPTH, atom, atom_of, lemma_terms_prefix, lemma_terms_step, term_check, terms_height, terms_size};
use crate::finite::{Domain, entries_v, listing};
use crate::order::{Order, compare_key, compare_text, flip, lemma_key_order, lemma_text_order, lemma_text_order_trans, text_order};
use crate::phase::{pkey, producers_map};
use crate::resource_fusion::{KeyV, key_v};
use crate::syntax::{Answer, AnswerV, Constraint, ConstraintV, Query, Term, TermV, Var, answer_v, answers_v, constraint_v, constraints_v, copy_answer, copy_constraint, term_v};
use vstd::prelude::*;

verus! {

/// What a group of producer constraints stands for: a query variable or an atom.
#[derive(Debug)]
pub enum Identity {
    Variable(Var),
    Ground(String),
}

/// The value of an identity.
pub enum IdentityV {
    Variable(u64),
    Ground(Seq<char>),
}

pub open spec fn identity_v(i: Identity) -> IdentityV {
    match i {
        Identity::Variable(v) => IdentityV::Variable(v.0),
        Identity::Ground(s) => IdentityV::Ground(s@),
    }
}

/// Variables come before atoms; variables by number, atoms by text.
pub open spec fn identity_order(a: IdentityV, b: IdentityV) -> Order {
    match (a, b) {
        (IdentityV::Variable(x), IdentityV::Variable(y)) => if x < y {
            Order::Less
        } else if x > y {
            Order::Greater
        } else {
            Order::Equal
        },
        (IdentityV::Variable(_), IdentityV::Ground(_)) => Order::Less,
        (IdentityV::Ground(_), IdentityV::Variable(_)) => Order::Greater,
        (IdentityV::Ground(x), IdentityV::Ground(y)) => text_order(x, y),
    }
}

proof fn lemma_identity_order(a: IdentityV, b: IdentityV)
    ensures
        (identity_order(a, b) == Order::Equal) == (a == b),
        identity_order(b, a) == flip(identity_order(a, b)),
{
    if let (IdentityV::Ground(x), IdentityV::Ground(y)) = (a, b) {
        lemma_text_order(x, y);
    }
}

proof fn lemma_identity_order_trans(a: IdentityV, b: IdentityV, c: IdentityV)
    requires
        identity_order(a, b) == Order::Less,
        identity_order(b, c) == Order::Less,
    ensures
        identity_order(a, c) == Order::Less,
{
    if let (IdentityV::Ground(x), IdentityV::Ground(y), IdentityV::Ground(z)) = (a, b, c) {
        lemma_text_order_trans(x, y, z);
    }
}

fn compare_identity(a: &Identity, b: &Identity) -> (r: Order)
    ensures
        r == identity_order(identity_v(*a), identity_v(*b)),
{
    match (a, b) {
        (Identity::Variable(x), Identity::Variable(y)) => if x.0 < y.0 {
            Order::Less
        } else if x.0 > y.0 {
            Order::Greater
        } else {
            Order::Equal
        },
        (Identity::Variable(_), Identity::Ground(_)) => Order::Less,
        (Identity::Ground(_), Identity::Variable(_)) => Order::Greater,
        (Identity::Ground(x), Identity::Ground(y)) => compare_text(x.as_str(), y.as_str()),
    }
}

/// The value of a group: its identity, the atoms it may take in ascending
/// order with their weights, and how many producer constraints it holds.
pub struct GroupV {
    pub identity: IdentityV,
    pub domain: Seq<(Seq<char>, nat)>,
    pub demand: nat,
}

/// Producer constraints of one identity.
pub struct Group {
    identity: Identity,
    domain: Vec<(String, usize)>,
    demand: usize,
}

/// Texts with counts, as values.
pub open spec fn pairs_v(s: Seq<(String, usize)>) -> Seq<(Seq<char>, nat)> {
    s.map_values(|e: (String, usize)| (e.0@, e.1 as nat))
}

impl Group {
    pub closed spec fn view_v(&self) -> GroupV {
        GroupV { identity: identity_v(self.identity), domain: pairs_v(self.domain@), demand: self.demand as nat }
    }
}

pub open spec fn groups_v(gs: Seq<Group>) -> Seq<GroupV> {
    gs.map_values(|g: Group| g.view_v())
}

/// Groups in strictly ascending identity order.
pub open spec fn groups_ascending(gs: Seq<GroupV>) -> bool {
    forall|i: int, j: int| 0 <= i < j < gs.len() ==> identity_order(gs[i].identity, gs[j].identity) == Order::Less
}

/// Texts in strictly ascending order.
pub open spec fn texts_ascending(s: Seq<(Seq<char>, nat)>) -> bool {
    forall|i: int, j: int| 0 <= i < j < s.len() ==> text_order(s[i].0, s[j].0) == Order::Less
}

/// Every group before `p` is below `id`, and the one at `p`, if any, is not.
pub open spec fn is_group_slot(gs: Seq<GroupV>, id: IdentityV, p: int) -> bool {
    &&& 0 <= p <= gs.len()
    &&& forall|j: int| 0 <= j < p ==> identity_order((#[trigger] gs[j]).identity, id) == Order::Less
    &&& p < gs.len() ==> identity_order(gs[p].identity, id) != Order::Less
}

/// Where the group of `id` stands or would stand.
pub open spec fn group_slot(gs: Seq<GroupV>, id: IdentityV) -> int {
    choose|p: int| is_group_slot(gs, id, p)
}

proof fn lemma_group_slot(gs: Seq<GroupV>, id: IdentityV, p: int)
    requires
        is_group_slot(gs, id, p),
    ensures
        group_slot(gs, id) == p,
{
    let q = group_slot(gs, id);
    assert(is_group_slot(gs, id, q));
    if q < p {
        assert(identity_order(gs[q].identity, id) == Order::Less);
    } else if p < q {
        assert(identity_order(gs[p].identity, id) == Order::Less);
    }
}

/// Every entry before `p` is below `v`, and the one at `p`, if any, is not.
pub open spec fn is_text_slot(s: Seq<(Seq<char>, nat)>, v: Seq<char>, p: int) -> bool {
    &&& 0 <= p <= s.len()
    &&& forall|j: int| 0 <= j < p ==> text_order((#[trigger] s[j]).0, v) == Order::Less
    &&& p < s.len() ==> text_order(s[p].0, v) != Order::Less
}

/// Where the entry of `v` stands or would stand.
pub open spec fn text_slot(s: Seq<(Seq<char>, nat)>, v: Seq<char>) -> int {
    choose|p: int| is_text_slot(s, v, p)
}

proof fn lemma_text_slot(s: Seq<(Seq<char>, nat)>, v: Seq<char>, p: int)
    requires
        is_text_slot(s, v, p),
    ensures
        text_slot(s, v) == p,
{
    let q = text_slot(s, v);
    assert(is_text_slot(s, v, q));
    if q < p {
        assert(text_order(s[q].0, v) == Order::Less);
    } else if p < q {
        assert(text_order(s[p].0, v) == Order::Less);
    }
}

/// The supply with one more token of `v`.
pub open spec fn add_token(s: Seq<(Seq<char>, nat)>, v: Seq<char>) -> Seq<(Seq<char>, nat)> {
    let p = text_slot(s, v);
    if p < s.len() && s[p].0 == v {
        s.update(p, (v, s[p].1 + 1))
    } else {
        s.insert(p, (v, 1nat))
    }
}

/// The domain a new group starts from: every atom the producer offers, or
/// only the group's own atom, each with weight one.
pub open spec fn fresh_domain(pm: Map<Seq<char>, u128>, id: IdentityV) -> Seq<(Seq<char>, nat)> {
    match id {
        IdentityV::Variable(_) => listing(pm).map_values(|e: (Seq<char>, u128)| (e.0, 1nat)),
        IdentityV::Ground(s) => if pm.contains_key(s) {
            seq![(s, 1nat)]
        } else {
            Seq::empty()
        },
    }
}

/// The atoms of `d` that the producer also offers, each weight multiplied by
/// the producer's; a weight beyond `usize` is an error.
pub open spec fn narrow(d: Seq<(Seq<char>, nat)>, pm: Map<Seq<char>, u128>) -> Result<Seq<(Seq<char>, nat)>, Error>
    decreases d.len(),
{
    if d.len() == 0 {
        Ok(Seq::empty())
    } else {
        match narrow(d.drop_last(), pm) {
            Err(e) => Err(e),
            Ok(r) => {
                let v = d.last().0;
                let w = d.last().1;
                if pm.contains_key(v) {
                    if w * pm[v] > usize::MAX {
                        Err(Error::Multiplicity)
                    } else {
                        Ok(r.push((v, (w * pm[v]) as nat)))
                    }
                } else {
                    Ok(r)
                }
            },
        }
    }
}

/// The identity a producer constraint's argument stands for.
pub open spec fn identity_of(t: TermV) -> Option<IdentityV> {
    match t {
        TermV::Var(v) => Some(IdentityV::Variable(v)),
        _ => match atom_of(t) {
            Some(s) => Some(IdentityV::Ground(s)),
            None => None,
        },
    }
}

/// What gathering a query has found so far.
pub struct GatherV {
    pub groups: Seq<GroupV>,
    pub supply: Seq<(Seq<char>, nat)>,
    pub inert: Seq<ConstraintV>,
    pub left: nat,
}

/// The budget of term nodes for reading a query.
pub const QUERY_NODES: usize = 100000;

/// The most constraints, and the most outputs, a query may have.
pub const QUERY_ITEMS: usize = 10000;

/// The most groups a query may form.
pub const MAX_GROUPS: usize = 64;

/// The groups with one more producer constraint of identity `id`: its group,
/// made if new, narrowed to the producer's atoms and holding one more demand.
pub open spec fn grouped(gs: Seq<GroupV>, id: IdentityV, pm: Map<Seq<char>, u128>) -> Result<Seq<GroupV>, Error> {
    let p = group_slot(gs, id);
    let found = p < gs.len() && gs[p].identity == id;
    let g = if found {
        gs[p]
    } else {
        GroupV { identity: id, domain: fresh_domain(pm, id), demand: 0 }
    };
    match narrow(g.domain, pm) {
        Err(e) => Err(e),
        Ok(d) => {
            let g2 = GroupV { identity: id, domain: d, demand: g.demand + 1 };
            Ok(
                if found {
                    gs.update(p, g2)
                } else {
                    gs.insert(p, g2)
                },
            )
        },
    }
}

/// Gathering one more query constraint.
pub open spec fn gather_step(
    pm: Map<KeyV, Map<Seq<char>, u128>>,
    need: KeyV,
    token: KeyV,
    st: GatherV,
    c: Constraint,
) -> Result<GatherV, Error> {
    if !(terms_size(c.args@) <= st.left && terms_height(c.args@) <= MAX_DEPTH + 1) {
        Err(Error::Limit)
    } else {
        let left = (st.left - terms_size(c.args@)) as nat;
        let cv = constraint_v(c);
        let k = key_v(cv);
        if pm.contains_key(k) {
            match identity_of(cv.args[0]) {
                None => Err(Error::Query),
                Some(id) => match grouped(st.groups, id, pm[k]) {
                    Err(e) => Err(e),
                    Ok(gs) => Ok(GatherV { groups: gs, supply: st.supply, inert: st.inert, left }),
                },
            }
        } else if k == token {
            match atom_of(cv.args[0]) {
                None => Err(Error::Query),
                Some(v) => Ok(GatherV { groups: st.groups, supply: add_token(st.supply, v), inert: st.inert, left }),
            }
        } else if k == need {
            Err(Error::Query)
        } else {
            Ok(GatherV { groups: st.groups, supply: st.supply, inert: st.inert.push(cv), left })
        }
    }
}

/// Gathering the first `n` query constraints, in order.
pub open spec fn gather_v(
    pm: Map<KeyV, Map<Seq<char>, u128>>,
    need: KeyV,
    token: KeyV,
    cs: Seq<Constraint>,
    n: int,
) -> Result<GatherV, Error>
    decreases n,
{
    if n <= 0 {
        Ok(GatherV { groups: Seq::empty(), supply: Seq::empty(), inert: Seq::empty(), left: QUERY_NODES as nat })
    } else {
        match gather_v(pm, need, token, cs, n - 1) {
            Err(e) => Err(e),
            Ok(st) => gather_step(pm, need, token, st, cs[n - 1]),
        }
    }
}

proof fn lemma_gather_error(
    pm: Map<KeyV, Map<Seq<char>, u128>>,
    need: KeyV,
    token: KeyV,
    cs: Seq<Constraint>,
    j: int,
    n: int,
)
    requires
        0 <= j <= n,
        gather_v(pm, need, token, cs, j) is Err,
    ensures
        gather_v(pm, need, token, cs, n) == gather_v(pm, need, token, cs, j),
    decreases n - j,
{
    if j < n {
        lemma_gather_error(pm, need, token, cs, j, n - 1);
    }
}

proof fn lemma_narrow_error(d: Seq<(Seq<char>, nat)>, pm: Map<Seq<char>, u128>, k: int)
    requires
        0 <= k <= d.len(),
        narrow(d.take(k), pm) is Err,
    ensures
        narrow(d, pm) == narrow(d.take(k), pm),
    decreases d.len() - k,
{
    if k < d.len() {
        assert(d.take(k + 1).drop_last() =~= d.take(k));
        lemma_narrow_error(d, pm, k + 1);
    } else {
        assert(d.take(k) =~= d);
    }
}

/// The domain of the producer of key `k`, if there is one.
pub(crate) fn find_producer(ps: &Vec<((String, usize), Domain)>, name: &str, arity: usize) -> (r: Option<usize>)
    requires
        forall|a: int, b: int| 0 <= a < b < ps@.len() ==> pkey(ps@[a]) != pkey(ps@[b]),
    ensures
        match r {
            Some(i) => i < ps@.len() && pkey(ps@[i as int]) == (name@, arity as nat) && producers_map(ps@).contains_key(
                (name@, arity as nat),
            ) && producers_map(ps@)[(name@, arity as nat)] == ps@[i as int].1.weights(),
            None => !producers_map(ps@).contains_key((name@, arity as nat)),
        },
{
    let mut i: usize = 0;
    while i < ps.len()
        invariant
            0 <= i <= ps@.len(),
            forall|a: int, b: int| 0 <= a < b < ps@.len() ==> pkey(ps@[a]) != pkey(ps@[b]),
            forall|j: int| 0 <= j < i ==> #[trigger] pkey(ps@[j]) != (name@, arity as nat),
        decreases ps.len() - i,
    {
        let o = compare_key((ps[i].0.0.as_str(), ps[i].0.1), (name, arity));
        proof {
            lemma_key_order(pkey(ps@[i as int]), (name@, arity as nat));
        }
        if o == Order::Equal {
            proof {
                let k = (name@, arity as nat);
                assert(producers_map(ps@).contains_key(k));
                let j = choose|j: int| 0 <= j < ps@.len() && #[trigger] pkey(ps@[j]) == k;
                if j != i {
                    if j < i {
                        assert(pkey(ps@[j]) != pkey(ps@[i as int]));
                    } else {
                        assert(pkey(ps@[i as int]) != pkey(ps@[j]));
                    }
                }
            }
            return Some(i);
        }
        i += 1;
    }
    None
}

proof fn lemma_groups_insert(gs: Seq<GroupV>, p: int, g: GroupV)
    requires
        groups_ascending(gs),
        is_group_slot(gs, g.identity, p),
        !(p < gs.len() && gs[p].identity == g.identity),
    ensures
        groups_ascending(gs.insert(p, g)),
{
    let t = gs.insert(p, g);
    if p < gs.len() {
        lemma_identity_order(gs[p].identity, g.identity);
    }
    assert forall|i: int, j: int| 0 <= i < j < t.len() implies identity_order(t[i].identity, t[j].identity)
        == Order::Less by {
        if j < p {
            assert(t[i] == gs[i] && t[j] == gs[j]);
        } else if j == p {
            assert(t[i] == gs[i]);
        } else if i == p {
            assert(t[j] == gs[j - 1]);
            if j - 1 > p {
                lemma_identity_order_trans(g.identity, gs[p].identity, gs[j - 1].identity);
            }
        } else if i < p {
            assert(t[i] == gs[i] && t[j] == gs[j - 1]);
        } else {
            assert(t[i] == gs[i - 1] && t[j] == gs[j - 1]);
        }
    }
}

proof fn lemma_texts_insert(s: Seq<(Seq<char>, nat)>, p: int, e: (Seq<char>, nat))
    requires
        texts_ascending(s),
        is_text_slot(s, e.0, p),
        !(p < s.len() && s[p].0 == e.0),
    ensures
        texts_ascending(s.insert(p, e)),
{
    let t = s.insert(p, e);
    if p < s.len() {
        lemma_text_order(s[p].0, e.0);
    }
    assert forall|i: int, j: int| 0 <= i < j < t.len() implies text_order(t[i].0, t[j].0) == Order::Less by {
        if j < p {
            assert(t[i] == s[i] && t[j] == s[j]);
        } else if j == p {
            assert(t[i] == s[i]);
        } else if i == p {
            assert(t[j] == s[j - 1]);
            if j - 1 > p {
                lemma_text_order_trans(e.0, s[p].0, s[j - 1].0);
            }
        } else if i < p {
            assert(t[i] == s[i] && t[j] == s[j - 1]);
        } else {
            assert(t[i] == s[i - 1] && t[j] == s[j - 1]);
        }
    }
}

/// The domain a new group of `id` starts from.
fn fresh(pd: &Domain, id: &Identity) -> (r: Vec<(String, usize)>)
    requires
        pd.wf(),
    ensures
        pairs_v(r@) == fresh_domain(pd.weights(), identity_v(*id)),
{
    match id {
        Identity::Variable(_) => {
            let asc = pd.ascending();
            let ghost l = listing(pd.weights());
            let mut out: Vec<(String, usize)> = Vec::new();
            let mut k: usize = 0;
            while k < asc.len()
                invariant
                    0 <= k <= asc@.len(),
                    entries_v(asc@) == l,
                    pairs_v(out@) == l.take(k as int).map_values(|e: (Seq<char>, u128)| (e.0, 1nat)),
                decreases asc.len() - k,
            {
                let name = asc[k].0.clone();
                let ghost before = out@;
                out.push((name, 1));
                proof {
                    assert(entries_v(asc@)[k as int] == (asc@[k as int].0@, asc@[k as int].1));
                    assert(l.take(k + 1) =~= l.take(k as int).push(l[k as int]));
                    assert(pairs_v(out@) =~= pairs_v(before).push((name@, 1nat)));
                    assert(l.take(k + 1).map_values(|e: (Seq<char>, u128)| (e.0, 1nat)) =~= l.take(k as int).map_values(
                        |e: (Seq<char>, u128)| (e.0, 1nat),
                    ).push((l[k as int].0, 1nat)));
                }
                k += 1;
            }
            proof {
                assert(l.take(k as int) =~= l);
            }
            out
        },
        Identity::Ground(s) => {
            let mut out: Vec<(String, usize)> = Vec::new();
            if pd.get(s).is_some() {
                out.push((s.clone(), 1));
                proof {
                    assert(pairs_v(out@) =~= seq![(s@, 1nat)]);
                }
            } else {
                proof {
                    assert(pairs_v(out@) =~= Seq::<(Seq<char>, nat)>::empty());
                }
            }
            out
        },
    }
}

/// Keep the atoms the producer also offers, multiplying their weights.
fn narrow_with(d: &Vec<(String, usize)>, pd: &Domain) -> (r: Result<Vec<(String, usize)>, Error>)
    requires
        pd.wf(),
    ensures
        match narrow(pairs_v(d@), pd.weights()) {
            Ok(x) => r matches Ok(out) && pairs_v(out@) == x,
            Err(e) => r == Err::<Vec<(String, usize)>, Error>(e),
        },
{
    let ghost pm = pd.weights();
    let ghost dv = pairs_v(d@);
    let mut out: Vec<(String, usize)> = Vec::new();
    let mut k: usize = 0;
    proof {
        assert(dv.take(0) =~= Seq::<(Seq<char>, nat)>::empty());
        assert(pairs_v(out@) =~= Seq::<(Seq<char>, nat)>::empty());
    }
    while k < d.len()
        invariant
            0 <= k <= d@.len(),
            pd.wf(),
            pm == pd.weights(),
            dv == pairs_v(d@),
            narrow(dv.take(k as int), pm) == Ok::<Seq<(Seq<char>, nat)>, Error>(pairs_v(out@)),
        decreases d.len() - k,
    {
        let name = &d[k].0;
        let w = d[k].1;
        proof {
            assert(dv.take(k + 1).drop_last() =~= dv.take(k as int));
            assert(dv.take(k + 1).last() == (name@, w as nat));
        }
        match pd.get(name) {
            Some(n) => {
                let wide: u128 = w as u128;
                match wide.checked_mul(n) {
                    Some(x) => {
                        if x > usize::MAX as u128 {
                            proof {
                                lemma_narrow_error(dv, pm, k + 1);
                            }
                            return Err(Error::Multiplicity);
                        }
                        let ghost before = out@;
                        out.push((name.clone(), x as usize));
                        proof {
                            assert(pairs_v(out@) =~= pairs_v(before).push((name@, (w * n) as nat)));
                        }
                    },
                    None => {
                        proof {
                            lemma_narrow_error(dv, pm, k + 1);
                        }
                        return Err(Error::Multiplicity);
                    },
                }
            },
            None => {},
        }
        k += 1;
    }
    proof {
        assert(dv.take(k as int) =~= dv);
    }
    Ok(out)
}

/// What gathering keeps true: groups and supply are ascending, every group
/// holds at least one and at most as many constraints as a query may have,
/// and the supply is as bounded.
pub open spec fn gathered(gs: Seq<GroupV>, sup: Seq<(Seq<char>, nat)>) -> bool {
    &&& groups_ascending(gs)
    &&& texts_ascending(sup)
    &&& sup.len() <= QUERY_ITEMS
    &&& forall|i: int| 0 <= i < gs.len() ==> 1 <= (#[trigger] gs[i]).demand <= QUERY_ITEMS
    &&& forall|i: int| 0 <= i < sup.len() ==> (#[trigger] sup[i]).1 <= QUERY_ITEMS
}

/// Pay for every node of a constraint's arguments.
fn charge_args(args: &Vec<Term>, budget: &mut usize) -> (r: Result<(), Error>)
    ensures
        (terms_size(args@) <= *old(budget) && terms_height(args@) <= MAX_DEPTH + 1) ==> r is Ok && *final(budget)
            == *old(budget) - terms_size(args@),
        !(terms_size(args@) <= *old(budget) && terms_height(args@) <= MAX_DEPTH + 1) ==> r == Err::<(), Error>(
            Error::Limit,
        ),
{
    let ghost left0 = *old(budget) as nat;
    let mut j: usize = 0;
    proof {
        assert(args@.take(0) =~= Seq::<Term>::empty());
    }
    while j < args.len()
        invariant
            0 <= j <= args@.len(),
            left0 == *old(budget),
            terms_size(args@.take(j as int)) <= left0,
            *budget as nat == left0 - terms_size(args@.take(j as int)),
            terms_height(args@.take(j as int)) <= MAX_DEPTH + 1,
        decreases args.len() - j,
    {
        proof {
            lemma_terms_step(args@, j as int);
            lemma_terms_prefix(args@, j as int + 1);
        }
        term_check(&args[j], budget, 0)?;
        j += 1;
    }
    proof {
        assert(args@.take(j as int) =~= args@);
    }
    Ok(())
}

/// The bounds gathering keeps after `i` constraints.
spec fn bounded(gs: Seq<GroupV>, sup: Seq<(Seq<char>, nat)>, i: nat) -> bool {
    &&& sup.len() <= i
    &&& forall|a: int| 0 <= a < gs.len() ==> 1 <= (#[trigger] gs[a]).demand <= i
    &&& forall|a: int| 0 <= a < sup.len() ==> (#[trigger] sup[a]).1 <= i
}

/// Count one more producer constraint of identity `id` in its group.
fn place(groups: &mut Vec<Group>, pd: &Domain, id: Identity, Ghost(i): Ghost<nat>) -> (r: Result<(), Error>)
    requires
        pd.wf(),
        groups_ascending(groups_v(old(groups)@)),
        forall|a: int| 0 <= a < old(groups)@.len() ==> 1 <= (#[trigger] groups_v(old(groups)@)[a]).demand <= i,
        i < QUERY_ITEMS,
    ensures
        match grouped(groups_v(old(groups)@), identity_v(id), pd.weights()) {
            Ok(gs) => r is Ok && groups_v(final(groups)@) == gs,
            Err(e) => r == Err::<(), Error>(e),
        },
        r is Ok ==> groups_ascending(groups_v(final(groups)@)),
        r is Ok ==> forall|a: int| 0 <= a < final(groups)@.len() ==> 1 <= (#[trigger] groups_v(final(groups)@)[a]).demand <= i + 1,
{
    let ghost gv = groups_v(groups@);
    let ghost idv = identity_v(id);
    let mut p: usize = 0;
    while p < groups.len() && compare_identity(&groups[p].identity, &id) == Order::Less
        invariant
            0 <= p <= groups@.len(),
            gv == groups_v(groups@),
            idv == identity_v(id),
            forall|a: int| 0 <= a < p ==> identity_order((#[trigger] gv[a]).identity, idv) == Order::Less,
        decreases groups.len() - p,
    {
        proof {
            assert(gv[p as int] == groups@[p as int].view_v());
        }
        p += 1;
    }
    let found = p < groups.len() && compare_identity(&groups[p].identity, &id) == Order::Equal;
    proof {
        if p < groups.len() {
            assert(gv[p as int] == groups@[p as int].view_v());
            lemma_identity_order(gv[p as int].identity, idv);
        }
        assert(is_group_slot(gv, idv, p as int));
        lemma_group_slot(gv, idv, p as int);
        assert(found == (p < gv.len() && gv[p as int].identity == idv));
    }
    let narrowed = if found {
        narrow_with(&groups[p].domain, pd)
    } else {
        let f = fresh(pd, &id);
        narrow_with(&f, pd)
    };
    let d = match narrowed {
        Ok(d) => d,
        Err(e) => {
            return Err(e);
        },
    };
    let demand0 = if found {
        groups[p].demand
    } else {
        0
    };
    proof {
        if found {
            assert(gv[p as int].demand <= i);
        }
    }
    let g2 = Group { identity: id, domain: d, demand: demand0 + 1 };
    let ghost g2v = g2.view_v();
    if found {
        groups.set(p, g2);
        proof {
            assert(groups_v(groups@) =~= gv.update(p as int, g2v));
            let nv = groups_v(groups@);
            assert forall|a: int, b: int| 0 <= a < b < nv.len() implies identity_order(nv[a].identity, nv[b].identity)
                == Order::Less by {
                assert(nv[a].identity == gv[a].identity);
                assert(nv[b].identity == gv[b].identity);
            }
            assert forall|a: int| 0 <= a < nv.len() implies 1 <= (#[trigger] nv[a]).demand <= i + 1 by {
                if a != p {
                    assert(nv[a] == gv[a]);
                }
            }
        }
    } else {
        groups.insert(p, g2);
        proof {
            assert(groups_v(groups@) =~= gv.insert(p as int, g2v));
            lemma_groups_insert(gv, p as int, g2v);
            let nv = groups_v(groups@);
            assert forall|a: int| 0 <= a < nv.len() implies 1 <= (#[trigger] nv[a]).demand <= i + 1 by {
                if a < p {
                    assert(nv[a] == gv[a]);
                } else if a > p {
                    assert(nv[a] == gv[a - 1]);
                }
            }
        }
    }
    Ok(())
}

/// Count one more token of `v`.
fn supply_add(supply: &mut Vec<(String, usize)>, v: &String, Ghost(i): Ghost<nat>)
    requires
        texts_ascending(pairs_v(old(supply)@)),
        old(supply)@.len() <= i,
        forall|a: int| 0 <= a < old(supply)@.len() ==> (#[trigger] pairs_v(old(supply)@)[a]).1 <= i,
        i < QUERY_ITEMS,
    ensures
        pairs_v(final(supply)@) == add_token(pairs_v(old(supply)@), v@),
        texts_ascending(pairs_v(final(supply)@)),
        final(supply)@.len() <= i + 1,
        forall|a: int| 0 <= a < final(supply)@.len() ==> (#[trigger] pairs_v(final(supply)@)[a]).1 <= i + 1,
{
    let ghost sv = pairs_v(supply@);
    let mut p: usize = 0;
    while p < supply.len() && compare_text(supply[p].0.as_str(), v.as_str()) == Order::Less
        invariant
            0 <= p <= supply@.len(),
            sv == pairs_v(supply@),
            forall|a: int| 0 <= a < p ==> text_order((#[trigger] sv[a]).0, v@) == Order::Less,
        decreases supply.len() - p,
    {
        p += 1;
    }
    proof {
        if p < supply.len() {
            lemma_text_order(sv[p as int].0, v@);
        }
        assert(is_text_slot(sv, v@, p as int));
        lemma_text_slot(sv, v@, p as int);
    }
    if p < supply.len() && supply[p].0 == *v {
        let count = supply[p].1;
        proof {
            assert(sv[p as int].1 <= i);
        }
        supply.set(p, (v.clone(), count + 1));
        proof {
            let nv = pairs_v(supply@);
            assert(nv =~= sv.update(p as int, (v@, sv[p as int].1 + 1)));
            assert forall|a: int, b: int| 0 <= a < b < nv.len() implies text_order(nv[a].0, nv[b].0) == Order::Less by {
                assert(nv[a].0 == sv[a].0);
                assert(nv[b].0 == sv[b].0);
            }
            assert forall|a: int| 0 <= a < nv.len() implies (#[trigger] nv[a]).1 <= i + 1 by {
                if a != p {
                    assert(nv[a] == sv[a]);
                }
            }
        }
    } else {
        supply.insert(p, (v.clone(), 1));
        proof {
            let nv = pairs_v(supply@);
            assert(nv =~= sv.insert(p as int, (v@, 1nat)));
            lemma_texts_insert(sv, p as int, (v@, 1nat));
            assert forall|a: int| 0 <= a < nv.len() implies (#[trigger] nv[a]).1 <= i + 1 by {
                if a < p {
                    assert(nv[a] == sv[a]);
                } else if a > p {
                    assert(nv[a] == sv[a - 1]);
                }
            }
        }
    }
}

/// Read a query's constraints into producer groups, a token supply and inert
/// constraints.
fn gather(
    ps: &Vec<((String, usize), Domain)>,
    need: &(String, usize),
    token: &(String, usize),
    cs: &Vec<Constraint>,
) -> (r: Result<(Vec<Group>, Vec<(String, usize)>, Vec<Constraint>), Error>)
    requires
        cs@.len() <= QUERY_ITEMS,
        forall|a: int, b: int| 0 <= a < b < ps@.len() ==> pkey(ps@[a]) != pkey(ps@[b]),
        forall|a: int| 0 <= a < ps@.len() ==> (#[trigger] ps@[a]).1.wf(),
        forall|a: int| 0 <= a < ps@.len() ==> (#[trigger] ps@[a]).0.1 == 1,
        token.1 == 1,
    ensures
        match gather_v(producers_map(ps@), (need.0@, need.1 as nat), (token.0@, token.1 as nat), cs@, cs@.len() as int) {
            Ok(st) => r matches Ok((gs, sup, inert)) && groups_v(gs@) == st.groups && pairs_v(sup@) == st.supply
                && constraints_v(inert@) == st.inert,
            Err(e) => r == Err::<(Vec<Group>, Vec<(String, usize)>, Vec<Constraint>), Error>(e),
        },
        r matches Ok((gs, sup, inert)) ==> gathered(groups_v(gs@), pairs_v(sup@)),
{
    let ghost pm = producers_map(ps@);
    let ghost needv = (need.0@, need.1 as nat);
    let ghost tokenv = (token.0@, token.1 as nat);
    let n = cs.len();
    let mut groups: Vec<Group> = Vec::new();
    let mut supply: Vec<(String, usize)> = Vec::new();
    let mut inert: Vec<Constraint> = Vec::new();
    let mut budget: usize = QUERY_NODES;
    let mut i: usize = 0;
    proof {
        assert(groups_v(groups@) =~= Seq::<GroupV>::empty());
        assert(pairs_v(supply@) =~= Seq::<(Seq<char>, nat)>::empty());
        assert(constraints_v(inert@) =~= Seq::<ConstraintV>::empty());
    }
    while i < n
        invariant
            n == cs@.len(),
            n <= QUERY_ITEMS,
            0 <= i <= n,
            pm == producers_map(ps@),
            needv == (need.0@, need.1 as nat),
            tokenv == (token.0@, token.1 as nat),
            token.1 == 1,
            forall|a: int, b: int| 0 <= a < b < ps@.len() ==> pkey(ps@[a]) != pkey(ps@[b]),
            forall|a: int| 0 <= a < ps@.len() ==> (#[trigger] ps@[a]).1.wf(),
            forall|a: int| 0 <= a < ps@.len() ==> (#[trigger] ps@[a]).0.1 == 1,
            gather_v(pm, needv, tokenv, cs@, i as int) == Ok::<GatherV, Error>(
                GatherV {
                    groups: groups_v(groups@),
                    supply: pairs_v(supply@),
                    inert: constraints_v(inert@),
                    left: budget as nat,
                },
            ),
            groups_ascending(groups_v(groups@)),
            texts_ascending(pairs_v(supply@)),
            bounded(groups_v(groups@), pairs_v(supply@), i as nat),
        decreases n - i,
    {
        let c = &cs[i];
        let ghost gv = groups_v(groups@);
        let ghost sv = pairs_v(supply@);
        let ghost st = GatherV { groups: gv, supply: sv, inert: constraints_v(inert@), left: budget as nat };
        proof {
            assert(gather_v(pm, needv, tokenv, cs@, i + 1) == gather_step(pm, needv, tokenv, st, cs@[i as int]));
        }
        match charge_args(&c.args, &mut budget) {
            Ok(()) => {},
            Err(e) => {
                proof {
                    lemma_gather_error(pm, needv, tokenv, cs@, i + 1, n as int);
                }
                return Err(e);
            },
        }
        let ghost cv = constraint_v(*c);
        let ghost left1 = budget as nat;
        proof {
            assert(cv.args.len() == c.args@.len());
            assert(key_v(cv) == (c.name@, c.args@.len() as nat));
        }
        match find_producer(ps, c.name.as_str(), c.args.len()) {
            Some(pi) => {
                let pd = &ps[pi].1;
                proof {
                    assert(ps@[pi as int].0.1 == 1);
                    assert(cv.args[0] == term_v(c.args@[0]));
                }
                let id = match &c.args[0] {
                    Term::Var(v) => Identity::Variable(*v),
                    t => match atom(t) {
                        Some(a) => Identity::Ground(a.clone()),
                        None => {
                            proof {
                                lemma_gather_error(pm, needv, tokenv, cs@, i + 1, n as int);
                            }
                            return Err(Error::Query);
                        },
                    },
                };
                proof {
                    assert(identity_of(cv.args[0]) == Some(identity_v(id)));
                }
                match place(&mut groups, pd, id, Ghost(i as nat)) {
                    Ok(()) => {},
                    Err(e) => {
                        proof {
                            lemma_gather_error(pm, needv, tokenv, cs@, i + 1, n as int);
                        }
                        return Err(e);
                    },
                }
            },
            None => {
                if c.name == token.0 && c.args.len() == token.1 {
                    proof {
                        assert(cv.args[0] == term_v(c.args@[0]));
                    }
                    match atom(&c.args[0]) {
                        Some(v) => {
                            supply_add(&mut supply, v, Ghost(i as nat));
                        },
                        None => {
                            proof {
                                lemma_gather_error(pm, needv, tokenv, cs@, i + 1, n as int);
                            }
                            return Err(Error::Query);
                        },
                    }
                } else if c.name == need.0 && c.args.len() == need.1 {
                    proof {
                        lemma_gather_error(pm, needv, tokenv, cs@, i + 1, n as int);
                    }
                    return Err(Error::Query);
                } else {
                    let ghost before = inert@;
                    inert.push(copy_constraint(c));
                    proof {
                        assert(constraints_v(inert@) =~= constraints_v(before).push(cv));
                    }
                }
            },
        }
        i += 1;
    }
    Ok((groups, supply, inert))
}

/// A gathered query ready to search: groups in identity order, supply atoms in
/// text order, inert constraints and outputs in query order, the names of the
/// done and token constraints, and the limits.
pub struct SearchV {
    pub groups: Seq<GroupV>,
    pub keys: Seq<Seq<char>>,
    pub inert: Seq<ConstraintV>,
    pub outputs: Seq<(Seq<char>, u64)>,
    pub done: Seq<char>,
    pub token: Seq<char>,
    pub max_states: nat,
    pub max_answers: nat,
}

/// What a search has produced and counted so far.
pub struct TallyV {
    pub answers: Seq<AnswerV>,
    pub states: nat,
    pub branches: nat,
    pub prunes: nat,
}

/// The position of atom `v` in the supply, or the supply's length if absent.
pub open spec fn key_pos(keys: Seq<Seq<char>>, v: Seq<char>) -> int {
    if exists|p: int| 0 <= p < keys.len() && keys[p] == v {
        choose|p: int| 0 <= p < keys.len() && keys[p] == v
    } else {
        keys.len() as int
    }
}

/// The domain offers atom `v`.
pub open spec fn offers(d: Seq<(Seq<char>, nat)>, v: Seq<char>) -> bool {
    exists|k: int| 0 <= k < d.len() && d[k].0 == v
}

/// The supply atoms group `i` could still take: those it offers whose supply
/// covers its demand.
pub open spec fn open_atoms(s: SearchV, supply: Seq<nat>, i: int) -> Seq<bool> {
    Seq::new(s.keys.len(), |p: int| offers(s.groups[i].domain, s.keys[p]) && supply[p] >= s.groups[i].demand)
}

/// Every atom of `a` is in `b`.
pub open spec fn within(a: Seq<bool>, b: Seq<bool>) -> bool {
    forall|p: int| 0 <= p < a.len() && a[p] ==> b[p]
}

/// Some atom is in `a`.
pub open spec fn some_atom(a: Seq<bool>) -> bool {
    exists|p: int| 0 <= p < a.len() && a[p]
}

/// The atoms any group from `start` on could still take.
pub open spec fn open_union(s: SearchV, supply: Seq<nat>, start: int) -> Seq<bool> {
    Seq::new(
        s.keys.len(),
        |p: int| exists|i: int| start <= i < s.groups.len() && (#[trigger] open_atoms(s, supply, i))[p],
    )
}

/// The demand of the groups from `i` on whose open atoms all lie in `t`.
pub open spec fn demand_within(s: SearchV, supply: Seq<nat>, i: int, t: Seq<bool>) -> nat
    decreases s.groups.len() - i,
{
    if i < 0 || i >= s.groups.len() {
        0
    } else {
        (if within(open_atoms(s, supply, i), t) {
            s.groups[i].demand
        } else {
            0
        }) + demand_within(s, supply, i + 1, t)
    }
}

/// The supply of the atoms of `t` among the first `p`.
pub open spec fn capacity_within(supply: Seq<nat>, t: Seq<bool>, p: int) -> nat
    decreases p,
{
    if p <= 0 {
        0
    } else {
        capacity_within(supply, t, p - 1) + (if t[p - 1] {
            supply[p - 1]
        } else {
            0nat
        })
    }
}

/// The groups from `start` confined to the atoms of `t` need no more than
/// those atoms supply.
pub open spec fn servable(s: SearchV, supply: Seq<nat>, start: int, t: Seq<bool>) -> bool {
    demand_within(s, supply, start, t) <= capacity_within(supply, t, s.keys.len() as int)
}

/// No group from `start` on is left without an atom, and neither any one
/// group's atoms nor all their atoms together are asked for more than they
/// supply.
pub open spec fn feasible_v(s: SearchV, supply: Seq<nat>, start: int) -> bool {
    &&& forall|i: int|
        start <= i < s.groups.len() ==> some_atom(#[trigger] open_atoms(s, supply, i)) && servable(
            s,
            supply,
            start,
            open_atoms(s, supply, i),
        )
    &&& servable(s, supply, start, open_union(s, supply, start))
}

/// The atoms chosen so far for the groups that stand for variables.
pub open spec fn env_of(s: SearchV, chosen: Seq<Seq<char>>) -> Map<u64, Seq<char>> {
    Map::new(
        |v: u64| exists|i: int| 0 <= i < chosen.len() && (#[trigger] s.groups[i]).identity == IdentityV::Variable(v),
        |v: u64| chosen[choose|i: int| 0 <= i < chosen.len() && (#[trigger] s.groups[i]).identity == IdentityV::Variable(v)],
    )
}

/// A term with every chosen variable replaced by its atom.
pub open spec fn bind_v(t: TermV, env: Map<u64, Seq<char>>) -> TermV
    decreases t,
{
    match t {
        TermV::Var(v) => if env.contains_key(v) {
            TermV::App(env[v], Seq::empty())
        } else {
            TermV::Var(v)
        },
        TermV::App(n, xs) => TermV::App(
            n,
            Seq::new(xs.len(), |i: int| if 0 <= i < xs.len() { bind_v(xs[i], env) } else { TermV::Var(0) }),
        ),
    }
}

pub open spec fn bind_c(c: ConstraintV, env: Map<u64, Seq<char>>) -> ConstraintV {
    ConstraintV { name: c.name, args: c.args.map_values(|t: TermV| bind_v(t, env)) }
}

/// The constraint `name(v)` of an atom.
pub open spec fn atom_c(name: Seq<char>, v: Seq<char>) -> ConstraintV {
    ConstraintV { name, args: seq![TermV::App(v, Seq::empty())] }
}

/// One done constraint per unit of demand of each of the first `i` groups.
pub open spec fn dones(s: SearchV, chosen: Seq<Seq<char>>, i: int) -> Seq<ConstraintV>
    decreases i,
{
    if i <= 0 {
        Seq::empty()
    } else {
        dones(s, chosen, i - 1) + Seq::new(s.groups[i - 1].demand, |j: int| atom_c(s.done, chosen[i - 1]))
    }
}

/// One token constraint per unit of the supply of each of the first `p` atoms.
pub open spec fn tokens(s: SearchV, supply: Seq<nat>, p: int) -> Seq<ConstraintV>
    decreases p,
{
    if p <= 0 {
        Seq::empty()
    } else {
        tokens(s, supply, p - 1) + Seq::new(supply[p - 1], |j: int| atom_c(s.token, s.keys[p - 1]))
    }
}

/// The answer of a complete choice: outputs and inert constraints with the
/// chosen atoms in place, a done constraint per demand and the tokens left.
pub open spec fn answer_at(s: SearchV, supply: Seq<nat>, chosen: Seq<Seq<char>>) -> AnswerV {
    let env = env_of(s, chosen);
    AnswerV {
        outputs: s.outputs.map_values(|o: (Seq<char>, u64)| (o.0, bind_v(TermV::Var(o.1), env))),
        residual: s.inert.map_values(|c: ConstraintV| bind_c(c, env)) + dones(s, chosen, s.groups.len() as int)
            + tokens(s, supply, s.keys.len() as int),
    }
}

/// `n` copies of an answer.
pub open spec fn copies(a: AnswerV, n: nat) -> Seq<AnswerV> {
    Seq::new(n, |j: int| a)
}

/// Visiting the state where the first `index` groups have their atoms.
pub open spec fn visit_v(
    s: SearchV,
    supply: Seq<nat>,
    chosen: Seq<Seq<char>>,
    t: TallyV,
    index: int,
    weight: nat,
) -> Result<TallyV, Error>
    decreases s.groups.len() - index, 1int, 0int,
{
    if t.states >= s.max_states {
        Err(Error::Limit)
    } else {
        let t1 = TallyV { answers: t.answers, states: t.states + 1, branches: t.branches, prunes: t.prunes };
        if !feasible_v(s, supply, index) {
            Ok(TallyV { answers: t1.answers, states: t1.states, branches: t1.branches, prunes: t1.prunes + 1 })
        } else if index >= s.groups.len() {
            let room: nat = if t1.answers.len() >= s.max_answers {
                0
            } else {
                (s.max_answers - t1.answers.len()) as nat
            };
            if weight > room {
                Err(Error::Limit)
            } else {
                Ok(
                    TallyV {
                        answers: t1.answers + copies(answer_at(s, supply, chosen), weight),
                        states: t1.states,
                        branches: t1.branches,
                        prunes: t1.prunes,
                    },
                )
            }
        } else {
            branch_v(s, supply, chosen, t1, index, weight, 0)
        }
    }
}

/// Trying the atoms of group `index` from the `k`-th on.
pub open spec fn branch_v(
    s: SearchV,
    supply: Seq<nat>,
    chosen: Seq<Seq<char>>,
    t: TallyV,
    index: int,
    weight: nat,
    k: int,
) -> Result<TallyV, Error>
    decreases s.groups.len() - index, 0int, s.groups[index].domain.len() - k,
{
    if index < 0 || index >= s.groups.len() || k < 0 || k >= s.groups[index].domain.len() {
        Ok(t)
    } else {
        let g = s.groups[index];
        let value = g.domain[k].0;
        let w = g.domain[k].1;
        let p = key_pos(s.keys, value);
        let n: nat = if p < supply.len() {
            supply[p]
        } else {
            0
        };
        if n < g.demand {
            branch_v(s, supply, chosen, t, index, weight, k + 1)
        } else if weight * w > usize::MAX {
            Err(Error::Multiplicity)
        } else {
            let t2 = TallyV { answers: t.answers, states: t.states, branches: t.branches + 1, prunes: t.prunes };
            match visit_v(s, supply.update(p, (n - g.demand) as nat), chosen.push(value), t2, index + 1, (weight * w) as nat) {
                Err(e) => Err(e),
                Ok(t3) => branch_v(s, supply, chosen, t3, index, weight, k + 1),
            }
        }
    }
}

/// The counts and answers of a search.
#[derive(Debug)]
pub struct Report {
    pub answers: Vec<Answer>,
    pub states: usize,
    pub branches: usize,
    pub capacity_prunes: usize,
}

pub open spec fn report_v(r: Report) -> TallyV {
    TallyV {
        answers: answers_v(r.answers@),
        states: r.states as nat,
        branches: r.branches as nat,
        prunes: r.capacity_prunes as nat,
    }
}

pub open spec fn nats(s: Seq<usize>) -> Seq<nat> {
    s.map_values(|x: usize| x as nat)
}

pub open spec fn texts(s: Seq<String>) -> Seq<Seq<char>> {
    s.map_values(|x: String| x@)
}

/// Where in the supply an atom stands, if it is there at all.
pub open spec fn placed(keys: Seq<Seq<char>>, v: Seq<char>, o: Option<usize>) -> bool {
    match o {
        Some(p) => p < keys.len() && keys[p as int] == v,
        None => forall|q: int| 0 <= q < keys.len() ==> keys[q] != v,
    }
}

pub open spec fn keys_distinct(keys: Seq<Seq<char>>) -> bool {
    forall|a: int, b: int| 0 <= a < b < keys.len() ==> keys[a] != keys[b]
}

proof fn lemma_key_pos(keys: Seq<Seq<char>>, v: Seq<char>, o: Option<usize>)
    requires
        keys_distinct(keys),
        placed(keys, v, o),
    ensures
        key_pos(keys, v) == match o {
            Some(p) => p as int,
            None => keys.len() as int,
        },
{
    if let Some(p) = o {
        assert(keys[p as int] == v);
        let q = key_pos(keys, v);
        assert(0 <= q < keys.len() && keys[q] == v);
        if q != p {
            if q < p {
                assert(keys[q] != keys[p as int]);
            } else {
                assert(keys[p as int] != keys[q]);
            }
        }
    }
}

/// A gathered query with what the search needs at hand.
struct Search<'a> {
    groups: Vec<Group>,
    places: Vec<Vec<Option<usize>>>,
    keys: Vec<String>,
    inert: Vec<Constraint>,
    outputs: &'a Vec<(String, Var)>,
    done: &'a String,
    token: &'a String,
    max_states: usize,
    max_answers: usize,
}

impl<'a> Search<'a> {
    spec fn view_v(&self) -> SearchV {
        SearchV {
            groups: groups_v(self.groups@),
            keys: texts(self.keys@),
            inert: constraints_v(self.inert@),
            outputs: self.outputs@.map_values(|o: (String, Var)| (o.0@, o.1.0)),
            done: self.done@,
            token: self.token@,
            max_states: self.max_states as nat,
            max_answers: self.max_answers as nat,
        }
    }

    spec fn wf(&self) -> bool {
        let v = self.view_v();
        &&& groups_ascending(v.groups)
        &&& keys_distinct(v.keys)
        &&& v.keys.len() <= QUERY_ITEMS
        &&& self.groups@.len() <= MAX_GROUPS
        &&& forall|i: int| 0 <= i < v.groups.len() ==> 1 <= (#[trigger] v.groups[i]).demand <= QUERY_ITEMS
        &&& self.places@.len() == self.groups@.len()
        &&& forall|i: int| 0 <= i < self.places@.len() ==> (#[trigger] self.places@[i])@.len() == self.groups@[i].domain@.len()
        &&& forall|i: int, k: int|
            0 <= i < self.places@.len() && 0 <= k < self.places@[i]@.len() ==> placed(
                v.keys,
                v.groups[i].domain[k].0,
                #[trigger] self.places@[i]@[k],
            )
    }
}

/// The supply atoms group `i` could still take.
fn open_mask(s: &Search, supply: &Vec<usize>, i: usize) -> (m: Vec<bool>)
    requires
        s.wf(),
        supply@.len() == s.keys@.len(),
        i < s.groups@.len(),
    ensures
        m@ == open_atoms(s.view_v(), nats(supply@), i as int),
{
    let ghost sv = s.view_v();
    let n = s.keys.len();
    let mut m: Vec<bool> = Vec::new();
    let mut p: usize = 0;
    while p < n
        invariant
            0 <= p <= n,
            m@.len() == p,
            forall|q: int| 0 <= q < p ==> !m@[q],
        decreases n - p,
    {
        m.push(false);
        p += 1;
    }
    let g = &s.groups[i];
    let pl = &s.places[i];
    proof {
        assert(sv.groups[i as int] == g.view_v());
        assert(pl@.len() == g.domain@.len());
    }
    let mut k: usize = 0;
    while k < g.domain.len()
        invariant
            0 <= k <= g.domain@.len(),
            pl@.len() == g.domain@.len(),
            n == s.keys@.len(),
            supply@.len() == n,
            m@.len() == n,
            s.wf(),
            sv == s.view_v(),
            i < s.groups@.len(),
            g == s.groups@[i as int],
            pl == s.places@[i as int],
            forall|q: int|
                0 <= q < n ==> m@[q] == ((exists|j: int| 0 <= j < k && pl@[j] == Some(q as usize)) && supply@[q]
                    >= g.demand),
        decreases g.domain.len() - k,
    {
        proof {
            assert(placed(sv.keys, sv.groups[i as int].domain[k as int].0, s.places@[i as int]@[k as int]));
        }
        match pl[k] {
            Some(p) => {
                if supply[p] >= g.demand {
                    m.set(p, true);
                }
                proof {
                    assert forall|q: int| 0 <= q < n implies m@[q] == ((exists|j: int| 0 <= j < k + 1 && pl@[j] == Some(
                        q as usize,
                    )) && supply@[q] >= g.demand) by {
                        if q == p as int {
                            assert(pl@[k as int] == Some(q as usize));
                        } else {
                            if exists|j: int| 0 <= j < k + 1 && pl@[j] == Some(q as usize) {
                                let j = choose|j: int| 0 <= j < k + 1 && pl@[j] == Some(q as usize);
                                assert(j < k);
                            }
                        }
                    }
                }
            },
            None => {
                proof {
                    assert forall|q: int| 0 <= q < n implies m@[q] == ((exists|j: int| 0 <= j < k + 1 && pl@[j] == Some(
                        q as usize,
                    )) && supply@[q] >= g.demand) by {
                        if exists|j: int| 0 <= j < k + 1 && pl@[j] == Some(q as usize) {
                            let j = choose|j: int| 0 <= j < k + 1 && pl@[j] == Some(q as usize);
                            assert(j < k);
                        }
                    }
                }
            },
        }
        k += 1;
    }
    proof {
        let d = sv.groups[i as int].domain;
        assert forall|q: int| 0 <= q < n implies m@[q] == open_atoms(sv, nats(supply@), i as int)[q] by {
            assert(sv.keys[q] == s.keys@[q]@);
            if exists|j: int| 0 <= j < k && pl@[j] == Some(q as usize) {
                let j = choose|j: int| 0 <= j < k && pl@[j] == Some(q as usize);
                assert(placed(sv.keys, d[j].0, s.places@[i as int]@[j]));
                assert(d[j].0 == sv.keys[q]);
            }
            if offers(d, sv.keys[q]) {
                let j = choose|j: int| 0 <= j < d.len() && d[j].0 == sv.keys[q];
                assert(placed(sv.keys, d[j].0, s.places@[i as int]@[j]));
                if let Some(r) = pl@[j] {
                    if r as int != q {
                        if (r as int) < q {
                            assert(sv.keys[r as int] != sv.keys[q]);
                        } else {
                            assert(sv.keys[q] != sv.keys[r as int]);
                        }
                    }
                }
            }
        }
        assert(m@ =~= open_atoms(sv, nats(supply@), i as int));
    }
    m
}

fn within_all(a: &Vec<bool>, b: &Vec<bool>) -> (r: bool)
    requires
        a@.len() == b@.len(),
    ensures
        r == within(a@, b@),
{
    let mut p: usize = 0;
    while p < a.len()
        invariant
            0 <= p <= a@.len(),
            a@.len() == b@.len(),
            forall|q: int| 0 <= q < p && a@[q] ==> b@[q],
        decreases a.len() - p,
    {
        if a[p] && !b[p] {
            return false;
        }
        p += 1;
    }
    true
}

fn any_set(a: &Vec<bool>) -> (r: bool)
    ensures
        r == some_atom(a@),
{
    let mut p: usize = 0;
    while p < a.len()
        invariant
            0 <= p <= a@.len(),
            forall|q: int| 0 <= q < p ==> !a@[q],
        decreases a.len() - p,
    {
        if a[p] {
            return true;
        }
        p += 1;
    }
    false
}

proof fn lemma_capacity_bound(supply: Seq<nat>, t: Seq<bool>, p: int)
    requires
        0 <= p <= supply.len(),
        forall|q: int| 0 <= q < supply.len() ==> supply[q] <= QUERY_ITEMS,
    ensures
        capacity_within(supply, t, p) <= p * QUERY_ITEMS,
    decreases p,
{
    if p > 0 {
        lemma_capacity_bound(supply, t, p - 1);
    }
}

/// Whether the groups from `start` confined to `t` can be served by `t`.
fn servable_in(s: &Search, supply: &Vec<usize>, masks: &Vec<Vec<bool>>, start: usize, t: &Vec<bool>) -> (r: bool)
    requires
        s.wf(),
        supply@.len() == s.keys@.len(),
        forall|q: int| 0 <= q < supply@.len() ==> supply@[q] <= QUERY_ITEMS,
        start <= s.groups@.len(),
        masks@.len() == s.groups@.len() - start,
        forall|j: int| 0 <= j < masks@.len() ==> (#[trigger] masks@[j])@ == open_atoms(s.view_v(), nats(supply@), start + j),
        t@.len() == s.keys@.len(),
    ensures
        r == servable(s.view_v(), nats(supply@), start as int, t@),
{
    let ghost sv = s.view_v();
    let ghost ns = nats(supply@);
    let mut demand: u64 = 0;
    let mut i: usize = start;
    while i < s.groups.len()
        invariant
            start <= i <= s.groups@.len(),
            s.wf(),
            sv == s.view_v(),
            ns == nats(supply@),
            supply@.len() == s.keys@.len(),
            masks@.len() == s.groups@.len() - start,
            forall|j: int| 0 <= j < masks@.len() ==> (#[trigger] masks@[j])@ == open_atoms(sv, ns, start + j),
            t@.len() == s.keys@.len(),
            demand + demand_within(sv, ns, i as int, t@) == demand_within(sv, ns, start as int, t@),
            demand <= (i - start) * QUERY_ITEMS,
        decreases s.groups.len() - i,
    {
        proof {
            assert(masks@[i - start]@ == open_atoms(sv, ns, i as int));
            assert(sv.groups[i as int] == s.groups@[i as int].view_v());
            assert(1 <= sv.groups[i as int].demand <= QUERY_ITEMS);
        }
        if within_all(&masks[i - start], t) {
            demand = demand + s.groups[i].demand as u64;
        }
        i += 1;
    }
    let mut cap: u64 = 0;
    let mut p: usize = 0;
    while p < t.len()
        invariant
            0 <= p <= t@.len(),
            t@.len() == supply@.len(),
            supply@.len() <= QUERY_ITEMS,
            ns == nats(supply@),
            forall|q: int| 0 <= q < supply@.len() ==> supply@[q] <= QUERY_ITEMS,
            cap == capacity_within(ns, t@, p as int),
        decreases t.len() - p,
    {
        proof {
            lemma_capacity_bound(ns, t@, p as int);
        }
        if t[p] {
            cap = cap + supply[p] as u64;
        }
        p += 1;
    }
    demand <= cap
}

/// Whether every group from `start` on can still be served.
fn feasible(s: &Search, supply: &Vec<usize>, start: usize) -> (r: bool)
    requires
        s.wf(),
        supply@.len() == s.keys@.len(),
        forall|q: int| 0 <= q < supply@.len() ==> supply@[q] <= QUERY_ITEMS,
        start <= s.groups@.len(),
    ensures
        r == feasible_v(s.view_v(), nats(supply@), start as int),
{
    let ghost sv = s.view_v();
    let ghost ns = nats(supply@);
    let n = s.groups.len();
    let k_len = s.keys.len();
    let mut masks: Vec<Vec<bool>> = Vec::new();
    let mut i: usize = start;
    while i < n
        invariant
            start <= i <= n,
            n == s.groups@.len(),
            s.wf(),
            sv == s.view_v(),
            ns == nats(supply@),
            supply@.len() == s.keys@.len(),
            masks@.len() == i - start,
            forall|j: int| 0 <= j < masks@.len() ==> (#[trigger] masks@[j])@ == open_atoms(sv, ns, start + j),
        decreases n - i,
    {
        masks.push(open_mask(s, supply, i));
        i += 1;
    }
    let mut u: Vec<bool> = Vec::new();
    let mut p: usize = 0;
    while p < k_len
        invariant
            0 <= p <= k_len,
            u@.len() == p,
            forall|q: int| 0 <= q < p ==> !u@[q],
        decreases k_len - p,
    {
        u.push(false);
        p += 1;
    }
    let mut j: usize = 0;
    while j < masks.len()
        invariant
            0 <= j <= masks@.len(),
            k_len == s.keys@.len(),
            masks@.len() == n - start,
            n == s.groups@.len(),
            sv == s.view_v(),
            forall|a: int| 0 <= a < masks@.len() ==> (#[trigger] masks@[a])@ == open_atoms(sv, ns, start + a),
            u@.len() == k_len,
            forall|q: int| 0 <= q < k_len ==> u@[q] == exists|a: int| 0 <= a < j && (#[trigger] masks@[a])@[q],
        decreases masks.len() - j,
    {
        proof {
            assert(masks@[j as int]@ == open_atoms(sv, ns, start + j));
            assert(masks@[j as int]@.len() == k_len);
        }
        let mut q: usize = 0;
        while q < k_len
            invariant
                0 <= q <= k_len,
                0 <= j < masks@.len(),
                masks@[j as int]@.len() == k_len,
                u@.len() == k_len,
                forall|x: int| 0 <= x < k_len ==> u@[x] == ((exists|a: int| 0 <= a < j && (#[trigger] masks@[a])@[x]) || (x
                    < q && masks@[j as int]@[x])),
            decreases k_len - q,
        {
            if masks[j][q] {
                u.set(q, true);
            }
            q += 1;
        }
        proof {
            assert forall|x: int| 0 <= x < k_len implies u@[x] == exists|a: int| 0 <= a < j + 1 && (#[trigger] masks@[a])@[x] by {
                if masks@[j as int]@[x] {
                    assert(0 <= j < j + 1);
                }
                if exists|a: int| 0 <= a < j + 1 && (#[trigger] masks@[a])@[x] {
                    let a = choose|a: int| 0 <= a < j + 1 && (#[trigger] masks@[a])@[x];
                    if a < j {
                        assert(exists|b: int| 0 <= b < j && (#[trigger] masks@[b])@[x]);
                    }
                }
            }
        }
        j += 1;
    }
    proof {
        assert forall|x: int| 0 <= x < k_len implies u@[x] == open_union(sv, ns, start as int)[x] by {
            if u@[x] {
                let a = choose|a: int| 0 <= a < masks@.len() && (#[trigger] masks@[a])@[x];
                assert(open_atoms(sv, ns, start + a)[x]);
            }
            if open_union(sv, ns, start as int)[x] {
                let i = choose|i: int| start <= i < sv.groups.len() && (#[trigger] open_atoms(sv, ns, i))[x];
                assert(masks@[i - start]@ == open_atoms(sv, ns, i));
                assert(masks@[i - start]@[x]);
            }
        }
        assert(u@ =~= open_union(sv, ns, start as int));
    }
    let mut a: usize = 0;
    while a < masks.len()
        invariant
            0 <= a <= masks@.len(),
            s.wf(),
            sv == s.view_v(),
            ns == nats(supply@),
            supply@.len() == s.keys@.len(),
            forall|q: int| 0 <= q < supply@.len() ==> supply@[q] <= QUERY_ITEMS,
            masks@.len() == n - start,
            n == s.groups@.len(),
            start <= n,
            forall|b: int| 0 <= b < masks@.len() ==> (#[trigger] masks@[b])@ == open_atoms(sv, ns, start + b),
            forall|i: int|
                start <= i < start + a ==> some_atom(#[trigger] open_atoms(sv, ns, i)) && servable(
                    sv,
                    ns,
                    start as int,
                    open_atoms(sv, ns, i),
                ),
        decreases masks.len() - a,
    {
        proof {
            assert(masks@[a as int]@ == open_atoms(sv, ns, start + a));
        }
        if !any_set(&masks[a]) || !servable_in(s, supply, &masks, start, &masks[a]) {
            return false;
        }
        a += 1;
    }
    servable_in(s, supply, &masks, start, &u)
}

/// The atom chosen for variable `v`, if a group of it has one.
fn bound_atom<'b>(s: &Search, chosen: &'b Vec<String>, v: u64) -> (r: Option<&'b String>)
    requires
        s.wf(),
        chosen@.len() <= s.groups@.len(),
    ensures
        match r {
            Some(x) => env_of(s.view_v(), texts(chosen@)).contains_key(v) && env_of(s.view_v(), texts(chosen@))[v] == x@,
            None => !env_of(s.view_v(), texts(chosen@)).contains_key(v),
        },
{
    let ghost sv = s.view_v();
    let mut i: usize = 0;
    while i < chosen.len()
        invariant
            0 <= i <= chosen@.len(),
            chosen@.len() <= s.groups@.len(),
            s.wf(),
            sv == s.view_v(),
            forall|j: int| 0 <= j < i ==> (#[trigger] sv.groups[j]).identity != IdentityV::Variable(v),
        decreases chosen.len() - i,
    {
        proof {
            assert(sv.groups[i as int] == s.groups@[i as int].view_v());
        }
        match &s.groups[i].identity {
            Identity::Variable(x) => {
                if x.0 == v {
                    proof {
                        let env = env_of(sv, texts(chosen@));
                        assert(sv.groups[i as int].identity == IdentityV::Variable(v));
                        assert(env.contains_key(v));
                        let j = choose|j: int| 0 <= j < chosen@.len() && (#[trigger] sv.groups[j]).identity == IdentityV::Variable(v);
                        if j != i {
                            if j < i {
                                assert(identity_order(sv.groups[j].identity, sv.groups[i as int].identity) == Order::Less);
                            } else {
                                assert(identity_order(sv.groups[i as int].identity, sv.groups[j].identity) == Order::Less);
                            }
                            lemma_identity_order(sv.groups[j].identity, sv.groups[i as int].identity);
                        }
                        assert(env[v] == texts(chosen@)[i as int]);
                    }
                    return Some(&chosen[i]);
                }
            },
            Identity::Ground(_) => {},
        }
        i += 1;
    }
    None
}

/// A term with every chosen variable replaced by its atom.
fn bind_term(t: &Term, s: &Search, chosen: &Vec<String>) -> (r: Term)
    requires
        s.wf(),
        chosen@.len() <= s.groups@.len(),
    ensures
        term_v(r) == bind_v(term_v(*t), env_of(s.view_v(), texts(chosen@))),
    decreases t,
{
    let ghost env = env_of(s.view_v(), texts(chosen@));
    match t {
        Term::Var(v) => match bound_atom(s, chosen, v.0) {
            Some(x) => {
                let r = Term::App(x.clone(), Vec::new());
                proof {
                    assert(term_v(r)->App_1 =~= Seq::<TermV>::empty());
                }
                r
            },
            None => Term::Var(*v),
        },
        Term::App(n, xs) => {
            let ghost vs = term_v(*t)->App_1;
            let mut out: Vec<Term> = Vec::new();
            let mut i: usize = 0;
            while i < xs.len()
                invariant
                    s.wf(),
                    chosen@.len() <= s.groups@.len(),
                    env == env_of(s.view_v(), texts(chosen@)),
                    *t == Term::App(*n, *xs),
                    vs == term_v(*t)->App_1,
                    vs.len() == xs@.len(),
                    0 <= i <= xs.len(),
                    out@.len() == i,
                    forall|j: int| 0 <= j < i ==> term_v(#[trigger] out@[j]) == bind_v(vs[j], env),
                decreases xs.len() - i,
            {
                proof {
                    assert(decreases_to!(*t => t->App_1));
                    assert(decreases_to!(*xs => xs[i as int]));
                    assert(vs[i as int] == term_v(xs@[i as int]));
                }
                out.push(bind_term(&xs[i], s, chosen));
                i += 1;
            }
            let r = Term::App(n.clone(), out);
            proof {
                let a = term_v(r)->App_1;
                let b = bind_v(term_v(*t), env)->App_1;
                assert forall|j: int| 0 <= j < a.len() implies a[j] == b[j] by {
                    assert(a[j] == term_v(out@[j]));
                }
                assert(a =~= b);
            }
            r
        },
    }
}

/// A constraint with every chosen variable replaced by its atom.
fn bind_constraint(c: &Constraint, s: &Search, chosen: &Vec<String>) -> (r: Constraint)
    requires
        s.wf(),
        chosen@.len() <= s.groups@.len(),
    ensures
        constraint_v(r) == bind_c(constraint_v(*c), env_of(s.view_v(), texts(chosen@))),
{
    let ghost env = env_of(s.view_v(), texts(chosen@));
    let ghost vs = constraint_v(*c).args;
    let mut out: Vec<Term> = Vec::new();
    let mut i: usize = 0;
    while i < c.args.len()
        invariant
            s.wf(),
            chosen@.len() <= s.groups@.len(),
            env == env_of(s.view_v(), texts(chosen@)),
            vs == constraint_v(*c).args,
            vs.len() == c.args@.len(),
            0 <= i <= c.args@.len(),
            out@.len() == i,
            forall|j: int| 0 <= j < i ==> term_v(#[trigger] out@[j]) == bind_v(vs[j], env),
        decreases c.args.len() - i,
    {
        out.push(bind_term(&c.args[i], s, chosen));
        i += 1;
    }
    let r = Constraint { name: c.name.clone(), args: out };
    proof {
        assert(constraint_v(r).args =~= vs.map_values(|t: TermV| bind_v(t, env)));
    }
    r
}

/// The constraint `name(v)`.
fn atom_constraint(name: &String, v: &String) -> (r: Constraint)
    ensures
        constraint_v(r) == atom_c(name@, v@),
{
    let mut args: Vec<Term> = Vec::new();
    args.push(Term::App(v.clone(), Vec::new()));
    let r = Constraint { name: name.clone(), args };
    proof {
        assert(term_v(args@[0])->App_1 =~= Seq::<TermV>::empty());
        assert(constraint_v(r).args =~= seq![TermV::App(v@, Seq::empty())]);
    }
    r
}

/// The answer of a complete choice.
fn answer(s: &Search, supply: &Vec<usize>, chosen: &Vec<String>) -> (r: Answer)
    requires
        s.wf(),
        supply@.len() == s.keys@.len(),
        chosen@.len() == s.groups@.len(),
    ensures
        answer_v(r) == answer_at(s.view_v(), nats(supply@), texts(chosen@)),
{
    let ghost sv = s.view_v();
    let ghost env = env_of(sv, texts(chosen@));
    let ghost ns = nats(supply@);
    let mut outputs: Vec<(String, Term)> = Vec::new();
    let mut i: usize = 0;
    while i < s.outputs.len()
        invariant
            s.wf(),
            sv == s.view_v(),
            chosen@.len() == s.groups@.len(),
            env == env_of(sv, texts(chosen@)),
            0 <= i <= s.outputs@.len(),
            outputs@.len() == i,
            forall|j: int|
                0 <= j < i ==> (#[trigger] outputs@[j]).0@ == sv.outputs[j].0 && term_v(outputs@[j].1) == bind_v(
                    TermV::Var(sv.outputs[j].1),
                    env,
                ),
        decreases s.outputs.len() - i,
    {
        let v = s.outputs[i].1;
        let t = bind_term(&Term::Var(v), s, chosen);
        outputs.push((s.outputs[i].0.clone(), t));
        i += 1;
    }
    let mut residual: Vec<Constraint> = Vec::new();
    let mut i: usize = 0;
    while i < s.inert.len()
        invariant
            s.wf(),
            sv == s.view_v(),
            chosen@.len() == s.groups@.len(),
            env == env_of(sv, texts(chosen@)),
            0 <= i <= s.inert@.len(),
            constraints_v(residual@) == sv.inert.take(i as int).map_values(|c: ConstraintV| bind_c(c, env)),
        decreases s.inert.len() - i,
    {
        let ghost before = residual@;
        residual.push(bind_constraint(&s.inert[i], s, chosen));
        proof {
            assert(sv.inert[i as int] == constraint_v(s.inert@[i as int]));
            assert(sv.inert.take(i + 1) =~= sv.inert.take(i as int).push(sv.inert[i as int]));
            assert(constraints_v(residual@) =~= constraints_v(before).push(bind_c(sv.inert[i as int], env)));
            assert(sv.inert.take(i + 1).map_values(|c: ConstraintV| bind_c(c, env)) =~= sv.inert.take(i as int).map_values(
                |c: ConstraintV| bind_c(c, env),
            ).push(bind_c(sv.inert[i as int], env)));
        }
        i += 1;
    }
    let ghost base = sv.inert.map_values(|c: ConstraintV| bind_c(c, env));
    proof {
        assert(sv.inert.take(i as int) =~= sv.inert);
        assert(dones(sv, texts(chosen@), 0) =~= Seq::<ConstraintV>::empty());
        assert(constraints_v(residual@) =~= base + dones(sv, texts(chosen@), 0));
    }
    let mut g: usize = 0;
    while g < s.groups.len()
        invariant
            s.wf(),
            sv == s.view_v(),
            chosen@.len() == s.groups@.len(),
            0 <= g <= s.groups@.len(),
            constraints_v(residual@) == base + dones(sv, texts(chosen@), g as int),
        decreases s.groups.len() - g,
    {
        let ghost mid = residual@;
        let demand = s.groups[g].demand;
        proof {
            assert(sv.groups[g as int] == s.groups@[g as int].view_v());
        }
        let mut c: usize = 0;
        while c < demand
            invariant
                0 <= c <= demand,
                constraints_v(residual@) == constraints_v(mid) + Seq::new(c as nat, |j: int| atom_c(sv.done, texts(chosen@)[g as int])),
                sv.done == s.done@,
                g < chosen@.len(),
            decreases demand - c,
        {
            let ghost before = residual@;
            let item = atom_constraint(s.done, &chosen[g]);
            let ghost iv = constraint_v(item);
            residual.push(item);
            proof {
                assert(iv == atom_c(sv.done, texts(chosen@)[g as int]));
                assert(constraints_v(residual@) =~= constraints_v(before).push(iv));
                assert(constraints_v(residual@) =~= constraints_v(mid) + Seq::new((c + 1) as nat, |j: int| atom_c(sv.done, texts(chosen@)[g as int])));
            }
            c += 1;
        }
        proof {
            assert(constraints_v(residual@) =~= base + dones(sv, texts(chosen@), g + 1));
        }
        g += 1;
    }
    let ghost base2 = base + dones(sv, texts(chosen@), sv.groups.len() as int);
    proof {
        assert(tokens(sv, ns, 0) =~= Seq::<ConstraintV>::empty());
        assert(constraints_v(residual@) =~= base2 + tokens(sv, ns, 0));
    }
    let mut p: usize = 0;
    while p < s.keys.len()
        invariant
            s.wf(),
            sv == s.view_v(),
            ns == nats(supply@),
            supply@.len() == s.keys@.len(),
            0 <= p <= s.keys@.len(),
            constraints_v(residual@) == base2 + tokens(sv, ns, p as int),
        decreases s.keys.len() - p,
    {
        let ghost mid = residual@;
        let count = supply[p];
        let mut c: usize = 0;
        while c < count
            invariant
                0 <= c <= count,
                constraints_v(residual@) == constraints_v(mid) + Seq::new(c as nat, |j: int| atom_c(sv.token, sv.keys[p as int])),
                sv.token == s.token@,
                p < s.keys@.len(),
                sv.keys == texts(s.keys@),
            decreases count - c,
        {
            let ghost before = residual@;
            let item = atom_constraint(s.token, &s.keys[p]);
            let ghost iv = constraint_v(item);
            residual.push(item);
            proof {
                assert(iv == atom_c(sv.token, sv.keys[p as int]));
                assert(constraints_v(residual@) =~= constraints_v(before).push(iv));
                assert(constraints_v(residual@) =~= constraints_v(mid) + Seq::new((c + 1) as nat, |j: int| atom_c(sv.token, sv.keys[p as int])));
            }
            c += 1;
        }
        proof {
            assert(constraints_v(residual@) =~= base2 + tokens(sv, ns, p + 1));
        }
        p += 1;
    }
    let r = Answer { outputs, residual };
    proof {
        assert(crate::syntax::outputs_v(r.outputs@) =~= sv.outputs.map_values(
            |o: (Seq<char>, u64)| (o.0, bind_v(TermV::Var(o.1), env)),
        ));
    }
    r
}

proof fn lemma_visit_leaf(s: SearchV, supply: Seq<nat>, chosen: Seq<Seq<char>>, t: TallyV, index: int, weight: nat)
    requires
        t.states < s.max_states,
        feasible_v(s, supply, index),
        index >= s.groups.len(),
        t.answers.len() + weight <= s.max_answers,
    ensures
        visit_v(s, supply, chosen, t, index, weight) == Ok::<TallyV, Error>(
            TallyV {
                answers: t.answers + copies(answer_at(s, supply, chosen), weight),
                states: t.states + 1,
                branches: t.branches,
                prunes: t.prunes,
            },
        ),
{
}

/// Visit the state where the first `index` groups have their atoms.
fn visit(
    s: &Search,
    supply: &mut Vec<usize>,
    chosen: &mut Vec<String>,
    report: &mut Report,
    index: usize,
    weight: usize,
) -> (r: Result<(), Error>)
    requires
        s.wf(),
        old(supply)@.len() == s.keys@.len(),
        forall|q: int| 0 <= q < old(supply)@.len() ==> old(supply)@[q] <= QUERY_ITEMS,
        old(chosen)@.len() == index,
        index <= s.groups@.len(),
        old(report).branches == old(report).states,
        old(report).capacity_prunes <= old(report).states,
        old(report).states <= s.max_states,
        old(report).answers@.len() <= s.max_answers,
    ensures
        match visit_v(s.view_v(), nats(old(supply)@), texts(old(chosen)@), report_v(*old(report)), index as int, weight as nat) {
            Ok(t) => r is Ok && report_v(*final(report)) == t && final(supply)@ == old(supply)@ && final(chosen)@ == old(
                chosen,
            )@ && final(report).states == final(report).branches + 1 && final(report).capacity_prunes
                <= final(report).states && final(report).states <= s.max_states && final(report).answers@.len()
                <= s.max_answers,
            Err(e) => r == Err::<(), Error>(e),
        },
    decreases s.groups@.len() - index,
{
    let ghost sv = s.view_v();
    let ghost ns0 = nats(supply@);
    let ghost ch0 = texts(chosen@);
    let ghost sup0 = supply@;
    let ghost cho0 = chosen@;
    if report.states >= s.max_states {
        return Err(Error::Limit);
    }
    report.states = report.states + 1;
    if !feasible(s, supply, index) {
        report.capacity_prunes = report.capacity_prunes + 1;
        return Ok(());
    }
    if index == s.groups.len() {
        let len = report.answers.len();
        let room = if len >= s.max_answers {
            0
        } else {
            s.max_answers - len
        };
        if weight > room {
            return Err(Error::Limit);
        }
        let a = answer(s, supply, chosen);
        let ghost av = answer_v(a);
        let ghost before = answers_v(report.answers@);
        let mut c: usize = 0;
        while c < weight
            invariant
                0 <= c <= weight,
                len + weight <= s.max_answers,
                report.answers@.len() == len + c,
                answers_v(report.answers@) == before + Seq::new(c as nat, |j: int| av),
                av == answer_v(a),
                report.states == old(report).states + 1,
                report.branches == old(report).branches,
                report.capacity_prunes == old(report).capacity_prunes,
            decreases weight - c,
        {
            let ghost prev = report.answers@;
            report.answers.push(copy_answer(&a));
            proof {
                assert(answers_v(report.answers@) =~= answers_v(prev).push(av));
                assert(answers_v(report.answers@) =~= before + Seq::new((c + 1) as nat, |j: int| av));
            }
            c += 1;
        }
        proof {
            assert(answers_v(report.answers@) =~= before + copies(answer_at(sv, ns0, ch0), weight as nat));
            assert(report_v(*old(report)).answers.len() == len);
            assert(sv.groups.len() == s.groups@.len());
            lemma_visit_leaf(sv, ns0, ch0, report_v(*old(report)), index as int, weight as nat);
        }
        return Ok(());
    }
    let ghost target = visit_v(sv, ns0, ch0, report_v(*old(report)), index as int, weight as nat);
    proof {
        assert(target == branch_v(sv, ns0, ch0, report_v(*report), index as int, weight as nat, 0));
    }
    let g = &s.groups[index];
    let pl = &s.places[index];
    let demand = g.demand;
    proof {
        assert(sv.groups[index as int] == g.view_v());
        assert(pl@.len() == g.domain@.len());
    }
    let mut k: usize = 0;
    while k < g.domain.len()
        invariant
            0 <= k <= g.domain@.len(),
            s.wf(),
            sv == s.view_v(),
            index < s.groups@.len(),
            g == s.groups@[index as int],
            pl == s.places@[index as int],
            pl@.len() == g.domain@.len(),
            demand == g.demand,
            sv.groups[index as int] == g.view_v(),
            supply@ == sup0,
            chosen@ == cho0,
            ns0 == nats(sup0),
            ch0 == texts(cho0),
            sup0.len() == s.keys@.len(),
            forall|q: int| 0 <= q < sup0.len() ==> sup0[q] <= QUERY_ITEMS,
            cho0.len() == index,
            report.states == report.branches + 1,
            report.capacity_prunes <= report.states,
            report.states <= s.max_states,
            report.answers@.len() <= s.max_answers,
            branch_v(sv, ns0, ch0, report_v(*report), index as int, weight as nat, k as int) == target,
            target == visit_v(sv, ns0, ch0, report_v(*old(report)), index as int, weight as nat),
            sup0 == old(supply)@,
            cho0 == old(chosen)@,
        decreases g.domain.len() - k,
    {
        let value = &g.domain[k].0;
        let w = g.domain[k].1;
        proof {
            assert(placed(sv.keys, sv.groups[index as int].domain[k as int].0, s.places@[index as int]@[k as int]));
            assert(sv.groups[index as int].domain[k as int] == (value@, w as nat));
            lemma_key_pos(sv.keys, value@, pl@[k as int]);
        }
        let slot = pl[k];
        let n: usize = match slot {
            Some(p) => supply[p],
            None => 0,
        };
        let ghost sp = key_pos(sv.keys, value@);
        proof {
            assert(sv.keys.len() == ns0.len());
            let spec_n: nat = if sp < ns0.len() {
                ns0[sp]
            } else {
                0
            };
            assert(spec_n == n);
        }
        if n < demand {
            k += 1;
        } else {
            let p = match slot {
                Some(p) => p,
                None => {
                    return Err(Error::Limit);
                },
            };
            let prod = match weight.checked_mul(w) {
                Some(x) => x,
                None => {
                    proof {
                        assert(branch_v(sv, ns0, ch0, report_v(*report), index as int, weight as nat, k as int)
                            == Err::<TallyV, Error>(Error::Multiplicity));
                    }
                    return Err(Error::Multiplicity);
                },
            };
            let ghost t3_target = visit_v(
                sv,
                ns0.update(p as int, (n - demand) as nat),
                ch0.push(value@),
                TallyV {
                    answers: report_v(*report).answers,
                    states: report.states as nat,
                    branches: (report.branches + 1) as nat,
                    prunes: report.capacity_prunes as nat,
                },
                index + 1,
                prod as nat,
            );
            report.branches = report.branches + 1;
            supply.set(p, n - demand);
            chosen.push(value.clone());
            proof {
                assert(nats(supply@) =~= ns0.update(p as int, (n - demand) as nat));
                assert(texts(chosen@) =~= ch0.push(value@));
            }
            proof {
                assert(sp == p as int);
                assert(target == match t3_target {
                    Err(e) => Err(e),
                    Ok(t3) => branch_v(sv, ns0, ch0, t3, index as int, weight as nat, k + 1),
                });
            }
            let ghost pre = report_v(*report);
            proof {
                assert(t3_target == visit_v(sv, nats(supply@), texts(chosen@), pre, index + 1, prod as nat));
            }
            match visit(s, supply, chosen, report, index + 1, prod) {
                Ok(()) => {},
                Err(e) => {
                    return Err(e);
                },
            }
            chosen.pop();
            supply.set(p, n);
            proof {
                assert(supply@ =~= sup0);
                assert(chosen@ =~= cho0);
            }
            k += 1;
        }
    }
    Ok(())
}

/// No two outputs share a name.
pub open spec fn names_unique(outs: Seq<(String, Var)>) -> bool {
    forall|i: int, j: int| 0 <= i < j < outs.len() ==> outs[i].0@ != outs[j].0@
}

/// The search a gathered query sets up.
pub open spec fn search_of(a: AdmittedV, st: GatherV, q: Query, limits: Limits) -> SearchV {
    SearchV {
        groups: st.groups,
        keys: st.supply.map_values(|e: (Seq<char>, nat)| e.0),
        inert: st.inert,
        outputs: q.outputs@.map_values(|o: (String, Var)| (o.0@, o.1.0)),
        done: a.done,
        token: a.token.0,
        max_states: limits.states as nat,
        max_answers: limits.answers as nat,
    }
}

/// Solving a query: it is checked and gathered, and the search starts with
/// no group served, nothing counted and weight one.
pub open spec fn solve_v(a: AdmittedV, q: Query, limits: Limits) -> Result<TallyV, Error> {
    if q.constraints@.len() > QUERY_ITEMS || q.outputs@.len() > QUERY_ITEMS || !names_unique(q.outputs@) {
        Err(Error::Query)
    } else {
        match gather_v(a.producers, a.need, a.token, q.constraints@, q.constraints@.len() as int) {
            Err(e) => Err(e),
            Ok(st) => if st.groups.len() > MAX_GROUPS {
                Err(Error::Limit)
            } else {
                visit_v(
                    search_of(a, st, q, limits),
                    st.supply.map_values(|e: (Seq<char>, nat)| e.1),
                    Seq::empty(),
                    TallyV { answers: Seq::empty(), states: 0, branches: 0, prunes: 0 },
                    0,
                    1,
                )
            },
        }
    }
}

fn outputs_distinct(outs: &Vec<(String, Var)>) -> (r: bool)
    ensures
        r == names_unique(outs@),
{
    let mut j: usize = 0;
    while j < outs.len()
        invariant
            0 <= j <= outs@.len(),
            forall|a: int, b: int| 0 <= a < b < j ==> outs@[a].0@ != outs@[b].0@,
        decreases outs.len() - j,
    {
        let mut i: usize = 0;
        while i < j
            invariant
                0 <= i <= j < outs@.len(),
                forall|a: int| 0 <= a < i ==> outs@[a].0@ != outs@[j as int].0@,
            decreases j - i,
        {
            if outs[i].0 == outs[j].0 {
                return false;
            }
            i += 1;
        }
        j += 1;
    }
    true
}

/// Where atom `v` stands in the supply.
fn place_of(keys: &Vec<String>, v: &String) -> (r: Option<usize>)
    ensures
        placed(texts(keys@), v@, r),
{
    let mut p: usize = 0;
    while p < keys.len()
        invariant
            0 <= p <= keys@.len(),
            forall|q: int| 0 <= q < p ==> texts(keys@)[q] != v@,
        decreases keys.len() - p,
    {
        if keys[p] == *v {
            return Some(p);
        }
        p += 1;
    }
    None
}

/// For each group and atom of its domain, where the atom stands in the supply.
fn places_for(groups: &Vec<Group>, keys: &Vec<String>) -> (r: Vec<Vec<Option<usize>>>)
    ensures
        r@.len() == groups@.len(),
        forall|i: int| 0 <= i < r@.len() ==> (#[trigger] r@[i])@.len() == groups@[i].domain@.len(),
        forall|i: int, k: int|
            0 <= i < r@.len() && 0 <= k < r@[i]@.len() ==> placed(
                texts(keys@),
                groups_v(groups@)[i].domain[k].0,
                #[trigger] r@[i]@[k],
            ),
{
    let mut out: Vec<Vec<Option<usize>>> = Vec::new();
    let mut i: usize = 0;
    while i < groups.len()
        invariant
            0 <= i <= groups@.len(),
            out@.len() == i,
            forall|a: int| 0 <= a < i ==> (#[trigger] out@[a])@.len() == groups@[a].domain@.len(),
            forall|a: int, k: int|
                0 <= a < i && 0 <= k < out@[a]@.len() ==> placed(
                    texts(keys@),
                    groups_v(groups@)[a].domain[k].0,
                    #[trigger] out@[a]@[k],
                ),
        decreases groups.len() - i,
    {
        let d = &groups[i].domain;
        proof {
            assert(groups_v(groups@)[i as int] == groups@[i as int].view_v());
        }
        let mut row: Vec<Option<usize>> = Vec::new();
        let mut k: usize = 0;
        while k < d.len()
            invariant
                0 <= k <= d@.len(),
                i < groups@.len(),
                d == groups@[i as int].domain,
                groups_v(groups@)[i as int] == groups@[i as int].view_v(),
                row@.len() == k,
                forall|b: int| 0 <= b < k ==> placed(texts(keys@), groups_v(groups@)[i as int].domain[b].0, #[trigger] row@[b]),
            decreases d.len() - k,
        {
            row.push(place_of(keys, &d[k].0));
            k += 1;
        }
        let ghost before = out@;
        out.push(row);
        proof {
            assert forall|a: int, k: int|
                0 <= a < i + 1 && 0 <= k < out@[a]@.len() implies placed(
                    texts(keys@),
                    groups_v(groups@)[a].domain[k].0,
                    #[trigger] out@[a]@[k],
                ) by {
                if a < i {
                    assert(out@[a] == before[a]);
                }
            }
        }
        i += 1;
    }
    out
}

/// Solve a query against the closed consuming-capacity relation given by its
/// producers, needed key, token key and done name.
pub(crate) fn solve_query(
    ps: &Vec<((String, usize), Domain)>,
    need: &(String, usize),
    token: &(String, usize),
    done: &String,
    q: &Query,
    limits: Limits,
) -> (r: Result<Report, Error>)
    requires
        forall|a: int, b: int| 0 <= a < b < ps@.len() ==> pkey(ps@[a]) != pkey(ps@[b]),
        forall|a: int| 0 <= a < ps@.len() ==> (#[trigger] ps@[a]).1.wf(),
        forall|a: int| 0 <= a < ps@.len() ==> (#[trigger] ps@[a]).0.1 == 1,
        token.1 == 1,
    ensures
        match solve_v(
            AdmittedV {
                producers: producers_map(ps@),
                need: (need.0@, need.1 as nat),
                token: (token.0@, token.1 as nat),
                done: done@,
            },
            *q,
            limits,
        ) {
            Ok(t) => r matches Ok(rep) && report_v(rep) == t,
            Err(e) => r == Err::<Report, Error>(e),
        },
{
    let ghost a = AdmittedV {
        producers: producers_map(ps@),
        need: (need.0@, need.1 as nat),
        token: (token.0@, token.1 as nat),
        done: done@,
    };
    if q.constraints.len() > QUERY_ITEMS || q.outputs.len() > QUERY_ITEMS || !outputs_distinct(&q.outputs) {
        return Err(Error::Query);
    }
    let (groups, sup, inert) = match gather(ps, need, token, &q.constraints) {
        Ok(x) => x,
        Err(e) => {
            return Err(e);
        },
    };
    let ghost st = gather_v(a.producers, a.need, a.token, q.constraints@, q.constraints@.len() as int)->Ok_0;
    if groups.len() > MAX_GROUPS {
        return Err(Error::Limit);
    }
    let ghost sv = pairs_v(sup@);
    let mut keys: Vec<String> = Vec::new();
    let mut counts: Vec<usize> = Vec::new();
    let mut i: usize = 0;
    while i < sup.len()
        invariant
            0 <= i <= sup@.len(),
            sv == pairs_v(sup@),
            texts(keys@) == sv.take(i as int).map_values(|e: (Seq<char>, nat)| e.0),
            nats(counts@) == sv.take(i as int).map_values(|e: (Seq<char>, nat)| e.1),
        decreases sup.len() - i,
    {
        let ghost k0 = keys@;
        let ghost c0 = counts@;
        keys.push(sup[i].0.clone());
        counts.push(sup[i].1);
        proof {
            assert(sv.take(i + 1) =~= sv.take(i as int).push(sv[i as int]));
            assert(texts(keys@) =~= texts(k0).push(sv[i as int].0));
            assert(nats(counts@) =~= nats(c0).push(sv[i as int].1));
            assert(sv.take(i + 1).map_values(|e: (Seq<char>, nat)| e.0) =~= sv.take(i as int).map_values(
                |e: (Seq<char>, nat)| e.0,
            ).push(sv[i as int].0));
            assert(sv.take(i + 1).map_values(|e: (Seq<char>, nat)| e.1) =~= sv.take(i as int).map_values(
                |e: (Seq<char>, nat)| e.1,
            ).push(sv[i as int].1));
        }
        i += 1;
    }
    proof {
        assert(sv.take(i as int) =~= sv);
    }
    let places = places_for(&groups, &keys);
    let search = Search {
        groups,
        places,
        keys,
        inert,
        outputs: &q.outputs,
        done,
        token: &token.0,
        max_states: limits.states,
        max_answers: limits.answers,
    };
    proof {
        let v = search.view_v();
        assert(v == search_of(a, st, *q, limits));
        assert(keys_distinct(v.keys)) by {
            assert forall|x: int, y: int| 0 <= x < y < v.keys.len() implies v.keys[x] != v.keys[y] by {
                assert(text_order(sv[x].0, sv[y].0) == Order::Less);
                lemma_text_order(sv[x].0, sv[y].0);
            }
        }
        assert forall|q: int| 0 <= q < counts@.len() implies counts@[q] <= QUERY_ITEMS by {
            assert(nats(counts@)[q] == sv[q].1);
        }
        assert(search.wf());
    }
    let mut chosen: Vec<String> = Vec::new();
    let mut report = Report { answers: Vec::new(), states: 0, branches: 0, capacity_prunes: 0 };
    proof {
        assert(texts(chosen@) =~= Seq::<Seq<char>>::empty());
        assert(report_v(report) == TallyV { answers: Seq::empty(), states: 0, branches: 0, prunes: 0 }) by {
            assert(answers_v(report.answers@) =~= Seq::<AnswerV>::empty());
        }
    }
    match visit(&search, &mut counts, &mut chosen, &mut report, 0, 1) {
        Ok(()) => Ok(report),
        Err(e) => Err(e),
    }
}

/// The supply of atom `v`.
pub open spec fn supply_of(s: SearchV, supply: Seq<nat>, v: Seq<char>) -> nat {
    let p = key_pos(s.keys, v);
    if 0 <= p < supply.len() {
        supply[p]
    } else {
        0
    }
}

/// The demand the first `j` choices of `xs` put on atom `v`: the demand of
/// every group from `start` whose choice it is.
pub open spec fn load(s: SearchV, start: int, xs: Seq<Seq<char>>, v: Seq<char>, j: int) -> nat
    decreases j,
{
    if j <= 0 {
        0
    } else {
        load(s, start, xs, v, j - 1) + (if xs[j - 1] == v {
            s.groups[start + j - 1].demand
        } else {
            0
        })
    }
}

/// `xs` gives each group from `start` an atom it offers, and no atom is
/// asked for more than its supply.
pub open spec fn serves(s: SearchV, supply: Seq<nat>, start: int, xs: Seq<Seq<char>>) -> bool {
    &&& 0 <= start <= s.groups.len()
    &&& xs.len() == s.groups.len() - start
    &&& forall|j: int| 0 <= j < xs.len() ==> offers(s.groups[start + j].domain, #[trigger] xs[j])
    &&& forall|v: Seq<char>| load(s, start, xs, v, xs.len() as int) <= #[trigger] supply_of(s, supply, v)
}

/// The sum over the first `n` atoms of `t` of `f`.
spec fn tsum(t: Seq<bool>, f: spec_fn(int) -> nat, n: int) -> nat
    decreases n,
{
    if n <= 0 {
        0
    } else {
        tsum(t, f, n - 1) + (if t[n - 1] {
            f(n - 1)
        } else {
            0
        })
    }
}

proof fn lemma_tsum_mono(t: Seq<bool>, f: spec_fn(int) -> nat, g: spec_fn(int) -> nat, n: int)
    requires
        forall|p: int| 0 <= p < n ==> #[trigger] f(p) <= g(p),
    ensures
        tsum(t, f, n) <= tsum(t, g, n),
    decreases n,
{
    if n > 0 {
        lemma_tsum_mono(t, f, g, n - 1);
    }
}

proof fn lemma_tsum_bump(t: Seq<bool>, f: spec_fn(int) -> nat, g: spec_fn(int) -> nat, q: int, c: nat, n: int)
    requires
        forall|p: int| 0 <= p < n ==> #[trigger] g(p) == f(p) + (if p == q {
            c
        } else {
            0
        }),
    ensures
        tsum(t, g, n) == tsum(t, f, n) + (if 0 <= q < n && t[q] {
            c
        } else {
            0
        }),
    decreases n,
{
    if n > 0 {
        lemma_tsum_bump(t, f, g, q, c, n - 1);
    }
}

proof fn lemma_tsum_zero(t: Seq<bool>, f: spec_fn(int) -> nat, n: int)
    requires
        forall|p: int| 0 <= p < n ==> #[trigger] f(p) == 0,
    ensures
        tsum(t, f, n) == 0,
    decreases n,
{
    if n > 0 {
        lemma_tsum_zero(t, f, n - 1);
    }
}

proof fn lemma_capacity_tsum(supply: Seq<nat>, t: Seq<bool>, n: int)
    ensures
        capacity_within(supply, t, n) == tsum(t, |p: int| supply[p], n),
    decreases n,
{
    if n > 0 {
        lemma_capacity_tsum(supply, t, n - 1);
    }
}

/// The demand of the first `m` choices whose atoms lie in `t`.
spec fn picked(s: SearchV, start: int, xs: Seq<Seq<char>>, t: Seq<bool>, m: int) -> nat
    decreases m,
{
    if m <= 0 {
        0
    } else {
        picked(s, start, xs, t, m - 1) + (if t[key_pos(s.keys, xs[m - 1])] {
            s.groups[start + m - 1].demand
        } else {
            0
        })
    }
}

/// Counting the demand on atoms in `t` by choice or by atom gives the same sum.
proof fn lemma_picked_by_atom(s: SearchV, start: int, xs: Seq<Seq<char>>, t: Seq<bool>, m: int)
    requires
        keys_distinct(s.keys),
        0 <= m <= xs.len(),
        forall|j: int| 0 <= j < xs.len() ==> 0 <= #[trigger] key_pos(s.keys, xs[j]) < s.keys.len(),
    ensures
        picked(s, start, xs, t, m) == tsum(t, |p: int| load(s, start, xs, s.keys[p], m), s.keys.len() as int),
    decreases m,
{
    let n = s.keys.len() as int;
    if m == 0 {
        lemma_tsum_zero(t, |p: int| load(s, start, xs, s.keys[p], 0), n);
    } else {
        lemma_picked_by_atom(s, start, xs, t, m - 1);
        let q = key_pos(s.keys, xs[m - 1]);
        let c = s.groups[start + m - 1].demand;
        let f = |p: int| load(s, start, xs, s.keys[p], m - 1);
        let g = |p: int| load(s, start, xs, s.keys[p], m);
        assert(s.keys[q] == xs[m - 1]);
        assert forall|p: int| 0 <= p < n implies #[trigger] g(p) == f(p) + (if p == q {
            c
        } else {
            0
        }) by {
            if p != q {
                if p < q {
                    assert(s.keys[p] != s.keys[q]);
                } else {
                    assert(s.keys[q] != s.keys[p]);
                }
            }
        }
        lemma_tsum_bump(t, f, g, q, c, n);
    }
}

/// Groups confined to `t` are all served from `t`.
proof fn lemma_within_picked(s: SearchV, supply: Seq<nat>, start: int, xs: Seq<Seq<char>>, t: Seq<bool>, m: int)
    requires
        serves(s, supply, start, xs),
        keys_distinct(s.keys),
        supply.len() == s.keys.len(),
        t.len() == s.keys.len(),
        0 <= m <= xs.len(),
        forall|j: int| 0 <= j < xs.len() ==> 0 <= #[trigger] key_pos(s.keys, xs[j]) < s.keys.len(),
        forall|j: int| 0 <= j < xs.len() ==> (#[trigger] open_atoms(s, supply, start + j))[key_pos(s.keys, xs[j])],
    ensures
        demand_within(s, supply, start + m, t) + picked(s, start, xs, t, m) <= picked(s, start, xs, t, xs.len() as int),
    decreases xs.len() - m,
{
    if m < xs.len() {
        lemma_within_picked(s, supply, start, xs, t, m + 1);
        let i = start + m;
        if within(open_atoms(s, supply, i), t) {
            assert(open_atoms(s, supply, start + m)[key_pos(s.keys, xs[m])]);
        }
    }
}

/// A state the search prunes has no service: whenever some choice gives each
/// remaining group an atom it offers without asking any atom for more than
/// its supply, the state is feasible.
pub proof fn lemma_pruned_states_have_no_service(s: SearchV, supply: Seq<nat>, start: int, xs: Seq<Seq<char>>)
    requires
        keys_distinct(s.keys),
        supply.len() == s.keys.len(),
        forall|i: int| 0 <= i < s.groups.len() ==> (#[trigger] s.groups[i]).demand >= 1,
        serves(s, supply, start, xs),
    ensures
        feasible_v(s, supply, start),
{
    let n = s.keys.len() as int;
    let len = xs.len() as int;
    assert forall|j: int| 0 <= j < len implies {
        &&& 0 <= #[trigger] key_pos(s.keys, xs[j]) < n
        &&& open_atoms(s, supply, start + j)[key_pos(s.keys, xs[j])]
    } by {
        let v = xs[j];
        let d = s.groups[start + j].demand;
        lemma_load_at(s, start, xs, v, j, len);
        assert(supply_of(s, supply, v) >= d);
        let p = key_pos(s.keys, v);
        assert(0 <= p < n);
        assert(s.keys[p] == v);
    }
    assert forall|q: int| 0 <= q < n implies #[trigger] load(s, start, xs, s.keys[q], len) <= supply[q] by {
        assert(supply_of(s, supply, s.keys[q]) >= load(s, start, xs, s.keys[q], len));
        let p = key_pos(s.keys, s.keys[q]);
        assert(0 <= p < n && s.keys[p] == s.keys[q]);
        if p != q {
            if p < q {
                assert(s.keys[p] != s.keys[q]);
            } else {
                assert(s.keys[q] != s.keys[p]);
            }
        }
    }
    assert forall|t: Seq<bool>| t.len() == n implies servable(s, supply, start, t) by {
        lemma_within_picked(s, supply, start, xs, t, 0);
        lemma_picked_by_atom(s, start, xs, t, len);
        lemma_tsum_mono(t, |p: int| load(s, start, xs, s.keys[p], len), |p: int| supply[p], n);
        lemma_capacity_tsum(supply, t, n);
    }
    assert forall|i: int| start <= i < s.groups.len() implies some_atom(#[trigger] open_atoms(s, supply, i)) && servable(
        s,
        supply,
        start,
        open_atoms(s, supply, i),
    ) by {
        let j = i - start;
        assert(open_atoms(s, supply, start + j)[key_pos(s.keys, xs[j])]);
        assert(open_atoms(s, supply, i).len() == n);
    }
    assert(open_union(s, supply, start).len() == n);
}

proof fn lemma_load_at(s: SearchV, start: int, xs: Seq<Seq<char>>, v: Seq<char>, j: int, m: int)
    requires
        0 <= j < m <= xs.len(),
        xs[j] == v,
    ensures
        load(s, start, xs, v, m) >= s.groups[start + j].demand,
    decreases m,
{
    if m - 1 > j {
        lemma_load_at(s, start, xs, v, j, m - 1);
    }
}

} // verus!
