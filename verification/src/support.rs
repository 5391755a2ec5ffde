//! Canonical ordered Boolean supports with resumable Boolean operations.
//!
//! An arena stores a shared, reduced, ordered decision diagram. Every handle
//! denotes a Boolean function of an infinite assignment of variables; the
//! arena keeps the diagram canonical, so two handles of one arena denote the
//! same function exactly when they are the same handle.
use std::collections::BTreeMap;
use vstd::prelude::*;

verus! {

/// Handles are scoped to their originating arena. Both terminal handles are universal.
#[derive(Clone, Copy, Debug, PartialEq, Eq, Structural, PartialOrd, Ord, Hash)]
pub struct Support(usize);

impl Support {
    /// The constant-false handle, shared by every arena.
    pub closed spec fn spec_false() -> Support {
        Support(0)
    }

    /// The constant-true handle, shared by every arena.
    pub closed spec fn spec_true() -> Support {
        Support(1)
    }

    pub fn false_handle() -> (r: Support)
        ensures
            r == Support::spec_false(),
    {
        Support(0)
    }

    pub fn true_handle() -> (r: Support)
        ensures
            r == Support::spec_true(),
    {
        Support(1)
    }

    /// The position of the handle in its arena.
    pub closed spec fn id(self) -> int {
        self.0 as int
    }

    pub fn index(self) -> (r: usize)
        ensures
            r == self.id(),
    {
        self.0
    }
}

/// The public shape of one node.
#[derive(Clone, Copy, Debug, PartialEq, Eq, Structural)]
pub enum NodeView {
    False,
    True,
    Branch { variable: usize, low: Support, high: Support },
}

#[derive(Clone, Copy)]
struct Node {
    view: NodeView,
    max_variable: Option<usize>,
}

/// The variable tested by a node, if it is not a terminal.
pub open spec fn top(view: NodeView) -> Option<usize> {
    match view {
        NodeView::Branch { variable, .. } => Some(variable),
        _ => None,
    }
}

/// Every variable that `t` names lies strictly after `v`; terminals name none.
pub open spec fn above(t: Option<usize>, v: int) -> bool {
    match t {
        None => true,
        Some(x) => x > v,
    }
}

/// `t` is no earlier than `u` in the variable order, terminals being last.
pub open spec fn at_least(t: Option<usize>, u: Option<usize>) -> bool {
    match u {
        None => t is None,
        Some(y) => match t {
            None => true,
            Some(x) => x >= y,
        },
    }
}

/// The larger of two optional variables, `None` being the smallest.
pub open spec fn omax(a: Option<usize>, b: Option<usize>) -> Option<usize> {
    match (a, b) {
        (Some(x), Some(y)) => if x >= y { Some(x) } else { Some(y) },
        (Some(x), None) => Some(x),
        (None, y) => y,
    }
}

/// Structural well-formedness of node `i` of a node table over `variables` variables.
spec fn node_ok(views: Seq<NodeView>, i: int, variables: nat) -> bool {
    if i == 0 {
        views[0] == NodeView::False
    } else if i == 1 {
        views[1] == NodeView::True
    } else {
        match views[i] {
            NodeView::Branch { variable, low, high } => {
                &&& variable < variables
                &&& 0 <= low.0 < i
                &&& 0 <= high.0 < i
                &&& low.0 != high.0
                &&& above(top(views[low.0 as int]), variable as int)
                &&& above(top(views[high.0 as int]), variable as int)
            },
            _ => false,
        }
    }
}

spec fn views_ok(views: Seq<NodeView>, variables: nat) -> bool {
    &&& views.len() >= 2
    &&& forall|i: int| 0 <= i < views.len() ==> #[trigger] node_ok(views, i, variables)
}

/// The largest variable tested anywhere below node `h`.
spec fn max_var(views: Seq<NodeView>, h: int) -> Option<usize>
    decreases h,
{
    if 0 <= h < views.len() {
        match views[h] {
            NodeView::Branch { variable, low, high } => if 0 <= low.0 < h && 0 <= high.0 < h {
                omax(omax(Some(variable), max_var(views, low.0 as int)), max_var(views, high.0 as int))
            } else {
                Some(variable)
            },
            _ => None,
        }
    } else {
        None
    }
}

/// The Boolean function denoted by node `h` under the assignment `a`.
spec fn denote(views: Seq<NodeView>, h: int, a: spec_fn(nat) -> bool) -> bool
    decreases h,
{
    if 0 <= h < views.len() {
        match views[h] {
            NodeView::False => false,
            NodeView::True => true,
            NodeView::Branch { variable, low, high } => if 0 <= low.0 < h && 0 <= high.0 < h {
                if a(variable as nat) {
                    denote(views, high.0 as int, a)
                } else {
                    denote(views, low.0 as int, a)
                }
            } else {
                false
            },
        }
    } else {
        false
    }
}

/// Every variable met on the path that `assignment` selects from `h` is assigned.
spec fn covered(views: Seq<NodeView>, h: int, assignment: Seq<bool>) -> bool
    decreases h,
{
    if 0 <= h < views.len() {
        match views[h] {
            NodeView::Branch { variable, low, high } => {
                &&& variable < assignment.len()
                &&& 0 <= low.0 < h
                &&& 0 <= high.0 < h
                &&& if assignment[variable as int] {
                    covered(views, high.0 as int, assignment)
                } else {
                    covered(views, low.0 as int, assignment)
                }
            },
            _ => true,
        }
    } else {
        false
    }
}

/// A finite assignment, read as false beyond its end.
pub open spec fn assignment_of(s: Seq<bool>) -> spec_fn(nat) -> bool {
    |x: nat| x < s.len() && s[x as int]
}

/// `a` with variable `w` set to `b`.
pub open spec fn assign(a: spec_fn(nat) -> bool, w: nat, b: bool) -> spec_fn(nat) -> bool {
    |x: nat| if x == w { b } else { a(x) }
}

spec fn prefix_of(v1: Seq<NodeView>, v2: Seq<NodeView>) -> bool {
    &&& v1.len() <= v2.len()
    &&& forall|i: int| 0 <= i < v1.len() ==> v1[i] == #[trigger] v2[i]
}

proof fn lemma_denote_prefix(v1: Seq<NodeView>, v2: Seq<NodeView>, h: int, a: spec_fn(nat) -> bool)
    requires
        prefix_of(v1, v2),
        0 <= h < v1.len(),
    ensures
        denote(v1, h, a) == denote(v2, h, a),
    decreases h,
{
    assert(v1[h] == v2[h]);
    match v1[h] {
        NodeView::Branch { variable, low, high } => {
            if 0 <= low.0 < h && 0 <= high.0 < h {
                lemma_denote_prefix(v1, v2, low.0 as int, a);
                lemma_denote_prefix(v1, v2, high.0 as int, a);
            }
        },
        _ => {},
    }
}

proof fn lemma_max_var_prefix(v1: Seq<NodeView>, v2: Seq<NodeView>, h: int)
    requires
        prefix_of(v1, v2),
        0 <= h < v1.len(),
    ensures
        max_var(v1, h) == max_var(v2, h),
    decreases h,
{
    assert(v1[h] == v2[h]);
    match v1[h] {
        NodeView::Branch { variable, low, high } => {
            if 0 <= low.0 < h && 0 <= high.0 < h {
                lemma_max_var_prefix(v1, v2, low.0 as int);
                lemma_max_var_prefix(v1, v2, high.0 as int);
            }
        },
        _ => {},
    }
}

/// A well-formed node whose variables all lie after `w` does not depend on `w`.
proof fn lemma_independent(
    views: Seq<NodeView>,
    variables: nat,
    h: int,
    w: nat,
    a: spec_fn(nat) -> bool,
    b: bool,
)
    requires
        views_ok(views, variables),
        0 <= h < views.len(),
        above(top(views[h]), w as int),
    ensures
        denote(views, h, a) == denote(views, h, assign(a, w, b)),
    decreases h,
{
    assert(node_ok(views, h, variables));
    match views[h] {
        NodeView::Branch { variable, low, high } => {
            lemma_independent(views, variables, low.0 as int, w, a, b);
            lemma_independent(views, variables, high.0 as int, w, a, b);
            assert(assign(a, w, b)(variable as nat) == a(variable as nat));
        },
        _ => {},
    }
}

/// Shannon cofactors of a branch at its own variable.
proof fn lemma_cofactor(
    views: Seq<NodeView>,
    variables: nat,
    h: int,
    a: spec_fn(nat) -> bool,
    b: bool,
)
    requires
        views_ok(views, variables),
        2 <= h < views.len(),
    ensures
        views[h] is Branch,
        denote(views, h, assign(a, views[h]->variable as nat, b)) == denote(
            views,
            if b {
                views[h]->high.0 as int
            } else {
                views[h]->low.0 as int
            },
            a,
        ),
{
    assert(node_ok(views, h, variables));
    let v = views[h]->variable;
    let low = views[h]->low.0 as int;
    let high = views[h]->high.0 as int;
    assert(assign(a, v as nat, b)(v as nat) == b);
    lemma_independent(views, variables, low, v as nat, a, b);
    lemma_independent(views, variables, high, v as nat, a, b);
}

/// The node table of an arena without its bookkeeping.
spec fn unique_ok(views: Seq<NodeView>, unique: Map<(usize, usize, usize), usize>) -> bool {
    &&& forall|k: (usize, usize, usize)| #[trigger]
        unique.contains_key(k) ==> {
            &&& 2 <= unique[k] < views.len()
            &&& views[unique[k] as int] == NodeView::Branch {
                variable: k.0,
                low: Support(k.1),
                high: Support(k.2),
            }
        }
    &&& forall|i: int|
        2 <= i < views.len() ==> unique.contains_key(#[trigger] key_of(views[i])) && unique[key_of(
            views[i],
        )] == i
}

spec fn key_of(view: NodeView) -> (usize, usize, usize) {
    match view {
        NodeView::Branch { variable, low, high } => (variable, low.0, high.0),
        _ => (0, 0, 0),
    }
}

/// Every variable tested below node `h` lies before `w`.
spec fn below(t: Option<usize>, w: nat) -> bool {
    match t {
        None => true,
        Some(x) => x < w,
    }
}

/// A node does not depend on variables after the largest one it tests.
proof fn lemma_beyond_max(
    views: Seq<NodeView>,
    variables: nat,
    h: int,
    w: nat,
    a: spec_fn(nat) -> bool,
    b: bool,
)
    requires
        views_ok(views, variables),
        0 <= h < views.len(),
        below(max_var(views, h), w),
    ensures
        denote(views, h, a) == denote(views, h, assign(a, w, b)),
    decreases h,
{
    assert(node_ok(views, h, variables));
    match views[h] {
        NodeView::Branch { variable, low, high } => {
            lemma_beyond_max(views, variables, low.0 as int, w, a, b);
            lemma_beyond_max(views, variables, high.0 as int, w, a, b);
            assert(assign(a, w, b)(variable as nat) == a(variable as nat));
        },
        _ => {},
    }
}

/// Canonicity: in a well-formed table, nodes that denote the same function are the same node.
proof fn lemma_canonical(
    views: Seq<NodeView>,
    variables: nat,
    unique: Map<(usize, usize, usize), usize>,
    i: int,
    j: int,
)
    requires
        views_ok(views, variables),
        unique_ok(views, unique),
        0 <= i < views.len(),
        0 <= j < views.len(),
        forall|a: spec_fn(nat) -> bool| denote(views, i, a) == denote(views, j, a),
    ensures
        i == j,
    decreases if i >= j {
            i
        } else {
            j
        },
{
    if i == j {
        return;
    }
    assert(node_ok(views, i, variables));
    assert(node_ok(views, j, variables));
    let f = |x: nat| false;
    let t = |x: nat| true;
    if i < 2 && j < 2 {
        assert(denote(views, 0, f) != denote(views, 1, f));
        return;
    }
    // Order the pair so that `p` tests the earliest variable.
    let (p, q) = if i < 2 {
        (j, i)
    } else if j < 2 {
        (i, j)
    } else if views[i]->variable <= views[j]->variable {
        (i, j)
    } else {
        (j, i)
    };
    assert(2 <= p);
    let v = views[p]->variable;
    let lp = views[p]->low.0 as int;
    let hp = views[p]->high.0 as int;
    if q < 2 || views[q]->variable > v {
        // `q` does not depend on `v`, so both cofactors of `p` denote `q`, hence each other.
        assert forall|a: spec_fn(nat) -> bool| denote(views, lp, a) == denote(views, hp, a) by {
            lemma_cofactor(views, variables, p, a, false);
            lemma_cofactor(views, variables, p, a, true);
            lemma_independent(views, variables, q, v as nat, a, false);
            lemma_independent(views, variables, q, v as nat, a, true);
        }
        lemma_canonical(views, variables, unique, lp, hp);
        assert(false);
    } else {
        let lq = views[q]->low.0 as int;
        let hq = views[q]->high.0 as int;
        assert forall|a: spec_fn(nat) -> bool| denote(views, lp, a) == denote(views, lq, a) by {
            lemma_cofactor(views, variables, p, a, false);
            lemma_cofactor(views, variables, q, a, false);
        }
        assert forall|a: spec_fn(nat) -> bool| denote(views, hp, a) == denote(views, hq, a) by {
            lemma_cofactor(views, variables, p, a, true);
            lemma_cofactor(views, variables, q, a, true);
        }
        lemma_canonical(views, variables, unique, lp, lq);
        lemma_canonical(views, variables, unique, hp, hq);
        assert(key_of(views[p]) == key_of(views[q]));
        assert(unique[key_of(views[p])] == p);
        assert(unique[key_of(views[q])] == q);
    }
}

pub struct Arena {
    nodes: Vec<Node>,
    unique: BTreeMap<(usize, usize, usize), usize>,
    variables: usize,
}

impl Arena {
    /// The node table.
    pub closed spec fn views(&self) -> Seq<NodeView> {
        self.nodes@.map_values(|n: Node| n.view)
    }

    /// The number of allocated variables.
    pub closed spec fn variables(&self) -> nat {
        self.variables as nat
    }

    pub closed spec fn wf(&self) -> bool {
        &&& views_ok(self.views(), self.variables())
        &&& forall|i: int|
            0 <= i < self.nodes@.len() ==> (#[trigger] self.nodes@[i]).max_variable == max_var(
                self.views(),
                i,
            )
        &&& unique_ok(self.views(), self.unique@)
    }

    /// The handle belongs to this arena.
    pub closed spec fn valid(&self, h: Support) -> bool {
        0 <= h.0 < self.nodes@.len()
    }

    /// The Boolean value of `h` under the assignment `a`.
    pub closed spec fn meaning(&self, h: Support, a: spec_fn(nat) -> bool) -> bool {
        denote(self.views(), h.0 as int, a)
    }

    /// The node that `h` names.
    pub closed spec fn view_of(&self, h: Support) -> NodeView {
        self.views()[h.0 as int]
    }

    /// The largest variable tested below `h`.
    pub closed spec fn max_var_of(&self, h: Support) -> Option<usize> {
        max_var(self.views(), h.0 as int)
    }

    /// Each variable that `h` tests lies strictly after `variable`.
    pub open spec fn tests_after(&self, h: Support, variable: int) -> bool {
        above(top(self.view_of(h)), variable)
    }

    /// The path that `assignment` selects from `h` only meets assigned variables.
    pub closed spec fn covers(&self, h: Support, assignment: Seq<bool>) -> bool {
        covered(self.views(), h.0 as int, assignment)
    }

    pub closed spec fn node_total(&self) -> nat {
        self.nodes@.len()
    }

    /// `self` keeps every node and variable of `older`.
    pub closed spec fn extends(&self, older: &Arena) -> bool {
        &&& prefix_of(older.views(), self.views())
        &&& older.variables <= self.variables
    }

    /// The terminal handles denote the constant functions.
    pub proof fn lemma_terminals(&self, a: spec_fn(nat) -> bool)
        requires
            self.wf(),
        ensures
            self.valid(Support::spec_false()),
            self.valid(Support::spec_true()),
            !self.meaning(Support::spec_false(), a),
            self.meaning(Support::spec_true(), a),
            self.view_of(Support::spec_false()) == NodeView::False,
            self.view_of(Support::spec_true()) == NodeView::True,
    {
        assert(node_ok(self.views(), 0, self.variables()));
        assert(node_ok(self.views(), 1, self.variables()));
    }

    /// A handle belongs to the arena exactly when its position lies below the
    /// node count, which is the length of the node table; the terminals sit at
    /// positions 0 and 1.
    pub proof fn lemma_valid(&self, h: Support)
        ensures
            self.valid(h) <==> h.id() < self.node_total(),
            h.id() >= 0,
            self.node_total() == self.views().len(),
            Support::spec_false().id() == 0,
            Support::spec_true().id() == 1,
            h == Support::spec_false() <==> h.id() == 0,
            h == Support::spec_true() <==> h.id() == 1,
    {
    }

    /// The shape of a node: only the terminal handles name terminals; a branch
    /// tests an allocated variable and has two distinct children at earlier
    /// positions that test only later variables, and its largest tested variable
    /// is the largest of its own and its children's.
    pub proof fn lemma_view(&self, h: Support)
        requires
            self.wf(),
            self.valid(h),
        ensures
            (self.view_of(h) == NodeView::False) <==> h == Support::spec_false(),
            (self.view_of(h) == NodeView::True) <==> h == Support::spec_true(),
            self.view_of(h) matches NodeView::Branch { variable, low, high } ==> {
                &&& variable < self.variables()
                &&& self.valid(low) && self.valid(high)
                &&& low.id() < h.id() && high.id() < h.id() && low != high
                &&& self.tests_after(low, variable as int) && self.tests_after(high, variable as int)
                &&& self.max_var_of(h) == omax(omax(Some(variable), self.max_var_of(low)), self.max_var_of(high))
            },
            !(self.view_of(h) is Branch) ==> self.max_var_of(h) is None,
    {
        assert(node_ok(self.views(), h.0 as int, self.variables()));
        assert(node_ok(self.views(), 0, self.variables()));
        assert(node_ok(self.views(), 1, self.variables()));
    }

    /// An assignment that gives a value to every allocated variable covers every handle.
    pub proof fn lemma_covers(&self, h: Support, s: Seq<bool>)
        requires
            self.wf(),
            self.valid(h),
            s.len() >= self.variables(),
        ensures
            self.covers(h, s),
        decreases h.id(),
    {
        assert(node_ok(self.views(), h.0 as int, self.variables()));
        if let NodeView::Branch { variable, low, high } = self.views()[h.0 as int] {
            self.lemma_covers(low, s);
            self.lemma_covers(high, s);
        }
    }

    /// Canonical form: two handles of a well-formed arena denote the same
    /// function exactly when they are the same handle.
    pub proof fn lemma_canonical(&self, x: Support, y: Support)
        requires
            self.wf(),
            self.valid(x),
            self.valid(y),
        ensures
            (forall|a: spec_fn(nat) -> bool| self.meaning(x, a) == self.meaning(y, a)) <==> x == y,
    {
        if forall|a: spec_fn(nat) -> bool| self.meaning(x, a) == self.meaning(y, a) {
            assert forall|a: spec_fn(nat) -> bool|
                denote(self.views(), x.0 as int, a) == denote(self.views(), y.0 as int, a) by {
                assert(self.meaning(x, a) == self.meaning(y, a));
            }
            lemma_canonical(self.views(), self.variables(), self.unique@, x.0 as int, y.0 as int);
        }
    }

    /// `max_variable` bounds dependence: a handle ignores every variable after
    /// its largest tested one, and a terminal ignores every variable.
    pub proof fn lemma_max_variable(&self, h: Support, w: nat, b: bool, a: spec_fn(nat) -> bool)
        requires
            self.wf(),
            self.valid(h),
            self.max_var_of(h) matches Some(m) ==> m < w,
        ensures
            self.meaning(h, a) == self.meaning(h, assign(a, w, b)),
            self.max_var_of(h) is None <==> !(self.view_of(h) is Branch),
    {
        lemma_beyond_max(self.views(), self.variables(), h.0 as int, w, a, b);
        assert(node_ok(self.views(), h.0 as int, self.variables()));
    }

    /// Growth keeps what every old handle denotes.
    pub proof fn lemma_extends_meaning(&self, older: &Arena, h: Support, a: spec_fn(nat) -> bool)
        requires
            self.extends(older),
            older.valid(h),
        ensures
            self.valid(h),
            self.meaning(h, a) == older.meaning(h, a),
            self.view_of(h) == older.view_of(h),
            self.max_var_of(h) == older.max_var_of(h),
    {
        lemma_denote_prefix(older.views(), self.views(), h.0 as int, a);
        lemma_max_var_prefix(older.views(), self.views(), h.0 as int);
    }

    pub fn new() -> (arena: Self)
        ensures
            arena.wf(),
            arena.variables() == 0,
            arena.node_total() == 2,
    {
        let mut nodes: Vec<Node> = Vec::new();
        nodes.push(Node { view: NodeView::False, max_variable: None });
        nodes.push(Node { view: NodeView::True, max_variable: None });
        let arena = Arena { nodes, unique: BTreeMap::new(), variables: 0 };
        proof {
            let views = arena.views();
            assert(views[0] == NodeView::False);
            assert(views[1] == NodeView::True);
            assert forall|i: int| 0 <= i < views.len() implies #[trigger] node_ok(
                views,
                i,
                arena.variables(),
            ) by {}
            assert forall|i: int| 0 <= i < arena.nodes@.len() implies (
            #[trigger] arena.nodes@[i]).max_variable == max_var(views, i) by {}
        }
        arena
    }

    /// Allocate the next variable and return it with its projection function.
    pub fn fresh_variable(&mut self) -> (r: (usize, Support))
        requires
            old(self).wf(),
            old(self).variables() < usize::MAX,
        ensures
            final(self).wf(),
            final(self).extends(old(self)),
            final(self).variables() == old(self).variables() + 1,
            r.0 == old(self).variables(),
            final(self).valid(r.1),
            final(self).view_of(r.1) == (NodeView::Branch { variable: r.0, low: Support::spec_false(), high: Support::spec_true() }),
            forall|a: spec_fn(nat) -> bool| #[trigger] final(self).meaning(r.1, a) == a(r.0 as nat),
    {
        let variable = self.variables;
        self.variables = self.variables + 1;
        proof {
            assert forall|i: int| 0 <= i < self.views().len() implies #[trigger] node_ok(
                self.views(),
                i,
                self.variables(),
            ) by {
                assert(node_ok(old(self).views(), i, old(self).variables()));
            }
            assert(node_ok(self.views(), 0, self.variables()));
            assert(node_ok(self.views(), 1, self.variables()));
        }
        let handle = self.mk(variable, Support::false_handle(), Support::true_handle());
        proof {
            assert(self.views()[0] == NodeView::False);
            assert(self.views()[1] == NodeView::True);
            assert forall|a: spec_fn(nat) -> bool| #[trigger] self.meaning(handle, a) == a(
                variable as nat,
            ) by {
                self.lemma_terminals(a);
            }
        }
        (variable, handle)
    }

    /// Construct an ordered node. The variable must exist and each nonterminal
    /// child must test a strictly later variable. All handles belong to this arena.
    pub fn mk(&mut self, variable: usize, low: Support, high: Support) -> (r: Support)
        requires
            old(self).wf(),
            variable < old(self).variables(),
            old(self).valid(low),
            old(self).valid(high),
            old(self).tests_after(low, variable as int),
            old(self).tests_after(high, variable as int),
        ensures
            final(self).wf(),
            final(self).extends(old(self)),
            final(self).variables() == old(self).variables(),
            final(self).node_total() <= old(self).node_total() + 1,
            final(self).valid(r),
            low == high ==> r == low && final(self).views() == old(self).views(),
            low != high ==> final(self).view_of(r) == (NodeView::Branch { variable, low, high }),
            (exists|i: int|
                0 <= i < old(self).views().len() && #[trigger] old(self).views()[i]
                    == (NodeView::Branch { variable, low, high })) ==> final(self).views() == old(
                self,
            ).views(),
            forall|a: spec_fn(nat) -> bool| #[trigger]
                final(self).meaning(r, a) == if a(variable as nat) {
                    old(self).meaning(high, a)
                } else {
                    old(self).meaning(low, a)
                },
            tests_at_or_after(final(self).views(), r.id(), variable as int),
    {
        let ghost old_views = self.views();
        let ghost target = NodeView::Branch { variable, low, high };
        proof {
            if exists|i: int| 0 <= i < old_views.len() && #[trigger] old_views[i] == target {
                let i = choose|i: int| 0 <= i < old_views.len() && #[trigger] old_views[i] == target;
                assert(node_ok(old_views, i, self.variables()));
            }
        }
        if low.0 == high.0 {
            proof {
                assert(low == high);
                assert forall|a: spec_fn(nat) -> bool| #[trigger]
                    self.meaning(low, a) == if a(variable as nat) {
                        self.meaning(high, a)
                    } else {
                        self.meaning(low, a)
                    } by {}
            }
            return low;
        }
        let key = (variable, low.0, high.0);
        match self.unique.get(&key) {
            Some(handle) => {
                let handle = *handle;
                let r = Support(handle);
                proof {
                    assert(old_views[handle as int] == target);
                    assert(node_ok(old_views, handle as int, self.variables()));
                    assert forall|a: spec_fn(nat) -> bool| #[trigger]
                        self.meaning(r, a) == if a(variable as nat) {
                            self.meaning(high, a)
                        } else {
                            self.meaning(low, a)
                        } by {}
                }
                return r;
            },
            None => {},
        }
        let ml = self.max_variable(low);
        let mh = self.max_variable(high);
        let max_variable = option_max(option_max(Some(variable), ml), mh);
        let result = Support(self.nodes.len());
        self.nodes.push(Node { view: NodeView::Branch { variable, low, high }, max_variable });
        self.unique.insert(key, result.0);
        proof {
            let views = self.views();
            let n = old_views.len() as int;
            assert(views == old_views.push(target));
            assert(prefix_of(old_views, views));
            assert forall|i: int| 0 <= i < views.len() implies #[trigger] node_ok(
                views,
                i,
                self.variables(),
            ) by {
                if i < n {
                    assert(node_ok(old_views, i, self.variables()));
                    if i >= 2 {
                        let l = old_views[i]->low.0 as int;
                        let h = old_views[i]->high.0 as int;
                        assert(views[l] == old_views[l]);
                        assert(views[h] == old_views[h]);
                    }
                } else {
                    assert(views[low.0 as int] == old_views[low.0 as int]);
                    assert(views[high.0 as int] == old_views[high.0 as int]);
                }
            }
            assert forall|i: int| 0 <= i < self.nodes@.len() implies (
            #[trigger] self.nodes@[i]).max_variable == max_var(views, i) by {
                if i < n {
                    assert(old(self).nodes@[i] == self.nodes@[i]);
                    lemma_max_var_prefix(old_views, views, i);
                } else {
                    lemma_max_var_prefix(old_views, views, low.0 as int);
                    lemma_max_var_prefix(old_views, views, high.0 as int);
                }
            }
            assert forall|k: (usize, usize, usize)| #[trigger]
                self.unique@.contains_key(k) implies {
                &&& 2 <= self.unique@[k] < views.len()
                &&& views[self.unique@[k] as int] == NodeView::Branch {
                    variable: k.0,
                    low: Support(k.1),
                    high: Support(k.2),
                }
            } by {
                if k != key {
                    assert(old(self).unique@.contains_key(k));
                }
            }
            assert forall|i: int| 2 <= i < views.len() implies self.unique@.contains_key(
                #[trigger] key_of(views[i]),
            ) && self.unique@[key_of(views[i])] == i by {
                if i < n {
                    assert(views[i] == old_views[i]);
                    assert(old(self).unique@.contains_key(key_of(old_views[i])));
                    assert(node_ok(old_views, i, self.variables()));
                    if key_of(old_views[i]) == key {
                        assert(old_views[i] == target);
                    }
                }
            }
            assert forall|a: spec_fn(nat) -> bool| #[trigger]
                self.meaning(result, a) == if a(variable as nat) {
                    old(self).meaning(high, a)
                } else {
                    old(self).meaning(low, a)
                } by {
                lemma_denote_prefix(old_views, views, low.0 as int, a);
                lemma_denote_prefix(old_views, views, high.0 as int, a);
            }
            if exists|i: int| 0 <= i < old_views.len() && #[trigger] old_views[i] == target {
                let i = choose|i: int| 0 <= i < old_views.len() && #[trigger] old_views[i] == target;
                assert(old(self).unique@.contains_key(key_of(old_views[i])));
                assert(false);
            }
        }
        result
    }

    pub fn inspect(&self, handle: Support) -> (r: NodeView)
        requires
            self.valid(handle),
        ensures
            r == self.view_of(handle),
    {
        self.nodes[handle.0].view
    }

    pub fn max_variable(&self, handle: Support) -> (r: Option<usize>)
        requires
            self.wf(),
            self.valid(handle),
        ensures
            r == self.max_var_of(handle),
    {
        self.nodes[handle.0].max_variable
    }

    /// Includes the two terminal nodes. This is retained structure, not a work counter.
    pub fn node_count(&self) -> (r: usize)
        ensures
            r == self.node_total(),
    {
        self.nodes.len()
    }

    pub fn variable_count(&self) -> (r: usize)
        ensures
            r == self.variables(),
    {
        self.variables
    }

    /// Diagnostic evaluation. Production observers can use inspect for one-node service.
    pub fn eval(&self, handle: Support, assignment: &[bool]) -> (r: bool)
        requires
            self.wf(),
            self.valid(handle),
            self.covers(handle, assignment@),
        ensures
            r == self.meaning(handle, assignment_of(assignment@)),
    {
        let ghost a = assignment_of(assignment@);
        let mut cur = handle;
        loop
            invariant
                self.wf(),
                self.valid(cur),
                self.covers(cur, assignment@),
                a == assignment_of(assignment@),
                self.meaning(cur, a) == self.meaning(handle, a),
            decreases cur.0,
        {
            proof {
                assert(node_ok(self.views(), cur.0 as int, self.variables()));
            }
            match self.inspect(cur) {
                NodeView::False => {
                    assert(!self.meaning(cur, a));
                    return false;
                },
                NodeView::True => {
                    assert(self.meaning(cur, a));
                    return true;
                },
                NodeView::Branch { variable, low, high } => {
                    cur = if assignment[variable] {
                        high
                    } else {
                        low
                    };
                },
            }
        }
    }
}

/// The node `h` tests `variable` or a later one, or is a terminal.
pub open spec fn tests_at_or_after(views: Seq<NodeView>, h: int, variable: int) -> bool {
    match top(views[h]) {
        None => true,
        Some(x) => x >= variable,
    }
}

fn option_max(a: Option<usize>, b: Option<usize>) -> (r: Option<usize>)
    ensures
        r == omax(a, b),
{
    match (a, b) {
        (Some(x), Some(y)) => if x >= y {
            Some(x)
        } else {
            Some(y)
        },
        (Some(x), None) => Some(x),
        (None, y) => y,
    }
}


/// A Boolean operation on handles of one arena.
#[derive(Clone, Copy, Debug)]
pub enum Operation {
    Not(Support),
    And(Support, Support),
    Or(Support, Support),
    Difference(Support, Support),
}

#[derive(Clone, Copy, Debug, PartialEq, Eq, Structural)]
pub enum Status {
    Pending,
    Complete(Support),
}

/// Diagnostic counters. They stay zero: this build does not collect metrics.
#[derive(Clone, Copy, Debug, Default, PartialEq, Eq)]
pub struct Work {
    pub ticks: u64,
    pub expanded: u64,
    pub memo_hits: u64,
    pub created_nodes: u64,
}

#[derive(Clone, Copy, PartialEq, Eq, Structural)]
enum Kind {
    Not,
    And,
    Or,
    Difference,
}

#[derive(Clone, Copy)]
enum Frame {
    Evaluate((usize, usize)),
    Join { key: (usize, usize), variable: usize, low: (usize, usize), high: (usize, usize) },
}

spec fn combine(kind: Kind, x: bool, y: bool) -> bool {
    match kind {
        Kind::Not => !x,
        Kind::And => x && y,
        Kind::Or => x || y,
        Kind::Difference => x && !y,
    }
}

spec fn kind_of(op: Operation) -> Kind {
    match op {
        Operation::Not(_) => Kind::Not,
        Operation::And(_, _) => Kind::And,
        Operation::Or(_, _) => Kind::Or,
        Operation::Difference(_, _) => Kind::Difference,
    }
}

spec fn operands(op: Operation) -> (usize, usize) {
    match op {
        Operation::Not(a) => (a.0, 0),
        Operation::And(a, b) => (a.0, b.0),
        Operation::Or(a, b) => (a.0, b.0),
        Operation::Difference(a, b) => (a.0, b.0),
    }
}

/// Commutative operations see their operands in index order.
spec fn spec_key(kind: Kind, a: usize, b: usize) -> (usize, usize) {
    if (kind == Kind::And || kind == Kind::Or) && a > b {
        (b, a)
    } else {
        (a, b)
    }
}

spec fn spec_simple(kind: Kind, k: (usize, usize)) -> Option<usize> {
    let (a, b) = k;
    match kind {
        Kind::Not => if a == 0 {
            Some(1usize)
        } else if a == 1 {
            Some(0usize)
        } else {
            None
        },
        Kind::And => if a == 0 || b == 0 {
            Some(0usize)
        } else if a == 1 {
            Some(b)
        } else if b == 1 || a == b {
            Some(a)
        } else {
            None
        },
        Kind::Or => if a == 1 || b == 1 {
            Some(1usize)
        } else if a == 0 {
            Some(b)
        } else if b == 0 || a == b {
            Some(a)
        } else {
            None
        },
        Kind::Difference => if a == 0 || b == 1 || a == b {
            Some(0usize)
        } else if b == 0 {
            Some(a)
        } else {
            None
        },
    }
}

spec fn key_valid(views: Seq<NodeView>, k: (usize, usize)) -> bool {
    k.0 < views.len() && k.1 < views.len()
}

/// The earliest variable tested by either operand.
spec fn key_top(views: Seq<NodeView>, k: (usize, usize)) -> Option<usize> {
    match (top(views[k.0 as int]), top(views[k.1 as int])) {
        (Some(x), Some(y)) => if x <= y { Some(x) } else { Some(y) },
        (Some(x), None) => Some(x),
        (None, y) => y,
    }
}

/// The cofactor of node `x` for `v` set to `hi`.
spec fn cof(views: Seq<NodeView>, x: usize, v: usize, hi: bool) -> usize {
    match views[x as int] {
        NodeView::Branch { variable, low, high } => if variable == v {
            if hi {
                high.0
            } else {
                low.0
            }
        } else {
            x
        },
        _ => x,
    }
}

spec fn child_key(views: Seq<NodeView>, kind: Kind, k: (usize, usize), v: usize, hi: bool) -> (
    usize,
    usize,
) {
    spec_key(kind, cof(views, k.0, v, hi), cof(views, k.1, v, hi))
}

spec fn key_meaning(views: Seq<NodeView>, kind: Kind, k: (usize, usize), a: spec_fn(nat) -> bool) -> bool {
    combine(kind, denote(views, k.0 as int, a), denote(views, k.1 as int, a))
}

spec fn entry_ok(views: Seq<NodeView>, kind: Kind, k: (usize, usize), r: usize) -> bool {
    &&& key_valid(views, k)
    &&& r < views.len()
    &&& at_least(top(views[r as int]), key_top(views, k))
    &&& forall|a: spec_fn(nat) -> bool|
        #[trigger] denote(views, r as int, a) == key_meaning(views, kind, k, a)
}

spec fn memo_ok(views: Seq<NodeView>, kind: Kind, memo: Map<(usize, usize), usize>) -> bool {
    forall|k: (usize, usize)| #[trigger]
        memo.contains_key(k) ==> entry_ok(views, kind, k, memo[k])
}

spec fn frame_key(f: Frame) -> (usize, usize) {
    match f {
        Frame::Evaluate(k) => k,
        Frame::Join { key, .. } => key,
    }
}

spec fn frame_ok(views: Seq<NodeView>, kind: Kind, f: Frame) -> bool {
    match f {
        Frame::Evaluate(k) => key_valid(views, k),
        Frame::Join { key, variable, low, high } => {
            &&& key_valid(views, key)
            &&& key_top(views, key) == Some(variable)
            &&& spec_simple(kind, key) is None
            &&& low == child_key(views, kind, key, variable, false)
            &&& high == child_key(views, kind, key, variable, true)
        },
    }
}

/// The value of `k` is known, or a frame above position `i` will produce it.
spec fn obliged(memo: Map<(usize, usize), usize>, frames: Seq<Frame>, i: int, k: (usize, usize)) -> bool {
    memo.contains_key(k) || exists|j: int| i < j < frames.len() && #[trigger] frame_key(frames[j]) == k
}

spec fn join_obliged(memo: Map<(usize, usize), usize>, frames: Seq<Frame>, i: int) -> bool {
    match frames[i] {
        Frame::Join { low, high, .. } => obliged(memo, frames, i, low) && obliged(
            memo,
            frames,
            i,
            high,
        ),
        _ => true,
    }
}

/// An upper bound on the ticks that evaluating `k` from scratch can take.
spec fn cost(views: Seq<NodeView>, kind: Kind, k: (usize, usize)) -> nat
    decreases k.0 + k.1,
{
    if spec_simple(kind, k) is Some {
        1
    } else {
        match key_top(views, k) {
            None => 1,
            Some(v) => {
                let l = child_key(views, kind, k, v, false);
                let h = child_key(views, kind, k, v, true);
                if l.0 + l.1 < k.0 + k.1 && h.0 + h.1 < k.0 + k.1 {
                    2 + cost(views, kind, l) + cost(views, kind, h)
                } else {
                    1
                }
            },
        }
    }
}

spec fn frame_cost(views: Seq<NodeView>, kind: Kind, f: Frame) -> nat {
    match f {
        Frame::Evaluate(k) => cost(views, kind, k),
        Frame::Join { .. } => 1,
    }
}

spec fn frames_cost(views: Seq<NodeView>, kind: Kind, fs: Seq<Frame>) -> nat
    decreases fs.len(),
{
    if fs.len() == 0 {
        0
    } else {
        frames_cost(views, kind, fs.drop_last()) + frame_cost(views, kind, fs.last())
    }
}

proof fn lemma_frames_cost_push(views: Seq<NodeView>, kind: Kind, fs: Seq<Frame>, f: Frame)
    ensures
        frames_cost(views, kind, fs.push(f)) == frames_cost(views, kind, fs) + frame_cost(
            views,
            kind,
            f,
        ),
{
    assert(fs.push(f).drop_last() == fs);
}

proof fn lemma_cost_positive(views: Seq<NodeView>, kind: Kind, fs: Seq<Frame>)
    requires
        fs.len() > 0,
    ensures
        frames_cost(views, kind, fs) >= 1,
{
    assert(frame_cost(views, kind, fs.last()) >= 1);
}

proof fn lemma_cost_prefix(
    v1: Seq<NodeView>,
    v2: Seq<NodeView>,
    variables: nat,
    kind: Kind,
    k: (usize, usize),
)
    requires
        prefix_of(v1, v2),
        key_valid(v1, k),
        views_ok(v1, variables),
    ensures
        cost(v1, kind, k) == cost(v2, kind, k),
    decreases k.0 + k.1,
{
    assert(v1[k.0 as int] == v2[k.0 as int]);
    assert(v1[k.1 as int] == v2[k.1 as int]);
    if spec_simple(kind, k) is None {
        match key_top(v1, k) {
            None => {},
            Some(v) => {
                let l = child_key(v1, kind, k, v, false);
                let h = child_key(v1, kind, k, v, true);
                assert(l == child_key(v2, kind, k, v, false));
                assert(h == child_key(v2, kind, k, v, true));
                lemma_child(v1, variables, kind, k, v, false);
                lemma_child(v1, variables, kind, k, v, true);
                lemma_cost_prefix(v1, v2, variables, kind, l);
                lemma_cost_prefix(v1, v2, variables, kind, h);
            },
        }
    }
}

proof fn lemma_frames_cost_prefix(
    v1: Seq<NodeView>,
    v2: Seq<NodeView>,
    variables: nat,
    kind: Kind,
    fs: Seq<Frame>,
)
    requires
        prefix_of(v1, v2),
        views_ok(v1, variables),
        forall|i: int| 0 <= i < fs.len() ==> frame_ok(v1, kind, #[trigger] fs[i]),
    ensures
        frames_cost(v1, kind, fs) == frames_cost(v2, kind, fs),
    decreases fs.len(),
{
    if fs.len() > 0 {
        let f = fs.last();
        assert(frame_ok(v1, kind, fs[fs.len() - 1]));
        lemma_frames_cost_prefix(v1, v2, variables, kind, fs.drop_last());
        match f {
            Frame::Evaluate(k) => lemma_cost_prefix(v1, v2, variables, kind, k),
            _ => {},
        }
    }
}

/// What a key's cofactor pair looks like when the key is split at its earliest variable.
proof fn lemma_child(
    views: Seq<NodeView>,
    variables: nat,
    kind: Kind,
    k: (usize, usize),
    v: usize,
    hi: bool,
)
    requires
        views_ok(views, variables),
        key_valid(views, k),
        key_top(views, k) == Some(v),
    ensures
        key_valid(views, child_key(views, kind, k, v, hi)),
        child_key(views, kind, k, v, hi).0 + child_key(views, kind, k, v, hi).1 < k.0 + k.1,
        above(key_top(views, child_key(views, kind, k, v, hi)), v as int),
        above(top(views[child_key(views, kind, k, v, hi).0 as int]), v as int),
        above(top(views[child_key(views, kind, k, v, hi).1 as int]), v as int),
        v < variables,
{
    assert(node_ok(views, k.0 as int, variables));
    assert(node_ok(views, k.1 as int, variables));
}

/// Shannon expansion of one operand at a variable no later than its own.
proof fn lemma_shannon_node(
    views: Seq<NodeView>,
    variables: nat,
    x: usize,
    v: usize,
    a: spec_fn(nat) -> bool,
)
    requires
        views_ok(views, variables),
        x < views.len(),
        at_least(top(views[x as int]), Some(v)),
    ensures
        denote(views, x as int, a) == if a(v as nat) {
            denote(views, cof(views, x, v, true) as int, a)
        } else {
            denote(views, cof(views, x, v, false) as int, a)
        },
{
    assert(node_ok(views, x as int, variables));
}

/// Shannon expansion of a key at its earliest variable.
proof fn lemma_shannon(
    views: Seq<NodeView>,
    variables: nat,
    kind: Kind,
    k: (usize, usize),
    v: usize,
    a: spec_fn(nat) -> bool,
)
    requires
        views_ok(views, variables),
        key_valid(views, k),
        key_top(views, k) == Some(v),
    ensures
        key_meaning(views, kind, k, a) == if a(v as nat) {
            key_meaning(views, kind, child_key(views, kind, k, v, true), a)
        } else {
            key_meaning(views, kind, child_key(views, kind, k, v, false), a)
        },
{
    lemma_shannon_node(views, variables, k.0, v, a);
    lemma_shannon_node(views, variables, k.1, v, a);
}

/// The shortcut table is exact, and every pair of terminals has a shortcut.
proof fn lemma_simple(views: Seq<NodeView>, variables: nat, kind: Kind, k: (usize, usize))
    requires
        views_ok(views, variables),
        key_valid(views, k),
    ensures
        spec_simple(kind, k) matches Some(r) ==> entry_ok(views, kind, k, r),
        spec_simple(kind, k) is None ==> key_top(views, k) is Some,
{
    assert(node_ok(views, 0, variables));
    assert(node_ok(views, 1, variables));
    assert(node_ok(views, k.0 as int, variables));
    assert(node_ok(views, k.1 as int, variables));
}

proof fn lemma_entry_prefix(
    v1: Seq<NodeView>,
    v2: Seq<NodeView>,
    kind: Kind,
    k: (usize, usize),
    r: usize,
)
    requires
        prefix_of(v1, v2),
        entry_ok(v1, kind, k, r),
    ensures
        entry_ok(v2, kind, k, r),
{
    assert(v1[k.0 as int] == v2[k.0 as int]);
    assert(v1[k.1 as int] == v2[k.1 as int]);
    assert(v1[r as int] == v2[r as int]);
    assert forall|a: spec_fn(nat) -> bool|
        #[trigger] denote(v2, r as int, a) == key_meaning(v2, kind, k, a) by {
        lemma_denote_prefix(v1, v2, r as int, a);
        lemma_denote_prefix(v1, v2, k.0 as int, a);
        lemma_denote_prefix(v1, v2, k.1 as int, a);
        assert(denote(v1, r as int, a) == key_meaning(v1, kind, k, a));
    }
}

proof fn lemma_frame_prefix(v1: Seq<NodeView>, v2: Seq<NodeView>, kind: Kind, f: Frame)
    requires
        prefix_of(v1, v2),
        frame_ok(v1, kind, f),
    ensures
        frame_ok(v2, kind, f),
{
    match f {
        Frame::Evaluate(k) => {},
        Frame::Join { key, .. } => {
            assert(v1[key.0 as int] == v2[key.0 as int]);
            assert(v1[key.1 as int] == v2[key.1 as int]);
        },
    }
}

/// Removing the top frame and discharging its key keeps every lower obligation.
proof fn lemma_obligations(
    memo: Map<(usize, usize), usize>,
    frames: Seq<Frame>,
    memo2: Map<(usize, usize), usize>,
    frames2: Seq<Frame>,
    root: (usize, usize),
)
    requires
        frames.len() > 0,
        frames2.len() >= frames.len() - 1,
        forall|i: int| 0 <= i < frames.len() - 1 ==> #[trigger] frames2[i] == frames[i],
        forall|k: (usize, usize)| memo.contains_key(k) ==> #[trigger] memo2.contains_key(k),
        memo2.contains_key(frame_key(frames.last())) || (frames2.len() >= frames.len()
            && frame_key(frames2[frames.len() - 1]) == frame_key(frames.last())),
        forall|i: int| 0 <= i < frames.len() ==> #[trigger] join_obliged(memo, frames, i),
        obliged(memo, frames, -1, root),
    ensures
        forall|i: int| 0 <= i < frames.len() - 1 ==> #[trigger] join_obliged(memo2, frames2, i),
        obliged(memo2, frames2, -1, root),
{
    let n = frames.len() - 1;
    assert forall|i: int, k: (usize, usize)|
        -1 <= i < n && obliged(memo, frames, i, k) implies obliged(memo2, frames2, i, k) by {
        if !memo.contains_key(k) {
            let j = choose|j: int| i < j < frames.len() && #[trigger] frame_key(frames[j]) == k;
            if j < n {
                assert(frames2[j] == frames[j]);
                assert(frame_key(frames2[j]) == k);
            } else if !memo2.contains_key(k) {
                assert(frame_key(frames2[n]) == k);
            }
        }
    }
    assert forall|i: int| 0 <= i < n implies #[trigger] join_obliged(memo2, frames2, i) by {
        assert(join_obliged(memo, frames, i));
        assert(frames2[i] == frames[i]);
    }
}

/// A resumable Boolean operation.
///
/// An apply job owns its continuation and memo table. Interleaved jobs share only
/// immutable nodes and the arena's canonical node table, never projected worlds.
pub struct Job {
    kind: Kind,
    root: (usize, usize),
    frames: Vec<Frame>,
    memo: BTreeMap<(usize, usize), usize>,
    result: Option<Support>,
    work: Work,
    operation: Ghost<Operation>,
}

impl Arena {
    /// Every operand of `op` belongs to this arena.
    pub open spec fn operands_valid(&self, op: Operation) -> bool {
        match op {
            Operation::Not(x) => self.valid(x),
            Operation::And(x, y) => self.valid(x) && self.valid(y),
            Operation::Or(x, y) => self.valid(x) && self.valid(y),
            Operation::Difference(x, y) => self.valid(x) && self.valid(y),
        }
    }

    /// The Boolean value of `op` under the assignment `a`.
    pub open spec fn operation_meaning(&self, op: Operation, a: spec_fn(nat) -> bool) -> bool {
        match op {
            Operation::Not(x) => !self.meaning(x, a),
            Operation::And(x, y) => self.meaning(x, a) && self.meaning(y, a),
            Operation::Or(x, y) => self.meaning(x, a) || self.meaning(y, a),
            Operation::Difference(x, y) => self.meaning(x, a) && !self.meaning(y, a),
        }
    }

    /// Interleaving other jobs changes no result: growth keeps what an
    /// operation means, so a result computed after other work means the
    /// operation over the arena the job started from; and in one arena two
    /// completed jobs whose operations mean the same have the same handle.
    pub proof fn lemma_interleaved_results(
        &self,
        older: &Arena,
        op: Operation,
        r: Support,
        other: Operation,
        s: Support,
    )
        requires
            self.wf(),
            self.extends(older),
            older.operands_valid(op),
            self.valid(r),
            self.valid(s),
            forall|a: spec_fn(nat) -> bool| #[trigger] self.meaning(r, a) == self.operation_meaning(op, a),
            forall|a: spec_fn(nat) -> bool| #[trigger] self.meaning(s, a) == self.operation_meaning(other, a),
        ensures
            forall|a: spec_fn(nat) -> bool| #[trigger] self.meaning(r, a) == older.operation_meaning(op, a),
            (forall|a: spec_fn(nat) -> bool| #[trigger] self.operation_meaning(op, a) == self.operation_meaning(other, a))
                ==> r == s,
    {
        assert forall|a: spec_fn(nat) -> bool| #[trigger] self.meaning(r, a) == older.operation_meaning(op, a) by {
            match op {
                Operation::Not(x) => {
                    self.lemma_extends_meaning(older, x, a);
                },
                Operation::And(x, y) => {
                    self.lemma_extends_meaning(older, x, a);
                    self.lemma_extends_meaning(older, y, a);
                },
                Operation::Or(x, y) => {
                    self.lemma_extends_meaning(older, x, a);
                    self.lemma_extends_meaning(older, y, a);
                },
                Operation::Difference(x, y) => {
                    self.lemma_extends_meaning(older, x, a);
                    self.lemma_extends_meaning(older, y, a);
                },
            }
        }
        if forall|a: spec_fn(nat) -> bool| #[trigger] self.operation_meaning(op, a) == self.operation_meaning(other, a) {
            assert forall|a: spec_fn(nat) -> bool| self.meaning(r, a) == self.meaning(s, a) by {
                assert(self.operation_meaning(op, a) == self.operation_meaning(other, a));
            }
            self.lemma_canonical(r, s);
        }
    }

    /// Start a job for `op`; no node is created until it is ticked.
    pub fn job(&self, operation: Operation) -> (job: Job)
        requires
            self.wf(),
            self.operands_valid(operation),
        ensures
            job.wf(self),
            job.operation() == operation,
            job.completed() is None,
            job.spec_work() == (Work { ticks: 0, expanded: 0, memo_hits: 0, created_nodes: 0 }),
    {
        let (kind, a, b) = match operation {
            Operation::Not(a) => (Kind::Not, a, Support::false_handle()),
            Operation::And(a, b) => (Kind::And, a, b),
            Operation::Or(a, b) => (Kind::Or, a, b),
            Operation::Difference(a, b) => (Kind::Difference, a, b),
        };
        self.inspect(a);
        self.inspect(b);
        proof {
            assert(node_ok(self.views(), 0, self.variables()));
        }
        let root = kind.key(a.0, b.0);
        let mut frames: Vec<Frame> = Vec::new();
        frames.push(Frame::Evaluate(root));
        let job = Job {
            kind,
            root,
            frames,
            memo: BTreeMap::new(),
            result: None,
            work: Work { ticks: 0, expanded: 0, memo_hits: 0, created_nodes: 0 },
            operation: Ghost(operation),
        };
        proof {
            assert(frame_key(job.frames@[0]) == root);
            assert(join_obliged(job.memo@, job.frames@, 0));
        }
        job
    }
}

impl Kind {
    fn key(self, a: usize, b: usize) -> (r: (usize, usize))
        ensures
            r == spec_key(self, a, b),
    {
        if (self == Kind::And || self == Kind::Or) && a > b {
            (b, a)
        } else {
            (a, b)
        }
    }

    fn simple(self, k: (usize, usize)) -> (r: Option<usize>)
        ensures
            r == spec_simple(self, k),
    {
        let (a, b) = k;
        match self {
            Kind::Not => if a == 0 {
                Some(1)
            } else if a == 1 {
                Some(0)
            } else {
                None
            },
            Kind::And => if a == 0 || b == 0 {
                Some(0)
            } else if a == 1 {
                Some(b)
            } else if b == 1 || a == b {
                Some(a)
            } else {
                None
            },
            Kind::Or => if a == 1 || b == 1 {
                Some(1)
            } else if a == 0 {
                Some(b)
            } else if b == 0 || a == b {
                Some(a)
            } else {
                None
            },
            Kind::Difference => if a == 0 || b == 1 || a == b {
                Some(0)
            } else if b == 0 {
                Some(a)
            } else {
                None
            },
        }
    }
}

fn node_variable(view: NodeView) -> (r: Option<usize>)
    ensures
        r == top(view),
{
    match view {
        NodeView::Branch { variable, .. } => Some(variable),
        _ => None,
    }
}

fn cofactors(handle: usize, view: NodeView, top: usize) -> (r: (usize, usize))
    ensures
        view is Branch && view->variable == top ==> r == (view->low.0, view->high.0),
        !(view is Branch && view->variable == top) ==> r == (handle, handle),
{
    match view {
        NodeView::Branch { variable, low, high } => if variable == top {
            (low.0, high.0)
        } else {
            (handle, handle)
        },
        _ => (handle, handle),
    }
}

impl Job {
    /// The operation this job computes.
    pub closed spec fn operation(&self) -> Operation {
        self.operation@
    }

    /// The result, once the job has completed.
    pub closed spec fn completed(&self) -> Option<Support> {
        self.result
    }

    pub closed spec fn spec_work(&self) -> Work {
        self.work
    }

    spec fn inv(&self, views: Seq<NodeView>) -> bool {
        &&& self.core_inv(views)
        &&& match self.result {
            Some(r) => {
                &&& self.frames@.len() == 0
                &&& self.memo@.contains_key(self.root)
                &&& self.memo@[self.root] == r.0
            },
            None => self.frames@.len() > 0,
        }
    }

    /// Everything but the completion bookkeeping.
    spec fn core_inv(&self, views: Seq<NodeView>) -> bool {
        let op = self.operation@;
        &&& self.kind == kind_of(op)
        &&& self.root == spec_key(self.kind, operands(op).0, operands(op).1)
        &&& key_valid(views, self.root)
        &&& key_valid(views, operands(op))
        &&& memo_ok(views, self.kind, self.memo@)
        &&& forall|i: int|
            0 <= i < self.frames@.len() ==> frame_ok(views, self.kind, #[trigger] self.frames@[i])
        &&& forall|i: int|
            0 <= i < self.frames@.len() ==> #[trigger] join_obliged(self.memo@, self.frames@, i)
        &&& obliged(self.memo@, self.frames@, -1, self.root)
    }

    /// The job belongs to `arena`.
    pub closed spec fn wf(&self, arena: &Arena) -> bool {
        self.inv(arena.views())
    }

    /// An upper bound on the ticks still needed; zero once complete.
    pub closed spec fn remaining(&self, arena: &Arena) -> nat {
        match self.result {
            Some(_) => 0,
            None => frames_cost(arena.views(), self.kind, self.frames@),
        }
    }

    /// A job stays valid, with the same remaining bound, when its arena grows.
    pub proof fn lemma_extends(&self, older: &Arena, newer: &Arena)
        requires
            older.wf(),
            newer.extends(older),
            self.wf(older),
        ensures
            self.wf(newer),
            self.remaining(newer) == self.remaining(older),
    {
        let v1 = older.views();
        let v2 = newer.views();
        assert forall|k: (usize, usize)| #[trigger]
            self.memo@.contains_key(k) implies entry_ok(v2, self.kind, k, self.memo@[k]) by {
            lemma_entry_prefix(v1, v2, self.kind, k, self.memo@[k]);
        }
        assert forall|i: int| 0 <= i < self.frames@.len() implies frame_ok(
            v2,
            self.kind,
            #[trigger] self.frames@[i],
        ) by {
            lemma_frame_prefix(v1, v2, self.kind, self.frames@[i]);
        }
        lemma_frames_cost_prefix(v1, v2, older.variables(), self.kind, self.frames@);
    }

    /// An unfinished job always has work left.
    pub proof fn lemma_pending_remaining(&self, arena: &Arena)
        requires
            self.wf(arena),
            self.completed() is None,
        ensures
            self.remaining(arena) >= 1,
    {
        lemma_cost_positive(arena.views(), self.kind, self.frames@);
    }

    pub fn work(&self) -> (r: Work)
        ensures
            r == self.spec_work(),
    {
        self.work
    }

    /// Pop exactly one explicit frame, creating at most three frames and one node.
    /// Map lookups and allocation retain their usual size-dependent cost; this is
    /// an algorithmic service boundary, not a hard real-time latency guarantee.
    pub fn tick(&mut self, arena: &mut Arena) -> (s: Status)
        requires
            old(arena).wf(),
            old(self).wf(old(arena)),
        ensures
            final(arena).wf(),
            final(arena).extends(old(arena)),
            final(arena).variables() == old(arena).variables(),
            final(arena).node_total() <= old(arena).node_total() + 1,
            final(self).wf(final(arena)),
            final(self).operation() == old(self).operation(),
            final(self).spec_work() == old(self).spec_work(),
            old(self).completed() is Some ==> *final(self) == *old(self) && final(arena).views()
                == old(arena).views() && final(arena).node_total() == old(arena).node_total(),
            match s {
                Status::Pending => {
                    &&& final(self).completed() is None
                    &&& final(self).remaining(final(arena)) < old(self).remaining(old(arena))
                },
                Status::Complete(r) => {
                    &&& final(self).completed() == Some(r)
                    &&& final(arena).valid(r)
                    &&& forall|a: spec_fn(nat) -> bool| #[trigger]
                        final(arena).meaning(r, a) == final(arena).operation_meaning(
                            old(self).operation(),
                            a,
                        )
                },
            },
    {
        if let Some(result) = self.result {
            proof {
                self.lemma_complete(arena);
            }
            return Status::Complete(result);
        }
        let ghost old_arena = *arena;
        let last = self.frames.len() - 1;
        match self.frames[last] {
            Frame::Evaluate(key) => self.evaluate(arena, key),
            Frame::Join { key, variable, low, high } => self.join(arena, key, variable, low, high),
        }
        proof {
            old(self).lemma_pending_remaining(&old_arena);
        }
        if self.frames.len() == 0 {
            let result = match self.memo.get(&self.root) {
                Some(r) => Support(*r),
                None => {
                    proof {
                        assert(false);
                    }
                    return Status::Pending;
                },
            };
            self.result = Some(result);
            proof {
                self.lemma_complete(arena);
            }
            Status::Complete(result)
        } else {
            Status::Pending
        }
    }

    proof fn lemma_complete(&self, arena: &Arena)
        requires
            arena.wf(),
            self.wf(arena),
            self.result is Some,
        ensures
            arena.valid(self.result.unwrap()),
            forall|a: spec_fn(nat) -> bool| #[trigger]
                arena.meaning(self.result.unwrap(), a) == arena.operation_meaning(
                    self.operation(),
                    a,
                ),
    {
        let views = arena.views();
        let r = self.result.unwrap();
        assert(entry_ok(views, self.kind, self.root, self.memo@[self.root]));
        assert forall|a: spec_fn(nat) -> bool| #[trigger]
            arena.meaning(r, a) == arena.operation_meaning(self.operation(), a) by {
            assert(denote(views, r.0 as int, a) == key_meaning(views, self.kind, self.root, a));
            assert(node_ok(views, 0, arena.variables()));
        }
    }

    /// Process an `Evaluate` frame on top of the stack.
    fn evaluate(&mut self, arena: &Arena, key: (usize, usize))
        requires
            arena.wf(),
            old(self).wf(arena),
            old(self).result is None,
            old(self).frames@.last() == Frame::Evaluate(key),
        ensures
            final(self).core_inv(arena.views()),
            final(self).result is None,
            final(self).operation == old(self).operation,
            final(self).kind == old(self).kind,
            final(self).root == old(self).root,
            final(self).work == old(self).work,
            frames_cost(arena.views(), final(self).kind, final(self).frames@) < frames_cost(
                arena.views(),
                old(self).kind,
                old(self).frames@,
            ),
    {
        let ghost views = arena.views();
        let ghost frames0 = self.frames@;
        let ghost memo0 = self.memo@;
        let ghost n = frames0.len() - 1;
        proof {
            assert(frame_ok(views, self.kind, frames0[n]));
            lemma_frames_cost_push(views, self.kind, frames0.drop_last(), frames0.last());
            assert(frames0.drop_last().push(frames0.last()) == frames0);
        }
        self.frames.pop();
        let known = match self.memo.get(&key) {
            Some(_) => true,
            None => false,
        };
        if known {
            proof {
                lemma_obligations(memo0, frames0, self.memo@, self.frames@, self.root);
            }
        } else {
            match self.kind.simple(key) {
                Some(result) => {
                    proof {
                        lemma_simple(views, arena.variables(), self.kind, key);
                    }
                    self.memo.insert(key, result);
                    proof {
                        lemma_obligations(memo0, frames0, self.memo@, self.frames@, self.root);
                    }
                },
                None => {
                    proof {
                        lemma_simple(views, arena.variables(), self.kind, key);
                    }
                    let a = arena.inspect(Support(key.0));
                    let b = arena.inspect(Support(key.1));
                    let top = match (node_variable(a), node_variable(b)) {
                        (Some(x), Some(y)) => if x <= y {
                            x
                        } else {
                            y
                        },
                        (Some(x), None) => x,
                        (None, Some(y)) => y,
                        (None, None) => {
                            proof {
                                assert(false);
                            }
                            return ;
                        },
                    };
                    let (al, ah) = cofactors(key.0, a, top);
                    let (bl, bh) = cofactors(key.1, b, top);
                    let low = self.kind.key(al, bl);
                    let high = self.kind.key(ah, bh);
                    proof {
                        assert(low == child_key(views, self.kind, key, top, false));
                        assert(high == child_key(views, self.kind, key, top, true));
                        lemma_child(views, arena.variables(), self.kind, key, top, false);
                        lemma_child(views, arena.variables(), self.kind, key, top, true);
                    }
                    self.frames.push(Frame::Join { key, variable: top, low, high });
                    self.frames.push(Frame::Evaluate(high));
                    self.frames.push(Frame::Evaluate(low));
                    proof {
                        let fs = self.frames@;
                        assert(frame_key(fs[n]) == key);
                        lemma_obligations(memo0, frames0, self.memo@, fs, self.root);
                        assert(frame_key(fs[n + 1]) == high);
                        assert(frame_key(fs[n + 2]) == low);
                        assert(join_obliged(self.memo@, fs, n));
                        assert(join_obliged(self.memo@, fs, n + 1));
                        assert(join_obliged(self.memo@, fs, n + 2));
                        assert forall|i: int| 0 <= i < fs.len() implies frame_ok(
                            views,
                            self.kind,
                            #[trigger] fs[i],
                        ) by {
                            if i < n {
                                assert(fs[i] == frames0[i]);
                            }
                        }
                        let base = frames0.drop_last();
                        assert(fs == base.push(Frame::Join { key, variable: top, low, high }).push(
                            Frame::Evaluate(high),
                        ).push(Frame::Evaluate(low)));
                        lemma_frames_cost_push(views, self.kind, base, Frame::Join { key, variable: top, low, high });
                        lemma_frames_cost_push(
                            views,
                            self.kind,
                            base.push(Frame::Join { key, variable: top, low, high }),
                            Frame::Evaluate(high),
                        );
                        lemma_frames_cost_push(
                            views,
                            self.kind,
                            base.push(Frame::Join { key, variable: top, low, high }).push(
                                Frame::Evaluate(high),
                            ),
                            Frame::Evaluate(low),
                        );
                    }
                    return ;
                },
            }
        }
        proof {
            let fs = self.frames@;
            assert forall|i: int| 0 <= i < fs.len() implies frame_ok(
                views,
                self.kind,
                #[trigger] fs[i],
            ) by {
                assert(fs[i] == frames0[i]);
            }
            assert(fs == frames0.drop_last());
        }
    }

    /// Process a `Join` frame on top of the stack: build the node for its key.
    fn join(
        &mut self,
        arena: &mut Arena,
        key: (usize, usize),
        variable: usize,
        low: (usize, usize),
        high: (usize, usize),
    )
        requires
            old(arena).wf(),
            old(self).wf(old(arena)),
            old(self).result is None,
            old(self).frames@.last() == (Frame::Join { key, variable, low, high }),
        ensures
            final(arena).wf(),
            final(arena).extends(old(arena)),
            final(arena).variables() == old(arena).variables(),
            final(arena).node_total() <= old(arena).node_total() + 1,
            final(self).core_inv(final(arena).views()),
            final(self).result is None,
            final(self).operation == old(self).operation,
            final(self).kind == old(self).kind,
            final(self).root == old(self).root,
            final(self).work == old(self).work,
            frames_cost(final(arena).views(), final(self).kind, final(self).frames@) < frames_cost(
                old(arena).views(),
                old(self).kind,
                old(self).frames@,
            ),
    {
        let ghost views = arena.views();
        let ghost frames0 = self.frames@;
        let ghost memo0 = self.memo@;
        let ghost n = frames0.len() - 1;
        let ghost kind = self.kind;
        proof {
            assert(frame_ok(views, kind, frames0[n]));
            assert(join_obliged(memo0, frames0, n));
            lemma_frames_cost_push(views, kind, frames0.drop_last(), frames0.last());
            assert(frames0.drop_last().push(frames0.last()) == frames0);
            lemma_child(views, arena.variables(), kind, key, variable, false);
            lemma_child(views, arena.variables(), kind, key, variable, true);
        }
        self.frames.pop();
        let ml = match self.memo.get(&low) {
            Some(r) => *r,
            None => {
                proof {
                    assert(false);
                }
                return ;
            },
        };
        let mh = match self.memo.get(&high) {
            Some(r) => *r,
            None => {
                proof {
                    assert(false);
                }
                return ;
            },
        };
        proof {
            assert(entry_ok(views, kind, low, ml));
            assert(entry_ok(views, kind, high, mh));
        }
        let result = arena.mk(variable, Support(ml), Support(mh));
        let ghost views2 = arena.views();
        proof {
            assert forall|a: spec_fn(nat) -> bool|
                #[trigger] denote(views2, result.0 as int, a) == key_meaning(views, kind, key, a) by {
                assert(arena.meaning(result, a) == if a(variable as nat) {
                    old(arena).meaning(Support(mh), a)
                } else {
                    old(arena).meaning(Support(ml), a)
                });
                assert(denote(views, ml as int, a) == key_meaning(views, kind, low, a));
                assert(denote(views, mh as int, a) == key_meaning(views, kind, high, a));
                lemma_shannon(views, old(arena).variables(), kind, key, variable, a);
            }
            assert(entry_ok(views2, kind, key, result.0)) by {
                assert(views[key.0 as int] == views2[key.0 as int]);
                assert(views[key.1 as int] == views2[key.1 as int]);
                assert forall|a: spec_fn(nat) -> bool|
                    #[trigger] denote(views2, result.0 as int, a) == key_meaning(views2, kind, key, a) by {
                    lemma_denote_prefix(views, views2, key.0 as int, a);
                    lemma_denote_prefix(views, views2, key.1 as int, a);
                    assert(denote(views2, result.0 as int, a) == key_meaning(views, kind, key, a));
                }
            }
            assert forall|k: (usize, usize)| #[trigger]
                memo0.contains_key(k) implies entry_ok(views2, kind, k, memo0[k]) by {
                lemma_entry_prefix(views, views2, kind, k, memo0[k]);
            }
        }
        self.memo.insert(key, result.0);
        proof {
            let fs = self.frames@;
            assert(fs == frames0.drop_last());
            assert forall|i: int| 0 <= i < fs.len() implies frame_ok(
                views2,
                kind,
                #[trigger] fs[i],
            ) by {
                assert(fs[i] == frames0[i]);
                assert(frame_ok(views, kind, frames0[i]));
                lemma_frame_prefix(views, views2, kind, fs[i]);
            }
            assert forall|i: int| 0 <= i < fs.len() implies frame_ok(
                views,
                kind,
                #[trigger] fs[i],
            ) by {
                assert(fs[i] == frames0[i]);
            }
            lemma_obligations(memo0, frames0, self.memo@, fs, self.root);
            lemma_frames_cost_prefix(views, views2, old(arena).variables(), kind, fs);
            assert(views[self.root.0 as int] == views2[self.root.0 as int]);
        }
    }
}
} // verus!
