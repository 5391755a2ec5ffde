//! A three-way join owner over resolved source row projections.
//!
//! Three relations hold rows `(a, b)` under distinct ids. A triple `[l, m, r]`
//! joins when `b` of row `l` of the first relation is `a` of row `m` of the
//! second, and `b` of that row is `a` of row `r` of the third; its key is `a` of
//! the first row and `b` of the third. A demand asks for the triples of one key.
//! In indexed mode a request joins on demand; in eager mode every triple is kept
//! up to date; in subscribed mode only the triples of demanded keys are.
use crate::order::{Order, compare_term, lemma_term_order};
use crate::syntax::{Term, TermV, copy_term, term_v};
use vstd::prelude::*;

verus! {

/// How a join answers requests.
#[derive(Clone, Copy, Debug, PartialEq, Eq, Structural)]
pub enum Mode {
    Indexed,
    Eager,
    Subscribed,
}

/// A row, or a key: two terms.
pub type Pair = (TermV, TermV);

/// Three row ids, one per relation.
pub type Triple = [usize; 3];

/// Whether two terms are equal.
fn same_term(a: &Term, b: &Term) -> (r: bool)
    ensures
        r == (term_v(*a) == term_v(*b)),
{
    proof {
        lemma_term_order(term_v(*a), term_v(*b));
    }
    compare_term(a, b) == Order::Equal
}

/// Rows under distinct ids.
pub struct Rows {
    items: Vec<(usize, Term, Term)>,
}

impl Rows {
    pub closed spec fn wf(&self) -> bool {
        forall|i: int, j: int| 0 <= i < j < self.items@.len() ==> self.items@[i].0 != self.items@[j].0
    }

    spec fn pair_at(&self, i: int) -> Pair {
        (term_v(self.items@[i].1), term_v(self.items@[i].2))
    }

    /// The rows, by id.
    pub closed spec fn map(&self) -> Map<usize, Pair> {
        Map::new(
            |id: usize| exists|i: int| 0 <= i < self.items@.len() && #[trigger] self.items@[i].0 == id,
            |id: usize| self.pair_at(choose|i: int| 0 <= i < self.items@.len() && #[trigger] self.items@[i].0 == id),
        )
    }

    proof fn lemma_at(&self, i: int)
        requires
            self.wf(),
            0 <= i < self.items@.len(),
        ensures
            self.map().contains_key(self.items@[i].0),
            self.map()[self.items@[i].0] == self.pair_at(i),
    {
        let id = self.items@[i].0;
        assert(self.items@[i].0 == id);
        let j = choose|j: int| 0 <= j < self.items@.len() && #[trigger] self.items@[j].0 == id;
        if i != j {
            if i < j {
                assert(self.items@[i].0 != self.items@[j].0);
            } else {
                assert(self.items@[j].0 != self.items@[i].0);
            }
        }
    }

    pub fn new() -> (r: Rows)
        ensures
            r.wf(),
            r.map() == Map::<usize, Pair>::empty(),
    {
        let r = Rows { items: Vec::new() };
        proof {
            assert(r.map() =~= Map::<usize, Pair>::empty());
        }
        r
    }

    /// The position of the row with the id.
    fn find(&self, id: usize) -> (r: Option<usize>)
        requires
            self.wf(),
        ensures
            match r {
                Some(i) => i < self.items@.len() && self.items@[i as int].0 == id,
                None => !self.map().contains_key(id),
            },
    {
        let mut i: usize = 0;
        while i < self.items.len()
            invariant
                0 <= i <= self.items@.len(),
                forall|j: int| 0 <= j < i ==> self.items@[j].0 != id,
            decreases self.items.len() - i,
        {
            if self.items[i].0 == id {
                return Some(i);
            }
            i += 1;
        }
        None
    }

    /// Whether a row has the id.
    pub fn contains(&self, id: usize) -> (r: bool)
        requires
            self.wf(),
        ensures
            r == self.map().contains_key(id),
    {
        match self.find(id) {
            Some(i) => {
                proof {
                    self.lemma_at(i as int);
                }
                true
            },
            None => false,
        }
    }

    /// Add a row under a new id.
    pub fn insert(&mut self, id: usize, a: Term, b: Term)
        requires
            old(self).wf(),
            !old(self).map().contains_key(id),
        ensures
            final(self).wf(),
            final(self).map() == old(self).map().insert(id, (term_v(a), term_v(b))),
    {
        let ghost before = *self;
        let ghost p = (term_v(a), term_v(b));
        self.items.push((id, a, b));
        proof {
            let n = before.items@.len() as int;
            assert forall|i: int, j: int| 0 <= i < j < self.items@.len() implies self.items@[i].0 != self.items@[j].0 by {
                assert(self.items@[i] == before.items@[i]);
                if j < n {
                    assert(self.items@[j] == before.items@[j]);
                } else if before.items@[i].0 == id {
                    assert(before.map().contains_key(id));
                }
            }
            assert forall|x: usize| #[trigger] self.map().contains_key(x) <==> before.map().insert(id, p).contains_key(x) by {
                if self.map().contains_key(x) {
                    let i = choose|i: int| 0 <= i < self.items@.len() && #[trigger] self.items@[i].0 == x;
                    if i < n {
                        assert(before.items@[i].0 == x);
                    }
                }
                if before.map().contains_key(x) {
                    let i = choose|i: int| 0 <= i < before.items@.len() && #[trigger] before.items@[i].0 == x;
                    assert(self.items@[i].0 == x);
                }
                if x == id {
                    assert(self.items@[n].0 == x);
                }
            }
            assert forall|x: usize| #[trigger] self.map().contains_key(x) implies self.map()[x] == before.map().insert(id, p)[x] by {
                let i = choose|i: int| 0 <= i < self.items@.len() && #[trigger] self.items@[i].0 == x;
                self.lemma_at(i);
                if i < n {
                    assert(self.items@[i] == before.items@[i]);
                    before.lemma_at(i);
                }
            }
            assert(self.map() =~= before.map().insert(id, p));
        }
    }

    /// Remove the row with the id.
    pub fn remove(&mut self, id: usize)
        requires
            old(self).wf(),
            old(self).map().contains_key(id),
        ensures
            final(self).wf(),
            final(self).map() == old(self).map().remove(id),
    {
        let ghost before = *self;
        let i = match self.find(id) {
            Some(i) => i,
            None => {
                proof {
                    assert(false);
                }
                0
            },
        };
        self.items.remove(i);
        proof {
            let n = before.items@.len() as int;
            let at = |j: int| if j < i { j } else { j + 1 };
            assert forall|j: int| 0 <= j < self.items@.len() implies self.items@[j] == before.items@[at(j)] by {}
            assert forall|a: int, b: int| 0 <= a < b < self.items@.len() implies self.items@[a].0 != self.items@[b].0 by {
                assert(self.items@[a] == before.items@[at(a)]);
                assert(self.items@[b] == before.items@[at(b)]);
            }
            assert forall|x: usize| #[trigger] self.map().contains_key(x) <==> before.map().remove(id).contains_key(x) by {
                if self.map().contains_key(x) {
                    let j = choose|j: int| 0 <= j < self.items@.len() && #[trigger] self.items@[j].0 == x;
                    assert(before.items@[at(j)].0 == x);
                    assert(at(j) != i);
                }
                if before.map().contains_key(x) && x != id {
                    let j = choose|j: int| 0 <= j < before.items@.len() && #[trigger] before.items@[j].0 == x;
                    assert(j != i);
                    if j < i {
                        assert(self.items@[j].0 == x);
                    } else {
                        assert(self.items@[j - 1].0 == x);
                    }
                }
            }
            assert forall|x: usize| #[trigger] self.map().contains_key(x) implies self.map()[x] == before.map().remove(id)[x] by {
                let j = choose|j: int| 0 <= j < self.items@.len() && #[trigger] self.items@[j].0 == x;
                self.lemma_at(j);
                before.lemma_at(at(j));
            }
            assert(self.map() =~= before.map().remove(id));
        }
    }

    /// The row with the id.
    pub fn get(&self, id: usize) -> (r: (&Term, &Term))
        requires
            self.wf(),
            self.map().contains_key(id),
        ensures
            (term_v(*r.0), term_v(*r.1)) == self.map()[id],
    {
        match self.find(id) {
            Some(i) => {
                proof {
                    self.lemma_at(i as int);
                }
                (&self.items[i].1, &self.items[i].2)
            },
            None => {
                proof {
                    assert(false);
                }
                (&self.items[0].1, &self.items[0].2)
            },
        }
    }
}

/// `t` joins the rows of the three relations.
pub open spec fn joins(r0: Map<usize, Pair>, r1: Map<usize, Pair>, r2: Map<usize, Pair>, t: Triple) -> bool {
    &&& r0.contains_key(t[0])
    &&& r1.contains_key(t[1])
    &&& r2.contains_key(t[2])
    &&& r0[t[0]].1 == r1[t[1]].0
    &&& r1[t[1]].1 == r2[t[2]].0
}

/// The key of a joined triple: `a` of its first row and `b` of its third.
pub open spec fn key_of(r0: Map<usize, Pair>, r2: Map<usize, Pair>, t: Triple) -> Pair {
    (r0[t[0]].0, r2[t[2]].1)
}

/// `a` comes before `b` in lexicographic order.
pub open spec fn lex_lt(a: Triple, b: Triple) -> bool {
    a[0] < b[0] || (a[0] == b[0] && (a[1] < b[1] || (a[1] == b[1] && a[2] < b[2])))
}

/// Triples in strictly increasing lexicographic order.
pub open spec fn ascending(s: Seq<Triple>) -> bool {
    forall|i: int, j: int| 0 <= i < j < s.len() ==> lex_lt(s[i], s[j])
}

proof fn lemma_lex_total(a: Triple, b: Triple)
    ensures
        lex_lt(a, b) || lex_lt(b, a) || a =~= b,
        !(lex_lt(a, b) && lex_lt(b, a)),
        !lex_lt(a, a),
{
    if !lex_lt(a, b) && !lex_lt(b, a) {
        assert(a@ =~= b@);
    }
}

proof fn lemma_lex_trans(a: Triple, b: Triple, c: Triple)
    requires
        lex_lt(a, b),
        lex_lt(b, c),
    ensures
        lex_lt(a, c),
{
}

proof fn lemma_push_contains(s: Seq<Triple>, t: Triple, x: Triple)
    ensures
        s.push(t).contains(x) <==> s.contains(x) || x == t,
{
    if s.push(t).contains(x) {
        let q = choose|q: int| 0 <= q < s.len() + 1 && s.push(t)[q] == x;
        if q < s.len() {
            assert(s[q] == x);
        }
    }
    if s.contains(x) {
        let q = choose|q: int| 0 <= q < s.len() && s[q] == x;
        assert(s.push(t)[q] == x);
    }
    if x == t {
        assert(s.push(t)[s.len() as int] == x);
    }
}

/// Compare triples lexicographically.
fn lex_less(a: &Triple, b: &Triple) -> (r: bool)
    ensures
        r == lex_lt(*a, *b),
{
    a[0] < b[0] || (a[0] == b[0] && (a[1] < b[1] || (a[1] == b[1] && a[2] < b[2])))
}

/// Sort distinct triples in increasing lexicographic order.
fn sort_triples(v: Vec<Triple>) -> (r: Vec<Triple>)
    requires
        v@.no_duplicates(),
    ensures
        ascending(r@),
        r@.to_set() == v@.to_set(),
        r@.len() == v@.len(),
{
    let mut out: Vec<Triple> = Vec::new();
    let mut i: usize = 0;
    while i < v.len()
        invariant
            v@.no_duplicates(),
            0 <= i <= v@.len(),
            ascending(out@),
            out@.to_set() == v@.take(i as int).to_set(),
            out@.len() == i,
        decreases v.len() - i,
    {
        let t = v[i];
        let mut j: usize = 0;
        while j < out.len() && lex_less(&out[j], &t)
            invariant
                0 <= j <= out@.len(),
                forall|k: int| 0 <= k < j ==> lex_lt(out@[k], t),
            decreases out.len() - j,
        {
            j += 1;
        }
        let ghost before = out@;
        proof {
            assert(!v@.take(i as int).contains(t)) by {
                if v@.take(i as int).contains(t) {
                    let k = choose|k: int| 0 <= k < i && v@.take(i as int)[k] == t;
                    assert(v@[k] == v@[i as int]);
                }
            }
            assert(!before.to_set().contains(t));
            if j < before.len() {
                lemma_lex_total(before[j as int], t);
                if before[j as int] =~= t {
                    assert(before[j as int] == t);
                    assert(before.to_set().contains(t));
                }
            }
        }
        out.insert(j, t);
        proof {
            let s = out@;
            assert(s == before.insert(j as int, t));
            assert forall|a: int, b: int| 0 <= a < b < s.len() implies lex_lt(s[a], s[b]) by {
                if b < j {
                    assert(s[a] == before[a] && s[b] == before[b]);
                } else if b == j {
                    assert(s[a] == before[a]);
                } else if a < j {
                    assert(s[a] == before[a] && s[b] == before[b - 1]);
                    assert(lex_lt(t, before[j as int]));
                    if b - 1 > j {
                        lemma_lex_trans(t, before[j as int], before[b - 1]);
                    }
                    lemma_lex_trans(before[a], t, before[b - 1]);
                } else if a == j {
                    assert(s[b] == before[b - 1]);
                    if b - 1 > j {
                        lemma_lex_trans(t, before[j as int], before[b - 1]);
                    }
                } else {
                    assert(s[a] == before[a - 1] && s[b] == before[b - 1]);
                }
            }
            let nxt = v@.take(i + 1);
            assert(nxt =~= v@.take(i as int).push(t));
            assert forall|x: Triple| #[trigger] s.to_set().contains(x) <==> nxt.to_set().contains(x) by {
                if s.to_set().contains(x) {
                    let k = choose|k: int| 0 <= k < s.len() && s[k] == x;
                    if k < j {
                        assert(before[k] == x);
                        assert(before.to_set().contains(x));
                    } else if k > j {
                        assert(before[k - 1] == x);
                        assert(before.to_set().contains(x));
                    }
                    if x != t {
                        assert(v@.take(i as int).to_set().contains(x));
                        let q = choose|q: int| 0 <= q < i && v@.take(i as int)[q] == x;
                        assert(nxt[q] == x);
                    } else {
                        assert(nxt[i as int] == x);
                    }
                }
                if nxt.to_set().contains(x) {
                    let q = choose|q: int| 0 <= q < i + 1 && nxt[q] == x;
                    if q < i {
                        assert(v@.take(i as int)[q] == x);
                        assert(before.to_set().contains(x));
                        let k = choose|k: int| 0 <= k < before.len() && before[k] == x;
                        if k < j {
                            assert(s[k] == x);
                        } else {
                            assert(s[k + 1] == x);
                        }
                    } else {
                        assert(s[j as int] == x);
                    }
                }
            }
            assert(s.to_set() =~= nxt.to_set());
        }
        i += 1;
    }
    proof {
        assert(v@.take(i as int) =~= v@);
    }
    out
}

/// Owns three relations, the open demands and the triples kept for them.
pub struct Join {
    mode: Mode,
    first: Rows,
    second: Rows,
    third: Rows,
    demands: Rows,
    tuples: Vec<Triple>,
}

impl Join {
    pub closed spec fn mode_v(&self) -> Mode {
        self.mode
    }

    /// The rows of relation `i`, by id.
    pub closed spec fn relation(&self, i: int) -> Map<usize, Pair> {
        if i == 0 {
            self.first.map()
        } else if i == 1 {
            self.second.map()
        } else {
            self.third.map()
        }
    }

    /// The open demands: id and key.
    pub closed spec fn demands_v(&self) -> Map<usize, Pair> {
        self.demands.map()
    }

    /// The triples kept up to date.
    pub closed spec fn kept(&self) -> Seq<Triple> {
        self.tuples@
    }

    pub open spec fn joined(&self, t: Triple) -> bool {
        joins(self.relation(0), self.relation(1), self.relation(2), t)
    }

    pub open spec fn key(&self, t: Triple) -> Pair {
        key_of(self.relation(0), self.relation(2), t)
    }

    /// Some open demand asks for key `k`.
    pub open spec fn demanded(&self, k: Pair) -> bool {
        exists|id: usize| #[trigger] self.demands_v().contains_key(id) && self.demands_v()[id] == k
    }

    /// The triples of key `k` are kept up to date.
    pub open spec fn eligible(&self, k: Pair) -> bool {
        self.mode_v() == Mode::Eager || (self.mode_v() == Mode::Subscribed && self.demanded(k))
    }

    /// The joined triples of key `k`.
    pub open spec fn join_of(&self, k: Pair) -> Set<Triple> {
        Set::new(|t: Triple| self.joined(t) && self.key(t) == k)
    }

    pub closed spec fn wf(&self) -> bool {
        &&& self.first.wf()
        &&& self.second.wf()
        &&& self.third.wf()
        &&& self.demands.wf()
        &&& self.tuples@.no_duplicates()
        &&& forall|t: Triple| #[trigger] self.tuples@.contains(t) <==> self.joined(t) && self.eligible(self.key(t))
    }

    /// What a scan selects: joined, of key `k` if asked, with id `fix_id` in
    /// relation `fix_rel` if that is below three, and of an eligible key if asked.
    pub open spec fn selected(&self, t: Triple, by_key: bool, k: Pair, fix_rel: usize, fix_id: usize, only_eligible: bool) -> bool {
        &&& self.joined(t)
        &&& by_key ==> self.key(t) == k
        &&& fix_rel < 3 ==> t[fix_rel as int] == fix_id
        &&& only_eligible ==> self.eligible(self.key(t))
    }

    /// Whether some open demand asks for the key `(ka, kb)`.
    fn is_demanded(&self, ka: &Term, kb: &Term) -> (r: bool)
        requires
            self.demands.wf(),
        ensures
            r == self.demanded((term_v(*ka), term_v(*kb))),
    {
        let ghost k = (term_v(*ka), term_v(*kb));
        let mut i: usize = 0;
        while i < self.demands.items.len()
            invariant
                self.demands.wf(),
                0 <= i <= self.demands.items@.len(),
                forall|j: int| 0 <= j < i ==> #[trigger] self.demands.pair_at(j) != (term_v(*ka), term_v(*kb)),
            decreases self.demands.items.len() - i,
        {
            if same_term(&self.demands.items[i].1, ka) && same_term(&self.demands.items[i].2, kb) {
                proof {
                    self.demands.lemma_at(i as int);
                    assert(self.demands_v().contains_key(self.demands.items@[i as int].0));
                }
                return true;
            }
            i += 1;
        }
        proof {
            assert forall|id: usize| #[trigger] self.demands_v().contains_key(id) implies self.demands_v()[id] != k by {
                let j = choose|j: int| 0 <= j < self.demands.items@.len() && #[trigger] self.demands.items@[j].0 == id;
                self.demands.lemma_at(j);
            }
        }
        false
    }

    /// Whether the triples of the key `(ka, kb)` are kept up to date.
    fn is_eligible(&self, ka: &Term, kb: &Term) -> (r: bool)
        requires
            self.demands.wf(),
        ensures
            r == self.eligible((term_v(*ka), term_v(*kb))),
    {
        match self.mode {
            Mode::Eager => true,
            Mode::Subscribed => self.is_demanded(ka, kb),
            Mode::Indexed => false,
        }
    }
}

impl Join {
    /// Enumerate the selected triples, relation by relation.
    fn scan(&self, by_key: bool, ka: &Term, kb: &Term, fix_rel: usize, fix_id: usize, only_eligible: bool) -> (r: Vec<Triple>)
        requires
            self.first.wf(),
            self.second.wf(),
            self.third.wf(),
            self.demands.wf(),
        ensures
            r@.no_duplicates(),
            forall|t: Triple| #[trigger] r@.contains(t) <==> self.selected(t, by_key, (term_v(*ka), term_v(*kb)), fix_rel, fix_id, only_eligible),
    {
        let ghost k = (term_v(*ka), term_v(*kb));
        let ghost it0 = self.first.items@;
        let ghost it1 = self.second.items@;
        let ghost it2 = self.third.items@;
        let mut out: Vec<Triple> = Vec::new();
        let mut i0: usize = 0;
        while i0 < self.first.items.len()
            invariant
                self.first.wf(),
                self.second.wf(),
                self.third.wf(),
                self.demands.wf(),
                it0 == self.first.items@,
                it1 == self.second.items@,
                it2 == self.third.items@,
                k == (term_v(*ka), term_v(*kb)),
                0 <= i0 <= it0.len(),
                out@.no_duplicates(),
                forall|t: Triple|
                    #[trigger] out@.contains(t) <==> self.selected(t, by_key, k, fix_rel, fix_id, only_eligible) && exists|q0: int|
                        0 <= q0 < i0 && it0[q0].0 == t[0],
            decreases it0.len() - i0,
        {
            let ghost base = out@;
            let id0 = self.first.items[i0].0;
            let mut i1: usize = 0;
            while i1 < self.second.items.len()
                invariant
                    self.first.wf(),
                    self.second.wf(),
                    self.third.wf(),
                    self.demands.wf(),
                    it0 == self.first.items@,
                    it1 == self.second.items@,
                    it2 == self.third.items@,
                    k == (term_v(*ka), term_v(*kb)),
                    0 <= i0 < it0.len(),
                    id0 == it0[i0 as int].0,
                    0 <= i1 <= it1.len(),
                    out@.no_duplicates(),
                    forall|t: Triple| #[trigger] base.contains(t) ==> t[0] != id0,
                    forall|t: Triple|
                        #[trigger] out@.contains(t) <==> base.contains(t) || (self.selected(t, by_key, k, fix_rel, fix_id, only_eligible)
                            && t[0] == id0 && exists|q1: int| 0 <= q1 < i1 && it1[q1].0 == t[1]),
                decreases it1.len() - i1,
            {
                let ghost mid = out@;
                let id1 = self.second.items[i1].0;
                let mut i2: usize = 0;
                while i2 < self.third.items.len()
                    invariant
                        self.first.wf(),
                        self.second.wf(),
                        self.third.wf(),
                        self.demands.wf(),
                        it0 == self.first.items@,
                        it1 == self.second.items@,
                        it2 == self.third.items@,
                        k == (term_v(*ka), term_v(*kb)),
                        0 <= i0 < it0.len(),
                        0 <= i1 < it1.len(),
                        id0 == it0[i0 as int].0,
                        id1 == it1[i1 as int].0,
                        0 <= i2 <= it2.len(),
                        out@.no_duplicates(),
                        forall|t: Triple| #[trigger] mid.contains(t) ==> t[0] != id0 || t[1] != id1,
                        forall|t: Triple|
                            #[trigger] out@.contains(t) <==> mid.contains(t) || (self.selected(t, by_key, k, fix_rel, fix_id, only_eligible)
                                && t[0] == id0 && t[1] == id1 && exists|q2: int| 0 <= q2 < i2 && it2[q2].0 == t[2]),
                    decreases it2.len() - i2,
                {
                    let id2 = self.third.items[i2].0;
                    let t: Triple = [id0, id1, id2];
                    let row0 = &self.first.items[i0];
                    let row1 = &self.second.items[i1];
                    let row2 = &self.third.items[i2];
                    proof {
                        self.first.lemma_at(i0 as int);
                        self.second.lemma_at(i1 as int);
                        self.third.lemma_at(i2 as int);
                    }
                    let linked = same_term(&row0.2, &row1.1) && same_term(&row1.2, &row2.1);
                    let keyed = !by_key || (same_term(&row0.1, ka) && same_term(&row2.2, kb));
                    let fixed = fix_rel >= 3 || t[fix_rel] == fix_id;
                    let wanted = linked && keyed && fixed && (!only_eligible || self.is_eligible(&row0.1, &row2.2));
                    proof {
                        assert(self.joined(t) == linked);
                        if linked {
                            assert(self.key(t) == (term_v(row0.1), term_v(row2.2)));
                        }
                        assert(wanted == self.selected(t, by_key, k, fix_rel, fix_id, only_eligible));
                    }
                    let ghost before = out@;
                    if wanted {
                        proof {
                            assert(!before.contains(t)) by {
                                if before.contains(t) {
                                    if mid.contains(t) {
                                    } else {
                                        let q2 = choose|q2: int| 0 <= q2 < i2 && it2[q2].0 == t[2];
                                        assert(it2[q2].0 != it2[i2 as int].0);
                                    }
                                }
                            }
                        }
                        out.push(t);
                        proof {
                            assert forall|x: Triple| #[trigger] out@.contains(x) <==> before.contains(x) || x == t by {
                                if out@.contains(x) {
                                    let q = choose|q: int| 0 <= q < out@.len() && out@[q] == x;
                                    if q < before.len() {
                                        assert(before[q] == x);
                                    }
                                }
                                if before.contains(x) {
                                    let q = choose|q: int| 0 <= q < before.len() && before[q] == x;
                                    assert(out@[q] == x);
                                }
                                if x == t {
                                    assert(out@[before.len() as int] == x);
                                }
                            }
                            assert forall|a: int, b: int| 0 <= a < b < out@.len() implies out@[a] != out@[b] by {
                                if b == before.len() {
                                    assert(out@[a] == before[a]);
                                    assert(before.contains(before[a]));
                                } else {
                                    assert(out@[a] == before[a] && out@[b] == before[b]);
                                }
                            }
                        }
                    }
                    proof {
                        assert forall|x: Triple|
                            #[trigger] out@.contains(x) <==> mid.contains(x) || (self.selected(x, by_key, k, fix_rel, fix_id, only_eligible)
                                && x[0] == id0 && x[1] == id1 && exists|q2: int| 0 <= q2 < i2 + 1 && it2[q2].0 == x[2]) by {
                            if self.selected(x, by_key, k, fix_rel, fix_id, only_eligible) && x[0] == id0 && x[1] == id1 && exists|q2: int|
                                0 <= q2 < i2 + 1 && it2[q2].0 == x[2] {
                                let q2 = choose|q2: int| 0 <= q2 < i2 + 1 && it2[q2].0 == x[2];
                                if q2 == i2 {
                                    assert(x@ =~= t@);
                                    assert(x == t);
                                }
                            }
                            if out@.contains(x) && x == t && !mid.contains(x) {
                                assert(it2[i2 as int].0 == x[2]);
                            }
                        }
                    }
                    i2 += 1;
                }
                proof {
                    assert forall|x: Triple|
                        #[trigger] out@.contains(x) <==> base.contains(x) || (self.selected(x, by_key, k, fix_rel, fix_id, only_eligible)
                            && x[0] == id0 && exists|q1: int| 0 <= q1 < i1 + 1 && it1[q1].0 == x[1]) by {
                        if self.selected(x, by_key, k, fix_rel, fix_id, only_eligible) && x[0] == id0 {
                            if exists|q1: int| 0 <= q1 < i1 + 1 && it1[q1].0 == x[1] {
                                let q1 = choose|q1: int| 0 <= q1 < i1 + 1 && it1[q1].0 == x[1];
                                if q1 == i1 {
                                    assert(self.relation(2).contains_key(x[2]));
                                    let q2 = choose|q2: int| 0 <= q2 < it2.len() && #[trigger] it2[q2].0 == x[2];
                                    assert(exists|q2: int| 0 <= q2 < it2.len() && it2[q2].0 == x[2]);
                                }
                            }
                        }
                    }
                }
                i1 += 1;
            }
            proof {
                assert forall|x: Triple|
                    #[trigger] out@.contains(x) <==> self.selected(x, by_key, k, fix_rel, fix_id, only_eligible) && exists|q0: int|
                        0 <= q0 < i0 + 1 && it0[q0].0 == x[0] by {
                    if self.selected(x, by_key, k, fix_rel, fix_id, only_eligible) {
                        if exists|q0: int| 0 <= q0 < i0 + 1 && it0[q0].0 == x[0] {
                            let q0 = choose|q0: int| 0 <= q0 < i0 + 1 && it0[q0].0 == x[0];
                            if q0 == i0 {
                                assert(self.relation(1).contains_key(x[1]));
                                let q1 = choose|q1: int| 0 <= q1 < it1.len() && #[trigger] it1[q1].0 == x[1];
                                assert(exists|q1: int| 0 <= q1 < it1.len() && it1[q1].0 == x[1]);
                            }
                        }
                    }
                }
            }
            i0 += 1;
        }
        proof {
            assert forall|x: Triple| #[trigger] out@.contains(x) <==> self.selected(x, by_key, k, fix_rel, fix_id, only_eligible) by {
                if self.selected(x, by_key, k, fix_rel, fix_id, only_eligible) {
                    assert(self.relation(0).contains_key(x[0]));
                    let q0 = choose|q0: int| 0 <= q0 < it0.len() && #[trigger] it0[q0].0 == x[0];
                    assert(exists|q0: int| 0 <= q0 < it0.len() && it0[q0].0 == x[0]);
                }
            }
        }
        out
    }
}

impl Join {
    /// The triples kept up to date, as a set.
    pub open spec fn retained_set(&self) -> Set<Triple> {
        Set::new(|t: Triple| self.joined(t) && self.eligible(self.key(t)))
    }

    /// A join with no rows and no demands.
    pub fn new(mode: Mode) -> (r: Join)
        ensures
            r.wf(),
            r.mode_v() == mode,
            forall|i: int| 0 <= i < 3 ==> #[trigger] r.relation(i) == Map::<usize, Pair>::empty(),
            r.demands_v() == Map::<usize, Pair>::empty(),
    {
        Join {
            mode,
            first: Rows::new(),
            second: Rows::new(),
            third: Rows::new(),
            demands: Rows::new(),
            tuples: Vec::new(),
        }
    }

    /// The joined triples of key `(ka, kb)`, in increasing order.
    fn discover(&self, ka: &Term, kb: &Term) -> (r: Vec<Triple>)
        requires
            self.wf(),
        ensures
            ascending(r@),
            r@.to_set() == self.join_of((term_v(*ka), term_v(*kb))),
    {
        let found = self.scan(true, ka, kb, 3, 0, false);
        let r = sort_triples(found);
        proof {
            assert(r@.to_set() =~= self.join_of((term_v(*ka), term_v(*kb))));
        }
        r
    }

    /// Keep only the triples that `keep` selects: none with id `id` in relation
    /// `rel` (below three), or none of key `(ka, kb)`.
    fn drop_tuples(&mut self, rel: usize, id: usize, by_key: bool, ka: &Term, kb: &Term)
        requires
            old(self).first.wf(),
            old(self).third.wf(),
            old(self).tuples@.no_duplicates(),
            forall|t: Triple| #[trigger] old(self).tuples@.contains(t) ==> old(self).joined(t),
        ensures
            final(self).mode == old(self).mode,
            final(self).first == old(self).first,
            final(self).second == old(self).second,
            final(self).third == old(self).third,
            final(self).demands == old(self).demands,
            final(self).tuples@.no_duplicates(),
            forall|t: Triple|
                #[trigger] final(self).tuples@.contains(t) <==> old(self).tuples@.contains(t) && !(rel < 3 && t[rel as int] == id)
                    && !(by_key && old(self).key(t) == (term_v(*ka), term_v(*kb))),
    {
        let ghost before = self.tuples@;
        let mut out: Vec<Triple> = Vec::new();
        let mut i: usize = 0;
        while i < self.tuples.len()
            invariant
                self.first.wf(),
                self.third.wf(),
                before.no_duplicates(),
                forall|t: Triple| #[trigger] before.contains(t) ==> self.joined(t),
                before == self.tuples@,
                0 <= i <= before.len(),
                out@.no_duplicates(),
                forall|t: Triple|
                    #[trigger] out@.contains(t) <==> before.take(i as int).contains(t) && !(rel < 3 && t[rel as int] == id) && !(by_key
                        && self.key(t) == (term_v(*ka), term_v(*kb))),
            decreases before.len() - i,
        {
            let t = self.tuples[i];
            proof {
                assert(before.contains(t));
                assert(self.joined(t));
            }
            let hit_id = rel < 3 && t[rel] == id;
            let hit_key = if by_key {
                let (a, _) = self.first.get(t[0]);
                let (_, b) = self.third.get(t[2]);
                let r = same_term(a, ka) && same_term(b, kb);
                proof {
                    assert(self.key(t).0 == term_v(*a));
                    assert(self.key(t).1 == term_v(*b));
                }
                r
            } else {
                false
            };
            proof {
                assert(hit_key == (by_key && self.key(t) == (term_v(*ka), term_v(*kb))));
            }
            let ghost prev = out@;
            let ghost nxt = before.take(i + 1);
            proof {
                assert(nxt =~= before.take(i as int).push(t));
                assert(!before.take(i as int).contains(t)) by {
                    if before.take(i as int).contains(t) {
                        let q = choose|q: int| 0 <= q < i && before.take(i as int)[q] == t;
                        assert(before[q] == before[i as int]);
                    }
                }
            }
            if !hit_id && !hit_key {
                out.push(t);
                proof {
                    assert forall|a: int, b: int| 0 <= a < b < out@.len() implies out@[a] != out@[b] by {
                        if b == prev.len() {
                            assert(out@[a] == prev[a]);
                            assert(prev.contains(prev[a]));
                        } else {
                            assert(out@[a] == prev[a] && out@[b] == prev[b]);
                        }
                    }
                }
            }
            proof {
                assert forall|x: Triple|
                    #[trigger] out@.contains(x) <==> nxt.contains(x) && !(rel < 3 && x[rel as int] == id) && !(by_key
                        && self.key(x) == (term_v(*ka), term_v(*kb))) by {
                    lemma_push_contains(before.take(i as int), t, x);
                    if !hit_id && !hit_key {
                        lemma_push_contains(prev, t, x);
                    }
                }
            }
            i += 1;
        }
        proof {
            assert(before.take(i as int) =~= before);
        }
        self.tuples = out;
    }

    /// Append triples that are not kept yet.
    fn add_tuples(&mut self, fresh: Vec<Triple>)
        requires
            old(self).tuples@.no_duplicates(),
            fresh@.no_duplicates(),
            forall|t: Triple| #[trigger] fresh@.contains(t) ==> !old(self).tuples@.contains(t),
        ensures
            final(self).mode == old(self).mode,
            final(self).first == old(self).first,
            final(self).second == old(self).second,
            final(self).third == old(self).third,
            final(self).demands == old(self).demands,
            final(self).tuples@.no_duplicates(),
            forall|t: Triple| #[trigger] final(self).tuples@.contains(t) <==> old(self).tuples@.contains(t) || fresh@.contains(t),
    {
        let ghost before = self.tuples@;
        let mut i: usize = 0;
        while i < fresh.len()
            invariant
                before == old(self).tuples@,
                self.mode == old(self).mode,
                self.first == old(self).first,
                self.second == old(self).second,
                self.third == old(self).third,
                self.demands == old(self).demands,
                before.no_duplicates(),
                fresh@.no_duplicates(),
                forall|t: Triple| #[trigger] fresh@.contains(t) ==> !before.contains(t),
                0 <= i <= fresh@.len(),
                self.tuples@ == before + fresh@.take(i as int),
            decreases fresh.len() - i,
        {
            self.tuples.push(fresh[i]);
            proof {
                assert(self.tuples@ =~= before + fresh@.take(i + 1));
            }
            i += 1;
        }
        proof {
            assert(fresh@.take(i as int) =~= fresh@);
            let s = self.tuples@;
            assert forall|a: int, b: int| 0 <= a < b < s.len() implies s[a] != s[b] by {
                if b < before.len() {
                } else if a >= before.len() {
                    assert(s[a] == fresh@[a - before.len()] && s[b] == fresh@[b - before.len()]);
                } else {
                    assert(s[b] == fresh@[b - before.len()]);
                    assert(fresh@.contains(s[b]));
                    assert(before.contains(s[a]));
                }
            }
            assert forall|t: Triple| #[trigger] s.contains(t) <==> before.contains(t) || fresh@.contains(t) by {
                if s.contains(t) {
                    let q = choose|q: int| 0 <= q < s.len() && s[q] == t;
                    if q < before.len() {
                        assert(before[q] == t);
                    } else {
                        assert(fresh@[q - before.len()] == t);
                    }
                }
                if before.contains(t) {
                    let q = choose|q: int| 0 <= q < before.len() && before[q] == t;
                    assert(s[q] == t);
                }
                if fresh@.contains(t) {
                    let q = choose|q: int| 0 <= q < fresh@.len() && fresh@[q] == t;
                    assert(s[before.len() + q] == t);
                }
            }
        }
    }
}

impl Join {
    /// Add row `row` under the new id `id` to relation `relation`, keeping the
    /// triples that now join with it where their keys are kept up to date.
    pub fn insert(&mut self, relation: usize, id: usize, row: (Term, Term))
        requires
            old(self).wf(),
            relation < 3,
            !old(self).relation(relation as int).contains_key(id),
        ensures
            final(self).wf(),
            final(self).mode_v() == old(self).mode_v(),
            final(self).demands_v() == old(self).demands_v(),
            forall|i: int|
                0 <= i < 3 ==> #[trigger] final(self).relation(i) == if i == relation {
                    old(self).relation(i).insert(id, (term_v(row.0), term_v(row.1)))
                } else {
                    old(self).relation(i)
                },
    {
        let ghost old_join = *self;
        let (a, b) = row;
        if relation == 0 {
            self.first.insert(id, a, b);
        } else if relation == 1 {
            self.second.insert(id, a, b);
        } else {
            self.third.insert(id, a, b);
        }
        proof {
            assert forall|t: Triple| #[trigger] self.tuples@.contains(t) implies t[relation as int] != id by {
                assert(old_join.joined(t));
            }
            assert forall|t: Triple| t[relation as int] != id implies (#[trigger] self.joined(t) <==> old_join.joined(t)) && (self.joined(t) ==> self.key(t)
                == old_join.key(t)) by {}
            assert(self.demands == old_join.demands);
            assert(self.mode == old_join.mode);
            assert(self.demands_v() == old_join.demands_v());
            assert forall|k: Pair| #[trigger] self.eligible(k) == old_join.eligible(k) by {
                assert(self.demanded(k) == old_join.demanded(k));
            }
        }
        if self.mode == Mode::Indexed {
            proof {
                assert forall|t: Triple| #[trigger] self.tuples@.contains(t) <==> self.joined(t) && self.eligible(self.key(t)) by {
                    assert(!self.eligible(self.key(t)));
                    if self.tuples@.contains(t) {
                        assert(old_join.tuples@.contains(t));
                        assert(old_join.eligible(old_join.key(t)));
                    }
                }
            }
            return;
        }
        let dummy = Term::Var(crate::syntax::Var(0));
        let fresh = self.scan(false, &dummy, &dummy, relation, id, true);
        proof {
            assert forall|t: Triple| #[trigger] fresh@.contains(t) implies !self.tuples@.contains(t) by {}
        }
        let ghost mid = *self;
        let ghost fv = fresh@;
        self.add_tuples(fresh);
        proof {
            assert(self.relation(0) == mid.relation(0));
            assert(self.relation(1) == mid.relation(1));
            assert(self.relation(2) == mid.relation(2));
            assert(self.demands_v() == mid.demands_v());
            assert(self.mode == mid.mode);
            assert forall|t: Triple| #[trigger] self.tuples@.contains(t) <==> self.joined(t) && self.eligible(self.key(t)) by {
                assert(self.eligible(self.key(t)) == mid.eligible(mid.key(t)));
                assert(self.joined(t) == mid.joined(t));
                assert(self.tuples@.contains(t) == (mid.tuples@.contains(t) || fv.contains(t)));
                assert(fv.contains(t) == mid.selected(t, false, (term_v(dummy), term_v(dummy)), relation, id, true));
                if t[relation as int] != id {
                    assert(mid.joined(t) == old_join.joined(t));
                    assert(!fv.contains(t));
                    if mid.joined(t) {
                        assert(mid.key(t) == old_join.key(t));
                    }
                    assert(mid.eligible(mid.key(t)) == old_join.eligible(mid.key(t)));
                } else {
                    assert(!mid.tuples@.contains(t));
                }
            }
        }
    }

    /// Remove the row with id `id` from relation `relation`, and every kept
    /// triple that used it.
    pub fn remove(&mut self, relation: usize, id: usize)
        requires
            old(self).wf(),
            relation < 3,
            old(self).relation(relation as int).contains_key(id),
        ensures
            final(self).wf(),
            final(self).mode_v() == old(self).mode_v(),
            final(self).demands_v() == old(self).demands_v(),
            forall|i: int|
                0 <= i < 3 ==> #[trigger] final(self).relation(i) == if i == relation {
                    old(self).relation(i).remove(id)
                } else {
                    old(self).relation(i)
                },
    {
        let ghost old_join = *self;
        let dummy = Term::Var(crate::syntax::Var(0));
        self.drop_tuples(relation, id, false, &dummy, &dummy);
        if relation == 0 {
            self.first.remove(id);
        } else if relation == 1 {
            self.second.remove(id);
        } else {
            self.third.remove(id);
        }
        proof {
            assert forall|t: Triple| #[trigger] self.tuples@.contains(t) <==> self.joined(t) && self.eligible(self.key(t)) by {
                if t[relation as int] != id {
                    assert(self.joined(t) == old_join.joined(t));
                    if self.joined(t) {
                        assert(self.key(t) == old_join.key(t));
                    }
                } else {
                    assert(!self.joined(t));
                }
                assert(self.demands_v() == old_join.demands_v());
                assert(self.demanded(self.key(t)) == old_join.demanded(self.key(t)));
                assert(self.eligible(self.key(t)) == old_join.eligible(self.key(t)));
            }
        }
    }
}

impl Join {
    /// Open demand `id` for the key `key`. In subscribed mode a key demanded
    /// for the first time has its triples found and kept from now on.
    pub fn open(&mut self, id: usize, key: (Term, Term))
        requires
            old(self).wf(),
            !old(self).demands_v().contains_key(id),
        ensures
            final(self).wf(),
            final(self).mode_v() == old(self).mode_v(),
            forall|i: int| 0 <= i < 3 ==> #[trigger] final(self).relation(i) == old(self).relation(i),
            final(self).demands_v() == old(self).demands_v().insert(id, (term_v(key.0), term_v(key.1))),
    {
        let ghost old_join = *self;
        let (ka, kb) = key;
        let ghost k = (term_v(ka), term_v(kb));
        let fresh_key = !self.is_demanded(&ka, &kb);
        let ca = copy_term(&ka);
        let cb = copy_term(&kb);
        self.demands.insert(id, ka, kb);
        proof {
            assert forall|k2: Pair| #[trigger] self.demanded(k2) == (old_join.demanded(k2) || k2 == k) by {
                if self.demanded(k2) {
                    let i2 = choose|i2: usize| #[trigger] self.demands_v().contains_key(i2) && self.demands_v()[i2] == k2;
                    if i2 != id {
                        assert(old_join.demands_v().contains_key(i2));
                    }
                }
                if old_join.demanded(k2) {
                    let i2 = choose|i2: usize| #[trigger] old_join.demands_v().contains_key(i2) && old_join.demands_v()[i2] == k2;
                    assert(self.demands_v().contains_key(i2));
                }
                if k2 == k {
                    assert(self.demands_v().contains_key(id));
                }
            }
        }
        if self.mode == Mode::Subscribed && fresh_key {
            let fresh = self.scan(true, &ca, &cb, 3, 0, false);
            proof {
                assert forall|t: Triple| #[trigger] fresh@.contains(t) implies !self.tuples@.contains(t) by {
                    assert(self.key(t) == k);
                    assert(old_join.key(t) == k);
                }
            }
            let ghost mid = *self;
            let ghost fv = fresh@;
            self.add_tuples(fresh);
            proof {
                assert(self.demands_v() == mid.demands_v());
                assert forall|t: Triple| #[trigger] self.tuples@.contains(t) <==> self.joined(t) && self.eligible(self.key(t)) by {
                    assert(self.tuples@.contains(t) == (mid.tuples@.contains(t) || fv.contains(t)));
                    assert(self.demanded(self.key(t)) == mid.demanded(self.key(t)));
                }
            }
        } else {
            proof {
                assert forall|t: Triple| #[trigger] self.tuples@.contains(t) <==> self.joined(t) && self.eligible(self.key(t)) by {
                    assert(self.joined(t) == old_join.joined(t));
                }
            }
        }
    }

    /// Close demand `id`. In subscribed mode a key no longer demanded stops
    /// being kept.
    pub fn close(&mut self, id: usize)
        requires
            old(self).wf(),
            old(self).demands_v().contains_key(id),
        ensures
            final(self).wf(),
            final(self).mode_v() == old(self).mode_v(),
            forall|i: int| 0 <= i < 3 ==> #[trigger] final(self).relation(i) == old(self).relation(i),
            final(self).demands_v() == old(self).demands_v().remove(id),
    {
        let ghost old_join = *self;
        let (a, b) = self.demands.get(id);
        let ka = copy_term(a);
        let kb = copy_term(b);
        let ghost k = (term_v(ka), term_v(kb));
        self.demands.remove(id);
        proof {
            assert forall|k2: Pair| k2 != k implies #[trigger] self.demanded(k2) == old_join.demanded(k2) by {
                if old_join.demanded(k2) {
                    let i2 = choose|i2: usize| #[trigger] old_join.demands_v().contains_key(i2) && old_join.demands_v()[i2] == k2;
                    assert(i2 != id);
                    assert(self.demands_v().contains_key(i2));
                }
                if self.demanded(k2) {
                    let i2 = choose|i2: usize| #[trigger] self.demands_v().contains_key(i2) && self.demands_v()[i2] == k2;
                    assert(old_join.demands_v().contains_key(i2));
                }
            }
        }
        if self.mode == Mode::Subscribed && !self.is_demanded(&ka, &kb) {
            proof {
                assert forall|t: Triple| #[trigger] self.tuples@.contains(t) implies self.joined(t) by {
                    assert(old_join.tuples@.contains(t));
                }
            }
            let ghost mid = *self;
            self.drop_tuples(3, 0, true, &ka, &kb);
            proof {
                assert(self.demands_v() == mid.demands_v());
                assert forall|t: Triple| #[trigger] self.tuples@.contains(t) <==> self.joined(t) && self.eligible(self.key(t)) by {
                    assert(self.demanded(self.key(t)) == mid.demanded(self.key(t)));
                    if self.key(t) != k {
                        assert(mid.demanded(self.key(t)) == old_join.demanded(self.key(t)));
                    }
                }
            }
        } else {
            proof {
                assert forall|t: Triple| #[trigger] self.tuples@.contains(t) <==> self.joined(t) && self.eligible(self.key(t)) by {
                    if self.mode == Mode::Subscribed && self.key(t) == k {
                        assert(self.demanded(k));
                        let i2 = choose|i2: usize| #[trigger] self.demands_v().contains_key(i2) && self.demands_v()[i2] == k;
                        assert(old_join.demands_v().contains_key(i2));
                        assert(old_join.demanded(k));
                    } else if self.mode == Mode::Subscribed {
                        assert(self.demanded(self.key(t)) == old_join.demanded(self.key(t)));
                    }
                }
            }
        }
    }

    /// The kept triples of key `(ka, kb)`.
    fn kept_of(&self, ka: &Term, kb: &Term) -> (r: Vec<Triple>)
        requires
            self.wf(),
        ensures
            r@.no_duplicates(),
            forall|t: Triple| #[trigger] r@.contains(t) <==> self.tuples@.contains(t) && self.key(t) == (term_v(*ka), term_v(*kb)),
    {
        let ghost all = self.tuples@;
        let mut out: Vec<Triple> = Vec::new();
        let mut i: usize = 0;
        while i < self.tuples.len()
            invariant
                self.wf(),
                all == self.tuples@,
                0 <= i <= all.len(),
                out@.no_duplicates(),
                forall|t: Triple| #[trigger] out@.contains(t) <==> all.take(i as int).contains(t) && self.key(t) == (term_v(*ka), term_v(*kb)),
            decreases all.len() - i,
        {
            let t = self.tuples[i];
            proof {
                assert(all.contains(t));
                assert(self.joined(t));
            }
            let (a, _) = self.first.get(t[0]);
            let (_, b) = self.third.get(t[2]);
            let hit = same_term(a, ka) && same_term(b, kb);
            proof {
                assert(hit == (self.key(t) == (term_v(*ka), term_v(*kb))));
            }
            let ghost prev = out@;
            let ghost nxt = all.take(i + 1);
            proof {
                assert(nxt =~= all.take(i as int).push(t));
                assert(!all.take(i as int).contains(t)) by {
                    if all.take(i as int).contains(t) {
                        let q = choose|q: int| 0 <= q < i && all.take(i as int)[q] == t;
                        assert(all[q] == all[i as int]);
                    }
                }
            }
            if hit {
                out.push(t);
                proof {
                    assert forall|a2: int, b2: int| 0 <= a2 < b2 < out@.len() implies out@[a2] != out@[b2] by {
                        if b2 == prev.len() {
                            assert(out@[a2] == prev[a2]);
                            assert(prev.contains(prev[a2]));
                        } else {
                            assert(out@[a2] == prev[a2] && out@[b2] == prev[b2]);
                        }
                    }
                }
            }
            proof {
                assert forall|x: Triple| #[trigger] out@.contains(x) <==> nxt.contains(x) && self.key(x) == (term_v(*ka), term_v(*kb)) by {
                    lemma_push_contains(all.take(i as int), t, x);
                    if hit {
                        lemma_push_contains(prev, t, x);
                    }
                }
            }
            i += 1;
        }
        proof {
            assert(all.take(i as int) =~= all);
        }
        out
    }

    /// The triples of the key of demand `id`, in increasing order: joined on
    /// request in indexed mode, kept ones otherwise.
    pub fn request(&self, id: usize) -> (r: Vec<Triple>)
        requires
            self.wf(),
            self.demands_v().contains_key(id),
        ensures
            ascending(r@),
            r@.to_set() == self.join_of(self.demands_v()[id]),
    {
        let (ka, kb) = self.demands.get(id);
        if self.mode == Mode::Indexed {
            self.discover(ka, kb)
        } else {
            let found = self.kept_of(ka, kb);
            let r = sort_triples(found);
            proof {
                let k = self.demands_v()[id];
                assert(self.demanded(k));
                assert(self.eligible(k));
                assert(r@.to_set() =~= self.join_of(k));
            }
            r
        }
    }

    /// How many triples are kept.
    pub fn retained(&self) -> (r: usize)
        requires
            self.wf(),
        ensures
            r == self.retained_set().len(),
    {
        proof {
            self.tuples@.unique_seq_to_set();
            assert(self.tuples@.to_set() =~= self.retained_set());
        }
        self.tuples.len()
    }
}

/// A request's answer depends on the rows and the key alone, whatever the mode:
/// two increasing sequences of the same triples are equal.
pub proof fn lemma_answer_unique(a: Seq<Triple>, b: Seq<Triple>)
    requires
        ascending(a),
        ascending(b),
        a.to_set() == b.to_set(),
    ensures
        a == b,
    decreases a.len(),
{
    if a.len() == 0 {
        if b.len() > 0 {
            assert(b.to_set().contains(b[0]));
        }
        assert(a =~= b);
    } else {
        assert(a.to_set().contains(a[0]));
        assert(b.len() > 0);
        assert(b.to_set().contains(b[0]));
        let ja = choose|j: int| 0 <= j < a.len() && a[j] == b[0];
        let jb = choose|j: int| 0 <= j < b.len() && b[j] == a[0];
        if ja > 0 {
            assert(lex_lt(a[0], a[ja]));
        }
        if jb > 0 {
            assert(lex_lt(b[0], b[jb]));
        }
        lemma_lex_total(a[0], b[0]);
        if ja > 0 && jb > 0 {
            lemma_lex_total(a[0], b[0]);
        }
        assert(a[0]@ =~= b[0]@);
        assert(a[0] == b[0]);
        let ta = a.drop_first();
        let tb = b.drop_first();
        assert forall|x: Triple| #[trigger] ta.to_set().contains(x) <==> tb.to_set().contains(x) by {
            if ta.to_set().contains(x) {
                let j = choose|j: int| 0 <= j < ta.len() && ta[j] == x;
                assert(a[j + 1] == x);
                assert(a.to_set().contains(x));
                let q = choose|q: int| 0 <= q < b.len() && b[q] == x;
                assert(lex_lt(a[0], a[j + 1]));
                lemma_lex_total(a[0], x);
                if q == 0 {
                    assert(x == a[0]);
                }
                assert(tb[q - 1] == x);
            }
            if tb.to_set().contains(x) {
                let j = choose|j: int| 0 <= j < tb.len() && tb[j] == x;
                assert(b[j + 1] == x);
                assert(b.to_set().contains(x));
                let q = choose|q: int| 0 <= q < a.len() && a[q] == x;
                assert(lex_lt(b[0], b[j + 1]));
                lemma_lex_total(b[0], x);
                if q == 0 {
                    assert(x == b[0]);
                }
                assert(ta[q - 1] == x);
            }
        }
        assert(ta.to_set() =~= tb.to_set());
        lemma_answer_unique(ta, tb);
        assert(a =~= seq![a[0]] + ta);
        assert(b =~= seq![b[0]] + tb);
    }
}

} // verus!
