//! Contextual regions of choice worlds and the failure regions of an equality graph.
//!
//! A world fixes every choice label to one of its two arms. A context is a cube:
//! the set of worlds that agree with a finite list of fixed arms. Failed regions
//! are kept as a disjoint union of cubes.
use vstd::prelude::*;

verus! {

/// A world: the arm taken at every choice label.
pub type World = spec_fn(nat) -> bool;

/// A conjunction of fixed choice arms.
#[derive(Debug)]
pub struct Context {
    literals: Vec<(usize, bool)>,
}

/// No label is fixed twice.
spec fn distinct_labels(lits: Seq<(usize, bool)>) -> bool {
    forall|i: int, j: int| 0 <= i < j < lits.len() ==> lits[i].0 != lits[j].0
}

/// The world takes every listed arm.
spec fn agrees(lits: Seq<(usize, bool)>, w: World) -> bool {
    forall|i: int| 0 <= i < lits.len() ==> w(#[trigger] lits[i].0 as nat) == lits[i].1
}

/// Some cube of the list holds in the world.
pub open spec fn covered(regions: Seq<Context>, w: World) -> bool {
    exists|i: int| 0 <= i < regions.len() && #[trigger] regions[i].holds(w)
}

/// No world lies in two cubes of the list.
pub open spec fn disjoint(regions: Seq<Context>) -> bool {
    forall|i: int, j: int, w: World|
        0 <= i < j < regions.len() ==> !(#[trigger] regions[i].holds(w) && #[trigger] regions[j].holds(
            w,
        ))
}

/// Every cube of the list is well formed.
pub open spec fn all_wf(regions: Seq<Context>) -> bool {
    forall|i: int| 0 <= i < regions.len() ==> #[trigger] regions[i].wf()
}

impl Context {
    pub closed spec fn wf(&self) -> bool {
        distinct_labels(self.literals@)
    }

    /// The world lies in this context.
    pub closed spec fn holds(&self, w: World) -> bool {
        agrees(self.literals@, w)
    }

    /// The arm this context fixes at `label`, if any.
    pub closed spec fn fixed(&self, label: nat) -> Option<bool> {
        if exists|i: int| 0 <= i < self.literals@.len() && self.literals@[i].0 == label {
            let i = choose|i: int| 0 <= i < self.literals@.len() && self.literals@[i].0 == label;
            Some(self.literals@[i].1)
        } else {
            None
        }
    }

    /// The context of all worlds.
    pub fn top() -> (r: Context)
        ensures
            r.wf(),
            forall|w: World| #[trigger] r.holds(w),
    {
        Context { literals: Vec::new() }
    }

    fn copy(&self) -> (r: Context)
        ensures
            r.literals@ == self.literals@,
    {
        let mut literals: Vec<(usize, bool)> = Vec::new();
        let mut i: usize = 0;
        while i < self.literals.len()
            invariant
                0 <= i <= self.literals.len(),
                literals@ == self.literals@.subrange(0, i as int),
            decreases self.literals.len() - i,
        {
            literals.push(self.literals[i]);
            i += 1;
            proof {
                assert(literals@ == self.literals@.subrange(0, i as int));
            }
        }
        proof {
            assert(self.literals@.subrange(0, i as int) == self.literals@);
        }
        Context { literals }
    }

    /// The position of `label` among the fixed arms.
    fn find(&self, label: usize) -> (r: Option<usize>)
        ensures
            match r {
                Some(i) => i < self.literals@.len() && self.literals@[i as int].0 == label,
                None => forall|i: int|
                    0 <= i < self.literals@.len() ==> #[trigger] self.literals@[i].0 != label,
            },
    {
        let mut i: usize = 0;
        while i < self.literals.len()
            invariant
                0 <= i <= self.literals.len(),
                forall|j: int| 0 <= j < i ==> #[trigger] self.literals@[j].0 != label,
            decreases self.literals.len() - i,
        {
            if self.literals[i].0 == label {
                return Some(i);
            }
            i += 1;
        }
        None
    }

    /// This context with one more arm fixed; `None` when it already takes the other arm.
    pub fn select(&self, label: usize, arm: bool) -> (r: Option<Context>)
        requires
            self.wf(),
        ensures
            match r {
                Some(c) => c.wf() && forall|w: World| #[trigger]
                    c.holds(w) <==> (self.holds(w) && w(label as nat) == arm),
                None => forall|w: World| #[trigger] self.holds(w) ==> w(label as nat) != arm,
            },
    {
        match self.find(label) {
            Some(i) => {
                if self.literals[i].1 == arm {
                    let c = self.copy();
                    proof {
                        assert forall|w: World| #[trigger]
                            c.holds(w) <==> (self.holds(w) && w(label as nat) == arm) by {
                            if c.holds(w) {
                                assert(w(self.literals@[i as int].0 as nat) == self.literals@[i as int].1);
                            }
                        }
                    }
                    Some(c)
                } else {
                    proof {
                        assert forall|w: World| #[trigger] self.holds(w) implies w(label as nat)
                            != arm by {
                            assert(w(self.literals@[i as int].0 as nat) == self.literals@[i as int].1);
                        }
                    }
                    None
                }
            },
            None => {
                let mut c = self.copy();
                c.literals.push((label, arm));
                proof {
                    let lits = c.literals@;
                    assert(lits == self.literals@.push((label, arm)));
                    assert forall|w: World| #[trigger]
                        c.holds(w) <==> (self.holds(w) && w(label as nat) == arm) by {
                        if c.holds(w) {
                            assert(w(lits[lits.len() - 1].0 as nat) == lits[lits.len() - 1].1);
                            assert forall|i: int| 0 <= i < self.literals@.len() implies w(
                                #[trigger] self.literals@[i].0 as nat,
                            ) == self.literals@[i].1 by {
                                assert(lits[i] == self.literals@[i]);
                            }
                        }
                        if self.holds(w) && w(label as nat) == arm {
                            assert forall|i: int| 0 <= i < lits.len() implies w(
                                #[trigger] lits[i].0 as nat,
                            ) == lits[i].1 by {
                                if i < self.literals@.len() {
                                    assert(lits[i] == self.literals@[i]);
                                }
                            }
                        }
                    }
                }
                Some(c)
            },
        }
    }
}


/// A finite world, reading every label beyond its end as the first arm.
pub open spec fn world_of(s: Seq<bool>) -> World {
    |x: nat| x < s.len() && s[x as int]
}

impl Context {
    /// Whether the finite world lies in this context.
    pub fn contains(&self, world: &[bool]) -> (r: bool)
        ensures
            r == self.holds(world_of(world@)),
    {
        let mut i: usize = 0;
        while i < self.literals.len()
            invariant
                0 <= i <= self.literals.len(),
                agrees(self.literals@.subrange(0, i as int), world_of(world@)),
            decreases self.literals.len() - i,
        {
            let (label, arm) = self.literals[i];
            let taken = label < world.len() && world[label];
            if taken != arm {
                proof {
                    assert(world_of(world@)(self.literals@[i as int].0 as nat) != self.literals@[i as int].1);
                }
                return false;
            }
            proof {
                let w = world_of(world@);
                assert forall|j: int| 0 <= j < i + 1 implies w(
                    #[trigger] self.literals@.subrange(0, i + 1)[j].0 as nat,
                ) == self.literals@.subrange(0, i + 1)[j].1 by {
                    if j < i {
                        assert(self.literals@.subrange(0, i + 1)[j] == self.literals@.subrange(
                            0,
                            i as int,
                        )[j]);
                    }
                }
            }
            i += 1;
        }
        proof {
            assert(self.literals@.subrange(0, i as int) == self.literals@);
        }
        true
    }

    /// The arm fixed at `label`, if any.
    pub fn arm(&self, label: usize) -> (r: Option<bool>)
        requires
            self.wf(),
        ensures
            r == self.fixed(label as nat),
    {
        match self.find(label) {
            Some(i) => {
                proof {
                    let j = choose|j: int|
                        0 <= j < self.literals@.len() && self.literals@[j].0 == label as nat;
                    assert(j == i);
                }
                Some(self.literals[i].1)
            },
            None => None,
        }
    }

    /// The worlds in both contexts; `None` when no world is in both.
    pub fn intersection(&self, other: &Context) -> (r: Option<Context>)
        requires
            self.wf(),
        ensures
            match r {
                Some(c) => c.wf() && forall|w: World| #[trigger]
                    c.holds(w) <==> (self.holds(w) && other.holds(w)),
                None => forall|w: World| !(#[trigger] self.holds(w) && other.holds(w)),
            },
    {
        let mut cur = self.copy();
        let mut k: usize = 0;
        while k < other.literals.len()
            invariant
                0 <= k <= other.literals.len(),
                cur.wf(),
                forall|w: World| #[trigger]
                    cur.holds(w) <==> (self.holds(w) && agrees(
                        other.literals@.subrange(0, k as int),
                        w,
                    )),
            decreases other.literals.len() - k,
        {
            let (label, arm) = other.literals[k];
            let ghost before = cur.literals@;
            match cur.select(label, arm) {
                Some(c) => {
                    proof {
                        assert forall|w: World| #[trigger]
                            c.holds(w) <==> (self.holds(w) && agrees(
                                other.literals@.subrange(0, k + 1),
                                w,
                            )) by {
                            lemma_agrees_push(other.literals@, k as int, w);
                        }
                    }
                    cur = c;
                },
                None => {
                    proof {
                        assert forall|w: World| !(#[trigger] self.holds(w) && other.holds(w)) by {
                            if self.holds(w) && other.holds(w) {
                                lemma_agrees_prefix(other.literals@, k as int, w);
                                assert(cur.holds(w));
                                assert(w(other.literals@[k as int].0 as nat) == other.literals@[k as int].1);
                            }
                        }
                    }
                    return None;
                },
            }
            k += 1;
        }
        proof {
            assert(other.literals@.subrange(0, k as int) == other.literals@);
        }
        Some(cur)
    }

    /// The worlds of this context outside `other`, as disjoint cubes inside this one.
    pub fn subtract(&self, other: &Context) -> (r: Vec<Context>)
        requires
            self.wf(),
        ensures
            all_wf(r@),
            disjoint(r@),
            forall|w: World| #[trigger] covered(r@, w) <==> (self.holds(w) && !other.holds(w)),
    {
        let mut result: Vec<Context> = Vec::new();
        let mut cur = self.copy();
        let mut k: usize = 0;
        while k < other.literals.len()
            invariant
                0 <= k <= other.literals.len(),
                cur.wf(),
                all_wf(result@),
                disjoint(result@),
                forall|w: World| #[trigger]
                    cur.holds(w) <==> (self.holds(w) && agrees(
                        other.literals@.subrange(0, k as int),
                        w,
                    )),
                forall|w: World| #[trigger]
                    covered(result@, w) <==> (self.holds(w) && !agrees(
                        other.literals@.subrange(0, k as int),
                        w,
                    )),
            decreases other.literals.len() - k,
        {
            let (label, arm) = other.literals[k];
            let ghost prev = result@;
            proof {
                assert forall|w: World| #[trigger]
                    agrees(other.literals@.subrange(0, k + 1), w) <==> (agrees(
                        other.literals@.subrange(0, k as int),
                        w,
                    ) && w(label as nat) == arm) by {
                    lemma_agrees_push(other.literals@, k as int, w);
                }
            }
            match cur.select(label, !arm) {
                Some(n) => {
                    result.push(n);
                    proof {
                        let rs = result@;
                        assert(rs == prev.push(n));
                        assert forall|i: int, j: int, w: World|
                            0 <= i < j < rs.len() implies !(#[trigger] rs[i].holds(w)
                            && #[trigger] rs[j].holds(w)) by {
                            if j < prev.len() {
                                assert(rs[i] == prev[i] && rs[j] == prev[j]);
                            } else {
                                assert(rs[i] == prev[i]);
                                if rs[i].holds(w) && rs[j].holds(w) {
                                    assert(covered(prev, w));
                                }
                            }
                        }
                        assert forall|i: int| 0 <= i < rs.len() implies #[trigger] rs[i].wf() by {
                            if i < prev.len() {
                                assert(rs[i] == prev[i]);
                            }
                        }
                        assert forall|w: World| #[trigger]
                            covered(rs, w) <==> (self.holds(w) && !agrees(
                                other.literals@.subrange(0, k + 1),
                                w,
                            )) by {
                            if covered(rs, w) {
                                let i = choose|i: int| 0 <= i < rs.len() && #[trigger] rs[i].holds(w);
                                if i < prev.len() {
                                    assert(rs[i] == prev[i]);
                                    assert(covered(prev, w));
                                }
                            }
                            if self.holds(w) && !agrees(other.literals@.subrange(0, k + 1), w) {
                                if !covered(prev, w) {
                                    assert(rs[rs.len() - 1].holds(w));
                                } else {
                                    let i = choose|i: int| 0 <= i < prev.len() && #[trigger] prev[i].holds(w);
                                    assert(rs[i] == prev[i]);
                                }
                            }
                        }
                    }
                },
                None => {
                    proof {
                        assert forall|w: World| #[trigger]
                            covered(result@, w) <==> (self.holds(w) && !agrees(
                                other.literals@.subrange(0, k + 1),
                                w,
                            )) by {
                            if self.holds(w) && agrees(other.literals@.subrange(0, k as int), w) {
                                assert(cur.holds(w));
                            }
                        }
                    }
                },
            }
            match cur.select(label, arm) {
                Some(c) => {
                    cur = c;
                },
                None => {
                    proof {
                        assert forall|w: World| #[trigger]
                            covered(result@, w) <==> (self.holds(w) && !other.holds(w)) by {
                            if self.holds(w) && agrees(other.literals@.subrange(0, k as int), w) {
                                assert(cur.holds(w));
                            }
                            if other.holds(w) {
                                lemma_agrees_prefix(other.literals@, k + 1, w);
                            }
                        }
                    }
                    return result;
                },
            }
            k += 1;
        }
        proof {
            assert(other.literals@.subrange(0, k as int) == other.literals@);
        }
        result
    }
}

proof fn lemma_agrees_push(lits: Seq<(usize, bool)>, k: int, w: World)
    requires
        0 <= k < lits.len(),
    ensures
        agrees(lits.subrange(0, k + 1), w) <==> (agrees(lits.subrange(0, k), w) && w(
            lits[k].0 as nat,
        ) == lits[k].1),
{
    let a = lits.subrange(0, k);
    let b = lits.subrange(0, k + 1);
    assert forall|i: int| 0 <= i < k implies #[trigger] b[i] == a[i] by {}
    assert(b[k] == lits[k]);
    if agrees(b, w) {
        assert(w(b[k].0 as nat) == b[k].1);
        assert forall|i: int| 0 <= i < a.len() implies w(#[trigger] a[i].0 as nat) == a[i].1 by {
            assert(b[i] == a[i]);
            assert(w(b[i].0 as nat) == b[i].1);
        }
    }
    if agrees(a, w) && w(lits[k].0 as nat) == lits[k].1 {
        assert forall|i: int| 0 <= i < b.len() implies w(#[trigger] b[i].0 as nat) == b[i].1 by {
            if i < k {
                assert(b[i] == a[i]);
                assert(w(a[i].0 as nat) == a[i].1);
            }
        }
    }
}

proof fn lemma_agrees_prefix(lits: Seq<(usize, bool)>, k: int, w: World)
    requires
        0 <= k <= lits.len(),
        agrees(lits, w),
    ensures
        agrees(lits.subrange(0, k), w),
{
    assert forall|i: int| 0 <= i < k implies w(#[trigger] lits.subrange(0, k)[i].0 as nat)
        == lits.subrange(0, k)[i].1 by {
        assert(lits.subrange(0, k)[i] == lits[i]);
        assert(w(lits[i].0 as nat) == lits[i].1);
    }
}

proof fn lemma_covered_concat(a: Seq<Context>, b: Seq<Context>, w: World)
    ensures
        covered(a + b, w) == (covered(a, w) || covered(b, w)),
{
    let ab = a + b;
    if covered(ab, w) {
        let i = choose|i: int| 0 <= i < ab.len() && #[trigger] ab[i].holds(w);
        if i < a.len() {
            assert(ab[i] == a[i]);
        } else {
            assert(ab[i] == b[i - a.len()]);
        }
    }
    if covered(a, w) {
        let i = choose|i: int| 0 <= i < a.len() && #[trigger] a[i].holds(w);
        assert(ab[i] == a[i]);
    }
    if covered(b, w) {
        let i = choose|i: int| 0 <= i < b.len() && #[trigger] b[i].holds(w);
        assert(ab[i + a.len()] == b[i]);
    }
}

proof fn lemma_disjoint_concat(a: Seq<Context>, b: Seq<Context>)
    requires
        disjoint(a),
        disjoint(b),
        all_wf(a),
        all_wf(b),
        forall|w: World| !(#[trigger] covered(a, w) && covered(b, w)),
    ensures
        disjoint(a + b),
        all_wf(a + b),
{
    let ab = a + b;
    assert forall|i: int, j: int, w: World| 0 <= i < j < ab.len() implies !(
    #[trigger] ab[i].holds(w) && #[trigger] ab[j].holds(w)) by {
        if j < a.len() {
            assert(ab[i] == a[i] && ab[j] == a[j]);
        } else if i >= a.len() {
            assert(ab[i] == b[i - a.len()] && ab[j] == b[j - a.len()]);
        } else {
            assert(ab[i] == a[i] && ab[j] == b[j - a.len()]);
            if a[i].holds(w) && b[j - a.len()].holds(w) {
                assert(covered(a, w));
                assert(covered(b, w));
            }
        }
    }
    assert forall|i: int| 0 <= i < ab.len() implies #[trigger] ab[i].wf() by {
        if i < a.len() {
            assert(ab[i] == a[i]);
        } else {
            assert(ab[i] == b[i - a.len()]);
        }
    }
}

proof fn lemma_covered_step(s: Seq<Context>, i: int, w: World)
    requires
        0 <= i < s.len(),
    ensures
        covered(s.subrange(0, i + 1), w) == (covered(s.subrange(0, i), w) || s[i].holds(w)),
{
    assert(s.subrange(0, i + 1) == s.subrange(0, i).push(s[i]));
    lemma_covered_concat(s.subrange(0, i), seq![s[i]], w);
    assert(s.subrange(0, i).push(s[i]) == s.subrange(0, i) + seq![s[i]]);
    if s[i].holds(w) {
        assert(seq![s[i]][0] == s[i]);
    }
}

/// The worlds of the disjoint cubes `regions` outside `removed`, as disjoint cubes.
fn subtract_each(regions: &Vec<Context>, removed: &Context) -> (r: Vec<Context>)
    requires
        all_wf(regions@),
        disjoint(regions@),
    ensures
        all_wf(r@),
        disjoint(r@),
        forall|w: World| #[trigger] covered(r@, w) <==> (covered(regions@, w) && !removed.holds(w)),
{
    let mut next: Vec<Context> = Vec::new();
    let mut i: usize = 0;
    while i < regions.len()
        invariant
            0 <= i <= regions.len(),
            all_wf(regions@),
            disjoint(regions@),
            all_wf(next@),
            disjoint(next@),
            forall|w: World| #[trigger]
                covered(next@, w) <==> (covered(regions@.subrange(0, i as int), w)
                    && !removed.holds(w)),
        decreases regions.len() - i,
    {
        let mut parts = regions[i].subtract(removed);
        let ghost before = next@;
        let ghost added = parts@;
        proof {
            assert(regions@[i as int].wf());
            assert forall|w: World| !(#[trigger] covered(before, w) && covered(added, w)) by {
                if covered(before, w) && covered(added, w) {
                    let j = choose|j: int| 0 <= j < i && #[trigger] regions@.subrange(0, i as int)[j].holds(w);
                    assert(regions@.subrange(0, i as int)[j] == regions@[j]);
                    assert(regions@[j].holds(w) && regions@[i as int].holds(w));
                }
            }
            lemma_disjoint_concat(before, added);
        }
        next.append(&mut parts);
        proof {
            assert(next@ == before + added);
            assert forall|w: World| #[trigger]
                covered(next@, w) <==> (covered(regions@.subrange(0, i + 1), w)
                    && !removed.holds(w)) by {
                lemma_covered_concat(before, added, w);
                lemma_covered_step(regions@, i as int, w);
            }
        }
        i += 1;
    }
    proof {
        assert(regions@.subrange(0, i as int) == regions@);
    }
    next
}

/// The worlds of `start` outside every region of `removed`, as disjoint cubes.
fn remove_all(start: Context, removed: &Vec<Context>) -> (r: Vec<Context>)
    requires
        start.wf(),
    ensures
        all_wf(r@),
        disjoint(r@),
        forall|w: World| #[trigger] covered(r@, w) <==> (start.holds(w) && !covered(removed@, w)),
{
    let ghost init = start.literals@;
    let mut novel: Vec<Context> = Vec::new();
    novel.push(start);
    proof {
        assert forall|w: World| #[trigger] covered(novel@, w) <==> (agrees(init, w)
            && !covered(removed@.subrange(0, 0), w)) by {
            if agrees(init, w) {
                assert(novel@[0].holds(w));
            }
        }
    }
    let mut k: usize = 0;
    while k < removed.len()
        invariant
            0 <= k <= removed.len(),
            all_wf(novel@),
            disjoint(novel@),
            forall|w: World| #[trigger]
                covered(novel@, w) <==> (agrees(init, w) && !covered(
                    removed@.subrange(0, k as int),
                    w,
                )),
        decreases removed.len() - k,
    {
        let next = subtract_each(&novel, &removed[k]);
        proof {
            assert forall|w: World| #[trigger]
                covered(next@, w) <==> (agrees(init, w) && !covered(
                    removed@.subrange(0, k + 1),
                    w,
                )) by {
                lemma_covered_step(removed@, k as int, w);
            }
        }
        novel = next;
        k += 1;
    }
    proof {
        assert(removed@.subrange(0, k as int) == removed@);
    }
    novel
}

/// Add a cube to a disjoint union without multiplying overlapping alternatives.
fn union(regions: &mut Vec<Context>, added: &Context)
    requires
        added.wf(),
        all_wf(old(regions)@),
        disjoint(old(regions)@),
    ensures
        all_wf(final(regions)@),
        disjoint(final(regions)@),
        final(regions)@.subrange(0, old(regions)@.len() as int) == old(regions)@,
        forall|w: World| #[trigger]
            covered(final(regions)@, w) <==> (covered(old(regions)@, w) || added.holds(w)),
        (forall|w: World| added.holds(w) ==> #[trigger] covered(old(regions)@, w)) ==> final(regions)@ == old(regions)@,
{
    let mut novel = remove_all(added.copy(), regions);
    let ghost before = regions@;
    let ghost extra = novel@;
    proof {
        lemma_disjoint_concat(before, extra);
        if forall|w: World| added.holds(w) ==> #[trigger] covered(before, w) {
            if extra.len() > 0 {
                assert(extra[0].wf());
                let wp = lemma_inhabited(&extra[0]);
                assert(covered(extra, wp));
            }
        }
    }
    regions.append(&mut novel);
    proof {
        assert(regions@ == before + extra);
        assert(regions@.subrange(0, before.len() as int) == before);
        assert forall|w: World| #[trigger]
            covered(regions@, w) <==> (covered(before, w) || added.holds(w)) by {
            lemma_covered_concat(before, extra, w);
        }
    }
}

/// A node of an equality graph, by position.
#[derive(Clone, Copy, Debug, PartialEq, Eq, Structural)]
pub struct NodeId(pub usize);

/// A choice label, by position.
#[derive(Clone, Copy, Debug, PartialEq, Eq, Structural)]
pub struct Label(pub usize);

/// A node: an unknown, a constructor application, or a choice between two arms
/// (the first taken where the label's arm is `false`, the second where it is `true`).
#[derive(Debug)]
pub enum Node {
    Unknown(u64),
    App(String, Vec<NodeId>),
    Choice(Label, NodeId, NodeId),
}

/// A finite-tree equality graph over choice worlds.
///
/// Each unknown carries redirects, each valid in a region (pairwise disjoint per
/// unknown); each label exists only in its birth region. A contradiction
/// permanently fails its region; failed regions are kept as disjoint cubes.
pub struct Graph {
    nodes: Vec<Node>,
    births: Vec<Context>,
    bindings: Vec<Vec<(Context, NodeId)>>,
    failed: Vec<Context>,
    /// A depth that bounds every node's tree in every world.
    fuel: Ghost<nat>,
}

/// The arm of a choice taken in a world.
pub open spec fn arm_of(w: World, label: Label, left: NodeId, right: NodeId) -> nat {
    if w(label.0 as nat) {
        right.0 as nat
    } else {
        left.0 as nat
    }
}

impl Graph {
    pub closed spec fn node_count(&self) -> nat {
        self.nodes@.len()
    }

    pub closed spec fn label_count(&self) -> nat {
        self.births@.len()
    }

    pub closed spec fn variable_count(&self) -> nat {
        self.bindings@.len()
    }

    /// The node at position `n`.
    pub closed spec fn node(&self, n: nat) -> Node {
        self.nodes@[n as int]
    }

    /// The regions in which unknown `x` is redirected.
    pub closed spec fn regions_of(&self, x: nat) -> Seq<Context> {
        self.bindings@[x as int]@.map_values(|p: (Context, NodeId)| p.0)
    }

    /// Where unknown `x` is redirected in world `w`, if anywhere.
    pub closed spec fn bound(&self, w: World, x: nat) -> Option<nat> {
        if x < self.bindings@.len() && exists|i: int|
            0 <= i < self.bindings@[x as int]@.len()
                && #[trigger] self.bindings@[x as int]@[i].0.holds(w) {
            let i = choose|i: int|
                0 <= i < self.bindings@[x as int]@.len()
                    && #[trigger] self.bindings@[x as int]@[i].0.holds(w);
            Some(self.bindings@[x as int]@[i].1.0 as nat)
        } else {
            None
        }
    }

    /// Label `l` exists in world `w`.
    pub closed spec fn born(&self, w: World, l: nat) -> bool {
        l < self.births@.len() && self.births@[l as int].holds(w)
    }

    /// The tree of node `n` in world `w` is finite, of depth below `k`.
    pub closed spec fn within(&self, w: World, n: nat, k: nat) -> bool
        decreases k,
    {
        if k == 0 || n >= self.nodes@.len() {
            false
        } else {
            match self.nodes@[n as int] {
                Node::Unknown(x) => match self.bound(w, x as nat) {
                    Some(t) => self.within(w, t, (k - 1) as nat),
                    None => true,
                },
                Node::App(_, cs) => forall|i: int|
                    0 <= i < cs@.len() ==> self.within(w, (#[trigger] cs@[i]).0 as nat, (k - 1) as nat),
                Node::Choice(l, a, b) => !self.born(w, l.0 as nat) || self.within(
                    w,
                    arm_of(w, l, a, b),
                    (k - 1) as nat,
                ),
            }
        }
    }

    /// Follow the redirects of node `n` in world `w`, at most `k` of them.
    pub closed spec fn chase(&self, w: World, n: nat, k: nat) -> nat
        decreases k,
    {
        if k == 0 || n >= self.nodes@.len() {
            n
        } else {
            match self.nodes@[n as int] {
                Node::Unknown(x) => match self.bound(w, x as nat) {
                    Some(t) => self.chase(w, t, (k - 1) as nat),
                    None => n,
                },
                _ => n,
            }
        }
    }

    /// The node that `n` stands for in world `w` once redirects are followed.
    pub closed spec fn resolved(&self, w: World, n: nat) -> nat {
        self.chase(w, n, self.fuel@)
    }

    /// Node `n` is not a redirected unknown in world `w`.
    pub closed spec fn settled(&self, w: World, n: nat) -> bool {
        match self.nodes@[n as int] {
            Node::Unknown(x) => self.bound(w, x as nat) is None,
            _ => true,
        }
    }

    spec fn node_ok(&self, node: Node) -> bool {
        match node {
            Node::Unknown(x) => x < self.bindings@.len(),
            Node::App(_, cs) => forall|i: int|
                0 <= i < cs@.len() ==> (#[trigger] cs@[i]).0 < self.nodes@.len(),
            Node::Choice(l, a, b) => l.0 < self.births@.len() && a.0 < self.nodes@.len() && b.0
                < self.nodes@.len(),
        }
    }

    spec fn refs_ok(&self) -> bool {
        forall|n: int| 0 <= n < self.nodes@.len() ==> self.node_ok(#[trigger] self.nodes@[n])
    }

    spec fn bindings_ok(&self) -> bool {
        &&& forall|x: int, i: int|
            0 <= x < self.bindings@.len() && 0 <= i < self.bindings@[x]@.len() ==> {
                &&& (#[trigger] self.bindings@[x]@[i]).0.wf()
                &&& self.bindings@[x]@[i].1.0 < self.nodes@.len()
            }
        &&& forall|x: nat| x < self.bindings@.len() ==> disjoint(#[trigger] self.regions_of(x))
    }

    pub closed spec fn wf(&self) -> bool {
        &&& all_wf(self.failed@)
        &&& disjoint(self.failed@)
        &&& all_wf(self.births@)
        &&& self.refs_ok()
        &&& self.bindings_ok()
        &&& forall|w: World, n: nat| n < self.nodes@.len() ==> #[trigger] self.within(w, n, self.fuel@)
    }

    /// The world lies in a failed region.
    pub closed spec fn failed_in(&self, w: World) -> bool {
        covered(self.failed@, w)
    }

    /// The number of disjoint cubes recording failure.
    pub closed spec fn failed_cubes(&self) -> nat {
        self.failed@.len()
    }

    /// `self` adds nodes, labels and unknowns to `older` and leaves the rest alone.
    pub closed spec fn grows(&self, older: &Graph) -> bool {
        &&& older.nodes@.len() <= self.nodes@.len()
        &&& forall|n: int| 0 <= n < older.nodes@.len() ==> #[trigger] self.nodes@[n] == older.nodes@[n]
        &&& older.births@.len() <= self.births@.len()
        &&& forall|l: int| 0 <= l < older.births@.len() ==> #[trigger] self.births@[l] == older.births@[l]
        &&& older.bindings@.len() <= self.bindings@.len()
        &&& forall|x: int|
            0 <= x < older.bindings@.len() ==> #[trigger] self.bindings@[x] == older.bindings@[x]
        &&& self.failed@ == older.failed@
    }

    /// `self` has the nodes, labels and redirects of `older`, whatever has failed.
    pub closed spec fn same_terms(&self, older: &Graph) -> bool {
        &&& self.nodes@ == older.nodes@
        &&& self.births@ == older.births@
        &&& self.bindings@ == older.bindings@
        &&& self.fuel@ == older.fuel@
    }

    /// In world `w`, `self` agrees with `older` on everything `older` has.
    spec fn agrees_in(&self, older: &Graph, w: World) -> bool {
        &&& older.nodes@.len() <= self.nodes@.len()
        &&& forall|n: int| 0 <= n < older.nodes@.len() ==> #[trigger] self.nodes@[n] == older.nodes@[n]
        &&& forall|x: nat| x < older.bindings@.len() ==> #[trigger] self.bound(w, x) == older.bound(w, x)
        &&& forall|l: nat| l < older.births@.len() ==> #[trigger] self.born(w, l) == older.born(w, l)
    }

    proof fn lemma_within_frame(&self, older: &Graph, w: World, n: nat, k: nat)
        requires
            older.refs_ok(),
            older.bindings_ok(),
            self.agrees_in(older, w),
            n < older.nodes@.len(),
        ensures
            self.within(w, n, k) == older.within(w, n, k),
            self.chase(w, n, k) == older.chase(w, n, k),
        decreases k,
    {
        if k > 0 {
            assert(older.node_ok(older.nodes@[n as int]));
            assert(self.nodes@[n as int] == older.nodes@[n as int]);
            match older.nodes@[n as int] {
                Node::Unknown(x) => {
                    assert(self.bound(w, x as nat) == older.bound(w, x as nat));
                    match older.bound(w, x as nat) {
                        Some(t) => {
                            older.lemma_bound_valid(w, x as nat);
                            self.lemma_within_frame(older, w, t, (k - 1) as nat);
                        },
                        None => {},
                    }
                },
                Node::App(_, cs) => {
                    assert forall|i: int| 0 <= i < cs@.len() implies self.within(
                        w,
                        (#[trigger] cs@[i]).0 as nat,
                        (k - 1) as nat,
                    ) == older.within(w, cs@[i].0 as nat, (k - 1) as nat) by {
                        self.lemma_within_frame(older, w, cs@[i].0 as nat, (k - 1) as nat);
                    }
                },
                Node::Choice(l, a, b) => {
                    assert(self.born(w, l.0 as nat) == older.born(w, l.0 as nat));
                    self.lemma_within_frame(older, w, arm_of(w, l, a, b), (k - 1) as nat);
                },
            }
        }
    }

    /// A redirect target is a node of the graph.
    proof fn lemma_bound_valid(&self, w: World, x: nat)
        requires
            self.bindings_ok(),
        ensures
            self.bound(w, x) matches Some(t) ==> t < self.nodes@.len(),
    {
        if self.bound(w, x) is Some {
            let i = choose|i: int|
                0 <= i < self.bindings@[x as int]@.len()
                    && #[trigger] self.bindings@[x as int]@[i].0.holds(w);
            assert(self.bindings@[x as int]@[i].1.0 < self.nodes@.len());
        }
    }

    proof fn lemma_within_mono(&self, w: World, n: nat, k: nat, k2: nat)
        requires
            self.within(w, n, k),
            k <= k2,
        ensures
            self.within(w, n, k2),
        decreases k,
    {
        match self.nodes@[n as int] {
            Node::Unknown(x) => {
                if let Some(t) = self.bound(w, x as nat) {
                    self.lemma_within_mono(w, t, (k - 1) as nat, (k2 - 1) as nat);
                }
            },
            Node::App(_, cs) => {
                assert forall|i: int| 0 <= i < cs@.len() implies self.within(
                    w,
                    (#[trigger] cs@[i]).0 as nat,
                    (k2 - 1) as nat,
                ) by {
                    self.lemma_within_mono(w, cs@[i].0 as nat, (k - 1) as nat, (k2 - 1) as nat);
                }
            },
            Node::Choice(l, a, b) => {
                if self.born(w, l.0 as nat) {
                    self.lemma_within_mono(w, arm_of(w, l, a, b), (k - 1) as nat, (k2 - 1) as nat);
                }
            },
        }
    }

    /// Lift the fuel invariant of `older` to `self`, for the nodes `older` has.
    proof fn lemma_grows_within(&self, older: &Graph)
        requires
            older.wf(),
            self.grows(older),
            older.fuel@ <= self.fuel@,
        ensures
            forall|w: World, n: nat| n < older.nodes@.len() ==> #[trigger] self.within(w, n, self.fuel@),
            forall|w: World| #[trigger] self.agrees_in(older, w),
    {
        assert forall|w: World| #[trigger] self.agrees_in(older, w) by {
            assert forall|x: nat| x < older.bindings@.len() implies #[trigger] self.bound(w, x)
                == older.bound(w, x) by {
                assert(self.bindings@[x as int] == older.bindings@[x as int]);
            }
        }
        assert forall|w: World, n: nat| n < older.nodes@.len() implies #[trigger] self.within(
            w,
            n,
            self.fuel@,
        ) by {
            assert(self.agrees_in(older, w));
            assert(older.within(w, n, older.fuel@));
            self.lemma_within_frame(older, w, n, older.fuel@);
            self.lemma_within_mono(w, n, older.fuel@, self.fuel@);
        }
    }

    /// A graph with no nodes in which no world has failed.
    pub fn new() -> (g: Graph)
        ensures
            g.wf(),
            g.node_count() == 0,
            g.label_count() == 0,
            g.variable_count() == 0,
            g.failed_cubes() == 0,
            forall|w: World| !(#[trigger] g.failed_in(w)),
    {
        Graph {
            nodes: Vec::new(),
            births: Vec::new(),
            bindings: Vec::new(),
            failed: Vec::new(),
            fuel: Ghost(0),
        }
    }

    pub fn node_total(&self) -> (r: usize)
        ensures
            r == self.node_count(),
    {
        self.nodes.len()
    }

    pub fn failed_count(&self) -> (r: usize)
        ensures
            r == self.failed_cubes(),
    {
        self.failed.len()
    }

    /// A fresh unknown, redirected nowhere.
    pub fn unknown(&mut self) -> (r: NodeId)
        requires
            old(self).wf(),
        ensures
            final(self).wf(),
            final(self).grows(old(self)),
            r.0 == old(self).node_count(),
            final(self).node_count() == old(self).node_count() + 1,
            final(self).variable_count() == old(self).variable_count() + 1,
            final(self).label_count() == old(self).label_count(),
            final(self).node(r.0 as nat) == Node::Unknown(old(self).variable_count() as u64),
    {
        let ghost older = *self;
        let var = self.bindings.len() as u64;
        self.bindings.push(Vec::new());
        let id = NodeId(self.nodes.len());
        self.nodes.push(Node::Unknown(var));
        self.fuel = Ghost(self.fuel@ + 1);
        proof {
            self.lemma_grows_within(&older);
            assert forall|n: int| 0 <= n < self.nodes@.len() implies self.node_ok(
                #[trigger] self.nodes@[n],
            ) by {
                if n < older.nodes@.len() {
                    assert(older.node_ok(older.nodes@[n]));
                }
            }
            assert forall|x: nat| x < self.bindings@.len() implies disjoint(
                #[trigger] self.regions_of(x),
            ) by {
                if x < older.bindings@.len() {
                    assert(older.regions_of(x) == self.regions_of(x));
                } else {
                    assert(self.regions_of(x) =~= Seq::<Context>::empty());
                }
            }
            assert forall|w: World, n: nat| n < self.nodes@.len() implies #[trigger] self.within(
                w,
                n,
                self.fuel@,
            ) by {
                if n == older.nodes@.len() {
                    assert(self.bound(w, var as nat) is None);
                }
            }
        }
        id
    }

    /// A fresh label, existing in the worlds of `birth`.
    pub fn label(&mut self, birth: Context) -> (r: Label)
        requires
            old(self).wf(),
            birth.wf(),
        ensures
            final(self).wf(),
            final(self).grows(old(self)),
            r.0 == old(self).label_count(),
            final(self).label_count() == old(self).label_count() + 1,
            final(self).node_count() == old(self).node_count(),
            final(self).variable_count() == old(self).variable_count(),
            forall|w: World| #[trigger] final(self).born(w, r.0 as nat) == birth.holds(w),
    {
        let ghost older = *self;
        let id = Label(self.births.len());
        self.births.push(birth);
        proof {
            self.lemma_grows_within(&older);
            assert forall|n: int| 0 <= n < self.nodes@.len() implies self.node_ok(
                #[trigger] self.nodes@[n],
            ) by {
                assert(older.node_ok(older.nodes@[n]));
            }
            assert forall|x: nat| x < self.bindings@.len() implies disjoint(
                #[trigger] self.regions_of(x),
            ) by {
                assert(older.regions_of(x) == self.regions_of(x));
            }
            assert forall|i: int| 0 <= i < self.births@.len() implies #[trigger] self.births@[i].wf() by {
                if i < older.births@.len() {
                    assert(older.births@[i].wf());
                }
            }
        }
        id
    }

    /// A constructor application over existing nodes.
    pub fn constructor(&mut self, name: String, children: Vec<NodeId>) -> (r: NodeId)
        requires
            old(self).wf(),
            forall|i: int| 0 <= i < children@.len() ==> (#[trigger] children@[i]).0 < old(self).node_count(),
        ensures
            final(self).wf(),
            final(self).grows(old(self)),
            r.0 == old(self).node_count(),
            final(self).node_count() == old(self).node_count() + 1,
            final(self).variable_count() == old(self).variable_count(),
            final(self).label_count() == old(self).label_count(),
            final(self).node(r.0 as nat) matches Node::App(f, cs) && f@ == name@ && cs@ == children@,
    {
        let ghost older = *self;
        let ghost kids = children@;
        let id = NodeId(self.nodes.len());
        self.nodes.push(Node::App(name, children));
        self.fuel = Ghost(self.fuel@ + 1);
        proof {
            self.lemma_grows_within(&older);
            assert forall|n: int| 0 <= n < self.nodes@.len() implies self.node_ok(
                #[trigger] self.nodes@[n],
            ) by {
                if n < older.nodes@.len() {
                    assert(older.node_ok(older.nodes@[n]));
                }
            }
            assert forall|x: nat| x < self.bindings@.len() implies disjoint(
                #[trigger] self.regions_of(x),
            ) by {
                assert(older.regions_of(x) == self.regions_of(x));
            }
            assert forall|w: World, n: nat| n < self.nodes@.len() implies #[trigger] self.within(
                w,
                n,
                self.fuel@,
            ) by {
                if n == older.nodes@.len() {
                    assert forall|i: int| 0 <= i < kids.len() implies self.within(
                        w,
                        (#[trigger] kids[i]).0 as nat,
                        (self.fuel@ - 1) as nat,
                    ) by {
                        assert(older.within(w, kids[i].0 as nat, older.fuel@));
                        self.lemma_within_frame(&older, w, kids[i].0 as nat, older.fuel@);
                    }
                }
            }
        }
        id
    }

    /// A choice between two existing nodes under an existing label.
    pub fn choice(&mut self, label: Label, left: NodeId, right: NodeId) -> (r: NodeId)
        requires
            old(self).wf(),
            label.0 < old(self).label_count(),
            left.0 < old(self).node_count(),
            right.0 < old(self).node_count(),
        ensures
            final(self).wf(),
            final(self).grows(old(self)),
            r.0 == old(self).node_count(),
            final(self).node_count() == old(self).node_count() + 1,
            final(self).variable_count() == old(self).variable_count(),
            final(self).label_count() == old(self).label_count(),
            final(self).node(r.0 as nat) == Node::Choice(label, left, right),
    {
        let ghost older = *self;
        let id = NodeId(self.nodes.len());
        self.nodes.push(Node::Choice(label, left, right));
        self.fuel = Ghost(self.fuel@ + 1);
        proof {
            self.lemma_grows_within(&older);
            assert forall|n: int| 0 <= n < self.nodes@.len() implies self.node_ok(
                #[trigger] self.nodes@[n],
            ) by {
                if n < older.nodes@.len() {
                    assert(older.node_ok(older.nodes@[n]));
                }
            }
            assert forall|x: nat| x < self.bindings@.len() implies disjoint(
                #[trigger] self.regions_of(x),
            ) by {
                assert(older.regions_of(x) == self.regions_of(x));
            }
            assert forall|w: World, n: nat| n < self.nodes@.len() implies #[trigger] self.within(
                w,
                n,
                self.fuel@,
            ) by {
                if n == older.nodes@.len() {
                    let c = arm_of(w, label, left, right);
                    assert(older.within(w, c, older.fuel@));
                    self.lemma_within_frame(&older, w, c, older.fuel@);
                    assert(self.born(w, label.0 as nat) == older.born(w, label.0 as nat));
                }
            }
        }
        id
    }

    /// The disjoint cubes that remain alive in `context`.
    pub fn live(&self, context: &Context) -> (r: Vec<Context>)
        requires
            self.wf(),
            context.wf(),
        ensures
            all_wf(r@),
            disjoint(r@),
            forall|w: World| #[trigger] covered(r@, w) <==> (context.holds(w) && !self.failed_in(w)),
    {
        remove_all(context.copy(), &self.failed)
    }

    /// The failed regions, as disjoint cubes in the order they were recorded.
    pub closed spec fn failed_regions(&self) -> Seq<Context> {
        self.failed@
    }

    /// Permanently fail every world of `context`. The failed regions keep their
    /// cubes and gain only what `context` adds; where every world of `context`
    /// has already failed, they stay exactly as they were.
    pub fn fail(&mut self, context: &Context)
        requires
            old(self).wf(),
            context.wf(),
        ensures
            final(self).wf(),
            final(self).same_terms(old(self)),
            forall|w: World| #[trigger]
                final(self).failed_in(w) <==> (old(self).failed_in(w) || context.holds(w)),
            final(self).failed_regions().subrange(0, old(self).failed_regions().len() as int) == old(self).failed_regions(),
            (forall|w: World| context.holds(w) ==> #[trigger] old(self).failed_in(w)) ==> final(self).failed_regions() == old(
                self,
            ).failed_regions(),
    {
        let ghost older = *self;
        proof {
            if forall|w: World| context.holds(w) ==> #[trigger] older.failed_in(w) {
                assert forall|w: World| context.holds(w) implies #[trigger] covered(older.failed@, w) by {
                    assert(older.failed_in(w));
                }
            }
        }
        union(&mut self.failed, context);
        proof {
            assert forall|n: int| 0 <= n < self.nodes@.len() implies self.node_ok(
                #[trigger] self.nodes@[n],
            ) by {
                assert(older.node_ok(older.nodes@[n]));
            }
            assert forall|x: nat| x < self.bindings@.len() implies disjoint(
                #[trigger] self.regions_of(x),
            ) by {
                assert(older.regions_of(x) == self.regions_of(x));
            }
            assert forall|w: World, n: nat| n < self.nodes@.len() implies #[trigger] self.within(
                w,
                n,
                self.fuel@,
            ) by {
                assert(older.within(w, n, older.fuel@));
                self.lemma_within_frame(&older, w, n, older.fuel@);
            }
        }
    }
}

/// The regions of a list of (region, node) pairs.
pub open spec fn regions(s: Seq<(Context, NodeId)>) -> Seq<Context> {
    s.map_values(|p: (Context, NodeId)| p.0)
}

proof fn lemma_regions_concat(a: Seq<(Context, NodeId)>, b: Seq<(Context, NodeId)>)
    ensures
        regions(a + b) == regions(a) + regions(b),
{
    assert(regions(a + b) =~= regions(a) + regions(b));
}

proof fn lemma_regions_push(a: Seq<(Context, NodeId)>, x: (Context, NodeId))
    ensures
        regions(a.push(x)) == regions(a).push(x.0),
{
    assert(regions(a.push(x)) =~= regions(a).push(x.0));
}

/// Lists of cubes with the same literals, position by position, cover alike.
proof fn lemma_same_cubes(a: Seq<Context>, b: Seq<Context>)
    requires
        a.len() == b.len(),
        forall|i: int| 0 <= i < a.len() ==> (#[trigger] a[i]).literals@ == b[i].literals@,
    ensures
        forall|w: World| #[trigger] covered(a, w) == covered(b, w),
        disjoint(a) == disjoint(b),
        all_wf(a) == all_wf(b),
{
    assert forall|w: World| #[trigger] covered(a, w) == covered(b, w) by {
        if covered(a, w) {
            let i = choose|i: int| 0 <= i < a.len() && #[trigger] a[i].holds(w);
            assert(b[i].holds(w));
        }
        if covered(b, w) {
            let i = choose|i: int| 0 <= i < b.len() && #[trigger] b[i].holds(w);
            assert(a[i].literals@ == b[i].literals@);
            assert(a[i].holds(w));
        }
    }
    if disjoint(a) {
        assert forall|i: int, j: int, w: World| 0 <= i < j < b.len() implies !(#[trigger] b[i].holds(w) && #[trigger] b[j].holds(w)) by {
            assert(a[i].literals@ == b[i].literals@);
            assert(a[j].literals@ == b[j].literals@);
            assert(!(a[i].holds(w) && a[j].holds(w)));
        }
    }
    if disjoint(b) {
        assert forall|i: int, j: int, w: World| 0 <= i < j < a.len() implies !(#[trigger] a[i].holds(w) && #[trigger] a[j].holds(w)) by {
            assert(a[i].literals@ == b[i].literals@);
            assert(a[j].literals@ == b[j].literals@);
            assert(!(b[i].holds(w) && b[j].holds(w)));
        }
    }
    if all_wf(a) {
        assert forall|i: int| 0 <= i < b.len() implies #[trigger] b[i].wf() by {
            assert(a[i].literals@ == b[i].literals@);
            assert(a[i].wf());
        }
    }
    if all_wf(b) {
        assert forall|i: int| 0 <= i < a.len() implies #[trigger] a[i].wf() by {
            assert(a[i].literals@ == b[i].literals@);
            assert(b[i].wf());
        }
    }
}

/// A well-formed cube holds in some world.
proof fn lemma_inhabited(c: &Context) -> (w: World)
    requires
        c.wf(),
    ensures
        c.holds(w),
{
    let lits = c.literals@;
    let w = |l: nat| exists|i: int| 0 <= i < lits.len() && lits[i].0 == l && #[trigger] lits[i].1;
    assert forall|i: int| 0 <= i < lits.len() implies w(#[trigger] lits[i].0 as nat) == lits[i].1 by {
        if !lits[i].1 && w(lits[i].0 as nat) {
            let j = choose|j: int| 0 <= j < lits.len() && lits[j].0 == lits[i].0 as nat && #[trigger] lits[j].1;
            if j < i {
                assert(lits[j].0 != lits[i].0);
            } else if i < j {
                assert(lits[i].0 != lits[j].0);
            }
        }
    }
    w
}

impl Graph {
    /// The node that one step of choosing leads to in world `w`.
    pub closed spec fn step(&self, w: World, n: nat) -> nat {
        match self.nodes@[n as int] {
            Node::Choice(l, a, b) => arm_of(w, l, a, b),
            _ => n,
        }
    }

    /// Node `n` exists in world `w`: it is no choice whose label is absent there.
    pub closed spec fn present(&self, w: World, n: nat) -> bool {
        match self.nodes@[n as int] {
            Node::Choice(l, _, _) => self.born(w, l.0 as nat),
            _ => true,
        }
    }

    /// The finite trees of `l` and `r` are equal in world `w`, looking `k` levels deep.
    pub closed spec fn same(&self, w: World, l: nat, r: nat, k: nat) -> bool
        decreases k,
    {
        if k == 0 {
            false
        } else {
            let a = self.resolved(w, l);
            let b = self.resolved(w, r);
            if a == b {
                true
            } else if self.nodes@[a as int] matches Node::Unknown(x) && self.nodes@[b as int] matches Node::Unknown(
                y,
            ) && x == y {
                true
            } else {
                match self.nodes@[a as int] {
                    Node::Choice(lab, p, q) => self.born(w, lab.0 as nat) && self.same(
                        w,
                        arm_of(w, lab, p, q),
                        b,
                        (k - 1) as nat,
                    ),
                    _ => match self.nodes@[b as int] {
                        Node::Choice(lab, p, q) => self.born(w, lab.0 as nat) && self.same(
                            w,
                            a,
                            arm_of(w, lab, p, q),
                            (k - 1) as nat,
                        ),
                        Node::App(g, ys) => match self.nodes@[a as int] {
                            Node::App(f, xs) => f@ == g@ && xs@.len() == ys@.len() && forall|i: int|
                                0 <= i < xs@.len() ==> self.same(
                                    w,
                                    (#[trigger] xs@[i]).0 as nat,
                                    ys@[i].0 as nat,
                                    (k - 1) as nat,
                                ),
                            _ => false,
                        },
                        _ => false,
                    },
                }
            }
        }
    }

    /// The finite trees of nodes `l` and `r` are equal in world `w`.
    pub closed spec fn equal_in(&self, w: World, l: nat, r: nat) -> bool {
        self.same(w, l, r, 2 * self.fuel@)
    }

    /// Redirect `x` leads to `bindings[x][i]`'s target in every world of its region.
    proof fn lemma_bound_is(&self, w: World, x: nat, i: int)
        requires
            self.bindings_ok(),
            x < self.bindings@.len(),
            0 <= i < self.bindings@[x as int]@.len(),
            self.bindings@[x as int]@[i].0.holds(w),
        ensures
            self.bound(w, x) == Some(self.bindings@[x as int]@[i].1.0 as nat),
    {
        let j = choose|j: int|
            0 <= j < self.bindings@[x as int]@.len() && #[trigger] self.bindings@[x as int]@[j].0.holds(w);
        assert(disjoint(self.regions_of(x)));
        assert(self.regions_of(x)[i] == self.bindings@[x as int]@[i].0);
        assert(self.regions_of(x)[j] == self.bindings@[x as int]@[j].0);
        if j < i {
            assert(!(self.regions_of(x)[j].holds(w) && self.regions_of(x)[i].holds(w)));
        } else if i < j {
            assert(!(self.regions_of(x)[i].holds(w) && self.regions_of(x)[j].holds(w)));
        }
    }

    /// Following redirects within the depth bound ends at a settled node no deeper.
    proof fn lemma_chase_within(&self, w: World, n: nat, k: nat)
        requires
            self.refs_ok(),
            self.bindings_ok(),
            self.within(w, n, k),
        ensures
            self.chase(w, n, k) < self.nodes@.len(),
            self.within(w, self.chase(w, n, k), k),
            self.settled(w, self.chase(w, n, k)),
        decreases k,
    {
        if let Node::Unknown(x) = self.nodes@[n as int] {
            if let Some(t) = self.bound(w, x as nat) {
                self.lemma_bound_valid(w, x as nat);
                self.lemma_chase_within(w, t, (k - 1) as nat);
                self.lemma_within_mono(w, self.chase(w, t, (k - 1) as nat), (k - 1) as nat, k);
            }
        }
    }

    /// Any two sufficient depth bounds follow redirects to the same node.
    proof fn lemma_chase_agree(&self, w: World, n: nat, k1: nat, k2: nat)
        requires
            self.within(w, n, k1),
            self.within(w, n, k2),
        ensures
            self.chase(w, n, k1) == self.chase(w, n, k2),
        decreases k1,
    {
        if let Node::Unknown(x) = self.nodes@[n as int] {
            if let Some(t) = self.bound(w, x as nat) {
                self.lemma_chase_agree(w, t, (k1 - 1) as nat, (k2 - 1) as nat);
            }
        }
    }

    /// A settled node is its own resolution.
    proof fn lemma_resolved_settled(&self, w: World, n: nat, k: nat)
        requires
            n < self.nodes@.len(),
            self.settled(w, n),
            k > 0,
        ensures
            self.chase(w, n, k) == n,
    {
    }

    /// Looking deeper than both depth bounds together changes nothing.
    proof fn lemma_same_stable(&self, w: World, l: nat, r: nat, a: nat, b: nat, k1: nat, k2: nat)
        requires
            self.wf(),
            self.within(w, l, a),
            self.within(w, r, b),
            a + b <= k1,
            a + b <= k2,
        ensures
            self.same(w, l, r, k1) == self.same(w, l, r, k2),
        decreases k1,
    {
        assert(self.within(w, l, self.fuel@));
        self.lemma_chase_within(w, l, a);
        self.lemma_chase_agree(w, l, a, self.fuel@);
        self.lemma_chase_within(w, r, b);
        self.lemma_chase_agree(w, r, b, self.fuel@);
        let x = self.resolved(w, l);
        let y = self.resolved(w, r);
        assert(self.node_ok(self.nodes@[x as int]));
        assert(self.node_ok(self.nodes@[y as int]));
        match self.nodes@[x as int] {
            Node::Choice(lab, p, q) => {
                if self.born(w, lab.0 as nat) {
                    self.lemma_same_stable(w, arm_of(w, lab, p, q), y, (a - 1) as nat, b, (k1 - 1) as nat, (k2 - 1) as nat);
                }
            },
            _ => match self.nodes@[y as int] {
                Node::Choice(lab, p, q) => {
                    if self.born(w, lab.0 as nat) {
                        self.lemma_same_stable(w, x, arm_of(w, lab, p, q), a, (b - 1) as nat, (k1 - 1) as nat, (k2 - 1) as nat);
                    }
                },
                Node::App(g, ys) => match self.nodes@[x as int] {
                    Node::App(f, xs) => {
                        if xs@.len() == ys@.len() {
                            assert forall|i: int| 0 <= i < xs@.len() implies self.same(
                                w,
                                (#[trigger] xs@[i]).0 as nat,
                                ys@[i].0 as nat,
                                (k1 - 1) as nat,
                            ) == self.same(w, xs@[i].0 as nat, ys@[i].0 as nat, (k2 - 1) as nat) by {
                                self.lemma_same_stable(
                                    w,
                                    xs@[i].0 as nat,
                                    ys@[i].0 as nat,
                                    (a - 1) as nat,
                                    (b - 1) as nat,
                                    (k1 - 1) as nat,
                                    (k2 - 1) as nat,
                                );
                            }
                        }
                    },
                    _ => {},
                },
                _ => {},
            },
        }
    }

    /// Follow logical redirects, leaving choice and constructor nodes opaque.
    fn resolve(&self, node: NodeId, context: &Context, Ghost(k): Ghost<nat>) -> (r: Vec<(Context, NodeId)>)
        requires
            self.wf(),
            context.wf(),
            node.0 < self.nodes@.len(),
            forall|w: World| context.holds(w) ==> #[trigger] self.within(w, node.0 as nat, k),
        ensures
            all_wf(regions(r@)),
            disjoint(regions(r@)),
            forall|w: World| #[trigger] covered(regions(r@), w) <==> context.holds(w),
            forall|i: int, w: World|
                0 <= i < r@.len() && #[trigger] r@[i].0.holds(w) ==> {
                    &&& r@[i].1.0 < self.nodes@.len()
                    &&& r@[i].1.0 == self.chase(w, node.0 as nat, k)
                    &&& self.settled(w, r@[i].1.0 as nat)
                },
        decreases k,
    {
        let ghost w0 = lemma_inhabited(context);
        assert(self.within(w0, node.0 as nat, k));
        match &self.nodes[node.0] {
            Node::Unknown(var) => {
                proof {
                    assert(self.node_ok(self.nodes@[node.0 as int]));
                }
                let var: u64 = *var;
                proof {
                    assert(var < self.bindings.len());
                    assert(k > 0);
                }
                let index: usize = var as usize;
                proof {
                    assert(index == var);
                }
                let bindings = &self.bindings[index];
                let mut unbound: Vec<Context> = Vec::new();
                unbound.push(context.copy());
                let mut result: Vec<(Context, NodeId)> = Vec::new();
                let mut i: usize = 0;
                proof {
                    assert(regions(result@) =~= Seq::<Context>::empty());
                    assert forall|w: World| #[trigger] covered(unbound@, w) <==> context.holds(w) by {
                        if context.holds(w) {
                            assert(unbound@[0].holds(w));
                        }
                    }
                }
                while i < bindings.len()
                    invariant
                        self.wf(),
                        context.wf(),
                        node.0 < self.nodes@.len(),
                        self.nodes@[node.0 as int] == Node::Unknown(var),
                        var < self.bindings@.len(),
                        *bindings == self.bindings@[var as int],
                        k > 0,
                        forall|w: World| context.holds(w) ==> #[trigger] self.within(w, node.0 as nat, k),
                        0 <= i <= bindings.len(),
                        all_wf(unbound@),
                        disjoint(unbound@),
                        forall|w: World| #[trigger]
                            covered(unbound@, w) <==> (context.holds(w) && forall|j: int|
                                0 <= j < i ==> !(#[trigger] bindings@[j]).0.holds(w)),
                        all_wf(regions(result@)),
                        disjoint(regions(result@)),
                        forall|w: World| #[trigger]
                            covered(regions(result@), w) <==> (context.holds(w) && exists|j: int|
                                0 <= j < i && (#[trigger] bindings@[j]).0.holds(w)),
                        forall|e: int, w: World|
                            0 <= e < result@.len() && #[trigger] result@[e].0.holds(w) ==> {
                                &&& result@[e].1.0 < self.nodes@.len()
                                &&& result@[e].1.0 == self.chase(w, node.0 as nat, k)
                                &&& self.settled(w, result@[e].1.0 as nat)
                            },
                    decreases bindings.len() - i,
                {
                    let bound = &bindings[i].0;
                    let target = bindings[i].1;
                    proof {
                        assert(bindings@[i as int].0.wf());
                    }
                    let ghost before = result@;
                    match context.intersection(bound) {
                        Some(region) => {
                            proof {
                                assert forall|w: World| region.holds(w) implies #[trigger] self.within(
                                    w,
                                    target.0 as nat,
                                    (k - 1) as nat,
                                ) by {
                                    self.lemma_bound_is(w, var as nat, i as int);
                                    assert(self.within(w, node.0 as nat, k));
                                }
                            }
                            let mut part = self.resolve(target, &region, Ghost((k - 1) as nat));
                            let ghost added = part@;
                            proof {
                                assert forall|w: World| !(#[trigger] covered(regions(before), w) && covered(regions(added), w)) by {
                                    if covered(regions(before), w) && covered(regions(added), w) {
                                        let j = choose|j: int| 0 <= j < i && (#[trigger] bindings@[j]).0.holds(w);
                                        assert(disjoint(self.regions_of(var as nat)));
                                        assert(self.regions_of(var as nat)[j] == bindings@[j].0);
                                        assert(self.regions_of(var as nat)[i as int] == bindings@[i as int].0);
                                        assert(!(self.regions_of(var as nat)[j].holds(w) && self.regions_of(var as nat)[i as int].holds(w)));
                                    }
                                }
                                lemma_disjoint_concat(regions(before), regions(added));
                            }
                            result.append(&mut part);
                            proof {
                                assert(result@ == before + added);
                                lemma_regions_concat(before, added);
                                assert forall|w: World| #[trigger]
                                    covered(regions(result@), w) <==> (context.holds(w) && exists|j: int|
                                        0 <= j < i + 1 && (#[trigger] bindings@[j]).0.holds(w)) by {
                                    lemma_covered_concat(regions(before), regions(added), w);
                                    if context.holds(w) && bindings@[i as int].0.holds(w) {
                                        assert(region.holds(w));
                                    }
                                    if context.holds(w) && exists|j: int|
                                        0 <= j < i + 1 && (#[trigger] bindings@[j]).0.holds(w) {
                                        let j = choose|j: int| 0 <= j < i + 1 && (#[trigger] bindings@[j]).0.holds(w);
                                        if j < i {
                                            assert(covered(regions(before), w));
                                        } else {
                                            assert(covered(regions(added), w));
                                        }
                                    }
                                }
                                assert forall|e: int, w: World|
                                    0 <= e < result@.len() && #[trigger] result@[e].0.holds(w) implies {
                                        &&& result@[e].1.0 < self.nodes@.len()
                                        &&& result@[e].1.0 == self.chase(w, node.0 as nat, k)
                                        &&& self.settled(w, result@[e].1.0 as nat)
                                    } by {
                                    if e >= before.len() {
                                        let f = e - before.len();
                                        assert(result@[e] == added[f]);
                                        assert(regions(added)[f] == added[f].0);
                                        assert(covered(regions(added), w));
                                        assert(region.holds(w));
                                        self.lemma_bound_is(w, var as nat, i as int);
                                    } else {
                                        assert(result@[e] == before[e]);
                                    }
                                }
                            }
                        },
                        None => {
                            proof {
                                assert forall|w: World| #[trigger]
                                    covered(regions(result@), w) <==> (context.holds(w) && exists|j: int|
                                        0 <= j < i + 1 && (#[trigger] bindings@[j]).0.holds(w)) by {
                                    if context.holds(w) && exists|j: int|
                                        0 <= j < i + 1 && (#[trigger] bindings@[j]).0.holds(w) {
                                        let j = choose|j: int| 0 <= j < i + 1 && (#[trigger] bindings@[j]).0.holds(w);
                                        assert(j != i);
                                    }
                                }
                            }
                        },
                    }
                    let next = subtract_each(&unbound, bound);
                    proof {
                        assert forall|w: World| #[trigger]
                            covered(next@, w) <==> (context.holds(w) && forall|j: int|
                                0 <= j < i + 1 ==> !(#[trigger] bindings@[j]).0.holds(w)) by {
                            if covered(next@, w) {
                                assert forall|j: int| 0 <= j < i + 1 implies !(#[trigger] bindings@[j]).0.holds(w) by {
                                    if j < i {
                                    }
                                }
                            }
                        }
                    }
                    unbound = next;
                    i += 1;
                }
                let ghost found = result@;
                let mut u: usize = 0;
                while u < unbound.len()
                    invariant
                        self.wf(),
                        node.0 < self.nodes@.len(),
                        self.nodes@[node.0 as int] == Node::Unknown(var),
                        var < self.bindings@.len(),
                        *bindings == self.bindings@[var as int],
                        k > 0,
                        forall|w: World| context.holds(w) ==> #[trigger] self.within(w, node.0 as nat, k),
                        i == bindings.len(),
                        0 <= u <= unbound.len(),
                        all_wf(unbound@),
                        disjoint(unbound@),
                        forall|w: World| #[trigger]
                            covered(unbound@, w) <==> (context.holds(w) && forall|j: int|
                                0 <= j < i ==> !(#[trigger] bindings@[j]).0.holds(w)),
                        all_wf(regions(found)),
                        disjoint(regions(found)),
                        forall|w: World| #[trigger]
                            covered(regions(found), w) <==> (context.holds(w) && exists|j: int|
                                0 <= j < i && (#[trigger] bindings@[j]).0.holds(w)),
                        result@.subrange(0, found.len() as int) == found,
                        result@.len() == found.len() + u,
                        forall|e: int| 0 <= e < u ==> (#[trigger] result@[found.len() + e]).0.literals@ == unbound@[e].literals@ && result@[found.len() + e].1 == node,
                        forall|e: int, w: World|
                            0 <= e < found.len() && #[trigger] found[e].0.holds(w) ==> {
                                &&& found[e].1.0 < self.nodes@.len()
                                &&& found[e].1.0 == self.chase(w, node.0 as nat, k)
                                &&& self.settled(w, found[e].1.0 as nat)
                            },
                    decreases unbound.len() - u,
                {
                    result.push((unbound[u].copy(), node));
                    proof {
                        assert(result@.subrange(0, found.len() as int) =~= found);
                    }
                    u += 1;
                }
                proof {
                    let tail = result@.subrange(found.len() as int, result@.len() as int);
                    assert(result@ =~= found + tail);
                    assert forall|e: int| 0 <= e < unbound@.len() implies (#[trigger] regions(tail)[e]).literals@ == unbound@[e].literals@ by {
                        assert(tail[e] == result@[found.len() + e]);
                    }
                    lemma_same_cubes(regions(tail), unbound@);
                    lemma_regions_concat(found, tail);
                    assert forall|w: World| !(#[trigger] covered(regions(found), w) && covered(unbound@, w)) by {
                        if covered(regions(found), w) && covered(unbound@, w) {
                            let j = choose|j: int| 0 <= j < i && (#[trigger] bindings@[j]).0.holds(w);
                        }
                    }
                    lemma_disjoint_concat(regions(found), regions(tail));
                    assert forall|w: World| #[trigger] covered(regions(result@), w) <==> context.holds(w) by {
                        lemma_covered_concat(regions(found), regions(tail), w);
                    }
                    assert forall|e: int, w: World|
                        0 <= e < result@.len() && #[trigger] result@[e].0.holds(w) implies {
                            &&& result@[e].1.0 < self.nodes@.len()
                            &&& result@[e].1.0 == self.chase(w, node.0 as nat, k)
                            &&& self.settled(w, result@[e].1.0 as nat)
                        } by {
                        if e < found.len() {
                            assert(result@[e] == found[e]);
                        } else {
                            let f = e - found.len();
                            assert(result@[found.len() + f].0.literals@ == unbound@[f].literals@);
                            assert(unbound@[f].holds(w));
                            assert(covered(unbound@, w));
                            assert(self.within(w, node.0 as nat, k));
                            assert forall|j: int| 0 <= j < bindings@.len() implies !(#[trigger] self.bindings@[var as int]@[j]).0.holds(w) by {
                                assert(bindings@[j] == self.bindings@[var as int]@[j]);
                            }
                            assert(self.bound(w, var as nat) is None);
                        }
                    }
                }
                result
            },
            _ => {
                let mut result: Vec<(Context, NodeId)> = Vec::new();
                result.push((context.copy(), node));
                proof {
                    lemma_regions_push(Seq::empty(), (result@[0].0, node));
                    assert(result@ == Seq::<(Context, NodeId)>::empty().push(result@[0]));
                    assert forall|w: World| #[trigger] covered(regions(result@), w) <==> context.holds(w) by {
                        assert(regions(result@)[0] == result@[0].0);
                        assert(result@[0].0.holds(w) == context.holds(w));
                        if covered(regions(result@), w) {
                            let i = choose|i: int| 0 <= i < regions(result@).len() && #[trigger] regions(result@)[i].holds(w);
                            assert(i == 0);
                        }
                    }
                    assert forall|e: int, w: World|
                        0 <= e < result@.len() && #[trigger] result@[e].0.holds(w) implies {
                            &&& result@[e].1.0 < self.nodes@.len()
                            &&& result@[e].1.0 == self.chase(w, node.0 as nat, k)
                            &&& self.settled(w, result@[e].1.0 as nat)
                        } by {
                        assert(self.within(w, node.0 as nat, k));
                    }
                }
                result
            },
        }
    }
}

impl Graph {
    /// The arms of a choice node alive in `context`; any other node stands for itself.
    fn arms(&self, node: NodeId, context: &Context) -> (r: Vec<(Context, NodeId)>)
        requires
            self.wf(),
            context.wf(),
            node.0 < self.nodes@.len(),
        ensures
            all_wf(regions(r@)),
            disjoint(regions(r@)),
            forall|w: World| #[trigger]
                covered(regions(r@), w) <==> (context.holds(w) && self.present(w, node.0 as nat)),
            forall|i: int, w: World|
                0 <= i < r@.len() && #[trigger] r@[i].0.holds(w) ==> {
                    &&& r@[i].1.0 < self.nodes@.len()
                    &&& r@[i].1.0 == self.step(w, node.0 as nat)
                },
    {
        proof {
            assert(self.node_ok(self.nodes@[node.0 as int]));
        }
        match &self.nodes[node.0] {
            Node::Choice(label, left, right) => {
                let label = *label;
                let left = *left;
                let right = *right;
                proof {
                    assert(self.births@[label.0 as int].wf());
                }
                match context.intersection(&self.births[label.0]) {
                    None => {
                        let result: Vec<(Context, NodeId)> = Vec::new();
                        proof {
                            assert(regions(result@) =~= Seq::<Context>::empty());
                        }
                        result
                    },
                    Some(active) => {
                        let mut result: Vec<(Context, NodeId)> = Vec::new();
                        proof {
                            assert(regions(result@) =~= Seq::<Context>::empty());
                        }
                        match active.select(label.0, false) {
                            Some(region) => {
                                result.push((region, left));
                            },
                            None => {},
                        }
                        let ghost first = result@;
                        match active.select(label.0, true) {
                            Some(region) => {
                                result.push((region, right));
                            },
                            None => {},
                        }
                        proof {
                            let rs = regions(result@);
                            assert(rs.len() == result@.len());
                            assert forall|i: int| 0 <= i < rs.len() implies #[trigger] rs[i] == result@[i].0 by {}
                            assert forall|i: int| 0 <= i < rs.len() implies #[trigger] rs[i].wf() by {
                                if i == 0 && first.len() == 1 {
                                    assert(result@[0] == first[0]);
                                }
                            }
                            assert forall|i: int, j: int, w: World|
                                0 <= i < j < rs.len() implies !(#[trigger] rs[i].holds(w) && #[trigger] rs[j].holds(w)) by {
                                assert(i == 0 && j == 1);
                                assert(result@[0] == first[0]);
                            }
                            assert forall|w: World| #[trigger]
                                covered(rs, w) <==> (context.holds(w) && self.present(w, node.0 as nat)) by {
                                if covered(rs, w) {
                                    let i = choose|i: int| 0 <= i < rs.len() && #[trigger] rs[i].holds(w);
                                    if i == 0 && first.len() == 1 {
                                        assert(result@[0] == first[0]);
                                    }
                                }
                                if context.holds(w) && self.present(w, node.0 as nat) {
                                    assert(active.holds(w));
                                    if w(label.0 as nat) {
                                        assert(rs[rs.len() - 1].holds(w));
                                    } else {
                                        assert(result@[0] == first[0]);
                                        assert(rs[0].holds(w));
                                    }
                                }
                            }
                            assert forall|i: int, w: World|
                                0 <= i < result@.len() && #[trigger] result@[i].0.holds(w) implies {
                                    &&& result@[i].1.0 < self.nodes@.len()
                                    &&& result@[i].1.0 == self.step(w, node.0 as nat)
                                } by {
                                if i == 0 && first.len() == 1 {
                                    assert(result@[0] == first[0]);
                                }
                            }
                        }
                        result
                    },
                }
            },
            _ => {
                let mut result: Vec<(Context, NodeId)> = Vec::new();
                result.push((context.copy(), node));
                proof {
                    lemma_regions_push(Seq::empty(), (result@[0].0, node));
                    assert(result@ == Seq::<(Context, NodeId)>::empty().push(result@[0]));
                    assert forall|w: World| #[trigger]
                        covered(regions(result@), w) <==> (context.holds(w) && self.present(w, node.0 as nat)) by {
                        assert(regions(result@)[0] == result@[0].0);
                        assert(result@[0].0.holds(w) == context.holds(w));
                        if covered(regions(result@), w) {
                            let i = choose|i: int| 0 <= i < regions(result@).len() && #[trigger] regions(result@)[i].holds(w);
                            assert(i == 0);
                        }
                    }
                }
                result
            },
        }
    }
}

/// Append the cubes found inside a fresh region to those found before it.
proof fn lemma_gather(
    found: Seq<Context>,
    added: Seq<Context>,
    done: spec_fn(World) -> bool,
    region: spec_fn(World) -> bool,
    good: spec_fn(World) -> bool,
)
    requires
        all_wf(found),
        disjoint(found),
        all_wf(added),
        disjoint(added),
        forall|w: World| #[trigger] covered(found, w) ==> done(w),
        forall|w: World| #[trigger] done(w) ==> !region(w),
        forall|w: World| #[trigger] covered(added, w) <==> (region(w) && good(w)),
    ensures
        all_wf(found + added),
        disjoint(found + added),
        forall|w: World| #[trigger]
            covered(found + added, w) <==> (covered(found, w) || (region(w) && good(w))),
{
    assert forall|w: World| !(#[trigger] covered(found, w) && covered(added, w)) by {
        if covered(found, w) && covered(added, w) {
            assert(done(w));
        }
    }
    lemma_disjoint_concat(found, added);
    assert forall|w: World| #[trigger]
        covered(found + added, w) <==> (covered(found, w) || (region(w) && good(w))) by {
        lemma_covered_concat(found, added, w);
    }
}

/// Append cubes found inside a fresh region to those found before it.
proof fn lemma_gather_within(
    found: Seq<Context>,
    added: Seq<Context>,
    done: spec_fn(World) -> bool,
    region: spec_fn(World) -> bool,
)
    requires
        all_wf(found),
        disjoint(found),
        all_wf(added),
        disjoint(added),
        forall|w: World| #[trigger] covered(found, w) ==> done(w),
        forall|w: World| #[trigger] done(w) ==> !region(w),
        forall|w: World| #[trigger] covered(added, w) ==> region(w),
    ensures
        all_wf(found + added),
        disjoint(found + added),
        forall|w: World| #[trigger] covered(found + added, w) <==> (covered(found, w) || covered(added, w)),
{
    assert forall|w: World| !(#[trigger] covered(found, w) && covered(added, w)) by {
        if covered(found, w) && covered(added, w) {
            assert(done(w));
        }
    }
    lemma_disjoint_concat(found, added);
    assert forall|w: World| #[trigger] covered(found + added, w) <==> (covered(found, w) || covered(added, w)) by {
        lemma_covered_concat(found, added, w);
    }
}

/// The covering of a prefix grows by one region at a time.
proof fn lemma_prefix_step(s: Seq<(Context, NodeId)>, i: int, w: World)
    requires
        0 <= i < s.len(),
    ensures
        covered(regions(s.subrange(0, i + 1)), w) == (covered(regions(s.subrange(0, i)), w)
            || s[i].0.holds(w)),
{
    assert(regions(s.subrange(0, i + 1)) =~= regions(s).subrange(0, i + 1));
    assert(regions(s.subrange(0, i)) =~= regions(s).subrange(0, i));
    lemma_covered_step(regions(s), i, w);
}

impl Graph {
    /// Equality depends only on what the two nodes resolve to.
    proof fn lemma_same_resolved(&self, w: World, l: nat, r: nat, k: nat)
        requires
            self.wf(),
            l < self.nodes@.len(),
            r < self.nodes@.len(),
            k > 0,
        ensures
            self.resolved(w, l) < self.nodes@.len(),
            self.resolved(w, r) < self.nodes@.len(),
            self.same(w, l, r, k) == self.same(w, self.resolved(w, l), self.resolved(w, r), k),
    {
        assert(self.within(w, l, self.fuel@));
        assert(self.within(w, r, self.fuel@));
        self.lemma_chase_within(w, l, self.fuel@);
        self.lemma_chase_within(w, r, self.fuel@);
        let x = self.resolved(w, l);
        let y = self.resolved(w, r);
        self.lemma_resolved_settled(w, x, self.fuel@);
        self.lemma_resolved_settled(w, y, self.fuel@);
    }

    /// Pure finite-tree entailment. This neither instantiates nor fails regions.
    fn entails(&self, left: NodeId, right: NodeId, context: &Context, Ghost(a): Ghost<nat>, Ghost(b): Ghost<nat>) -> (r: Vec<Context>)
        requires
            self.wf(),
            context.wf(),
            left.0 < self.nodes@.len(),
            right.0 < self.nodes@.len(),
            forall|w: World| #[trigger] context.holds(w) ==> self.within(w, left.0 as nat, a) && self.within(w, right.0 as nat, b),
        ensures
            all_wf(r@),
            disjoint(r@),
            forall|w: World| #[trigger]
                covered(r@, w) <==> (context.holds(w) && self.same(w, left.0 as nat, right.0 as nat, a + b)),
        decreases a + b, 1nat,
    {
        let lefts = self.resolve(left, context, Ghost(a));
        let mut result: Vec<Context> = Vec::new();
        let mut i: usize = 0;
        while i < lefts.len()
            invariant
                self.wf(),
                context.wf(),
                left.0 < self.nodes@.len(),
                right.0 < self.nodes@.len(),
                forall|w: World| #[trigger] context.holds(w) ==> self.within(w, left.0 as nat, a) && self.within(w, right.0 as nat, b),
                all_wf(regions(lefts@)),
                disjoint(regions(lefts@)),
                forall|w: World| #[trigger] covered(regions(lefts@), w) <==> context.holds(w),
                forall|e: int, w: World|
                    0 <= e < lefts@.len() && #[trigger] lefts@[e].0.holds(w) ==> {
                        &&& lefts@[e].1.0 < self.nodes@.len()
                        &&& lefts@[e].1.0 == self.chase(w, left.0 as nat, a)
                        &&& self.settled(w, lefts@[e].1.0 as nat)
                    },
                0 <= i <= lefts.len(),
                all_wf(result@),
                disjoint(result@),
                forall|w: World| #[trigger]
                    covered(result@, w) <==> (covered(regions(lefts@.subrange(0, i as int)), w)
                        && self.same(w, left.0 as nat, right.0 as nat, a + b)),
            decreases lefts.len() - i,
        {
            let l2 = lefts[i].1;
            proof {
                assert(regions(lefts@)[i as int] == lefts@[i as int].0);
                assert(lefts@[i as int].0.wf());
                assert forall|w: World| lefts@[i as int].0.holds(w) implies #[trigger] self.within(w, right.0 as nat, b) by {
                    assert(regions(lefts@)[i as int].holds(w));
                    assert(covered(regions(lefts@), w));
                    assert(context.holds(w));
                }
            }
            let rights = self.resolve(right, &lefts[i].0, Ghost(b));
            let ghost outer = result@;
            let mut j: usize = 0;
            while j < rights.len()
                invariant
                    self.wf(),
                    context.wf(),
                    left.0 < self.nodes@.len(),
                    right.0 < self.nodes@.len(),
                    forall|w: World| #[trigger] context.holds(w) ==> self.within(w, left.0 as nat, a) && self.within(w, right.0 as nat, b),
                    all_wf(regions(lefts@)),
                    disjoint(regions(lefts@)),
                    forall|w: World| #[trigger] covered(regions(lefts@), w) <==> context.holds(w),
                    forall|e: int, w: World|
                        0 <= e < lefts@.len() && #[trigger] lefts@[e].0.holds(w) ==> {
                            &&& lefts@[e].1.0 < self.nodes@.len()
                            &&& lefts@[e].1.0 == self.chase(w, left.0 as nat, a)
                            &&& self.settled(w, lefts@[e].1.0 as nat)
                        },
                    0 <= i < lefts.len(),
                    l2 == lefts@[i as int].1,
                    all_wf(regions(rights@)),
                    disjoint(regions(rights@)),
                    forall|w: World| #[trigger] covered(regions(rights@), w) <==> lefts@[i as int].0.holds(w),
                    forall|e: int, w: World|
                        0 <= e < rights@.len() && #[trigger] rights@[e].0.holds(w) ==> {
                            &&& rights@[e].1.0 < self.nodes@.len()
                            &&& rights@[e].1.0 == self.chase(w, right.0 as nat, b)
                            &&& self.settled(w, rights@[e].1.0 as nat)
                        },
                    0 <= j <= rights.len(),
                    all_wf(result@),
                    disjoint(result@),
                    forall|w: World| #[trigger]
                        covered(outer, w) <==> (covered(regions(lefts@.subrange(0, i as int)), w)
                            && self.same(w, left.0 as nat, right.0 as nat, a + b)),
                    forall|w: World| #[trigger]
                        covered(result@, w) <==> (covered(outer, w) || (covered(regions(rights@.subrange(0, j as int)), w)
                            && self.same(w, left.0 as nat, right.0 as nat, a + b))),
                decreases rights.len() - j,
            {
                let r2 = rights[j].1;
                let ghost region = rights@[j as int].0;
                proof {
                    assert(regions(rights@)[j as int] == rights@[j as int].0);
                    assert(region.wf());
                    let wp = lemma_inhabited(&region);
                    assert(regions(rights@)[j as int].holds(wp));
                    assert(covered(regions(rights@), wp));
                    assert(lefts@[i as int].0.holds(wp));
                    assert(r2.0 < self.nodes@.len());
                    assert(l2.0 < self.nodes@.len());
                    assert forall|w: World| #[trigger] region.holds(w) implies {
                        &&& self.settled(w, l2.0 as nat)
                        &&& self.settled(w, r2.0 as nat)
                        &&& self.within(w, l2.0 as nat, a)
                        &&& self.within(w, r2.0 as nat, b)
                    } by {
                        assert(regions(rights@)[j as int].holds(w));
                        assert(covered(regions(rights@), w));
                        assert(lefts@[i as int].0.holds(w));
                        assert(regions(lefts@)[i as int].holds(w));
                        assert(covered(regions(lefts@), w));
                        self.lemma_chase_within(w, left.0 as nat, a);
                        self.lemma_chase_within(w, right.0 as nat, b);
                    }
                }
                let sub = self.entails_pair(l2, r2, &rights[j].0, Ghost(a), Ghost(b));
                let ghost before = result@;
                proof {
                    assert forall|w: World| #[trigger] covered(sub@, w) <==> (region.holds(w)
                        && self.same(w, left.0 as nat, right.0 as nat, a + b)) by {
                        if region.holds(w) {
                            assert(regions(rights@)[j as int].holds(w));
                            assert(covered(regions(rights@), w));
                            assert(lefts@[i as int].0.holds(w));
                            assert(regions(lefts@)[i as int].holds(w));
                            assert(covered(regions(lefts@), w));
                            assert(self.within(w, l2.0 as nat, self.fuel@));
                            self.lemma_chase_agree(w, left.0 as nat, a, self.fuel@);
                            self.lemma_chase_agree(w, right.0 as nat, b, self.fuel@);
                            self.lemma_same_resolved(w, left.0 as nat, right.0 as nat, a + b);
                            self.lemma_same_resolved(w, l2.0 as nat, r2.0 as nat, a + b);
                            self.lemma_resolved_settled(w, l2.0 as nat, self.fuel@);
                            self.lemma_resolved_settled(w, r2.0 as nat, self.fuel@);
                        }
                    }
                    assert forall|w: World| covered(outer, w) || covered(regions(rights@.subrange(0, j as int)), w) implies !region.holds(w) by {
                        if covered(regions(rights@.subrange(0, j as int)), w) {
                            let q = choose|q: int| 0 <= q < j && #[trigger] regions(rights@.subrange(0, j as int))[q].holds(w);
                            assert(regions(rights@.subrange(0, j as int))[q] == regions(rights@)[q]);
                            assert(regions(rights@)[j as int] == region);
                        } else if covered(outer, w) && region.holds(w) {
                            assert(regions(rights@)[j as int].holds(w));
                            assert(covered(regions(rights@), w));
                            assert(regions(lefts@)[i as int].holds(w));
                            let q = choose|q: int| 0 <= q < i && #[trigger] regions(lefts@.subrange(0, i as int))[q].holds(w);
                            assert(regions(lefts@.subrange(0, i as int))[q] == regions(lefts@)[q]);
                        }
                    }
                    lemma_gather(
                        before,
                        sub@,
                        |w: World| covered(outer, w) || covered(regions(rights@.subrange(0, j as int)), w),
                        |w: World| region.holds(w),
                        |w: World| self.same(w, left.0 as nat, right.0 as nat, a + b),
                    );
                }
                let mut sub = sub;
                result.append(&mut sub);
                proof {
                    assert forall|w: World| #[trigger]
                        covered(result@, w) <==> (covered(outer, w) || (covered(regions(rights@.subrange(0, j + 1)), w)
                            && self.same(w, left.0 as nat, right.0 as nat, a + b))) by {
                        lemma_prefix_step(rights@, j as int, w);
                    }
                }
                j += 1;
            }
            proof {
                assert(rights@.subrange(0, j as int) == rights@);
                assert forall|w: World| #[trigger]
                    covered(result@, w) <==> (covered(regions(lefts@.subrange(0, i + 1)), w)
                        && self.same(w, left.0 as nat, right.0 as nat, a + b)) by {
                    lemma_prefix_step(lefts@, i as int, w);
                }
            }
            i += 1;
        }
        proof {
            assert(lefts@.subrange(0, i as int) == lefts@);
        }
        result
    }

    /// Entailment between two settled nodes, by the shape of their trees.
    fn entails_pair(&self, l2: NodeId, r2: NodeId, region: &Context, Ghost(a): Ghost<nat>, Ghost(b): Ghost<nat>) -> (r: Vec<Context>)
        requires
            self.wf(),
            region.wf(),
            l2.0 < self.nodes@.len(),
            r2.0 < self.nodes@.len(),
            forall|w: World| #[trigger] region.holds(w) ==> {
                &&& self.settled(w, l2.0 as nat)
                &&& self.settled(w, r2.0 as nat)
                &&& self.within(w, l2.0 as nat, a)
                &&& self.within(w, r2.0 as nat, b)
            },
        ensures
            all_wf(r@),
            disjoint(r@),
            forall|w: World| #[trigger]
                covered(r@, w) <==> (region.holds(w) && self.same(w, l2.0 as nat, r2.0 as nat, a + b)),
        decreases a + b, 0nat,
    {
        let ghost w0 = lemma_inhabited(region);
        assert(self.within(w0, l2.0 as nat, a) && self.within(w0, r2.0 as nat, b));
        assert(a > 0 && b > 0);
        proof {
            assert(self.node_ok(self.nodes@[l2.0 as int]));
            assert(self.node_ok(self.nodes@[r2.0 as int]));
            assert forall|w: World| region.holds(w) implies {
                &&& self.resolved(w, l2.0 as nat) == l2.0
                &&& self.resolved(w, r2.0 as nat) == r2.0
            } by {
                assert(self.within(w, l2.0 as nat, self.fuel@));
                self.lemma_resolved_settled(w, l2.0 as nat, self.fuel@);
                self.lemma_resolved_settled(w, r2.0 as nat, self.fuel@);
            }
        }
        let mut result: Vec<Context> = Vec::new();
        if l2 == r2 {
            result.push(region.copy());
            proof {
                assert forall|w: World| #[trigger]
                    covered(result@, w) <==> (region.holds(w) && self.same(w, l2.0 as nat, r2.0 as nat, a + b)) by {
                    assert(result@[0].holds(w) == region.holds(w));
                    if covered(result@, w) {
                        let i = choose|i: int| 0 <= i < result@.len() && #[trigger] result@[i].holds(w);
                        assert(i == 0);
                    }
                }
            }
            return result;
        }
        let ln = &self.nodes[l2.0];
        let rn = &self.nodes[r2.0];
        let same_unknown = match (ln, rn) {
            (Node::Unknown(x), Node::Unknown(y)) => *x == *y,
            _ => false,
        };
        if same_unknown {
            result.push(region.copy());
            proof {
                assert forall|w: World| #[trigger]
                    covered(result@, w) <==> (region.holds(w) && self.same(w, l2.0 as nat, r2.0 as nat, a + b)) by {
                    assert(result@[0].holds(w) == region.holds(w));
                    if covered(result@, w) {
                        let i = choose|i: int| 0 <= i < result@.len() && #[trigger] result@[i].holds(w);
                        assert(i == 0);
                    }
                }
            }
            return result;
        }
        match ln {
            Node::Choice(..) => {
                let arms = self.arms(l2, region);
                let mut i: usize = 0;
                while i < arms.len()
                    invariant
                        self.wf(),
                        region.wf(),
                        l2.0 < self.nodes@.len(),
                        r2.0 < self.nodes@.len(),
                        a > 0,
                        self.nodes@[l2.0 as int] is Choice,
                        forall|w: World| #[trigger] region.holds(w) ==> {
                            &&& self.settled(w, l2.0 as nat)
                            &&& self.settled(w, r2.0 as nat)
                            &&& self.within(w, l2.0 as nat, a)
                            &&& self.within(w, r2.0 as nat, b)
                        },
                        all_wf(regions(arms@)),
                        disjoint(regions(arms@)),
                        forall|w: World| #[trigger]
                            covered(regions(arms@), w) <==> (region.holds(w) && self.present(w, l2.0 as nat)),
                        forall|e: int, w: World|
                            0 <= e < arms@.len() && #[trigger] arms@[e].0.holds(w) ==> {
                                &&& arms@[e].1.0 < self.nodes@.len()
                                &&& arms@[e].1.0 == self.step(w, l2.0 as nat)
                            },
                        0 <= i <= arms.len(),
                        all_wf(result@),
                        disjoint(result@),
                        forall|w: World| #[trigger]
                            covered(result@, w) <==> (covered(regions(arms@.subrange(0, i as int)), w)
                                && self.same(w, self.step(w, l2.0 as nat), r2.0 as nat, (a - 1 + b) as nat)),
                    decreases arms.len() - i,
                {
                    let child = arms[i].1;
                    let ghost piece = arms@[i as int].0;
                    proof {
                        assert(regions(arms@)[i as int] == piece);
                        assert(piece.wf());
                        let wp = lemma_inhabited(&piece);
                        assert(arms@[i as int].0.holds(wp));
                        assert forall|w: World| #[trigger] piece.holds(w) implies self.within(w, child.0 as nat, (a - 1) as nat) && self.within(w, r2.0 as nat, b) by {
                            assert(arms@[i as int].0.holds(w));
                            assert(covered(regions(arms@), w));
                            assert(region.holds(w));
                        }
                        assert forall|w: World| covered(regions(arms@.subrange(0, i as int)), w) implies !piece.holds(w) by {
                            let q = choose|q: int| 0 <= q < i && #[trigger] regions(arms@.subrange(0, i as int))[q].holds(w);
                            assert(regions(arms@.subrange(0, i as int))[q] == regions(arms@)[q]);
                        }
                    }
                    let sub = self.entails(child, r2, &arms[i].0, Ghost((a - 1) as nat), Ghost(b));
                    let ghost before = result@;
                    proof {
                        assert forall|w: World| #[trigger] covered(sub@, w) <==> (piece.holds(w)
                            && self.same(w, self.step(w, l2.0 as nat), r2.0 as nat, (a - 1 + b) as nat)) by {
                        }
                        lemma_gather(
                            before,
                            sub@,
                            |w: World| covered(regions(arms@.subrange(0, i as int)), w),
                            |w: World| piece.holds(w),
                            |w: World| self.same(w, self.step(w, l2.0 as nat), r2.0 as nat, (a - 1 + b) as nat),
                        );
                    }
                    let mut sub = sub;
                    result.append(&mut sub);
                    proof {
                        assert forall|w: World| #[trigger]
                            covered(result@, w) <==> (covered(regions(arms@.subrange(0, i + 1)), w)
                                && self.same(w, self.step(w, l2.0 as nat), r2.0 as nat, (a - 1 + b) as nat)) by {
                            lemma_prefix_step(arms@, i as int, w);
                        }
                    }
                    i += 1;
                }
                proof {
                    assert(arms@.subrange(0, i as int) == arms@);
                }
                result
            },
            _ => match rn {
                Node::Choice(..) => {
                    let arms = self.arms(r2, region);
                    let mut i: usize = 0;
                    while i < arms.len()
                        invariant
                            self.wf(),
                            region.wf(),
                            l2.0 < self.nodes@.len(),
                            r2.0 < self.nodes@.len(),
                            b > 0,
                            self.nodes@[r2.0 as int] is Choice,
                            forall|w: World| #[trigger] region.holds(w) ==> {
                                &&& self.settled(w, l2.0 as nat)
                                &&& self.settled(w, r2.0 as nat)
                                &&& self.within(w, l2.0 as nat, a)
                                &&& self.within(w, r2.0 as nat, b)
                            },
                            all_wf(regions(arms@)),
                            disjoint(regions(arms@)),
                            forall|w: World| #[trigger]
                                covered(regions(arms@), w) <==> (region.holds(w) && self.present(w, r2.0 as nat)),
                            forall|e: int, w: World|
                                0 <= e < arms@.len() && #[trigger] arms@[e].0.holds(w) ==> {
                                    &&& arms@[e].1.0 < self.nodes@.len()
                                    &&& arms@[e].1.0 == self.step(w, r2.0 as nat)
                                },
                            0 <= i <= arms.len(),
                            all_wf(result@),
                            disjoint(result@),
                            forall|w: World| #[trigger]
                                covered(result@, w) <==> (covered(regions(arms@.subrange(0, i as int)), w)
                                    && self.same(w, l2.0 as nat, self.step(w, r2.0 as nat), (a + b - 1) as nat)),
                        decreases arms.len() - i,
                    {
                        let child = arms[i].1;
                        let ghost piece = arms@[i as int].0;
                        proof {
                            assert(regions(arms@)[i as int] == piece);
                            assert(piece.wf());
                            let wp = lemma_inhabited(&piece);
                            assert(arms@[i as int].0.holds(wp));
                            assert forall|w: World| #[trigger] piece.holds(w) implies self.within(w, l2.0 as nat, a) && self.within(w, child.0 as nat, (b - 1) as nat) by {
                                assert(arms@[i as int].0.holds(w));
                                assert(covered(regions(arms@), w));
                                assert(region.holds(w));
                            }
                            assert forall|w: World| covered(regions(arms@.subrange(0, i as int)), w) implies !piece.holds(w) by {
                                let q = choose|q: int| 0 <= q < i && #[trigger] regions(arms@.subrange(0, i as int))[q].holds(w);
                                assert(regions(arms@.subrange(0, i as int))[q] == regions(arms@)[q]);
                            }
                        }
                        let sub = self.entails(l2, child, &arms[i].0, Ghost(a), Ghost((b - 1) as nat));
                        let ghost before = result@;
                        proof {
                            lemma_gather(
                                before,
                                sub@,
                                |w: World| covered(regions(arms@.subrange(0, i as int)), w),
                                |w: World| piece.holds(w),
                                |w: World| self.same(w, l2.0 as nat, self.step(w, r2.0 as nat), (a + b - 1) as nat),
                            );
                        }
                        let mut sub = sub;
                        result.append(&mut sub);
                        proof {
                            assert forall|w: World| #[trigger]
                                covered(result@, w) <==> (covered(regions(arms@.subrange(0, i + 1)), w)
                                    && self.same(w, l2.0 as nat, self.step(w, r2.0 as nat), (a + b - 1) as nat)) by {
                                lemma_prefix_step(arms@, i as int, w);
                            }
                        }
                        i += 1;
                    }
                    proof {
                        assert(arms@.subrange(0, i as int) == arms@);
                    }
                    result
                },
                Node::App(g, ys) => match ln {
                    Node::App(f, xs) => {
                        if *f == *g && xs.len() == ys.len() {
                            let mut partial: Vec<Context> = Vec::new();
                            partial.push(region.copy());
                            proof {
                                assert forall|w: World| #[trigger] covered(partial@, w) <==> region.holds(w) by {
                                    assert(partial@[0].holds(w) == region.holds(w));
                                    if covered(partial@, w) {
                                        let i = choose|i: int| 0 <= i < partial@.len() && #[trigger] partial@[i].holds(w);
                                        assert(i == 0);
                                    }
                                }
                            }
                            let mut c: usize = 0;
                            while c < xs.len()
                                invariant
                                    self.wf(),
                                    region.wf(),
                                    a > 0,
                                    b > 0,
                                    self.nodes@[l2.0 as int] == Node::App(*f, *xs),
                                    self.nodes@[r2.0 as int] == Node::App(*g, *ys),
                                    xs@.len() == ys@.len(),
                                    l2.0 < self.nodes@.len(),
                                    r2.0 < self.nodes@.len(),
                                    forall|w: World| #[trigger] region.holds(w) ==> {
                                        &&& self.within(w, l2.0 as nat, a)
                                        &&& self.within(w, r2.0 as nat, b)
                                    },
                                    0 <= c <= xs.len(),
                                    all_wf(partial@),
                                    disjoint(partial@),
                                    forall|w: World| #[trigger]
                                        covered(partial@, w) <==> (region.holds(w) && forall|d: int|
                                            0 <= d < c ==> self.same(w, (#[trigger] xs@[d]).0 as nat, ys@[d].0 as nat, (a + b - 1) as nat)),
                                decreases xs.len() - c,
                            {
                                let x = xs[c];
                                let y = ys[c];
                                proof {
                                    assert(self.node_ok(self.nodes@[l2.0 as int]));
                                    assert(self.node_ok(self.nodes@[r2.0 as int]));
                                    let ghost vx: Vec<NodeId> = *xs;
                                    let ghost vy: Vec<NodeId> = *ys;
                                    assert(self.nodes@[l2.0 as int] == Node::App(*f, vx));
                                    assert(self.nodes@[r2.0 as int] == Node::App(*g, vy));
                                    lemma_app_child(self, *f, vx, c as int);
                                    lemma_app_child(self, *g, vy, c as int);
                                    assert(xs@[c as int] == vx@[c as int]);
                                }
                                let mut next: Vec<Context> = Vec::new();
                                let mut p: usize = 0;
                                while p < partial.len()
                                    invariant
                                        self.wf(),
                                        a > 0,
                                        b > 0,
                                        self.nodes@[l2.0 as int] == Node::App(*f, *xs),
                                        self.nodes@[r2.0 as int] == Node::App(*g, *ys),
                                        xs@.len() == ys@.len(),
                                        0 <= c < xs.len(),
                                        x == xs@[c as int],
                                        y == ys@[c as int],
                                        x.0 < self.nodes@.len(),
                                        y.0 < self.nodes@.len(),
                                        l2.0 < self.nodes@.len(),
                                        r2.0 < self.nodes@.len(),
                                        forall|w: World| #[trigger] region.holds(w) ==> {
                                            &&& self.within(w, l2.0 as nat, a)
                                            &&& self.within(w, r2.0 as nat, b)
                                        },
                                        all_wf(partial@),
                                        disjoint(partial@),
                                        forall|w: World| #[trigger]
                                            covered(partial@, w) <==> (region.holds(w) && forall|d: int|
                                                0 <= d < c ==> self.same(w, (#[trigger] xs@[d]).0 as nat, ys@[d].0 as nat, (a + b - 1) as nat)),
                                        0 <= p <= partial.len(),
                                        all_wf(next@),
                                        disjoint(next@),
                                        forall|w: World| #[trigger]
                                            covered(next@, w) <==> (covered(partial@.subrange(0, p as int), w)
                                                && self.same(w, x.0 as nat, y.0 as nat, (a + b - 1) as nat)),
                                    decreases partial.len() - p,
                                {
                                    let ghost piece = partial@[p as int];
                                    proof {
                                        assert(piece.wf());
                                        assert forall|w: World| #[trigger] piece.holds(w) implies self.within(w, x.0 as nat, (a - 1) as nat) && self.within(w, y.0 as nat, (b - 1) as nat) by {
                                            assert(covered(partial@, w));
                                            assert(self.within(w, l2.0 as nat, a));
                                            assert(self.within(w, r2.0 as nat, b));
                                        }
                                    }
                                    let sub = self.entails(x, y, &partial[p], Ghost((a - 1) as nat), Ghost((b - 1) as nat));
                                    let ghost before = next@;
                                    proof {
                                        assert forall|w: World| #[trigger] covered(sub@, w) <==> (piece.holds(w)
                                            && self.same(w, x.0 as nat, y.0 as nat, (a + b - 1) as nat)) by {
                                            if piece.holds(w) {
                                                assert(self.within(w, x.0 as nat, (a - 1) as nat));
                                                self.lemma_same_stable(w, x.0 as nat, y.0 as nat, (a - 1) as nat, (b - 1) as nat, (a - 1 + b - 1) as nat, (a + b - 1) as nat);
                                            }
                                        }
                                        lemma_gather(
                                            before,
                                            sub@,
                                            |w: World| covered(partial@.subrange(0, p as int), w),
                                            |w: World| piece.holds(w),
                                            |w: World| self.same(w, x.0 as nat, y.0 as nat, (a + b - 1) as nat),
                                        );
                                        assert forall|w: World| covered(partial@.subrange(0, p as int), w) implies !piece.holds(w) by {
                                            let q = choose|q: int| 0 <= q < p && #[trigger] partial@.subrange(0, p as int)[q].holds(w);
                                            assert(partial@.subrange(0, p as int)[q] == partial@[q]);
                                        }
                                    }
                                    let mut sub = sub;
                                    next.append(&mut sub);
                                    proof {
                                        assert forall|w: World| #[trigger]
                                            covered(next@, w) <==> (covered(partial@.subrange(0, p + 1), w)
                                                && self.same(w, x.0 as nat, y.0 as nat, (a + b - 1) as nat)) by {
                                            lemma_covered_step(partial@, p as int, w);
                                        }
                                    }
                                    p += 1;
                                }
                                proof {
                                    assert(partial@.subrange(0, p as int) == partial@);
                                    assert forall|w: World| #[trigger]
                                        covered(next@, w) <==> (region.holds(w) && forall|d: int|
                                            0 <= d < c + 1 ==> self.same(w, (#[trigger] xs@[d]).0 as nat, ys@[d].0 as nat, (a + b - 1) as nat)) by {
                                    }
                                }
                                partial = next;
                                c += 1;
                            }
                            result = partial;
                            result
                        } else {
                            result
                        }
                    },
                    _ => result,
                },
                _ => result,
            },
        }
    }

    /// Pure finite-tree entailment in the live part of `context`: the regions
    /// where `left` and `right` stand for the same finite tree.
    pub fn equal(&self, left: NodeId, right: NodeId, context: &Context) -> (r: Vec<Context>)
        requires
            self.wf(),
            context.wf(),
            left.0 < self.node_count(),
            right.0 < self.node_count(),
        ensures
            all_wf(r@),
            disjoint(r@),
            forall|w: World| #[trigger]
                covered(r@, w) <==> (context.holds(w) && !self.failed_in(w) && self.equal_in(
                    w,
                    left.0 as nat,
                    right.0 as nat,
                )),
    {
        let live = self.live(context);
        let mut result: Vec<Context> = Vec::new();
        let mut i: usize = 0;
        while i < live.len()
            invariant
                self.wf(),
                left.0 < self.nodes@.len(),
                right.0 < self.nodes@.len(),
                all_wf(live@),
                disjoint(live@),
                0 <= i <= live.len(),
                all_wf(result@),
                disjoint(result@),
                forall|w: World| #[trigger]
                    covered(result@, w) <==> (covered(live@.subrange(0, i as int), w) && self.equal_in(
                        w,
                        left.0 as nat,
                        right.0 as nat,
                    )),
            decreases live.len() - i,
        {
            let ghost piece = live@[i as int];
            proof {
                assert(piece.wf());
            }
            let sub = self.entails(left, right, &live[i], Ghost(self.fuel@), Ghost(self.fuel@));
            let ghost before = result@;
            proof {
                assert forall|w: World| covered(live@.subrange(0, i as int), w) implies !piece.holds(w) by {
                    let q = choose|q: int| 0 <= q < i && #[trigger] live@.subrange(0, i as int)[q].holds(w);
                    assert(live@.subrange(0, i as int)[q] == live@[q]);
                }
                lemma_gather(
                    before,
                    sub@,
                    |w: World| covered(live@.subrange(0, i as int), w),
                    |w: World| piece.holds(w),
                    |w: World| self.equal_in(w, left.0 as nat, right.0 as nat),
                );
            }
            let mut sub = sub;
            result.append(&mut sub);
            proof {
                assert forall|w: World| #[trigger]
                    covered(result@, w) <==> (covered(live@.subrange(0, i + 1), w) && self.equal_in(
                        w,
                        left.0 as nat,
                        right.0 as nat,
                    )) by {
                    lemma_covered_step(live@, i as int, w);
                }
            }
            i += 1;
        }
        proof {
            assert(live@.subrange(0, i as int) == live@);
        }
        result
    }
}

/// The children of a well-formed application are nodes of the graph.
proof fn lemma_app_child(g: &Graph, f: String, v: Vec<NodeId>, c: int)
    requires
        g.node_ok(Node::App(f, v)),
        0 <= c < v@.len(),
    ensures
        v@[c].0 < g.nodes@.len(),
{
    let node = Node::App(f, v);
    assert(node is App);
    assert(node->App_1 == v);
    assert(g.node_ok(node));
    assert(forall|i: int| 0 <= i < node->App_1@.len() ==> (#[trigger] node->App_1@[i]).0 < g.nodes@.len());
}

impl Graph {
    /// Unknown `x` occurs, unredirected, in the tree of node `n` in world `w`,
    /// looking `k` levels deep.
    pub closed spec fn occurs_in(&self, w: World, x: nat, n: nat, k: nat) -> bool
        decreases k,
    {
        if k == 0 {
            false
        } else {
            let m = self.resolved(w, n);
            match self.nodes@[m as int] {
                Node::Unknown(y) => y == x,
                Node::App(_, cs) => exists|i: int|
                    0 <= i < cs@.len() && self.occurs_in(w, x, (#[trigger] cs@[i]).0 as nat, (k - 1) as nat),
                Node::Choice(l, a, b) => self.born(w, l.0 as nat) && self.occurs_in(
                    w,
                    x,
                    arm_of(w, l, a, b),
                    (k - 1) as nat,
                ),
            }
        }
    }

    /// Looking deeper than the depth bound changes nothing.
    proof fn lemma_occurs_stable(&self, w: World, x: nat, n: nat, a: nat, k1: nat, k2: nat)
        requires
            self.wf(),
            self.within(w, n, a),
            a <= k1,
            a <= k2,
        ensures
            self.occurs_in(w, x, n, k1) == self.occurs_in(w, x, n, k2),
        decreases k1,
    {
        self.lemma_chase_within(w, n, a);
        assert(self.within(w, n, self.fuel@));
        self.lemma_chase_agree(w, n, a, self.fuel@);
        let m = self.resolved(w, n);
        assert(self.node_ok(self.nodes@[m as int]));
        match self.nodes@[m as int] {
            Node::App(_, cs) => {
                assert forall|i: int| 0 <= i < cs@.len() implies self.occurs_in(
                    w,
                    x,
                    (#[trigger] cs@[i]).0 as nat,
                    (k1 - 1) as nat,
                ) == self.occurs_in(w, x, cs@[i].0 as nat, (k2 - 1) as nat) by {
                    self.lemma_occurs_stable(w, x, cs@[i].0 as nat, (a - 1) as nat, (k1 - 1) as nat, (k2 - 1) as nat);
                }
            },
            Node::Choice(l, p, q) => {
                if self.born(w, l.0 as nat) {
                    self.lemma_occurs_stable(w, x, arm_of(w, l, p, q), (a - 1) as nat, (k1 - 1) as nat, (k2 - 1) as nat);
                }
            },
            _ => {},
        }
    }

    /// Exact regions in which a currently unbound variable occurs in the value.
    fn occurs(&self, var: u64, node: NodeId, context: &Context, Ghost(k): Ghost<nat>) -> (r: Vec<Context>)
        requires
            self.wf(),
            context.wf(),
            node.0 < self.nodes@.len(),
            forall|w: World| #[trigger] context.holds(w) ==> self.within(w, node.0 as nat, k),
        ensures
            all_wf(r@),
            disjoint(r@),
            forall|w: World| #[trigger]
                covered(r@, w) <==> (context.holds(w) && self.occurs_in(w, var as nat, node.0 as nat, k)),
        decreases k,
    {
        let targets = self.resolve(node, context, Ghost(k));
        let mut result: Vec<Context> = Vec::new();
        let mut i: usize = 0;
        while i < targets.len()
            invariant
                self.wf(),
                context.wf(),
                node.0 < self.nodes@.len(),
                forall|w: World| #[trigger] context.holds(w) ==> self.within(w, node.0 as nat, k),
                all_wf(regions(targets@)),
                disjoint(regions(targets@)),
                forall|w: World| #[trigger] covered(regions(targets@), w) <==> context.holds(w),
                forall|e: int, w: World|
                    0 <= e < targets@.len() && #[trigger] targets@[e].0.holds(w) ==> {
                        &&& targets@[e].1.0 < self.nodes@.len()
                        &&& targets@[e].1.0 == self.chase(w, node.0 as nat, k)
                        &&& self.settled(w, targets@[e].1.0 as nat)
                    },
                0 <= i <= targets.len(),
                all_wf(result@),
                disjoint(result@),
                forall|w: World| #[trigger]
                    covered(result@, w) <==> (covered(regions(targets@.subrange(0, i as int)), w)
                        && self.occurs_in(w, var as nat, node.0 as nat, k)),
            decreases targets.len() - i,
        {
            let target = targets[i].1;
            let ghost region = targets@[i as int].0;
            proof {
                assert(regions(targets@)[i as int] == region);
                assert(region.wf());
                let wp = lemma_inhabited(&region);
                assert(covered(regions(targets@), wp));
                assert(target.0 < self.nodes@.len());
                assert(self.node_ok(self.nodes@[target.0 as int]));
                assert forall|w: World| #[trigger] region.holds(w) implies {
                    &&& self.within(w, target.0 as nat, k)
                    &&& self.chase(w, node.0 as nat, k) == target.0
                    &&& self.resolved(w, node.0 as nat) == target.0
                    &&& self.resolved(w, target.0 as nat) == target.0
                } by {
                    assert(regions(targets@)[i as int].holds(w));
                    assert(covered(regions(targets@), w));
                    self.lemma_chase_within(w, node.0 as nat, k);
                    assert(self.within(w, node.0 as nat, self.fuel@));
                    self.lemma_chase_agree(w, node.0 as nat, k, self.fuel@);
                    assert(self.within(w, target.0 as nat, self.fuel@));
                    self.lemma_resolved_settled(w, target.0 as nat, self.fuel@);
                }
            }
            let found = self.occurs_at(var, target, &targets[i].0, Ghost(k));
            let mut f: usize = 0;
            let ghost before = result@;
            while f < found.len()
                invariant
                    self.wf(),
                    all_wf(found@),
                    0 <= f <= found.len(),
                    all_wf(result@),
                    disjoint(result@),
                    forall|w: World| #[trigger]
                        covered(result@, w) <==> (covered(before, w) || covered(found@.subrange(0, f as int), w)),
                decreases found.len() - f,
            {
                proof {
                    assert(found@[f as int].wf());
                }
                union(&mut result, &found[f]);
                proof {
                    assert forall|w: World| #[trigger]
                        covered(result@, w) <==> (covered(before, w) || covered(found@.subrange(0, f + 1), w)) by {
                        lemma_covered_step(found@, f as int, w);
                    }
                }
                f += 1;
            }
            proof {
                assert(found@.subrange(0, f as int) == found@);
                assert forall|w: World| #[trigger]
                    covered(result@, w) <==> (covered(regions(targets@.subrange(0, i + 1)), w)
                        && self.occurs_in(w, var as nat, node.0 as nat, k)) by {
                    lemma_prefix_step(targets@, i as int, w);
                    if region.holds(w) {
                        assert(self.within(w, target.0 as nat, k));
                    }
                    if covered(regions(targets@.subrange(0, i as int)), w) {
                        let q = choose|q: int| 0 <= q < i && #[trigger] regions(targets@.subrange(0, i as int))[q].holds(w);
                        assert(regions(targets@.subrange(0, i as int))[q] == regions(targets@)[q]);
                        if region.holds(w) {
                            assert(!(regions(targets@)[q].holds(w) && regions(targets@)[i as int].holds(w)));
                        }
                    }
                }
            }
            i += 1;
        }
        proof {
            assert(targets@.subrange(0, i as int) == targets@);
        }
        result
    }

    /// Where `var` occurs in the tree of a settled node, one level down; the cubes may overlap.
    fn occurs_at(&self, var: u64, target: NodeId, region: &Context, Ghost(k): Ghost<nat>) -> (r: Vec<Context>)
        requires
            self.wf(),
            region.wf(),
            target.0 < self.nodes@.len(),
            forall|w: World| #[trigger] region.holds(w) ==> {
                &&& self.within(w, target.0 as nat, k)
                &&& self.resolved(w, target.0 as nat) == target.0
            },
        ensures
            all_wf(r@),
            forall|w: World| #[trigger]
                covered(r@, w) <==> (region.holds(w) && self.occurs_in(w, var as nat, target.0 as nat, k)),
        decreases k, 0nat,
    {
        let ghost w0 = lemma_inhabited(region);
        assert(self.within(w0, target.0 as nat, k));
        assert(k > 0);
        proof {
            assert(self.node_ok(self.nodes@[target.0 as int]));
        }
        let mut result: Vec<Context> = Vec::new();
        match &self.nodes[target.0] {
            Node::Unknown(id) => {
                if *id == var {
                    result.push(region.copy());
                    proof {
                        assert forall|w: World| #[trigger]
                            covered(result@, w) <==> (region.holds(w) && self.occurs_in(w, var as nat, target.0 as nat, k)) by {
                            assert(result@[0].holds(w) == region.holds(w));
                            if covered(result@, w) {
                                let q = choose|q: int| 0 <= q < result@.len() && #[trigger] result@[q].holds(w);
                                assert(q == 0);
                            }
                        }
                    }
                }
                result
            },
            Node::App(_, children) => {
                let mut c: usize = 0;
                while c < children.len()
                    invariant
                        self.wf(),
                        region.wf(),
                        k > 0,
                        target.0 < self.nodes@.len(),
                        self.nodes@[target.0 as int] is App,
                        *children == self.nodes@[target.0 as int]->App_1,
                        forall|w: World| #[trigger] region.holds(w) ==> {
                            &&& self.within(w, target.0 as nat, k)
                            &&& self.resolved(w, target.0 as nat) == target.0
                        },
                        0 <= c <= children.len(),
                        all_wf(result@),
                        forall|w: World| #[trigger]
                            covered(result@, w) <==> (region.holds(w) && exists|d: int|
                                0 <= d < c && self.occurs_in(w, var as nat, (#[trigger] children@[d]).0 as nat, (k - 1) as nat)),
                    decreases children.len() - c,
                {
                    let child = children[c];
                    proof {
                        lemma_app_child(self, self.nodes@[target.0 as int]->App_0, *children, c as int);
                        assert forall|w: World| #[trigger] region.holds(w) implies self.within(w, child.0 as nat, (k - 1) as nat) by {
                            assert(self.within(w, target.0 as nat, k));
                        }
                    }
                    let mut sub = self.occurs(var, child, region, Ghost((k - 1) as nat));
                    let ghost before = result@;
                    let ghost added = sub@;
                    result.append(&mut sub);
                    proof {
                        assert forall|i: int| 0 <= i < result@.len() implies #[trigger] result@[i].wf() by {
                            if i < before.len() {
                                assert(result@[i] == before[i]);
                            } else {
                                assert(result@[i] == added[i - before.len()]);
                            }
                        }
                        assert forall|w: World| #[trigger]
                            covered(result@, w) <==> (region.holds(w) && exists|d: int|
                                0 <= d < c + 1 && self.occurs_in(w, var as nat, (#[trigger] children@[d]).0 as nat, (k - 1) as nat)) by {
                            assert(result@ == before + added);
                            lemma_covered_concat(before, added, w);
                            if region.holds(w) && exists|d: int|
                                0 <= d < c + 1 && self.occurs_in(w, var as nat, (#[trigger] children@[d]).0 as nat, (k - 1) as nat) {
                                let d = choose|d: int|
                                    0 <= d < c + 1 && self.occurs_in(w, var as nat, (#[trigger] children@[d]).0 as nat, (k - 1) as nat);
                                if d == c {
                                    assert(covered(added, w));
                                }
                            }
                        }
                    }
                    c += 1;
                }
                result
            },
            Node::Choice(..) => {
                let arms = self.arms(target, region);
                let mut i: usize = 0;
                while i < arms.len()
                    invariant
                        self.wf(),
                        region.wf(),
                        k > 0,
                        target.0 < self.nodes@.len(),
                        self.nodes@[target.0 as int] is Choice,
                        forall|w: World| #[trigger] region.holds(w) ==> {
                            &&& self.within(w, target.0 as nat, k)
                            &&& self.resolved(w, target.0 as nat) == target.0
                        },
                        all_wf(regions(arms@)),
                        disjoint(regions(arms@)),
                        forall|w: World| #[trigger]
                            covered(regions(arms@), w) <==> (region.holds(w) && self.present(w, target.0 as nat)),
                        forall|e: int, w: World|
                            0 <= e < arms@.len() && #[trigger] arms@[e].0.holds(w) ==> {
                                &&& arms@[e].1.0 < self.nodes@.len()
                                &&& arms@[e].1.0 == self.step(w, target.0 as nat)
                            },
                        0 <= i <= arms.len(),
                        all_wf(result@),
                        forall|w: World| #[trigger]
                            covered(result@, w) <==> (covered(regions(arms@.subrange(0, i as int)), w)
                                && self.occurs_in(w, var as nat, self.step(w, target.0 as nat), (k - 1) as nat)),
                    decreases arms.len() - i,
                {
                    let child = arms[i].1;
                    let ghost piece = arms@[i as int].0;
                    proof {
                        assert(regions(arms@)[i as int] == piece);
                        assert(piece.wf());
                        let wp = lemma_inhabited(&piece);
                        assert(arms@[i as int].0.holds(wp));
                        assert forall|w: World| #[trigger] piece.holds(w) implies self.within(w, child.0 as nat, (k - 1) as nat) by {
                            assert(arms@[i as int].0.holds(w));
                            assert(covered(regions(arms@), w));
                            assert(region.holds(w));
                        }
                    }
                    let mut sub = self.occurs(var, child, &arms[i].0, Ghost((k - 1) as nat));
                    let ghost before = result@;
                    let ghost added = sub@;
                    result.append(&mut sub);
                    proof {
                        assert forall|j: int| 0 <= j < result@.len() implies #[trigger] result@[j].wf() by {
                            if j < before.len() {
                                assert(result@[j] == before[j]);
                            } else {
                                assert(result@[j] == added[j - before.len()]);
                            }
                        }
                        assert forall|w: World| #[trigger]
                            covered(result@, w) <==> (covered(regions(arms@.subrange(0, i + 1)), w)
                                && self.occurs_in(w, var as nat, self.step(w, target.0 as nat), (k - 1) as nat)) by {
                            assert(result@ == before + added);
                            lemma_covered_concat(before, added, w);
                            lemma_prefix_step(arms@, i as int, w);
                            if covered(regions(arms@.subrange(0, i as int)), w) && piece.holds(w) {
                                let q = choose|q: int| 0 <= q < i && #[trigger] regions(arms@.subrange(0, i as int))[q].holds(w);
                                assert(regions(arms@.subrange(0, i as int))[q] == regions(arms@)[q]);
                                assert(!(regions(arms@)[q].holds(w) && regions(arms@)[i as int].holds(w)));
                            }
                        }
                    }
                    i += 1;
                }
                proof {
                    assert(arms@.subrange(0, i as int) == arms@);
                }
                result
            },
        }
    }
}

/// The measure one level down: the depth budget shrinks, or an unknown is gone.
pub open spec fn next_mu(mu: nat, md: nat) -> nat {
    if md > 0 {
        mu
    } else {
        (mu - 1) as nat
    }
}

pub open spec fn next_md(md: nat, fuel: nat) -> nat {
    if md > 0 {
        (md - 1) as nat
    } else {
        2 * fuel
    }
}

impl Graph {
    /// `self` adds redirects and failures to `older` and changes nothing else.
    pub closed spec fn extends(&self, older: &Graph) -> bool {
        &&& self.nodes@ == older.nodes@
        &&& self.births@ == older.births@
        &&& self.bindings@.len() == older.bindings@.len()
        &&& forall|w: World, x: nat|
            #![trigger self.bound(w, x)]
            older.bound(w, x) is Some ==> self.bound(w, x) == older.bound(w, x)
        &&& forall|w: World| #[trigger] older.failed_in(w) ==> self.failed_in(w)
    }

    /// In world `w`, `self` has exactly the redirects and the failure of `older`.
    pub closed spec fn keeps(&self, older: &Graph, w: World) -> bool {
        &&& forall|x: nat| #[trigger] self.bound(w, x) == older.bound(w, x)
        &&& self.failed_in(w) == older.failed_in(w)
    }

    proof fn lemma_extends_refl(&self)
        ensures
            self.extends(self),
            forall|w: World| #[trigger] self.keeps(self, w),
    {
    }

    proof fn lemma_extends_trans(&self, mid: &Graph, older: &Graph)
        requires
            self.extends(mid),
            mid.extends(older),
        ensures
            self.extends(older),
            forall|w: World| self.keeps(mid, w) && mid.keeps(older, w) ==> #[trigger] self.keeps(older, w),
    {
        assert forall|w: World, x: nat| older.bound(w, x) is Some implies #[trigger] self.bound(w, x)
            == older.bound(w, x) by {
            assert(mid.bound(w, x) == older.bound(w, x));
        }
        assert forall|w: World| #[trigger] older.failed_in(w) implies self.failed_in(w) by {
            assert(mid.failed_in(w));
        }
    }

    /// A graph that keeps the redirects of `older` in world `w` agrees with it there.
    proof fn lemma_keeps_agrees(&self, older: &Graph, w: World)
        requires
            self.extends(older),
            forall|x: nat| #[trigger] self.bound(w, x) == older.bound(w, x),
        ensures
            self.agrees_in(older, w),
    {
    }

    /// The unknowns not redirected in world `w`.
    spec fn unbound_set(&self, w: World) -> Set<int> {
        Set::new(|x: int| 0 <= x < self.bindings@.len() && self.bound(w, x as nat) is None)
    }

    /// How many unknowns are not redirected in world `w`.
    spec fn unbound_count(&self, w: World) -> nat {
        self.unbound_set(w).len()
    }

    proof fn lemma_unbound_finite(&self, w: World)
        ensures
            self.unbound_set(w).finite(),
            self.unbound_count(w) <= self.bindings@.len(),
    {
        vstd::set_lib::lemma_int_range(0, self.bindings@.len() as int);
        assert(self.unbound_set(w).subset_of(vstd::set_lib::set_int_range(0, self.bindings@.len() as int)));
        vstd::set_lib::lemma_len_subset(self.unbound_set(w), vstd::set_lib::set_int_range(0, self.bindings@.len() as int));
    }

    /// Redirects only add up: fewer unknowns stay free, and as many only if none was added.
    proof fn lemma_count_extends(&self, older: &Graph, w: World)
        requires
            self.extends(older),
        ensures
            self.unbound_count(w) <= older.unbound_count(w),
            self.unbound_count(w) == older.unbound_count(w) ==> forall|x: nat| #[trigger] self.bound(w, x) == older.bound(w, x),
    {
        self.lemma_unbound_finite(w);
        older.lemma_unbound_finite(w);
        assert forall|x: int| #[trigger] self.unbound_set(w).contains(x) implies older.unbound_set(w).contains(x) by {
            if older.bound(w, x as nat) is Some {
                assert(self.bound(w, x as nat) == older.bound(w, x as nat));
            }
        }
        vstd::set_lib::lemma_len_subset(self.unbound_set(w), older.unbound_set(w));
        if self.unbound_count(w) == older.unbound_count(w) {
            vstd::set_lib::lemma_subset_equality(self.unbound_set(w), older.unbound_set(w));
            assert forall|x: nat| #[trigger] self.bound(w, x) == older.bound(w, x) by {
                if older.bound(w, x) is Some {
                    assert(self.bound(w, x) == older.bound(w, x));
                } else if x < self.bindings@.len() {
                    assert(older.unbound_set(w).contains(x as int));
                    assert(self.unbound_set(w).contains(x as int));
                }
            }
        }
    }

    /// The least depth bound of node `n` in world `w`.
    spec fn depth(&self, w: World, n: nat) -> nat {
        choose|k: nat| self.within(w, n, k) && forall|j: nat| j < k ==> !#[trigger] self.within(w, n, j)
    }

    proof fn lemma_least(&self, w: World, n: nat, k: nat)
        requires
            self.within(w, n, k),
        ensures
            exists|m: nat| m <= k && self.within(w, n, m) && forall|j: nat| j < m ==> !#[trigger] self.within(w, n, j),
        decreases k,
    {
        if k > 0 && self.within(w, n, (k - 1) as nat) {
            self.lemma_least(w, n, (k - 1) as nat);
        } else {
            assert forall|j: nat| j < k implies !#[trigger] self.within(w, n, j) by {
                if self.within(w, n, j) {
                    self.lemma_within_mono(w, n, j, (k - 1) as nat);
                }
            }
        }
    }

    proof fn lemma_depth(&self, w: World, n: nat, k: nat)
        requires
            self.within(w, n, k),
        ensures
            self.within(w, n, self.depth(w, n)),
            self.depth(w, n) <= k,
            self.depth(w, n) > 0,
            forall|j: nat| #[trigger] self.within(w, n, j) ==> self.depth(w, n) <= j,
    {
        self.lemma_least(w, n, k);
        let d = self.depth(w, n);
        assert forall|j: nat| #[trigger] self.within(w, n, j) implies d <= j by {
            if j < d {
                assert(!self.within(w, n, j));
            }
        }
    }

    /// Depths agree between graphs that agree in a world.
    proof fn lemma_depth_frame(&self, older: &Graph, w: World, n: nat)
        requires
            older.wf(),
            self.agrees_in(older, w),
            self.nodes@.len() == older.nodes@.len(),
            n < older.nodes@.len(),
            self.within(w, n, self.fuel@),
        ensures
            self.depth(w, n) == older.depth(w, n),
    {
        assert(older.within(w, n, older.fuel@));
        older.lemma_depth(w, n, older.fuel@);
        self.lemma_depth(w, n, self.fuel@);
        self.lemma_within_frame(older, w, n, self.depth(w, n));
        self.lemma_within_frame(older, w, n, older.depth(w, n));
    }

    /// What a node resolves to is no deeper than the node.
    proof fn lemma_depth_resolved(&self, w: World, n: nat)
        requires
            self.wf(),
            n < self.nodes@.len(),
        ensures
            self.resolved(w, n) < self.nodes@.len(),
            self.within(w, self.resolved(w, n), self.depth(w, self.resolved(w, n))),
            self.depth(w, self.resolved(w, n)) <= self.depth(w, n),
            self.settled(w, self.resolved(w, n)),
    {
        assert(self.within(w, n, self.fuel@));
        self.lemma_depth(w, n, self.fuel@);
        let d = self.depth(w, n);
        self.lemma_chase_within(w, n, d);
        self.lemma_chase_agree(w, n, d, self.fuel@);
        self.lemma_depth(w, self.resolved(w, n), d);
    }

    /// A child one step below a settled node is shallower.
    proof fn lemma_depth_below(&self, w: World, n: nat, c: nat)
        requires
            self.wf(),
            n < self.nodes@.len(),
            c < self.nodes@.len(),
            match self.nodes@[n as int] {
                Node::App(_, cs) => exists|i: int| 0 <= i < cs@.len() && (#[trigger] cs@[i]).0 == c,
                Node::Choice(l, a, b) => self.born(w, l.0 as nat) && c == arm_of(w, l, a, b),
                _ => false,
            },
        ensures
            self.depth(w, c) < self.depth(w, n),
    {
        assert(self.within(w, n, self.fuel@));
        self.lemma_depth(w, n, self.fuel@);
        let d = self.depth(w, n);
        assert(self.within(w, c, (d - 1) as nat));
        self.lemma_depth(w, c, (d - 1) as nat);
    }

    /// The lexicographic measure of a call: free unknowns, then depth.
    spec fn measure_ok(&self, w: World, l: nat, r: nat, mu: nat, md: nat) -> bool {
        ||| self.unbound_count(w) < mu
        ||| (self.unbound_count(w) == mu && self.depth(w, l) + self.depth(w, r) <= md)
    }

    /// Every call below a call, on shallower nodes, meets the next measure.
    proof fn lemma_measure_step(
        &self,
        entry: &Graph,
        w: World,
        l: nat,
        r: nat,
        l2: nat,
        r2: nat,
        mu: nat,
        md: nat,
    )
        requires
            entry.wf(),
            self.wf(),
            self.extends(entry),
            l < entry.nodes@.len(),
            r < entry.nodes@.len(),
            l2 < entry.nodes@.len(),
            r2 < entry.nodes@.len(),
            entry.measure_ok(w, l, r, mu, md),
            entry.depth(w, l2) + entry.depth(w, r2) < entry.depth(w, l) + entry.depth(w, r),
        ensures
            self.measure_ok(w, l2, r2, next_mu(mu, md), next_md(md, self.fuel@)),
            md == 0 ==> mu > 0,
    {
        assert(entry.within(w, l, entry.fuel@));
        assert(entry.within(w, r, entry.fuel@));
        entry.lemma_depth(w, l, entry.fuel@);
        entry.lemma_depth(w, r, entry.fuel@);
        assert(entry.within(w, l2, entry.fuel@));
        assert(entry.within(w, r2, entry.fuel@));
        entry.lemma_depth(w, l2, entry.fuel@);
        entry.lemma_depth(w, r2, entry.fuel@);
        assert(self.within(w, l2, self.fuel@));
        assert(self.within(w, r2, self.fuel@));
        self.lemma_depth(w, l2, self.fuel@);
        self.lemma_depth(w, r2, self.fuel@);
        self.lemma_count_extends(entry, w);
        if self.unbound_count(w) == entry.unbound_count(w) {
            self.lemma_keeps_agrees(entry, w);
            self.lemma_depth_frame(entry, w, l2);
            self.lemma_depth_frame(entry, w, r2);
        }
    }
}

impl Graph {
    /// In world `w`, `self` is `older` with free unknown `x` now redirected to `target`.
    spec fn redirects_in(&self, older: &Graph, w: World, x: nat, target: nat) -> bool {
        &&& self.nodes@ == older.nodes@
        &&& self.births@ == older.births@
        &&& self.bindings@.len() == older.bindings@.len()
        &&& forall|y: nat| y != x ==> #[trigger] self.bound(w, y) == older.bound(w, y)
        &&& older.bound(w, x) is None
        &&& self.bound(w, x) == Some(target)
        &&& target < older.nodes@.len()
    }

    /// A tree in which `x` does not occur is untouched by redirecting `x`.
    proof fn lemma_redirect_clean(&self, older: &Graph, w: World, x: nat, target: nat, n: nat, a: nat, k: nat)
        requires
            older.wf(),
            self.redirects_in(older, w, x, target),
            n < older.nodes@.len(),
            older.within(w, n, a),
            a <= k,
            !older.occurs_in(w, x, n, k),
        ensures
            self.within(w, n, a),
        decreases a,
    {
        assert(older.within(w, n, older.fuel@));
        assert(older.node_ok(older.nodes@[n as int]));
        match older.nodes@[n as int] {
            Node::Unknown(y) => {
                match older.bound(w, y as nat) {
                    Some(t) => {
                        older.lemma_bound_valid(w, y as nat);
                        assert(y as nat != x);
                        assert(self.bound(w, y as nat) == older.bound(w, y as nat));
                        assert(older.within(w, t, (older.fuel@ - 1) as nat));
                        assert(older.within(w, t, older.fuel@));
                        older.lemma_chase_agree(w, t, (older.fuel@ - 1) as nat, older.fuel@);
                        assert(older.resolved(w, n) == older.resolved(w, t));
                        assert(older.occurs_in(w, x, n, k) == older.occurs_in(w, x, t, k));
                        self.lemma_redirect_clean(older, w, x, target, t, (a - 1) as nat, k);
                    },
                    None => {
                        assert(older.resolved(w, n) == n);
                        assert(y as nat != x);
                        assert(self.bound(w, y as nat) == older.bound(w, y as nat));
                    },
                }
            },
            Node::App(_, cs) => {
                assert(older.resolved(w, n) == n);
                assert forall|i: int| 0 <= i < cs@.len() implies self.within(w, (#[trigger] cs@[i]).0 as nat, (a - 1) as nat) by {
                    lemma_app_child(older, older.nodes@[n as int]->App_0, cs, i);
                    self.lemma_redirect_clean(older, w, x, target, cs@[i].0 as nat, (a - 1) as nat, (k - 1) as nat);
                }
            },
            Node::Choice(l, p, q) => {
                assert(older.resolved(w, n) == n);
                assert(self.born(w, l.0 as nat) == older.born(w, l.0 as nat));
                if older.born(w, l.0 as nat) {
                    self.lemma_redirect_clean(older, w, x, target, arm_of(w, l, p, q), (a - 1) as nat, (k - 1) as nat);
                }
            },
        }
    }

    /// Redirecting a free unknown to a tree without it deepens any tree by at most that tree's depth.
    proof fn lemma_redirect_deepen(&self, older: &Graph, w: World, x: nat, target: nat, n: nat, a: nat)
        requires
            older.wf(),
            self.redirects_in(older, w, x, target),
            self.within(w, target, older.fuel@),
            n < older.nodes@.len(),
            older.within(w, n, a),
        ensures
            self.within(w, n, a + older.fuel@),
        decreases a,
    {
        assert(older.node_ok(older.nodes@[n as int]));
        match older.nodes@[n as int] {
            Node::Unknown(y) => {
                if y as nat == x {
                    self.lemma_within_mono(w, target, older.fuel@, (a + older.fuel@ - 1) as nat);
                } else {
                    assert(self.bound(w, y as nat) == older.bound(w, y as nat));
                    if let Some(t) = older.bound(w, y as nat) {
                        older.lemma_bound_valid(w, y as nat);
                        self.lemma_redirect_deepen(older, w, x, target, t, (a - 1) as nat);
                    }
                }
            },
            Node::App(_, cs) => {
                assert forall|i: int| 0 <= i < cs@.len() implies self.within(w, (#[trigger] cs@[i]).0 as nat, (a + older.fuel@ - 1) as nat) by {
                    lemma_app_child(older, older.nodes@[n as int]->App_0, cs, i);
                    self.lemma_redirect_deepen(older, w, x, target, cs@[i].0 as nat, (a - 1) as nat);
                }
            },
            Node::Choice(l, p, q) => {
                assert(self.born(w, l.0 as nat) == older.born(w, l.0 as nat));
                if older.born(w, l.0 as nat) {
                    self.lemma_redirect_deepen(older, w, x, target, arm_of(w, l, p, q), (a - 1) as nat);
                }
            },
        }
    }

    /// Appending redirects of a free unknown, in regions where it does not occur in
    /// the target, keeps the graph well formed and changes no other world.
    proof fn lemma_bind_effect(&self, older: &Graph, x: nat, target: nat, added: Seq<(Context, NodeId)>)
        requires
            older.wf(),
            self.nodes@ == older.nodes@,
            self.births@ == older.births@,
            self.failed@ == older.failed@,
            self.bindings@.len() == older.bindings@.len(),
            x < older.bindings@.len(),
            target < older.nodes@.len(),
            forall|y: int| 0 <= y < self.bindings@.len() && y != x ==> #[trigger] self.bindings@[y] == older.bindings@[y],
            self.bindings@[x as int]@ == older.bindings@[x as int]@ + added,
            forall|j: int| 0 <= j < added.len() ==> (#[trigger] added[j]).1.0 == target,
            all_wf(regions(added)),
            disjoint(regions(added)),
            forall|w: World| #[trigger] covered(regions(added), w) ==> older.bound(w, x) is None
                && !older.occurs_in(w, x, target, older.fuel@),
            self.fuel@ == 2 * older.fuel@,
        ensures
            self.wf(),
            self.extends(older),
            forall|w: World| !covered(regions(added), w) ==> #[trigger] self.keeps(older, w),
            forall|w: World| #[trigger] covered(regions(added), w) ==> self.redirects_in(older, w, x, target),
    {
        let old_list = older.bindings@[x as int]@;
        let new_list = self.bindings@[x as int]@;
        assert(self.regions_of(x) =~= older.regions_of(x) + regions(added));
        assert forall|i: int| 0 <= i < older.regions_of(x).len() implies #[trigger] older.regions_of(x)[i].wf() by {
            assert(older.regions_of(x)[i] == old_list[i].0);
        }
        assert forall|w: World| !(#[trigger] covered(older.regions_of(x), w) && covered(regions(added), w)) by {
            if covered(older.regions_of(x), w) && covered(regions(added), w) {
                let i = choose|i: int| 0 <= i < older.regions_of(x).len() && #[trigger] older.regions_of(x)[i].holds(w);
                assert(older.regions_of(x)[i] == old_list[i].0);
                assert(old_list[i].0.holds(w));
            }
        }
        lemma_disjoint_concat(older.regions_of(x), regions(added));
        assert(self.bindings_ok()) by {
            assert forall|y: int, i: int|
                0 <= y < self.bindings@.len() && 0 <= i < self.bindings@[y]@.len() implies {
                    &&& (#[trigger] self.bindings@[y]@[i]).0.wf()
                    &&& self.bindings@[y]@[i].1.0 < self.nodes@.len()
                } by {
                if y != x {
                    assert(self.bindings@[y] == older.bindings@[y]);
                } else if i < old_list.len() {
                    assert(new_list[i] == old_list[i]);
                } else {
                    assert(new_list[i] == added[i - old_list.len()]);
                    assert(regions(added)[i - old_list.len()] == added[i - old_list.len()].0);
                }
            }
            assert forall|y: nat| y < self.bindings@.len() implies disjoint(#[trigger] self.regions_of(y)) by {
                if y != x {
                    assert(self.bindings@[y as int] == older.bindings@[y as int]);
                    assert(self.regions_of(y) == older.regions_of(y));
                }
            }
        }
        assert forall|w: World| #[trigger] self.bound(w, x) == (if covered(regions(added), w) {
            Some(target)
        } else {
            older.bound(w, x)
        }) by {
            if covered(regions(added), w) {
                let j = choose|j: int| 0 <= j < regions(added).len() && #[trigger] regions(added)[j].holds(w);
                assert(new_list[old_list.len() + j] == added[j]);
                self.lemma_bound_is(w, x, old_list.len() + j);
            } else if older.bound(w, x) is Some {
                let i = choose|i: int| 0 <= i < old_list.len() && #[trigger] old_list[i].0.holds(w);
                older.lemma_bound_is(w, x, i);
                assert(new_list[i] == old_list[i]);
                self.lemma_bound_is(w, x, i);
            } else {
                assert forall|i: int| 0 <= i < new_list.len() implies !(#[trigger] new_list[i].0.holds(w)) by {
                    if i < old_list.len() {
                        assert(new_list[i] == old_list[i]);
                    } else {
                        assert(new_list[i] == added[i - old_list.len()]);
                        assert(regions(added)[i - old_list.len()] == added[i - old_list.len()].0);
                    }
                }
            }
        }
        assert forall|w: World, y: nat| y != x implies #[trigger] self.bound(w, y) == older.bound(w, y) by {
            if y < self.bindings@.len() {
                assert(self.bindings@[y as int] == older.bindings@[y as int]);
            }
        }
        assert forall|n: int| 0 <= n < self.nodes@.len() implies self.node_ok(#[trigger] self.nodes@[n]) by {
            assert(older.node_ok(older.nodes@[n]));
        }
        assert forall|w: World, n: nat| n < self.nodes@.len() implies #[trigger] self.within(w, n, self.fuel@) by {
            assert(older.within(w, n, older.fuel@));
            if covered(regions(added), w) {
                assert(self.redirects_in(older, w, x, target));
                assert(older.within(w, target, older.fuel@));
                self.lemma_redirect_clean(older, w, x, target, target, older.fuel@, older.fuel@);
                self.lemma_redirect_deepen(older, w, x, target, n, older.fuel@);
            } else {
                assert forall|y: nat| #[trigger] self.bound(w, y) == older.bound(w, y) by {
                    if y == x {
                    }
                }
                self.lemma_keeps_agrees_raw(older, w);
                self.lemma_within_frame(older, w, n, older.fuel@);
                self.lemma_within_mono(w, n, older.fuel@, self.fuel@);
            }
        }
        assert forall|w: World, y: nat| older.bound(w, y) is Some implies #[trigger] self.bound(w, y) == older.bound(w, y) by {
            if y == x {
                if covered(regions(added), w) {
                }
            }
        }
        assert forall|w: World| !covered(regions(added), w) implies #[trigger] self.keeps(older, w) by {
            assert forall|y: nat| #[trigger] self.bound(w, y) == older.bound(w, y) by {
                if y == x {
                }
            }
        }
    }

    /// Agreement in a world, from equal nodes and labels and equal redirects there.
    proof fn lemma_keeps_agrees_raw(&self, older: &Graph, w: World)
        requires
            self.nodes@ == older.nodes@,
            self.births@ == older.births@,
            forall|x: nat| #[trigger] self.bound(w, x) == older.bound(w, x),
        ensures
            self.agrees_in(older, w),
    {
    }
}

/// The shape of a node, without its payload.
#[derive(Clone, Copy)]
enum Shape {
    Var(u64),
    Pick,
    Fun,
}

impl Graph {
    fn shape(&self, n: NodeId) -> (r: Shape)
        requires
            n.0 < self.nodes@.len(),
        ensures
            match r {
                Shape::Var(x) => self.nodes@[n.0 as int] == Node::Unknown(x),
                Shape::Pick => self.nodes@[n.0 as int] is Choice,
                Shape::Fun => self.nodes@[n.0 as int] is App,
            },
    {
        match &self.nodes[n.0] {
            Node::Unknown(x) => Shape::Var(*x),
            Node::Choice(..) => Shape::Pick,
            Node::App(..) => Shape::Fun,
        }
    }

    /// The argument pairs of two applications of one constructor with as many arguments.
    fn pairs(&self, l: NodeId, r: NodeId) -> (p: Option<Vec<(NodeId, NodeId)>>)
        requires
            self.wf(),
            l.0 < self.nodes@.len(),
            r.0 < self.nodes@.len(),
        ensures
            match p {
                Some(v) => self.nodes@[l.0 as int] matches Node::App(f, xs) && self.nodes@[r.0 as int] matches Node::App(g, ys)
                    && f@ == g@ && xs@.len() == ys@.len() && v@.len() == xs@.len() && forall|i: int|
                    0 <= i < v@.len() ==> (#[trigger] v@[i]).0 == xs@[i] && v@[i].1 == ys@[i] && v@[i].0.0
                        < self.nodes@.len() && v@[i].1.0 < self.nodes@.len(),
                None => !(self.nodes@[l.0 as int] matches Node::App(f, xs) && self.nodes@[r.0 as int] matches Node::App(g, ys)
                    && f@ == g@ && xs@.len() == ys@.len()),
            },
    {
        match (&self.nodes[l.0], &self.nodes[r.0]) {
            (Node::App(f, xs), Node::App(g, ys)) => {
                if *f == *g && xs.len() == ys.len() {
                    let mut v: Vec<(NodeId, NodeId)> = Vec::new();
                    let mut i: usize = 0;
                    while i < xs.len()
                        invariant
                            self.wf(),
                            l.0 < self.nodes@.len(),
                            r.0 < self.nodes@.len(),
                            self.nodes@[l.0 as int] == Node::App(*f, *xs),
                            self.nodes@[r.0 as int] == Node::App(*g, *ys),
                            xs@.len() == ys@.len(),
                            0 <= i <= xs.len(),
                            v@.len() == i,
                            forall|j: int| 0 <= j < i ==> (#[trigger] v@[j]).0 == xs@[j] && v@[j].1 == ys@[j] && v@[j].0.0
                                < self.nodes@.len() && v@[j].1.0 < self.nodes@.len(),
                        decreases xs.len() - i,
                    {
                        proof {
                            let ghost vx: Vec<NodeId> = *xs;
                            let ghost vy: Vec<NodeId> = *ys;
                            assert(self.node_ok(self.nodes@[l.0 as int]));
                            assert(self.node_ok(self.nodes@[r.0 as int]));
                            lemma_app_child(self, *f, vx, i as int);
                            lemma_app_child(self, *g, vy, i as int);
                        }
                        v.push((xs[i], ys[i]));
                        i += 1;
                    }
                    Some(v)
                } else {
                    None
                }
            },
            _ => None,
        }
    }

    /// Keeping `older` in a world keeps everything measured there.
    proof fn lemma_keeps_same(&self, older: &Graph, w: World)
        requires
            older.wf(),
            self.wf(),
            self.extends(older),
            self.keeps(older, w),
        ensures
            self.unbound_count(w) == older.unbound_count(w),
            forall|n: nat| n < older.nodes@.len() ==> #[trigger] self.resolved(w, n) == older.resolved(w, n),
            forall|n: nat| n < older.nodes@.len() ==> #[trigger] self.depth(w, n) == older.depth(w, n),
            forall|n: nat| n < older.nodes@.len() ==> #[trigger] self.settled(w, n) == older.settled(w, n),
            forall|l: nat, r: nat, mu: nat, md: nat| l < older.nodes@.len() && r < older.nodes@.len() ==>
                #[trigger] self.measure_ok(w, l, r, mu, md) == older.measure_ok(w, l, r, mu, md),
    {
        self.lemma_keeps_agrees(older, w);
        assert(self.unbound_set(w) =~= older.unbound_set(w));
        assert forall|n: nat| n < older.nodes@.len() implies #[trigger] self.resolved(w, n) == older.resolved(w, n) by {
            assert(self.within(w, n, self.fuel@));
            assert(older.within(w, n, older.fuel@));
            self.lemma_within_frame(older, w, n, self.fuel@);
            older.lemma_chase_agree(w, n, self.fuel@, older.fuel@);
        }
        assert forall|n: nat| n < older.nodes@.len() implies #[trigger] self.depth(w, n) == older.depth(w, n) by {
            assert(self.within(w, n, self.fuel@));
            self.lemma_depth_frame(older, w, n);
        }
    }

    /// Graphs with the same nodes, labels, redirects and fuel read the same trees.
    proof fn lemma_same_terms_chase(&self, older: &Graph, w: World, n: nat, k: nat)
        requires
            self.same_terms(older),
        ensures
            self.within(w, n, k) == older.within(w, n, k),
            self.chase(w, n, k) == older.chase(w, n, k),
        decreases k,
    {
        if k > 0 && n < self.nodes@.len() {
            assert forall|y: nat| #[trigger] self.bound(w, y) == older.bound(w, y) by {}
            assert forall|l: nat| #[trigger] self.born(w, l) == older.born(w, l) by {}
            match self.nodes@[n as int] {
                Node::Unknown(y) => {
                    if let Some(t) = self.bound(w, y as nat) {
                        self.lemma_same_terms_chase(older, w, t, (k - 1) as nat);
                    }
                },
                Node::App(_, cs) => {
                    assert forall|i: int| 0 <= i < cs@.len() implies self.within(w, (#[trigger] cs@[i]).0 as nat, (k - 1) as nat)
                        == older.within(w, cs@[i].0 as nat, (k - 1) as nat) by {
                        self.lemma_same_terms_chase(older, w, cs@[i].0 as nat, (k - 1) as nat);
                    }
                },
                Node::Choice(l, a, b) => {
                    self.lemma_same_terms_chase(older, w, arm_of(w, l, a, b), (k - 1) as nat);
                },
            }
        }
    }

    proof fn lemma_same_terms_occurs(&self, older: &Graph, w: World, x: nat, n: nat, k: nat)
        requires
            self.same_terms(older),
        ensures
            self.occurs_in(w, x, n, k) == older.occurs_in(w, x, n, k),
        decreases k,
    {
        if k > 0 {
            assert forall|l: nat| #[trigger] self.born(w, l) == older.born(w, l) by {}
            self.lemma_same_terms_chase(older, w, n, self.fuel@);
            let m = self.resolved(w, n);
            match self.nodes@[m as int] {
                Node::App(_, cs) => {
                    assert forall|i: int| 0 <= i < cs@.len() implies self.occurs_in(w, x, (#[trigger] cs@[i]).0 as nat, (k - 1) as nat)
                        == older.occurs_in(w, x, cs@[i].0 as nat, (k - 1) as nat) by {
                        self.lemma_same_terms_occurs(older, w, x, cs@[i].0 as nat, (k - 1) as nat);
                    }
                },
                Node::Choice(l, a, b) => {
                    self.lemma_same_terms_occurs(older, w, x, arm_of(w, l, a, b), (k - 1) as nat);
                },
                _ => {},
            }
        }
    }
}

impl Graph {
    /// What a committing operation on `context` promises: the graph stays well
    /// formed and only grows, nothing changes outside `context`, and the returned
    /// cubes are disjoint, inside `context` and alive.
    pub closed spec fn commits(&self, older: &Graph, context: &Context, r: Seq<Context>) -> bool {
        &&& self.wf()
        &&& self.extends(older)
        &&& forall|w: World| !context.holds(w) ==> #[trigger] self.keeps(older, w)
        &&& all_wf(r)
        &&& disjoint(r)
        &&& forall|w: World| #[trigger] covered(r, w) ==> context.holds(w) && !self.failed_in(w)
    }

    /// Every world of `context` where every label exists and that has not failed
    /// lies in one of the returned cubes: such a world either keeps the equality
    /// or fails.
    pub open spec fn completes(&self, context: &Context, r: Seq<Context>) -> bool {
        forall|w: World| context.holds(w) && self.all_born(w) && !self.failed_in(w) ==> #[trigger] covered(r, w)
    }

    /// No world of `context` that had not failed and where the nodes `l` and `r`
    /// already stood for the same tree fails: only a contradiction fails a world.
    pub open spec fn fails_only_unequal(&self, older: &Graph, context: &Context, l: nat, r: nat) -> bool {
        forall|w: World| context.holds(w) && older.denotes(w, l) == older.denotes(w, r) && !older.failed_in(w) ==> !#[trigger] self.failed_in(w)
    }

    /// Redirect a free unknown to `target` in the live part of `region`, failing
    /// the worlds where that would build an infinite tree.
    fn bind(
        &mut self,
        variable: NodeId,
        var: u64,
        target: NodeId,
        region: &Context,
        Ghost(mu): Ghost<nat>,
        Ghost(md): Ghost<nat>,
    ) -> (r: Vec<Context>)
        requires
            old(self).wf(),
            region.wf(),
            variable.0 < old(self).nodes@.len(),
            target.0 < old(self).nodes@.len(),
            old(self).nodes@[variable.0 as int] == Node::Unknown(var),
            forall|w: World| #[trigger] region.holds(w) ==> {
                &&& old(self).bound(w, var as nat) is None
                &&& !old(self).failed_in(w)
                &&& old(self).settled(w, target.0 as nat)
                &&& old(self).measure_ok(w, variable.0 as nat, target.0 as nat, mu, md)
            },
        ensures
            final(self).commits(old(self), region, r@),
            forall|w: World| #[trigger] covered(r@, w) ==> final(self).denotes(w, variable.0 as nat) == final(self).denotes(w, target.0 as nat),
            final(self).completes(region, r@),
            old(self).nodes@[target.0 as int] != Node::Unknown(var) ==> final(self).fails_only_unequal(
                old(self),
                region,
                variable.0 as nat,
                target.0 as nat,
            ),
        decreases mu, md, 0nat,
    {
        let ghost entry = *self;
        proof {
            assert(self.node_ok(self.nodes@[variable.0 as int]));
            self.lemma_extends_refl();
        }
        let occurs = self.occurs(var, target, region, Ghost(self.fuel@));
        let pick = match self.shape(target) {
            Shape::Pick => true,
            _ => false,
        };
        if occurs.len() > 0 && pick {
            // A top-level X alternative is reflexive; demand that choice before
            // distinguishing it from a real constructor cycle.
            let arms = self.arms(target, region);
            let mut result: Vec<Context> = Vec::new();
            let mut i: usize = 0;
            while i < arms.len()
                invariant
                    entry.wf(),
                    self.wf(),
                    self.extends(&entry),
                    region.wf(),
                    variable.0 < entry.nodes@.len(),
                    target.0 < entry.nodes@.len(),
                    entry.nodes@[variable.0 as int] == Node::Unknown(var),
                    entry.nodes@[target.0 as int] is Choice,
                    forall|w: World| #[trigger] region.holds(w) ==> {
                        &&& entry.bound(w, var as nat) is None
                        &&& !entry.failed_in(w)
                        &&& entry.settled(w, target.0 as nat)
                        &&& entry.measure_ok(w, variable.0 as nat, target.0 as nat, mu, md)
                    },
                    all_wf(regions(arms@)),
                    disjoint(regions(arms@)),
                    forall|w: World| #[trigger]
                        covered(regions(arms@), w) <==> (region.holds(w) && entry.present(w, target.0 as nat)),
                    forall|e: int, w: World|
                        0 <= e < arms@.len() && #[trigger] arms@[e].0.holds(w) ==> {
                            &&& arms@[e].1.0 < entry.nodes@.len()
                            &&& arms@[e].1.0 == entry.step(w, target.0 as nat)
                        },
                    0 <= i <= arms.len(),
                    forall|w: World| !covered(regions(arms@.subrange(0, i as int)), w) ==> #[trigger] self.keeps(&entry, w),
                    all_wf(result@),
                    disjoint(result@),
                    forall|w: World| #[trigger] covered(result@, w) ==> covered(regions(arms@.subrange(0, i as int)), w)
                        && !self.failed_in(w),
                    forall|w: World| #[trigger] covered(result@, w) ==> self.denotes(w, variable.0 as nat) == self.denotes(w, target.0 as nat),
                    forall|w: World| covered(regions(arms@.subrange(0, i as int)), w) && entry.all_born(w) && !self.failed_in(w)
                        ==> #[trigger] covered(result@, w),
                    forall|w: World| region.holds(w) && entry.denotes(w, variable.0 as nat) == entry.denotes(w, target.0 as nat) && !entry.failed_in(w) ==> !#[trigger] self.failed_in(w),
                decreases arms.len() - i,
            {
                let child = arms[i].1;
                let ghost piece = arms@[i as int].0;
                let ghost now = *self;
                proof {
                    assert(regions(arms@)[i as int] == piece);
                    assert(piece.wf());
                    let wp = lemma_inhabited(&piece);
                    assert(arms@[i as int].0.holds(wp));
                    assert(covered(regions(arms@), wp));
                    entry.lemma_depth_below(wp, target.0 as nat, child.0 as nat);
                    self.lemma_measure_step(&entry, wp, variable.0 as nat, target.0 as nat, variable.0 as nat, child.0 as nat, mu, md);
                    assert forall|w: World| #[trigger] piece.holds(w) implies !covered(regions(arms@.subrange(0, i as int)), w) by {
                        if covered(regions(arms@.subrange(0, i as int)), w) {
                            let q = choose|q: int| 0 <= q < i && #[trigger] regions(arms@.subrange(0, i as int))[q].holds(w);
                            assert(regions(arms@.subrange(0, i as int))[q] == regions(arms@)[q]);
                            assert(!(regions(arms@)[q].holds(w) && regions(arms@)[i as int].holds(w)));
                        }
                    }
                    assert forall|w: World| #[trigger] piece.holds(w) implies {
                        &&& !self.failed_in(w)
                        &&& self.measure_ok(w, variable.0 as nat, child.0 as nat, next_mu(mu, md), next_md(md, self.fuel@))
                    } by {
                        assert(arms@[i as int].0.holds(w));
                        assert(covered(regions(arms@), w));
                        assert(region.holds(w));
                        assert(self.keeps(&entry, w));
                        entry.lemma_depth_below(w, target.0 as nat, child.0 as nat);
                        self.lemma_measure_step(&entry, w, variable.0 as nat, target.0 as nat, variable.0 as nat, child.0 as nat, mu, md);
                    }
                }
                let sub = self.equate(variable, child, &arms[i].0, Ghost(next_mu(mu, md)), Ghost(next_md(md, now.fuel@)));
                let ghost before = result@;
                proof {
                    self.lemma_extends_trans(&now, &entry);
                    assert forall|w: World| #[trigger] covered(sub@, w) implies self.denotes(w, variable.0 as nat) == self.denotes(w, target.0 as nat) by {
                        assert(piece.holds(w));
                        assert(arms@[i as int].0.holds(w));
                        assert(covered(regions(arms@), w));
                        self.lemma_denotes_arm(w, target.0 as nat);
                    }
                    assert forall|w: World| #[trigger] covered(before, w) implies self.denotes(w, variable.0 as nat) == self.denotes(w, target.0 as nat) by {
                        self.lemma_denotes_extend(&now, w, variable.0 as nat, target.0 as nat);
                    }
                    lemma_gather_within(
                        before,
                        sub@,
                        |w: World| covered(regions(arms@.subrange(0, i as int)), w),
                        |w: World| piece.holds(w),
                    );
                    assert forall|w: World| !covered(regions(arms@.subrange(0, i + 1)), w) implies #[trigger] self.keeps(&entry, w) by {
                        lemma_prefix_step(arms@, i as int, w);
                        assert(self.keeps(&now, w));
                        assert(now.keeps(&entry, w));
                    }
                }
                let mut sub = sub;
                result.append(&mut sub);
                proof {
                    assert forall|w: World| #[trigger] covered(result@, w) implies covered(regions(arms@.subrange(0, i + 1)), w)
                        && !self.failed_in(w) by {
                        lemma_prefix_step(arms@, i as int, w);
                        if covered(before, w) {
                            assert(!piece.holds(w) ==> self.keeps(&now, w));
                        }
                    }
                    assert forall|w: World| #[trigger] covered(result@, w) implies self.denotes(w, variable.0 as nat) == self.denotes(w, target.0 as nat) by {
                        lemma_covered_concat(before, sub@, w);
                    }
                    assert forall|w: World| covered(regions(arms@.subrange(0, i + 1)), w) && entry.all_born(w) && !self.failed_in(w)
                        implies #[trigger] covered(result@, w) by {
                        lemma_prefix_step(arms@, i as int, w);
                        lemma_covered_concat(before, sub@, w);
                        self.lemma_all_born_same(&entry, w);
                        if !piece.holds(w) {
                            assert(self.keeps(&now, w));
                        }
                    }
                    assert forall|w: World| region.holds(w) && entry.denotes(w, variable.0 as nat) == entry.denotes(w, target.0 as nat)
                        && !entry.failed_in(w) implies !#[trigger] self.failed_in(w) by {
                        if piece.holds(w) {
                            assert(arms@[i as int].0.holds(w));
                            assert(covered(regions(arms@), w));
                            entry.lemma_denotes_arm(w, target.0 as nat);
                            self.lemma_extends_trans(&now, &entry);
                            now.lemma_denotes_extend(&entry, w, variable.0 as nat, child.0 as nat);
                        } else {
                            assert(self.keeps(&now, w));
                        }
                    }
                }
                i += 1;
            }
            proof {
                assert(arms@.subrange(0, i as int) == arms@);
                assert forall|w: World| !region.holds(w) implies #[trigger] self.keeps(&entry, w) by {
                    assert(!covered(regions(arms@), w));
                }
                assert forall|w: World| region.holds(w) && self.all_born(w) && !self.failed_in(w) implies #[trigger] covered(result@, w) by {
                    self.lemma_all_born_same(&entry, w);
                    entry.lemma_all_born_present(w, target.0 as nat);
                    assert(covered(regions(arms@), w));
                }
            }
            return result;
        }
        let mut k: usize = 0;
        while k < occurs.len()
            invariant
                entry.wf(),
                self.wf(),
                self.same_terms(&entry),
                all_wf(occurs@),
                0 <= k <= occurs.len(),
                forall|w: World| #[trigger] self.failed_in(w) <==> (entry.failed_in(w) || covered(occurs@.subrange(0, k as int), w)),
            decreases occurs.len() - k,
        {
            proof {
                assert(occurs@[k as int].wf());
            }
            let ghost prior = *self;
            self.fail(&occurs[k]);
            proof {
                assert forall|w: World| #[trigger] self.failed_in(w) <==> (entry.failed_in(w) || covered(occurs@.subrange(0, k + 1), w)) by {
                    lemma_covered_step(occurs@, k as int, w);
                }
            }
            k += 1;
        }
        proof {
            assert(occurs@.subrange(0, k as int) == occurs@);
            assert forall|w: World| region.holds(w) && entry.denotes(w, variable.0 as nat) == entry.denotes(w, target.0 as nat)
                && !entry.failed_in(w) && entry.nodes@[target.0 as int] != Node::Unknown(var) implies !#[trigger] self.failed_in(w) by {
                if covered(occurs@, w) {
                    assert(!pick || occurs.len() == 0);
                    entry.lemma_denotes_shape(w, variable.0 as nat);
                    entry.lemma_denotes_shape(w, target.0 as nat);
                }
            }
        }
        let live = self.live(region);
        let ghost mid = *self;
        let index: usize = var as usize;
        proof {
            assert(var < self.bindings.len());
            assert(index == var);
        }
        let ghost mid_list = self.bindings@[index as int]@;
        let mut k: usize = 0;
        while k < live.len()
            invariant
                mid.wf(),
                index == var,
                index < mid.bindings@.len(),
                target.0 < mid.nodes@.len(),
                self.nodes@ == mid.nodes@,
                self.births@ == mid.births@,
                self.failed@ == mid.failed@,
                self.fuel@ == mid.fuel@,
                self.bindings@.len() == mid.bindings@.len(),
                mid_list == mid.bindings@[index as int]@,
                forall|y: int| 0 <= y < self.bindings@.len() && y != index ==> #[trigger] self.bindings@[y] == mid.bindings@[y],
                0 <= k <= live.len(),
                self.bindings@[index as int]@.len() == mid_list.len() + k,
                self.bindings@[index as int]@.subrange(0, mid_list.len() as int) == mid_list,
                forall|j: int| 0 <= j < k ==> (#[trigger] self.bindings@[index as int]@[mid_list.len() + j]).0.literals@
                    == live@[j].literals@ && self.bindings@[index as int]@[mid_list.len() + j].1 == target,
            decreases live.len() - k,
        {
            let ghost prior = self.bindings@[index as int]@;
            self.bindings[index].push((live[k].copy(), target));
            proof {
                assert(self.bindings@[index as int]@ == prior.push(self.bindings@[index as int]@[prior.len() as int]));
                assert(self.bindings@[index as int]@.subrange(0, mid_list.len() as int) =~= mid_list);
            }
            k += 1;
        }
        self.fuel = Ghost(2 * self.fuel@);
        proof {
            let list = self.bindings@[index as int]@;
            let added = list.subrange(mid_list.len() as int, list.len() as int);
            assert(list =~= mid_list + added);
            assert forall|j: int| 0 <= j < added.len() implies (#[trigger] regions(added)[j]).literals@ == live@[j].literals@ by {
                assert(added[j] == list[mid_list.len() + j]);
            }
            lemma_same_cubes(regions(added), live@);
            assert forall|w: World| #[trigger] covered(regions(added), w) implies mid.bound(w, var as nat) is None
                && !mid.occurs_in(w, var as nat, target.0 as nat, mid.fuel@) by {
                assert(covered(live@, w));
                assert(region.holds(w));
                assert(!covered(occurs@, w));
                mid.lemma_same_terms_occurs(&entry, w, var as nat, target.0 as nat, mid.fuel@);
                assert forall|y: nat| #[trigger] mid.bound(w, y) == entry.bound(w, y) by {}
            }
            assert forall|j: int| 0 <= j < added.len() implies (#[trigger] added[j]).1.0 == target.0 by {
                assert(added[j] == list[mid_list.len() + j]);
            }
            self.lemma_bind_effect(&mid, var as nat, target.0 as nat, added);
            assert forall|w: World, x: nat| #![trigger mid.bound(w, x)] entry.bound(w, x) is Some implies mid.bound(w, x) == entry.bound(w, x) by {}
            assert(mid.extends(&entry));
            self.lemma_extends_trans(&mid, &entry);
            assert forall|w: World| !region.holds(w) implies #[trigger] self.keeps(&entry, w) by {
                assert(!covered(live@, w));
                assert(!covered(regions(added), w));
                assert(self.keeps(&mid, w));
                assert(!covered(occurs@, w));
                assert forall|x: nat| #[trigger] mid.bound(w, x) == entry.bound(w, x) by {}
                assert(mid.keeps(&entry, w));
            }
            assert forall|w: World| #[trigger] covered(live@, w) implies region.holds(w) && !self.failed_in(w) by {
                assert(self.failed@ == mid.failed@);
            }
            assert forall|w: World| #[trigger] covered(live@, w) implies self.denotes(w, variable.0 as nat) == self.denotes(w, target.0 as nat) by {
                assert(covered(regions(added), w));
                assert(self.redirects_in(&mid, w, var as nat, target.0 as nat));
                self.lemma_denotes_bound(w, variable.0 as nat, var, target.0 as nat);
            }
            assert forall|w: World| region.holds(w) && self.all_born(w) && !self.failed_in(w) implies #[trigger] covered(live@, w) by {
                assert(!mid.failed_in(w));
            }
            assert forall|w: World| region.holds(w) && entry.denotes(w, variable.0 as nat) == entry.denotes(w, target.0 as nat)
                && !entry.failed_in(w) && entry.nodes@[target.0 as int] != Node::Unknown(var) implies !#[trigger] self.failed_in(w) by {
                assert(!mid.failed_in(w));
            }
        }
        live
    }
}

impl Graph {
    /// Commit an equality between two nodes in the live `context`, failing the
    /// worlds where it cannot hold.
    fn equate(
        &mut self,
        left: NodeId,
        right: NodeId,
        context: &Context,
        Ghost(mu): Ghost<nat>,
        Ghost(md): Ghost<nat>,
    ) -> (r: Vec<Context>)
        requires
            old(self).wf(),
            context.wf(),
            left.0 < old(self).nodes@.len(),
            right.0 < old(self).nodes@.len(),
            forall|w: World| #[trigger] context.holds(w) ==> {
                &&& !old(self).failed_in(w)
                &&& old(self).measure_ok(w, left.0 as nat, right.0 as nat, mu, md)
            },
        ensures
            final(self).commits(old(self), context, r@),
            forall|w: World| #[trigger] covered(r@, w) ==> final(self).denotes(w, left.0 as nat) == final(self).denotes(w, right.0 as nat),
            final(self).completes(context, r@),
            final(self).fails_only_unequal(old(self), context, left.0 as nat, right.0 as nat),
        decreases mu, md, 2nat,
    {
        let ghost entry = *self;
        proof {
            self.lemma_extends_refl();
            assert forall|w: World| #[trigger] context.holds(w) implies self.within(w, left.0 as nat, self.fuel@) by {}
        }
        let lefts = self.resolve(left, context, Ghost(self.fuel@));
        let mut result: Vec<Context> = Vec::new();
        let mut i: usize = 0;
        while i < lefts.len()
            invariant
                entry.wf(),
                self.wf(),
                self.extends(&entry),
                context.wf(),
                left.0 < entry.nodes@.len(),
                right.0 < entry.nodes@.len(),
                forall|w: World| #[trigger] context.holds(w) ==> {
                    &&& !entry.failed_in(w)
                    &&& entry.measure_ok(w, left.0 as nat, right.0 as nat, mu, md)
                },
                all_wf(regions(lefts@)),
                disjoint(regions(lefts@)),
                forall|w: World| #[trigger] covered(regions(lefts@), w) <==> context.holds(w),
                forall|e: int, w: World|
                    0 <= e < lefts@.len() && #[trigger] lefts@[e].0.holds(w) ==> {
                        &&& lefts@[e].1.0 < entry.nodes@.len()
                        &&& lefts@[e].1.0 == entry.resolved(w, left.0 as nat)
                    },
                0 <= i <= lefts.len(),
                forall|w: World| !covered(regions(lefts@.subrange(0, i as int)), w) ==> #[trigger] self.keeps(&entry, w),
                all_wf(result@),
                disjoint(result@),
                forall|w: World| #[trigger] covered(result@, w) ==> covered(regions(lefts@.subrange(0, i as int)), w)
                    && !self.failed_in(w),
                forall|w: World| #[trigger] covered(result@, w) ==> self.denotes(w, left.0 as nat) == self.denotes(w, right.0 as nat),
                forall|w: World| covered(regions(lefts@.subrange(0, i as int)), w) && entry.all_born(w) && !self.failed_in(w)
                    ==> #[trigger] covered(result@, w),
                forall|w: World| context.holds(w) && entry.denotes(w, left.0 as nat) == entry.denotes(w, right.0 as nat) && !entry.failed_in(w) ==> !#[trigger] self.failed_in(w),
            decreases lefts.len() - i,
        {
            let l2 = lefts[i].1;
            let ghost lregion = lefts@[i as int].0;
            let ghost mid = *self;
            proof {
                assert(regions(lefts@)[i as int] == lregion);
                assert(lregion.wf());
                let wp = lemma_inhabited(&lregion);
                assert(lefts@[i as int].0.holds(wp));
                assert(covered(regions(lefts@), wp));
                assert forall|w: World| #[trigger] lregion.holds(w) implies !covered(regions(lefts@.subrange(0, i as int)), w) by {
                    if covered(regions(lefts@.subrange(0, i as int)), w) {
                        let q = choose|q: int| 0 <= q < i && #[trigger] regions(lefts@.subrange(0, i as int))[q].holds(w);
                        assert(regions(lefts@.subrange(0, i as int))[q] == regions(lefts@)[q]);
                        assert(!(regions(lefts@)[q].holds(w) && regions(lefts@)[i as int].holds(w)));
                    }
                }
                assert forall|w: World| #[trigger] lregion.holds(w) implies self.within(w, right.0 as nat, self.fuel@) by {}
            }
            let rights = self.resolve(right, &lefts[i].0, Ghost(self.fuel@));
            let ghost outer = result@;
            let mut j: usize = 0;
            while j < rights.len()
                invariant
                    entry.wf(),
                    mid.wf(),
                    mid.extends(&entry),
                    self.wf(),
                    self.extends(&entry),
                    self.extends(&mid),
                    context.wf(),
                    left.0 < entry.nodes@.len(),
                    right.0 < entry.nodes@.len(),
                    forall|w: World| #[trigger] context.holds(w) ==> {
                        &&& !entry.failed_in(w)
                        &&& entry.measure_ok(w, left.0 as nat, right.0 as nat, mu, md)
                    },
                    all_wf(regions(lefts@)),
                    disjoint(regions(lefts@)),
                    forall|w: World| #[trigger] covered(regions(lefts@), w) <==> context.holds(w),
                    forall|e: int, w: World|
                        0 <= e < lefts@.len() && #[trigger] lefts@[e].0.holds(w) ==> {
                            &&& lefts@[e].1.0 < entry.nodes@.len()
                            &&& lefts@[e].1.0 == entry.resolved(w, left.0 as nat)
                        },
                    0 <= i < lefts.len(),
                    l2 == lefts@[i as int].1,
                    lregion == lefts@[i as int].0,
                    forall|w: World| #[trigger] lregion.holds(w) ==> !covered(regions(lefts@.subrange(0, i as int)), w),
                    forall|w: World| !covered(regions(lefts@.subrange(0, i as int)), w) ==> #[trigger] mid.keeps(&entry, w),
                    all_wf(regions(rights@)),
                    disjoint(regions(rights@)),
                    forall|w: World| #[trigger] covered(regions(rights@), w) <==> lregion.holds(w),
                    forall|e: int, w: World|
                        0 <= e < rights@.len() && #[trigger] rights@[e].0.holds(w) ==> {
                            &&& rights@[e].1.0 < mid.nodes@.len()
                            &&& rights@[e].1.0 == mid.chase(w, right.0 as nat, mid.fuel@)
                        },
                    0 <= j <= rights.len(),
                    forall|w: World| !covered(regions(rights@.subrange(0, j as int)), w) ==> #[trigger] self.keeps(&mid, w),
                    all_wf(result@),
                    disjoint(result@),
                    forall|w: World| #[trigger] covered(outer, w) ==> covered(regions(lefts@.subrange(0, i as int)), w),
                    forall|w: World| #[trigger] covered(result@, w) ==> (covered(outer, w) || covered(regions(rights@.subrange(0, j as int)), w))
                        && !self.failed_in(w),
                    forall|w: World| #[trigger] covered(result@, w) ==> self.denotes(w, left.0 as nat) == self.denotes(w, right.0 as nat),
                    forall|w: World| (covered(regions(lefts@.subrange(0, i as int)), w) || covered(regions(rights@.subrange(0, j as int)), w))
                        && entry.all_born(w) && !self.failed_in(w) ==> #[trigger] covered(result@, w),
                    forall|w: World| context.holds(w) && entry.denotes(w, left.0 as nat) == entry.denotes(w, right.0 as nat) && !entry.failed_in(w) ==> !#[trigger] self.failed_in(w),
                decreases rights.len() - j,
            {
                let r2 = rights[j].1;
                let ghost piece = rights@[j as int].0;
                let ghost now = *self;
                proof {
                    assert(regions(rights@)[j as int] == piece);
                    assert(piece.wf());
                    let wp = lemma_inhabited(&piece);
                    assert(rights@[j as int].0.holds(wp));
                    assert(covered(regions(rights@), wp));
                    assert(lefts@[i as int].0.holds(wp));
                    assert forall|w: World| #[trigger] piece.holds(w) implies !covered(regions(rights@.subrange(0, j as int)), w) by {
                        if covered(regions(rights@.subrange(0, j as int)), w) {
                            let q = choose|q: int| 0 <= q < j && #[trigger] regions(rights@.subrange(0, j as int))[q].holds(w);
                            assert(regions(rights@.subrange(0, j as int))[q] == regions(rights@)[q]);
                            assert(!(regions(rights@)[q].holds(w) && regions(rights@)[j as int].holds(w)));
                        }
                    }
                    assert forall|w: World| #[trigger] piece.holds(w) implies {
                        &&& !self.failed_in(w)
                        &&& self.settled(w, l2.0 as nat)
                        &&& self.settled(w, r2.0 as nat)
                        &&& self.measure_ok(w, l2.0 as nat, r2.0 as nat, mu, md)
                    } by {
                        assert(rights@[j as int].0.holds(w));
                        assert(covered(regions(rights@), w));
                        assert(lefts@[i as int].0.holds(w));
                        assert(regions(lefts@)[i as int].holds(w));
                        assert(covered(regions(lefts@), w));
                        assert(context.holds(w));
                        assert(mid.keeps(&entry, w));
                        assert(self.keeps(&mid, w));
                        self.lemma_extends_trans(&mid, &entry);
                        assert(self.keeps(&entry, w));
                        mid.lemma_keeps_same(&entry, w);
                        self.lemma_keeps_same(&entry, w);
                        entry.lemma_depth_resolved(w, left.0 as nat);
                        entry.lemma_depth_resolved(w, right.0 as nat);
                        assert(r2.0 == mid.resolved(w, right.0 as nat));
                    }
                }
                let sub = self.equate_pair(l2, r2, &rights[j].0, Ghost(mu), Ghost(md));
                let ghost before = result@;
                proof {
                    self.lemma_extends_trans(&now, &entry);
                    self.lemma_extends_trans(&now, &mid);
                    assert forall|w: World| #[trigger] covered(sub@, w) implies self.denotes(w, left.0 as nat) == self.denotes(w, right.0 as nat) by {
                        assert(piece.holds(w));
                        assert(rights@[j as int].0.holds(w));
                        assert(covered(regions(rights@), w));
                        assert(lregion.holds(w));
                        assert(lefts@[i as int].0.holds(w));
                        assert(mid.keeps(&entry, w));
                        mid.lemma_keeps_same(&entry, w);
                        assert(l2.0 == entry.resolved(w, left.0 as nat));
                        assert(r2.0 == mid.chase(w, right.0 as nat, mid.fuel@));
                        assert(mid.resolved(w, right.0 as nat) == entry.resolved(w, right.0 as nat));
                        assert(r2.0 == entry.resolved(w, right.0 as nat));
                        assert(self.denotes(w, l2.0 as nat) == self.denotes(w, r2.0 as nat));
                        self.lemma_denotes_through(&entry, w, left.0 as nat);
                        self.lemma_denotes_through(&entry, w, right.0 as nat);
                    }
                    assert forall|w: World| #[trigger] covered(before, w) implies self.denotes(w, left.0 as nat) == self.denotes(w, right.0 as nat) by {
                        self.lemma_denotes_extend(&now, w, left.0 as nat, right.0 as nat);
                    }
                    assert forall|w: World| covered(outer, w) || covered(regions(rights@.subrange(0, j as int)), w) implies !piece.holds(w) by {
                        if piece.holds(w) {
                            assert(regions(rights@)[j as int].holds(w));
                            assert(covered(regions(rights@), w));
                            assert(lregion.holds(w));
                            assert(!covered(regions(lefts@.subrange(0, i as int)), w));
                        }
                    }
                    lemma_gather_within(
                        before,
                        sub@,
                        |w: World| covered(outer, w) || covered(regions(rights@.subrange(0, j as int)), w),
                        |w: World| piece.holds(w),
                    );
                    assert forall|w: World| !covered(regions(rights@.subrange(0, j + 1)), w) implies #[trigger] self.keeps(&mid, w) by {
                        lemma_prefix_step(rights@, j as int, w);
                        assert(self.keeps(&now, w));
                        assert(now.keeps(&mid, w));
                    }
                }
                let mut sub = sub;
                result.append(&mut sub);
                proof {
                    assert forall|w: World| #[trigger] covered(result@, w) implies self.denotes(w, left.0 as nat) == self.denotes(w, right.0 as nat) by {
                        lemma_covered_concat(before, sub@, w);
                    }
                    assert forall|w: World| context.holds(w) && entry.denotes(w, left.0 as nat) == entry.denotes(w, right.0 as nat)
                        && !entry.failed_in(w) implies !#[trigger] self.failed_in(w) by {
                        if piece.holds(w) {
                            assert(rights@[j as int].0.holds(w));
                            assert(covered(regions(rights@), w));
                            assert(lregion.holds(w));
                            assert(lefts@[i as int].0.holds(w));
                            assert(mid.keeps(&entry, w));
                            mid.lemma_keeps_same(&entry, w);
                            assert(l2.0 == entry.resolved(w, left.0 as nat));
                            assert(r2.0 == mid.chase(w, right.0 as nat, mid.fuel@));
                            assert(mid.resolved(w, right.0 as nat) == entry.resolved(w, right.0 as nat));
                            entry.lemma_denotes_resolved(w, left.0 as nat);
                            entry.lemma_denotes_resolved(w, right.0 as nat);
                            now.lemma_extends_trans(&mid, &entry);
                            now.lemma_denotes_extend(&entry, w, l2.0 as nat, r2.0 as nat);
                        } else {
                            assert(self.keeps(&now, w));
                        }
                    }
                    assert forall|w: World| (covered(regions(lefts@.subrange(0, i as int)), w) || covered(regions(rights@.subrange(0, j + 1)), w))
                        && entry.all_born(w) && !self.failed_in(w) implies #[trigger] covered(result@, w) by {
                        lemma_prefix_step(rights@, j as int, w);
                        lemma_covered_concat(before, sub@, w);
                        self.lemma_all_born_same(&entry, w);
                        if !piece.holds(w) {
                            assert(self.keeps(&now, w));
                        }
                    }
                    assert forall|w: World| #[trigger] covered(result@, w) implies (covered(outer, w) || covered(regions(rights@.subrange(0, j + 1)), w))
                        && !self.failed_in(w) by {
                        lemma_prefix_step(rights@, j as int, w);
                        if covered(before, w) {
                            if covered(outer, w) {
                                assert(!lregion.holds(w));
                                assert(!covered(regions(rights@), w));
                                assert(!piece.holds(w)) by {
                                    if piece.holds(w) {
                                        assert(regions(rights@)[j as int].holds(w));
                                    }
                                }
                            }
                            assert(!piece.holds(w) ==> self.keeps(&now, w));
                        }
                    }
                }
                j += 1;
            }
            proof {
                assert(rights@.subrange(0, j as int) == rights@);
                self.lemma_extends_trans(&mid, &entry);
                assert forall|w: World| !covered(regions(lefts@.subrange(0, i + 1)), w) implies #[trigger] self.keeps(&entry, w) by {
                    lemma_prefix_step(lefts@, i as int, w);
                    assert(!lregion.holds(w));
                    assert(!covered(regions(rights@), w));
                }
                assert forall|w: World| #[trigger] covered(result@, w) implies covered(regions(lefts@.subrange(0, i + 1)), w)
                    && !self.failed_in(w) by {
                    lemma_prefix_step(lefts@, i as int, w);
                    if covered(regions(rights@), w) {
                        assert(lregion.holds(w));
                    }
                }
                assert forall|w: World| covered(regions(lefts@.subrange(0, i + 1)), w) && entry.all_born(w) && !self.failed_in(w)
                    implies #[trigger] covered(result@, w) by {
                    lemma_prefix_step(lefts@, i as int, w);
                    if lregion.holds(w) {
                        assert(covered(regions(rights@), w));
                    }
                }
            }
            i += 1;
        }
        proof {
            assert(lefts@.subrange(0, i as int) == lefts@);
            assert forall|w: World| !context.holds(w) implies #[trigger] self.keeps(&entry, w) by {
                assert(!covered(regions(lefts@), w));
            }
            assert forall|w: World| context.holds(w) && self.all_born(w) && !self.failed_in(w) implies #[trigger] covered(result@, w) by {
                self.lemma_all_born_same(&entry, w);
                assert(covered(regions(lefts@), w));
            }
        }
        result
    }

    /// Commit the equality of two nodes that are not redirected anywhere in `region`.
    fn equate_pair(
        &mut self,
        l2: NodeId,
        r2: NodeId,
        region: &Context,
        Ghost(mu): Ghost<nat>,
        Ghost(md): Ghost<nat>,
    ) -> (r: Vec<Context>)
        requires
            old(self).wf(),
            region.wf(),
            l2.0 < old(self).nodes@.len(),
            r2.0 < old(self).nodes@.len(),
            forall|w: World| #[trigger] region.holds(w) ==> {
                &&& !old(self).failed_in(w)
                &&& old(self).settled(w, l2.0 as nat)
                &&& old(self).settled(w, r2.0 as nat)
                &&& old(self).measure_ok(w, l2.0 as nat, r2.0 as nat, mu, md)
            },
        ensures
            final(self).commits(old(self), region, r@),
            forall|w: World| #[trigger] covered(r@, w) ==> final(self).denotes(w, l2.0 as nat) == final(self).denotes(w, r2.0 as nat),
            final(self).completes(region, r@),
            final(self).fails_only_unequal(old(self), region, l2.0 as nat, r2.0 as nat),
        decreases mu, md, 1nat,
    {
        let ghost entry = *self;
        proof {
            self.lemma_extends_refl();
        }
        let mut result: Vec<Context> = Vec::new();
        if l2 == r2 {
            result.push(region.copy());
            proof {
                assert forall|w: World| #[trigger] covered(result@, w) implies region.holds(w) && !self.failed_in(w) by {
                    let q = choose|q: int| 0 <= q < result@.len() && #[trigger] result@[q].holds(w);
                    assert(q == 0);
                    assert(result@[0].holds(w) == region.holds(w));
                }
                assert forall|w: World| region.holds(w) && self.all_born(w) && !self.failed_in(w) implies #[trigger] covered(result@, w) by {
                    assert(result@[0].holds(w));
                }
            }
            return result;
        }
        let sl = self.shape(l2);
        let sr = self.shape(r2);
        let same_var = match (sl, sr) {
            (Shape::Var(x), Shape::Var(y)) => x == y,
            _ => false,
        };
        if same_var {
            result.push(region.copy());
            proof {
                assert forall|w: World| #[trigger] covered(result@, w) implies region.holds(w) && !self.failed_in(w) by {
                    let q = choose|q: int| 0 <= q < result@.len() && #[trigger] result@[q].holds(w);
                    assert(q == 0);
                    assert(result@[0].holds(w) == region.holds(w));
                }
                assert forall|w: World| region.holds(w) && self.all_born(w) && !self.failed_in(w) implies #[trigger] covered(result@, w) by {
                    assert(result@[0].holds(w));
                }
                assert forall|w: World| #[trigger] covered(result@, w) implies self.denotes(w, l2.0 as nat) == self.denotes(w, r2.0 as nat) by {
                    assert(region.holds(w));
                    self.lemma_denotes_same_var(w, l2.0 as nat, r2.0 as nat);
                }
            }
            return result;
        }
        match sl {
            Shape::Var(x) => {
                return self.bind(l2, x, r2, region, Ghost(mu), Ghost(md));
            },
            _ => {},
        }
        match sr {
            Shape::Var(y) => {
                proof {
                    assert forall|w: World| #[trigger] region.holds(w) implies self.measure_ok(w, r2.0 as nat, l2.0 as nat, mu, md) by {}
                }
                return self.bind(r2, y, l2, region, Ghost(mu), Ghost(md));
            },
            _ => {},
        }
        let pick_left = match sl {
            Shape::Pick => true,
            _ => false,
        };
        let pick_right = match sr {
            Shape::Pick => true,
            _ => false,
        };
        if pick_left || pick_right {
            let (chooser, other) = if pick_left {
                (l2, r2)
            } else {
                (r2, l2)
            };
            let arms = self.arms(chooser, region);
            let mut i: usize = 0;
            while i < arms.len()
                invariant
                    entry.wf(),
                    self.wf(),
                    self.extends(&entry),
                    region.wf(),
                    chooser.0 < entry.nodes@.len(),
                    other.0 < entry.nodes@.len(),
                    entry.nodes@[chooser.0 as int] is Choice,
                    pick_left ==> chooser == l2 && other == r2,
                    !pick_left ==> chooser == r2 && other == l2,
                    forall|w: World| #[trigger] region.holds(w) ==> {
                        &&& !entry.failed_in(w)
                        &&& entry.measure_ok(w, chooser.0 as nat, other.0 as nat, mu, md)
                    },
                    all_wf(regions(arms@)),
                    disjoint(regions(arms@)),
                    forall|w: World| #[trigger]
                        covered(regions(arms@), w) <==> (region.holds(w) && entry.present(w, chooser.0 as nat)),
                    forall|e: int, w: World|
                        0 <= e < arms@.len() && #[trigger] arms@[e].0.holds(w) ==> {
                            &&& arms@[e].1.0 < entry.nodes@.len()
                            &&& arms@[e].1.0 == entry.step(w, chooser.0 as nat)
                        },
                    0 <= i <= arms.len(),
                    forall|w: World| !covered(regions(arms@.subrange(0, i as int)), w) ==> #[trigger] self.keeps(&entry, w),
                    all_wf(result@),
                    disjoint(result@),
                    forall|w: World| #[trigger] covered(result@, w) ==> covered(regions(arms@.subrange(0, i as int)), w)
                        && !self.failed_in(w),
                    l2.0 < entry.nodes@.len(),
                    r2.0 < entry.nodes@.len(),
                    forall|w: World| #[trigger] covered(result@, w) ==> self.denotes(w, l2.0 as nat) == self.denotes(w, r2.0 as nat),
                    forall|w: World| covered(regions(arms@.subrange(0, i as int)), w) && entry.all_born(w) && !self.failed_in(w)
                        ==> #[trigger] covered(result@, w),
                    forall|w: World| region.holds(w) && entry.denotes(w, l2.0 as nat) == entry.denotes(w, r2.0 as nat) && !entry.failed_in(w) ==> !#[trigger] self.failed_in(w),
                decreases arms.len() - i,
            {
                let child = arms[i].1;
                let ghost piece = arms@[i as int].0;
                let ghost now = *self;
                proof {
                    assert(regions(arms@)[i as int] == piece);
                    assert(piece.wf());
                    let wp = lemma_inhabited(&piece);
                    assert(arms@[i as int].0.holds(wp));
                    assert(covered(regions(arms@), wp));
                    entry.lemma_depth_below(wp, chooser.0 as nat, child.0 as nat);
                    self.lemma_measure_step(&entry, wp, chooser.0 as nat, other.0 as nat, child.0 as nat, other.0 as nat, mu, md);
                    assert forall|w: World| #[trigger] piece.holds(w) implies !covered(regions(arms@.subrange(0, i as int)), w) by {
                        if covered(regions(arms@.subrange(0, i as int)), w) {
                            let q = choose|q: int| 0 <= q < i && #[trigger] regions(arms@.subrange(0, i as int))[q].holds(w);
                            assert(regions(arms@.subrange(0, i as int))[q] == regions(arms@)[q]);
                            assert(!(regions(arms@)[q].holds(w) && regions(arms@)[i as int].holds(w)));
                        }
                    }
                    assert forall|w: World| #[trigger] piece.holds(w) implies {
                        &&& !self.failed_in(w)
                        &&& self.measure_ok(w, child.0 as nat, other.0 as nat, next_mu(mu, md), next_md(md, self.fuel@))
                        &&& self.measure_ok(w, other.0 as nat, child.0 as nat, next_mu(mu, md), next_md(md, self.fuel@))
                    } by {
                        assert(arms@[i as int].0.holds(w));
                        assert(covered(regions(arms@), w));
                        assert(region.holds(w));
                        assert(self.keeps(&entry, w));
                        entry.lemma_depth_below(w, chooser.0 as nat, child.0 as nat);
                        self.lemma_measure_step(&entry, w, chooser.0 as nat, other.0 as nat, child.0 as nat, other.0 as nat, mu, md);
                    }
                }
                let sub = if pick_left {
                    self.equate(child, other, &arms[i].0, Ghost(next_mu(mu, md)), Ghost(next_md(md, now.fuel@)))
                } else {
                    self.equate(other, child, &arms[i].0, Ghost(next_mu(mu, md)), Ghost(next_md(md, now.fuel@)))
                };
                let ghost before = result@;
                proof {
                    self.lemma_extends_trans(&now, &entry);
                    assert forall|w: World| #[trigger] covered(sub@, w) implies self.denotes(w, l2.0 as nat) == self.denotes(w, r2.0 as nat) by {
                        assert(piece.holds(w));
                        assert(arms@[i as int].0.holds(w));
                        assert(covered(regions(arms@), w));
                        self.lemma_denotes_arm(w, chooser.0 as nat);
                    }
                    assert forall|w: World| #[trigger] covered(before, w) implies self.denotes(w, l2.0 as nat) == self.denotes(w, r2.0 as nat) by {
                        self.lemma_denotes_extend(&now, w, l2.0 as nat, r2.0 as nat);
                    }
                    lemma_gather_within(
                        before,
                        sub@,
                        |w: World| covered(regions(arms@.subrange(0, i as int)), w),
                        |w: World| piece.holds(w),
                    );
                    assert forall|w: World| !covered(regions(arms@.subrange(0, i + 1)), w) implies #[trigger] self.keeps(&entry, w) by {
                        lemma_prefix_step(arms@, i as int, w);
                        assert(self.keeps(&now, w));
                        assert(now.keeps(&entry, w));
                    }
                }
                let mut sub = sub;
                result.append(&mut sub);
                proof {
                    assert forall|w: World| #[trigger] covered(result@, w) implies covered(regions(arms@.subrange(0, i + 1)), w)
                        && !self.failed_in(w) by {
                        lemma_prefix_step(arms@, i as int, w);
                        if covered(before, w) {
                            assert(!piece.holds(w) ==> self.keeps(&now, w));
                        }
                    }
                    assert forall|w: World| #[trigger] covered(result@, w) implies self.denotes(w, l2.0 as nat) == self.denotes(w, r2.0 as nat) by {
                        lemma_covered_concat(before, sub@, w);
                    }
                    assert forall|w: World| covered(regions(arms@.subrange(0, i + 1)), w) && entry.all_born(w) && !self.failed_in(w)
                        implies #[trigger] covered(result@, w) by {
                        lemma_prefix_step(arms@, i as int, w);
                        lemma_covered_concat(before, sub@, w);
                        self.lemma_all_born_same(&entry, w);
                        if !piece.holds(w) {
                            assert(self.keeps(&now, w));
                        }
                    }
                    assert forall|w: World| region.holds(w) && entry.denotes(w, l2.0 as nat) == entry.denotes(w, r2.0 as nat)
                        && !entry.failed_in(w) implies !#[trigger] self.failed_in(w) by {
                        if piece.holds(w) {
                            assert(arms@[i as int].0.holds(w));
                            assert(covered(regions(arms@), w));
                            entry.lemma_denotes_arm(w, chooser.0 as nat);
                            self.lemma_extends_trans(&now, &entry);
                            now.lemma_denotes_extend(&entry, w, child.0 as nat, other.0 as nat);
                        } else {
                            assert(self.keeps(&now, w));
                        }
                    }
                }
                i += 1;
            }
            proof {
                assert(arms@.subrange(0, i as int) == arms@);
                assert forall|w: World| !region.holds(w) implies #[trigger] self.keeps(&entry, w) by {
                    assert(!covered(regions(arms@), w));
                }
                assert forall|w: World| region.holds(w) && self.all_born(w) && !self.failed_in(w) implies #[trigger] covered(result@, w) by {
                    self.lemma_all_born_same(&entry, w);
                    entry.lemma_all_born_present(w, chooser.0 as nat);
                    assert(covered(regions(arms@), w));
                }
            }
            return result;
        }
        match self.pairs(l2, r2) {
            Some(pairs) => {
                let mut partial: Vec<Context> = Vec::new();
                partial.push(region.copy());
                proof {
                    assert forall|w: World| #[trigger] covered(partial@, w) implies region.holds(w) && !self.failed_in(w) by {
                        let q = choose|q: int| 0 <= q < partial@.len() && #[trigger] partial@[q].holds(w);
                        assert(q == 0);
                        assert(partial@[0].holds(w) == region.holds(w));
                    }
                    assert forall|w: World| region.holds(w) && entry.all_born(w) && !self.failed_in(w) implies #[trigger] covered(partial@, w) by {
                        assert(partial@[0].holds(w));
                    }
                }
                let mut c: usize = 0;
                while c < pairs.len()
                    invariant
                        entry.wf(),
                        self.wf(),
                        self.extends(&entry),
                        region.wf(),
                        l2.0 < entry.nodes@.len(),
                        r2.0 < entry.nodes@.len(),
                        entry.nodes@[l2.0 as int] matches Node::App(f, xs) && entry.nodes@[r2.0 as int] matches Node::App(g, ys)
                            && xs@.len() == ys@.len() && pairs@.len() == xs@.len() && forall|q: int|
                            0 <= q < pairs@.len() ==> (#[trigger] pairs@[q]).0 == xs@[q] && pairs@[q].1 == ys@[q],
                        forall|q: int| 0 <= q < pairs@.len() ==> (#[trigger] pairs@[q]).0.0 < entry.nodes@.len() && pairs@[q].1.0 < entry.nodes@.len(),
                        forall|w: World| #[trigger] region.holds(w) ==> {
                            &&& !entry.failed_in(w)
                            &&& entry.measure_ok(w, l2.0 as nat, r2.0 as nat, mu, md)
                        },
                        forall|w: World| !region.holds(w) ==> #[trigger] self.keeps(&entry, w),
                        0 <= c <= pairs.len(),
                        all_wf(partial@),
                        disjoint(partial@),
                        forall|w: World| #[trigger] covered(partial@, w) ==> region.holds(w) && !self.failed_in(w),
                        forall|w: World| #[trigger] covered(partial@, w) ==> forall|d: int| 0 <= d < c ==>
                            self.denotes(w, (#[trigger] pairs@[d]).0.0 as nat) == self.denotes(w, pairs@[d].1.0 as nat),
                        forall|w: World| region.holds(w) && entry.all_born(w) && !self.failed_in(w) ==> #[trigger] covered(partial@, w),
                        forall|w: World| #[trigger] region.holds(w) ==> entry.settled(w, l2.0 as nat) && entry.settled(w, r2.0 as nat),
                        forall|w: World| region.holds(w) && entry.denotes(w, l2.0 as nat) == entry.denotes(w, r2.0 as nat) && !entry.failed_in(w) ==> !#[trigger] self.failed_in(w),
                    decreases pairs.len() - c,
                {
                    let (x, y) = pairs[c];
                    let ghost start = *self;
                    proof {
                        let xs = entry.nodes@[l2.0 as int]->App_1;
                        let ys = entry.nodes@[r2.0 as int]->App_1;
                        assert(pairs@[c as int].0 == xs@[c as int]);
                        assert(pairs@[c as int].1 == ys@[c as int]);
                        assert forall|w: World| #[trigger] region.holds(w) implies entry.depth(w, x.0 as nat) + entry.depth(w, y.0 as nat)
                            < entry.depth(w, l2.0 as nat) + entry.depth(w, r2.0 as nat) by {
                            entry.lemma_depth_below(w, l2.0 as nat, x.0 as nat);
                            entry.lemma_depth_below(w, r2.0 as nat, y.0 as nat);
                        }
                    }
                    let mut next: Vec<Context> = Vec::new();
                    let mut p: usize = 0;
                    while p < partial.len()
                        invariant
                            entry.wf(),
                            start.wf(),
                            start.extends(&entry),
                            self.wf(),
                            self.extends(&start),
                            region.wf(),
                            l2.0 < entry.nodes@.len(),
                            r2.0 < entry.nodes@.len(),
                            x.0 < entry.nodes@.len(),
                            y.0 < entry.nodes@.len(),
                            forall|w: World| #[trigger] region.holds(w) ==> {
                                &&& entry.depth(w, x.0 as nat) + entry.depth(w, y.0 as nat) < entry.depth(w, l2.0 as nat)
                                    + entry.depth(w, r2.0 as nat)
                                &&& !entry.failed_in(w)
                                &&& entry.measure_ok(w, l2.0 as nat, r2.0 as nat, mu, md)
                            },
                            forall|w: World| !region.holds(w) ==> #[trigger] start.keeps(&entry, w),
                            all_wf(partial@),
                            disjoint(partial@),
                            forall|w: World| #[trigger] covered(partial@, w) ==> region.holds(w) && !start.failed_in(w),
                            0 <= p <= partial.len(),
                            forall|w: World| !covered(partial@.subrange(0, p as int), w) ==> #[trigger] self.keeps(&start, w),
                            all_wf(next@),
                            disjoint(next@),
                            forall|w: World| #[trigger] covered(next@, w) ==> covered(partial@.subrange(0, p as int), w)
                                && !self.failed_in(w),
                            0 <= c < pairs@.len(),
                            x == pairs@[c as int].0,
                            y == pairs@[c as int].1,
                            forall|q: int| 0 <= q < pairs@.len() ==> (#[trigger] pairs@[q]).0.0 < entry.nodes@.len() && pairs@[q].1.0 < entry.nodes@.len(),
                            forall|w: World| #[trigger] covered(partial@, w) ==> forall|d: int| 0 <= d < c ==>
                                start.denotes(w, (#[trigger] pairs@[d]).0.0 as nat) == start.denotes(w, pairs@[d].1.0 as nat),
                            forall|w: World| #[trigger] covered(next@, w) ==> forall|d: int| 0 <= d <= c ==>
                                self.denotes(w, (#[trigger] pairs@[d]).0.0 as nat) == self.denotes(w, pairs@[d].1.0 as nat),
                            forall|w: World| region.holds(w) && entry.all_born(w) && !start.failed_in(w) ==> #[trigger] covered(partial@, w),
                            forall|w: World| covered(partial@.subrange(0, p as int), w) && entry.all_born(w) && !self.failed_in(w)
                                ==> #[trigger] covered(next@, w),
                            forall|w: World| #[trigger] region.holds(w) ==> entry.settled(w, l2.0 as nat) && entry.settled(w, r2.0 as nat),
                            entry.nodes@[l2.0 as int] matches Node::App(f, xs) && entry.nodes@[r2.0 as int] matches Node::App(g, ys)
                                && xs@.len() == ys@.len() && pairs@.len() == xs@.len() && forall|q: int|
                                0 <= q < pairs@.len() ==> (#[trigger] pairs@[q]).0 == xs@[q] && pairs@[q].1 == ys@[q],
                            forall|w: World| region.holds(w) && entry.denotes(w, l2.0 as nat) == entry.denotes(w, r2.0 as nat) && !entry.failed_in(w) ==> !#[trigger] self.failed_in(w),
                        decreases partial.len() - p,
                    {
                        let ghost piece = partial@[p as int];
                        let ghost now = *self;
                        proof {
                            assert(piece.wf());
                            let wp = lemma_inhabited(&piece);
                            assert(covered(partial@, wp));
                            self.lemma_extends_trans(&start, &entry);
                            self.lemma_measure_step(&entry, wp, l2.0 as nat, r2.0 as nat, x.0 as nat, y.0 as nat, mu, md);
                            assert forall|w: World| #[trigger] piece.holds(w) implies !covered(partial@.subrange(0, p as int), w) by {
                                if covered(partial@.subrange(0, p as int), w) {
                                    let q = choose|q: int| 0 <= q < p && #[trigger] partial@.subrange(0, p as int)[q].holds(w);
                                    assert(partial@.subrange(0, p as int)[q] == partial@[q]);
                                    assert(!(partial@[q].holds(w) && partial@[p as int].holds(w)));
                                }
                            }
                            self.lemma_extends_trans(&start, &entry);
                            assert forall|w: World| #[trigger] piece.holds(w) implies {
                                &&& !self.failed_in(w)
                                &&& self.measure_ok(w, x.0 as nat, y.0 as nat, next_mu(mu, md), next_md(md, self.fuel@))
                            } by {
                                assert(covered(partial@, w));
                                assert(region.holds(w));
                                assert(self.keeps(&start, w));
                                self.lemma_measure_step(&entry, w, l2.0 as nat, r2.0 as nat, x.0 as nat, y.0 as nat, mu, md);
                            }
                        }
                        let sub = self.equate(x, y, &partial[p], Ghost(next_mu(mu, md)), Ghost(next_md(md, now.fuel@)));
                        let ghost before = next@;
                        proof {
                            self.lemma_extends_trans(&now, &start);
                            assert forall|w: World| #[trigger] covered(sub@, w) implies forall|d: int| 0 <= d <= c ==>
                                self.denotes(w, (#[trigger] pairs@[d]).0.0 as nat) == self.denotes(w, pairs@[d].1.0 as nat) by {
                                assert(piece.holds(w));
                                assert(covered(partial@, w));
                                assert forall|d: int| 0 <= d <= c implies
                                    self.denotes(w, (#[trigger] pairs@[d]).0.0 as nat) == self.denotes(w, pairs@[d].1.0 as nat) by {
                                    if d < c {
                                        self.lemma_denotes_extend(&start, w, pairs@[d].0.0 as nat, pairs@[d].1.0 as nat);
                                    }
                                }
                            }
                            assert forall|w: World| #[trigger] covered(before, w) implies forall|d: int| 0 <= d <= c ==>
                                self.denotes(w, (#[trigger] pairs@[d]).0.0 as nat) == self.denotes(w, pairs@[d].1.0 as nat) by {
                                assert forall|d: int| 0 <= d <= c implies
                                    self.denotes(w, (#[trigger] pairs@[d]).0.0 as nat) == self.denotes(w, pairs@[d].1.0 as nat) by {
                                    self.lemma_denotes_extend(&now, w, pairs@[d].0.0 as nat, pairs@[d].1.0 as nat);
                                }
                            }
                            lemma_gather_within(
                                before,
                                sub@,
                                |w: World| covered(partial@.subrange(0, p as int), w),
                                |w: World| piece.holds(w),
                            );
                            assert forall|w: World| !covered(partial@.subrange(0, p + 1), w) implies #[trigger] self.keeps(&start, w) by {
                                lemma_covered_step(partial@, p as int, w);
                                assert(self.keeps(&now, w));
                                assert(now.keeps(&start, w));
                            }
                        }
                        let mut sub = sub;
                        next.append(&mut sub);
                        proof {
                            assert forall|w: World| #[trigger] covered(next@, w) implies covered(partial@.subrange(0, p + 1), w)
                                && !self.failed_in(w) by {
                                lemma_covered_step(partial@, p as int, w);
                                if covered(before, w) {
                                    assert(!piece.holds(w) ==> self.keeps(&now, w));
                                }
                            }
                            assert forall|w: World| #[trigger] covered(next@, w) implies forall|d: int| 0 <= d <= c ==>
                                self.denotes(w, (#[trigger] pairs@[d]).0.0 as nat) == self.denotes(w, pairs@[d].1.0 as nat) by {
                                lemma_covered_concat(before, sub@, w);
                            }
                            assert forall|w: World| region.holds(w) && entry.denotes(w, l2.0 as nat) == entry.denotes(w, r2.0 as nat)
                                && !entry.failed_in(w) implies !#[trigger] self.failed_in(w) by {
                                if piece.holds(w) {
                                    assert(covered(partial@, w));
                                    entry.lemma_denotes_shape(w, l2.0 as nat);
                                    entry.lemma_denotes_shape(w, r2.0 as nat);
                                    let xs = entry.nodes@[l2.0 as int]->App_1;
                                    let ys = entry.nodes@[r2.0 as int]->App_1;
                                    assert(x == xs@[c as int] && y == ys@[c as int]);
                                    assert(entry.denotes(w, l2.0 as nat)->Fun_1[c as int] == entry.denotes(w, x.0 as nat));
                                    assert(entry.denotes(w, r2.0 as nat)->Fun_1[c as int] == entry.denotes(w, y.0 as nat));
                                    self.lemma_extends_trans(&start, &entry);
                                    now.lemma_extends_trans(&start, &entry);
                                    now.lemma_denotes_extend(&entry, w, x.0 as nat, y.0 as nat);
                                } else {
                                    assert(self.keeps(&now, w));
                                }
                            }
                            assert forall|w: World| covered(partial@.subrange(0, p + 1), w) && entry.all_born(w) && !self.failed_in(w)
                                implies #[trigger] covered(next@, w) by {
                                lemma_covered_step(partial@, p as int, w);
                                lemma_covered_concat(before, sub@, w);
                                self.lemma_extends_trans(&start, &entry);
                                self.lemma_all_born_same(&entry, w);
                                if !piece.holds(w) {
                                    assert(self.keeps(&now, w));
                                }
                            }
                        }
                        p += 1;
                    }
                    proof {
                        assert(partial@.subrange(0, p as int) == partial@);
                        self.lemma_extends_trans(&start, &entry);
                        assert forall|w: World| !region.holds(w) implies #[trigger] self.keeps(&entry, w) by {
                            assert(!covered(partial@, w));
                            assert(self.keeps(&start, w));
                        }
                        assert forall|w: World| region.holds(w) && entry.all_born(w) && !self.failed_in(w) implies #[trigger] covered(next@, w) by {
                            assert(!start.failed_in(w));
                            assert(covered(partial@, w));
                        }
                    }
                    partial = next;
                    c += 1;
                }
                proof {
                    assert forall|w: World| #[trigger] covered(partial@, w) implies self.denotes(w, l2.0 as nat) == self.denotes(w, r2.0 as nat) by {
                        let xs = entry.nodes@[l2.0 as int]->App_1;
                        let ys = entry.nodes@[r2.0 as int]->App_1;
                        assert forall|q: int| 0 <= q < xs@.len() implies self.denotes(w, (#[trigger] xs@[q]).0 as nat) == self.denotes(w, ys@[q].0 as nat) by {
                            assert(pairs@[q].0 == xs@[q]);
                        }
                        self.lemma_denotes_app(w, l2.0 as nat, r2.0 as nat);
                    }
                    assert forall|w: World| region.holds(w) && self.all_born(w) && !self.failed_in(w) implies #[trigger] covered(partial@, w) by {
                        self.lemma_all_born_same(&entry, w);
                    }
                }
                partial
            },
            None => {
                self.fail(region);
                proof {
                    assert(self.extends(&entry)) by {
                        assert forall|w: World, x: nat| #![trigger self.bound(w, x)] entry.bound(w, x) is Some implies self.bound(w, x) == entry.bound(w, x) by {}
                    }
                    assert forall|w: World| !region.holds(w) implies #[trigger] self.keeps(&entry, w) by {
                        assert forall|x: nat| #[trigger] self.bound(w, x) == entry.bound(w, x) by {}
                    }
                    assert forall|w: World| region.holds(w) && self.all_born(w) && !self.failed_in(w) implies #[trigger] covered(result@, w) by {
                        assert(self.failed_in(w));
                    }
                    assert forall|w: World| region.holds(w) && entry.denotes(w, l2.0 as nat) == entry.denotes(w, r2.0 as nat)
                        && !entry.failed_in(w) implies !#[trigger] self.failed_in(w) by {
                        entry.lemma_denotes_shape(w, l2.0 as nat);
                        entry.lemma_denotes_shape(w, r2.0 as nat);
                        let xs = entry.nodes@[l2.0 as int]->App_1;
                        let ys = entry.nodes@[r2.0 as int]->App_1;
                        assert(entry.denotes(w, l2.0 as nat)->Fun_1.len() == xs@.len());
                        assert(entry.denotes(w, r2.0 as nat)->Fun_1.len() == ys@.len());
                    }
                }
                result
            },
        }
    }

    /// Commit a finite-tree equality. A contradiction permanently fails its region.
    /// Returned regions are successful and disjoint, but need not be maximal cubes.
    pub fn unify(&mut self, left: NodeId, right: NodeId, context: &Context) -> (r: Vec<Context>)
        requires
            old(self).wf(),
            context.wf(),
            left.0 < old(self).node_count(),
            right.0 < old(self).node_count(),
        ensures
            final(self).commits(old(self), context, r@),
            forall|w: World| #[trigger] covered(r@, w) ==> final(self).denotes(w, left.0 as nat) == final(self).denotes(w, right.0 as nat),
            final(self).completes(context, r@),
            final(self).fails_only_unequal(old(self), context, left.0 as nat, right.0 as nat),
            forall|w: World| context.holds(w) && !old(self).failed_in(w) && old(self).equal_in(w, left.0 as nat, right.0 as nat)
                && old(self).all_born(w) ==> #[trigger] covered(r@, w),
            (forall|w: World| context.holds(w) ==> old(self).failed_in(w)) ==> *final(self) == *old(self) && r@.len() == 0,
    {
        let ghost entry = *self;
        proof {
            self.lemma_extends_refl();
        }
        let live = self.live(context);
        let mut result: Vec<Context> = Vec::new();
        let mut i: usize = 0;
        while i < live.len()
            invariant
                entry.wf(),
                self.wf(),
                self.extends(&entry),
                context.wf(),
                left.0 < entry.nodes@.len(),
                right.0 < entry.nodes@.len(),
                all_wf(live@),
                disjoint(live@),
                forall|w: World| #[trigger] covered(live@, w) <==> (context.holds(w) && !entry.failed_in(w)),
                0 <= i <= live.len(),
                forall|w: World| !covered(live@.subrange(0, i as int), w) ==> #[trigger] self.keeps(&entry, w),
                all_wf(result@),
                disjoint(result@),
                forall|w: World| #[trigger] covered(result@, w) ==> covered(live@.subrange(0, i as int), w) && !self.failed_in(w),
                forall|w: World| #[trigger] covered(result@, w) ==> self.denotes(w, left.0 as nat) == self.denotes(w, right.0 as nat),
                forall|w: World| covered(live@.subrange(0, i as int), w) && entry.all_born(w) && !self.failed_in(w) ==> #[trigger] covered(result@, w),
                forall|w: World| context.holds(w) && entry.denotes(w, left.0 as nat) == entry.denotes(w, right.0 as nat) && !entry.failed_in(w)
                    ==> !#[trigger] self.failed_in(w),
                live@.len() == 0 ==> *self == entry && result@.len() == 0,
            decreases live.len() - i,
        {
            let ghost piece = live@[i as int];
            let ghost now = *self;
            proof {
                assert(piece.wf());
                assert forall|w: World| #[trigger] piece.holds(w) implies !covered(live@.subrange(0, i as int), w) by {
                    if covered(live@.subrange(0, i as int), w) {
                        let q = choose|q: int| 0 <= q < i && #[trigger] live@.subrange(0, i as int)[q].holds(w);
                        assert(live@.subrange(0, i as int)[q] == live@[q]);
                        assert(!(live@[q].holds(w) && live@[i as int].holds(w)));
                    }
                }
                assert forall|w: World| #[trigger] piece.holds(w) implies {
                    &&& !self.failed_in(w)
                    &&& self.measure_ok(w, left.0 as nat, right.0 as nat, (self.bindings@.len() + 1) as nat, 0)
                } by {
                    assert(covered(live@, w));
                    assert(self.keeps(&entry, w));
                    self.lemma_unbound_finite(w);
                }
            }
            let sub = self.equate(left, right, &live[i], Ghost((now.bindings@.len() + 1) as nat), Ghost(0));
            let ghost before = result@;
            proof {
                self.lemma_extends_trans(&now, &entry);
                assert forall|w: World| #[trigger] covered(before, w) implies self.denotes(w, left.0 as nat) == self.denotes(w, right.0 as nat) by {
                    self.lemma_denotes_extend(&now, w, left.0 as nat, right.0 as nat);
                }
                lemma_gather_within(
                    before,
                    sub@,
                    |w: World| covered(live@.subrange(0, i as int), w),
                    |w: World| piece.holds(w),
                );
                assert forall|w: World| !covered(live@.subrange(0, i + 1), w) implies #[trigger] self.keeps(&entry, w) by {
                    lemma_covered_step(live@, i as int, w);
                    assert(self.keeps(&now, w));
                    assert(now.keeps(&entry, w));
                }
            }
            let mut sub = sub;
            result.append(&mut sub);
            proof {
                assert forall|w: World| #[trigger] covered(result@, w) implies self.denotes(w, left.0 as nat) == self.denotes(w, right.0 as nat) by {
                    lemma_covered_concat(before, sub@, w);
                }
                assert forall|w: World| #[trigger] covered(result@, w) implies covered(live@.subrange(0, i + 1), w)
                    && !self.failed_in(w) by {
                    lemma_covered_step(live@, i as int, w);
                    if covered(before, w) {
                        assert(!piece.holds(w) ==> self.keeps(&now, w));
                    }
                }
                assert forall|w: World| context.holds(w) && entry.denotes(w, left.0 as nat) == entry.denotes(w, right.0 as nat)
                    && !entry.failed_in(w) implies !#[trigger] self.failed_in(w) by {
                    if piece.holds(w) {
                        now.lemma_denotes_extend(&entry, w, left.0 as nat, right.0 as nat);
                    } else {
                        assert(self.keeps(&now, w));
                    }
                }
                assert forall|w: World| covered(live@.subrange(0, i + 1), w) && entry.all_born(w) && !self.failed_in(w) implies #[trigger] covered(
                    result@,
                    w,
                ) by {
                    lemma_covered_step(live@, i as int, w);
                    lemma_covered_concat(before, sub@, w);
                    self.lemma_all_born_same(&entry, w);
                    if !piece.holds(w) {
                        assert(self.keeps(&now, w));
                    }
                }
            }
            i += 1;
        }
        proof {
            assert(live@.subrange(0, i as int) == live@);
            assert forall|w: World| !context.holds(w) implies #[trigger] self.keeps(&entry, w) by {
                assert(!covered(live@, w));
            }
            assert forall|w: World| #[trigger] covered(result@, w) implies context.holds(w) && !self.failed_in(w) by {
                assert(covered(live@, w));
            }
            assert forall|w: World| context.holds(w) && self.all_born(w) && !self.failed_in(w) implies #[trigger] covered(result@, w) by {
                self.lemma_all_born_same(&entry, w);
                assert(!entry.failed_in(w));
                assert(covered(live@, w));
            }
            assert forall|w: World| context.holds(w) && !entry.failed_in(w) && entry.equal_in(w, left.0 as nat, right.0 as nat)
                && entry.all_born(w) implies #[trigger] covered(result@, w) by {
                entry.lemma_equal_sound(w, left.0 as nat, right.0 as nat);
                self.lemma_all_born_same(&entry, w);
            }
            if forall|w: World| context.holds(w) ==> entry.failed_in(w) {
                if live@.len() > 0 {
                    assert(live@[0].wf());
                    let wp = lemma_inhabited(&live@[0]);
                    assert(covered(live@, wp));
                }
            }
        }
        result
    }
}


/// A finite tree that a node stands for in one world: a free unknown, a
/// constructor application, or a choice node whose label is absent there.
pub enum Tree {
    Var(u64),
    Fun(Seq<char>, Seq<Tree>),
    Gap(nat),
}

impl Graph {
    /// The tree of node `n` in world `w`, looking `k` levels deep.
    pub closed spec fn tree(&self, w: World, n: nat, k: nat) -> Tree
        decreases k,
    {
        if k == 0 {
            Tree::Gap(n)
        } else {
            let m = self.resolved(w, n);
            match self.nodes@[m as int] {
                Node::Unknown(x) => Tree::Var(x),
                Node::App(f, cs) => Tree::Fun(
                    f@,
                    Seq::new(
                        cs@.len(),
                        |i: int|
                            if 0 <= i < cs@.len() {
                                self.tree(w, cs@[i].0 as nat, (k - 1) as nat)
                            } else {
                                Tree::Gap(0)
                            },
                    ),
                ),
                Node::Choice(l, a, b) => if self.born(w, l.0 as nat) {
                    self.tree(w, arm_of(w, l, a, b), (k - 1) as nat)
                } else {
                    Tree::Gap(m)
                },
            }
        }
    }

    /// The tree that node `n` stands for in world `w`.
    pub closed spec fn denotes(&self, w: World, n: nat) -> Tree {
        self.tree(w, n, self.fuel@)
    }

    /// Looking deeper than the depth bound changes no tree.
    proof fn lemma_tree_stable(&self, w: World, n: nat, a: nat, k1: nat, k2: nat)
        requires
            self.wf(),
            self.within(w, n, a),
            a <= k1,
            a <= k2,
        ensures
            self.tree(w, n, k1) == self.tree(w, n, k2),
        decreases k1,
    {
        self.lemma_chase_within(w, n, a);
        assert(self.within(w, n, self.fuel@));
        self.lemma_chase_agree(w, n, a, self.fuel@);
        let m = self.resolved(w, n);
        assert(self.node_ok(self.nodes@[m as int]));
        match self.nodes@[m as int] {
            Node::App(f, cs) => {
                let t1 = self.tree(w, n, k1);
                let t2 = self.tree(w, n, k2);
                let s1 = t1->Fun_1;
                let s2 = t2->Fun_1;
                assert(s1.len() == cs@.len() && s2.len() == cs@.len());
                assert forall|i: int| 0 <= i < cs@.len() implies s1[i] == s2[i] by {
                    assert(s1[i] == self.tree(w, cs@[i].0 as nat, (k1 - 1) as nat));
                    assert(s2[i] == self.tree(w, cs@[i].0 as nat, (k2 - 1) as nat));
                    self.lemma_tree_stable(w, cs@[i].0 as nat, (a - 1) as nat, (k1 - 1) as nat, (k2 - 1) as nat);
                }
                assert(s1 =~= s2);
            },
            Node::Choice(l, p, q) => {
                if self.born(w, l.0 as nat) {
                    self.lemma_tree_stable(w, arm_of(w, l, p, q), (a - 1) as nat, (k1 - 1) as nat, (k2 - 1) as nat);
                }
            },
            _ => {},
        }
    }

    /// A node and what it resolves to stand for the same tree.
    proof fn lemma_denotes_resolved(&self, w: World, n: nat)
        requires
            self.wf(),
            n < self.nodes@.len(),
        ensures
            self.denotes(w, n) == self.denotes(w, self.resolved(w, n)),
    {
        assert(self.within(w, n, self.fuel@));
        self.lemma_chase_within(w, n, self.fuel@);
        let m = self.resolved(w, n);
        self.lemma_resolved_settled(w, m, self.fuel@);
    }

    /// A choice whose label exists stands for the tree of its arm.
    proof fn lemma_denotes_arm(&self, w: World, n: nat)
        requires
            self.wf(),
            n < self.nodes@.len(),
            self.nodes@[n as int] is Choice,
            self.present(w, n),
        ensures
            self.step(w, n) < self.nodes@.len(),
            self.denotes(w, n) == self.denotes(w, self.step(w, n)),
    {
        assert(self.within(w, n, self.fuel@));
        assert(self.node_ok(self.nodes@[n as int]));
        self.lemma_resolved_settled(w, n, self.fuel@);
        let c = self.step(w, n);
        assert(self.within(w, c, (self.fuel@ - 1) as nat));
        self.lemma_tree_stable(w, c, (self.fuel@ - 1) as nat, (self.fuel@ - 1) as nat, self.fuel@);
    }

    /// Applications of one constructor to pairwise equal trees are equal trees.
    proof fn lemma_denotes_app(&self, w: World, l: nat, r: nat)
        requires
            self.wf(),
            l < self.nodes@.len(),
            r < self.nodes@.len(),
            self.nodes@[l as int] matches Node::App(f, xs) && self.nodes@[r as int] matches Node::App(g, ys)
                && f@ == g@ && xs@.len() == ys@.len() && forall|i: int|
                0 <= i < xs@.len() ==> self.denotes(w, (#[trigger] xs@[i]).0 as nat) == self.denotes(w, ys@[i].0 as nat),
        ensures
            self.denotes(w, l) == self.denotes(w, r),
    {
        assert(self.within(w, l, self.fuel@));
        assert(self.within(w, r, self.fuel@));
        self.lemma_resolved_settled(w, l, self.fuel@);
        self.lemma_resolved_settled(w, r, self.fuel@);
        let k = self.fuel@;
        let xs = self.nodes@[l as int]->App_1;
        let ys = self.nodes@[r as int]->App_1;
        let s1 = self.denotes(w, l)->Fun_1;
        let s2 = self.denotes(w, r)->Fun_1;
        assert(s1.len() == xs@.len() && s2.len() == ys@.len());
        assert forall|i: int| 0 <= i < xs@.len() implies s1[i] == s2[i] by {
            assert(s1[i] == self.tree(w, xs@[i].0 as nat, (k - 1) as nat));
            assert(s2[i] == self.tree(w, ys@[i].0 as nat, (k - 1) as nat));
            lemma_app_child(self, self.nodes@[l as int]->App_0, xs, i);
            lemma_app_child(self, self.nodes@[r as int]->App_0, ys, i);
            assert(self.within(w, xs@[i].0 as nat, (k - 1) as nat));
            assert(self.within(w, ys@[i].0 as nat, (k - 1) as nat));
            self.lemma_tree_stable(w, xs@[i].0 as nat, (k - 1) as nat, (k - 1) as nat, k);
            self.lemma_tree_stable(w, ys@[i].0 as nat, (k - 1) as nat, (k - 1) as nat, k);
        }
        assert(s1 =~= s2);
    }

    /// Redirected unknowns stand for the tree of their target; free ones stand for themselves.
    spec fn var_tree(&self, w: World, x: u64) -> Tree {
        match self.bound(w, x as nat) {
            Some(t) => self.denotes(w, t),
            None => Tree::Var(x),
        }
    }

    /// Replace every free unknown of a tree by what it stands for in `self`.
    spec fn subst(&self, w: World, t: Tree) -> Tree
        decreases t,
    {
        match t {
            Tree::Var(x) => self.var_tree(w, x),
            Tree::Fun(f, ts) => Tree::Fun(
                f,
                Seq::new(ts.len(), |i: int| if 0 <= i < ts.len() { self.subst(w, ts[i]) } else { Tree::Gap(0) }),
            ),
            Tree::Gap(n) => Tree::Gap(n),
        }
    }

    /// Following the redirects of `older` first leads where `self` leads.
    proof fn lemma_chase_compose(&self, older: &Graph, w: World, n: nat, a: nat)
        requires
            older.wf(),
            self.wf(),
            self.extends(older),
            n < older.nodes@.len(),
            older.within(w, n, a),
        ensures
            self.resolved(w, n) == self.resolved(w, older.chase(w, n, a)),
        decreases a,
    {
        assert(self.within(w, n, self.fuel@));
        assert(older.node_ok(older.nodes@[n as int]));
        if let Node::Unknown(y) = older.nodes@[n as int] {
            if let Some(t) = older.bound(w, y as nat) {
                older.lemma_bound_valid(w, y as nat);
                assert(self.bound(w, y as nat) == older.bound(w, y as nat));
                assert(self.within(w, t, (self.fuel@ - 1) as nat));
                assert(self.within(w, t, self.fuel@));
                self.lemma_chase_agree(w, t, (self.fuel@ - 1) as nat, self.fuel@);
                self.lemma_chase_compose(older, w, t, (a - 1) as nat);
                return;
            }
        }
    }

    /// What a node stands for after more redirects: the old tree with its free
    /// unknowns replaced.
    proof fn lemma_tree_subst(&self, older: &Graph, w: World, n: nat, a: nat)
        requires
            older.wf(),
            self.wf(),
            self.extends(older),
            n < older.nodes@.len(),
            older.within(w, n, a),
        ensures
            self.denotes(w, n) == self.subst(w, older.tree(w, n, a)),
        decreases a,
    {
        assert(older.within(w, n, older.fuel@));
        older.lemma_chase_within(w, n, a);
        older.lemma_chase_agree(w, n, a, older.fuel@);
        let m = older.resolved(w, n);
        self.lemma_chase_compose(older, w, n, a);
        assert(self.within(w, n, self.fuel@));
        self.lemma_chase_within(w, n, self.fuel@);
        assert(older.node_ok(older.nodes@[m as int]));
        assert(self.within(w, m, self.fuel@));
        match older.nodes@[m as int] {
            Node::Unknown(x) => {
                assert(older.bound(w, x as nat) is None);
                match self.bound(w, x as nat) {
                    Some(t) => {
                        assert(self.within(w, t, (self.fuel@ - 1) as nat));
                        assert(self.within(w, t, self.fuel@));
                        self.lemma_chase_agree(w, t, (self.fuel@ - 1) as nat, self.fuel@);
                        assert(self.resolved(w, m) == self.resolved(w, t));
                        self.lemma_denotes_resolved(w, n);
                        self.lemma_bound_valid(w, x as nat);
                        self.lemma_denotes_resolved(w, t);
                    },
                    None => {
                        self.lemma_resolved_settled(w, m, self.fuel@);
                    },
                }
            },
            Node::App(f, cs) => {
                self.lemma_resolved_settled(w, m, self.fuel@);
                let k = self.fuel@;
                let told = older.tree(w, n, a);
                let old_kids = told->Fun_1;
                let new_kids = self.denotes(w, n)->Fun_1;
                let mapped = self.subst(w, told)->Fun_1;
                assert(old_kids.len() == cs@.len() && new_kids.len() == cs@.len() && mapped.len() == cs@.len());
                assert forall|i: int| 0 <= i < cs@.len() implies new_kids[i] == mapped[i] by {
                    assert(old_kids[i] == older.tree(w, cs@[i].0 as nat, (a - 1) as nat));
                    assert(new_kids[i] == self.tree(w, cs@[i].0 as nat, (k - 1) as nat));
                    assert(mapped[i] == self.subst(w, old_kids[i]));
                    lemma_app_child(older, f, cs, i);
                    assert(older.within(w, cs@[i].0 as nat, (a - 1) as nat));
                    self.lemma_tree_subst(older, w, cs@[i].0 as nat, (a - 1) as nat);
                    assert(self.within(w, cs@[i].0 as nat, (k - 1) as nat));
                    self.lemma_tree_stable(w, cs@[i].0 as nat, (k - 1) as nat, (k - 1) as nat, k);
                }
                assert(new_kids =~= mapped);
            },
            Node::Choice(l, p, q) => {
                self.lemma_resolved_settled(w, m, self.fuel@);
                assert(self.born(w, l.0 as nat) == older.born(w, l.0 as nat));
                if older.born(w, l.0 as nat) {
                    let c = arm_of(w, l, p, q);
                    self.lemma_tree_subst(older, w, c, (a - 1) as nat);
                    assert(self.within(w, c, (self.fuel@ - 1) as nat));
                    self.lemma_tree_stable(w, c, (self.fuel@ - 1) as nat, (self.fuel@ - 1) as nat, self.fuel@);
                }
            },
        }
    }

    /// More redirects keep equal trees equal.
    proof fn lemma_denotes_extend(&self, older: &Graph, w: World, l: nat, r: nat)
        requires
            older.wf(),
            self.wf(),
            self.extends(older),
            l < older.nodes@.len(),
            r < older.nodes@.len(),
            older.denotes(w, l) == older.denotes(w, r),
        ensures
            self.denotes(w, l) == self.denotes(w, r),
    {
        assert(older.within(w, l, older.fuel@));
        assert(older.within(w, r, older.fuel@));
        self.lemma_tree_subst(older, w, l, older.fuel@);
        self.lemma_tree_subst(older, w, r, older.fuel@);
    }

    /// After more redirects, a node stands for what its old resolution stands for.
    proof fn lemma_denotes_through(&self, older: &Graph, w: World, n: nat)
        requires
            older.wf(),
            self.wf(),
            self.extends(older),
            n < older.nodes@.len(),
        ensures
            older.resolved(w, n) < older.nodes@.len(),
            self.denotes(w, n) == self.denotes(w, older.resolved(w, n)),
    {
        assert(older.within(w, n, older.fuel@));
        older.lemma_chase_within(w, n, older.fuel@);
        self.lemma_chase_compose(older, w, n, older.fuel@);
        self.lemma_denotes_resolved(w, n);
        self.lemma_denotes_resolved(w, older.resolved(w, n));
    }
}

impl Graph {
    /// A redirected unknown stands for the tree of its target.
    proof fn lemma_denotes_bound(&self, w: World, n: nat, x: u64, t: nat)
        requires
            self.wf(),
            n < self.nodes@.len(),
            self.nodes@[n as int] == Node::Unknown(x),
            self.bound(w, x as nat) == Some(t),
        ensures
            self.denotes(w, n) == self.denotes(w, t),
    {
        self.lemma_bound_valid(w, x as nat);
        assert(self.within(w, n, self.fuel@));
        assert(self.within(w, t, (self.fuel@ - 1) as nat));
        assert(self.within(w, t, self.fuel@));
        self.lemma_chase_agree(w, t, (self.fuel@ - 1) as nat, self.fuel@);
        self.lemma_denotes_resolved(w, n);
        self.lemma_denotes_resolved(w, t);
    }

    /// Two free nodes of one unknown stand for the same tree.
    proof fn lemma_denotes_same_var(&self, w: World, l: nat, r: nat)
        requires
            self.wf(),
            l < self.nodes@.len(),
            r < self.nodes@.len(),
            self.nodes@[l as int] is Unknown,
            self.nodes@[r as int] == self.nodes@[l as int],
            self.settled(w, l),
        ensures
            self.denotes(w, l) == self.denotes(w, r),
    {
        assert(self.within(w, l, self.fuel@));
        self.lemma_resolved_settled(w, l, self.fuel@);
        self.lemma_resolved_settled(w, r, self.fuel@);
    }
}

impl Graph {
    /// Every label of the graph exists in world `w`.
    pub open spec fn all_born(&self, w: World) -> bool {
        forall|l: nat| l < self.label_count() ==> #[trigger] self.born(w, l)
    }

    /// What a node that is not redirected stands for: a free unknown stands for
    /// itself, an application for its constructor over its arguments' trees, and
    /// a choice whose label is absent for a gap.
    proof fn lemma_denotes_shape(&self, w: World, n: nat)
        requires
            self.wf(),
            n < self.nodes@.len(),
            self.settled(w, n),
        ensures
            self.nodes@[n as int] matches Node::Unknown(x) ==> self.denotes(w, n) == Tree::Var(x),
            self.nodes@[n as int] matches Node::App(f, xs) ==> self.denotes(w, n) is Fun && self.denotes(w, n)->Fun_0 == f@
                && self.denotes(w, n)->Fun_1.len() == xs@.len() && forall|i: int|
                0 <= i < xs@.len() ==> self.denotes(w, n)->Fun_1[i] == self.denotes(w, (#[trigger] xs@[i]).0 as nat),
            self.nodes@[n as int] matches Node::Choice(l, _, _) && !self.born(w, l.0 as nat) ==> self.denotes(w, n) == Tree::Gap(n),
    {
        assert(self.within(w, n, self.fuel@));
        assert(self.node_ok(self.nodes@[n as int]));
        self.lemma_resolved_settled(w, n, self.fuel@);
        let k = self.fuel@;
        if let Node::App(f, xs) = self.nodes@[n as int] {
            let s1 = self.denotes(w, n)->Fun_1;
            assert forall|i: int| 0 <= i < xs@.len() implies s1[i] == self.denotes(w, (#[trigger] xs@[i]).0 as nat) by {
                assert(s1[i] == self.tree(w, xs@[i].0 as nat, (k - 1) as nat));
                lemma_app_child(self, f, xs, i);
                assert(self.within(w, xs@[i].0 as nat, (k - 1) as nat));
                self.lemma_tree_stable(w, xs@[i].0 as nat, (k - 1) as nat, (k - 1) as nat, k);
            }
        }
    }

    /// Where every label exists, so does every node.
    proof fn lemma_all_born_present(&self, w: World, n: nat)
        requires
            self.wf(),
            n < self.nodes@.len(),
            self.all_born(w),
        ensures
            self.present(w, n),
    {
        assert(self.node_ok(self.nodes@[n as int]));
        if let Node::Choice(l, _, _) = self.nodes@[n as int] {
            assert(self.born(w, l.0 as nat));
        }
    }

    /// Graphs with the same labels have the same worlds where every label exists.
    proof fn lemma_all_born_same(&self, older: &Graph, w: World)
        requires
            self.births@ == older.births@,
        ensures
            self.all_born(w) == older.all_born(w),
    {
        if older.all_born(w) {
            assert forall|l: nat| l < self.births@.len() implies #[trigger] self.born(w, l) by {
                assert(older.born(w, l));
            }
        }
        if self.all_born(w) {
            assert forall|l: nat| l < older.births@.len() implies #[trigger] older.born(w, l) by {
                assert(self.born(w, l));
            }
        }
    }

    /// The tree of a node is the tree of what it resolves to.
    proof fn lemma_tree_resolved(&self, w: World, n: nat, k: nat)
        requires
            self.wf(),
            n < self.nodes@.len(),
            k > 0,
        ensures
            self.resolved(w, n) < self.nodes@.len(),
            self.tree(w, n, k) == self.tree(w, self.resolved(w, n), k),
    {
        assert(self.within(w, n, self.fuel@));
        self.lemma_chase_within(w, n, self.fuel@);
        self.lemma_resolved_settled(w, self.resolved(w, n), self.fuel@);
    }

    proof fn lemma_same_trees(&self, w: World, l: nat, r: nat, a: nat, b: nat, k: nat)
        requires
            self.wf(),
            self.within(w, l, a),
            self.within(w, r, b),
            self.same(w, l, r, k),
        ensures
            self.tree(w, l, a) == self.tree(w, r, b),
        decreases k,
    {
        self.lemma_chase_within(w, l, a);
        self.lemma_chase_within(w, r, b);
        assert(self.within(w, l, self.fuel@));
        assert(self.within(w, r, self.fuel@));
        self.lemma_chase_agree(w, l, a, self.fuel@);
        self.lemma_chase_agree(w, r, b, self.fuel@);
        let x = self.resolved(w, l);
        let y = self.resolved(w, r);
        self.lemma_tree_resolved(w, l, a);
        self.lemma_tree_resolved(w, r, b);
        assert(self.node_ok(self.nodes@[x as int]));
        assert(self.node_ok(self.nodes@[y as int]));
        if x == y {
            self.lemma_depth(w, x, a);
            self.lemma_depth(w, x, b);
            self.lemma_tree_stable(w, x, self.depth(w, x), a, b);
        } else if self.nodes@[x as int] matches Node::Unknown(p) && self.nodes@[y as int] matches Node::Unknown(q) && p == q {
        } else {
            match self.nodes@[x as int] {
                Node::Choice(lab, p, q) => {
                    let c = arm_of(w, lab, p, q);
                    self.lemma_same_trees(w, c, y, (a - 1) as nat, b, (k - 1) as nat);
                    self.lemma_tree_resolved(w, y, b);
                    self.lemma_resolved_settled(w, y, self.fuel@);
                },
                _ => match self.nodes@[y as int] {
                    Node::Choice(lab, p, q) => {
                        let c = arm_of(w, lab, p, q);
                        self.lemma_same_trees(w, x, c, a, (b - 1) as nat, (k - 1) as nat);
                        self.lemma_resolved_settled(w, x, self.fuel@);
                    },
                    Node::App(g, ys) => match self.nodes@[x as int] {
                        Node::App(f, xs) => {
                            let s1 = self.tree(w, x, a)->Fun_1;
                            let s2 = self.tree(w, y, b)->Fun_1;
                            self.lemma_resolved_settled(w, x, self.fuel@);
                            self.lemma_resolved_settled(w, y, self.fuel@);
                            assert(s1.len() == xs@.len() && s2.len() == ys@.len());
                            assert forall|i: int| 0 <= i < xs@.len() implies s1[i] == s2[i] by {
                                assert(s1[i] == self.tree(w, xs@[i].0 as nat, (a - 1) as nat));
                                assert(s2[i] == self.tree(w, ys@[i].0 as nat, (b - 1) as nat));
                                assert(self.same(w, xs@[i].0 as nat, ys@[i].0 as nat, (k - 1) as nat));
                                self.lemma_same_trees(w, xs@[i].0 as nat, ys@[i].0 as nat, (a - 1) as nat, (b - 1) as nat, (k - 1) as nat);
                            }
                            assert(s1 =~= s2);
                        },
                        _ => {},
                    },
                    _ => {},
                },
            }
        }
    }

    proof fn lemma_trees_same(&self, w: World, l: nat, r: nat, a: nat, b: nat)
        requires
            self.wf(),
            self.all_born(w),
            self.within(w, l, a),
            self.within(w, r, b),
            self.tree(w, l, a) == self.tree(w, r, b),
        ensures
            self.same(w, l, r, a + b),
        decreases a + b,
    {
        self.lemma_chase_within(w, l, a);
        self.lemma_chase_within(w, r, b);
        assert(self.within(w, l, self.fuel@));
        assert(self.within(w, r, self.fuel@));
        self.lemma_chase_agree(w, l, a, self.fuel@);
        self.lemma_chase_agree(w, r, b, self.fuel@);
        let x = self.resolved(w, l);
        let y = self.resolved(w, r);
        self.lemma_tree_resolved(w, l, a);
        self.lemma_tree_resolved(w, r, b);
        self.lemma_resolved_settled(w, x, self.fuel@);
        self.lemma_resolved_settled(w, y, self.fuel@);
        assert(self.node_ok(self.nodes@[x as int]));
        assert(self.node_ok(self.nodes@[y as int]));
        if x == y {
        } else if self.nodes@[x as int] matches Node::Unknown(p) && self.nodes@[y as int] matches Node::Unknown(q) && p == q {
        } else {
            match self.nodes@[x as int] {
                Node::Choice(lab, p, q) => {
                    assert(self.born(w, lab.0 as nat));
                    let c = arm_of(w, lab, p, q);
                    self.lemma_trees_same(w, c, y, (a - 1) as nat, b);
                },
                _ => match self.nodes@[y as int] {
                    Node::Choice(lab, p, q) => {
                        assert(self.born(w, lab.0 as nat));
                        let c = arm_of(w, lab, p, q);
                        self.lemma_trees_same(w, x, c, a, (b - 1) as nat);
                    },
                    Node::App(g, ys) => match self.nodes@[x as int] {
                        Node::App(f, xs) => {
                            let s1 = self.tree(w, x, a)->Fun_1;
                            let s2 = self.tree(w, y, b)->Fun_1;
                            assert(s1.len() == xs@.len() && s2.len() == ys@.len());
                            assert forall|i: int| 0 <= i < xs@.len() implies self.same(
                                w,
                                (#[trigger] xs@[i]).0 as nat,
                                ys@[i].0 as nat,
                                (a + b - 1) as nat,
                            ) by {
                                assert(s1[i] == self.tree(w, xs@[i].0 as nat, (a - 1) as nat));
                                assert(s2[i] == self.tree(w, ys@[i].0 as nat, (b - 1) as nat));
                                assert(s1[i] == s2[i]);
                                self.lemma_trees_same(w, xs@[i].0 as nat, ys@[i].0 as nat, (a - 1) as nat, (b - 1) as nat);
                                self.lemma_same_stable(
                                    w,
                                    xs@[i].0 as nat,
                                    ys@[i].0 as nat,
                                    (a - 1) as nat,
                                    (b - 1) as nat,
                                    (a - 1 + b - 1) as nat,
                                    (a + b - 1) as nat,
                                );
                            }
                        },
                        Node::Unknown(_) => {
                            assert(false);
                        },
                        _ => {},
                    },
                    Node::Unknown(_) => {
                        match self.nodes@[x as int] {
                            Node::App(..) => {
                                assert(false);
                            },
                            _ => {},
                        }
                    },
                },
            }
        }
    }

    /// Where `equal` finds two nodes equal, they stand for the same tree.
    pub proof fn lemma_equal_sound(&self, w: World, l: nat, r: nat)
        requires
            self.wf(),
            l < self.node_count(),
            r < self.node_count(),
            self.equal_in(w, l, r),
        ensures
            self.denotes(w, l) == self.denotes(w, r),
    {
        assert(self.within(w, l, self.fuel@));
        assert(self.within(w, r, self.fuel@));
        self.lemma_same_trees(w, l, r, self.fuel@, self.fuel@, 2 * self.fuel@);
    }

    /// In a world where every label exists, two nodes that stand for the same tree
    /// are equal for `equal`.
    pub proof fn lemma_equal_complete(&self, w: World, l: nat, r: nat)
        requires
            self.wf(),
            l < self.node_count(),
            r < self.node_count(),
            self.all_born(w),
            self.denotes(w, l) == self.denotes(w, r),
        ensures
            self.equal_in(w, l, r),
    {
        assert(self.within(w, l, self.fuel@));
        assert(self.within(w, r, self.fuel@));
        self.lemma_trees_same(w, l, r, self.fuel@, self.fuel@);
    }
}
} // verus!
