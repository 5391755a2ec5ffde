//! Bounded primitives of finite initial phases: term budgets and weighted atom domains.
//!
//! Atom choices are weighted domains; partitions multiply weights and every
//! multiplication is checked.
use crate::order::{Order, compare_text, lemma_text_order, lemma_text_order_trans, text_order};
use vstd::prelude::*;

verus! {

#[derive(Debug, Clone, PartialEq, Eq)]
pub enum Error {
    AlreadyFinished,
    Source(&'static str),
    Suspended,
    Limit(&'static str),
    MultiplicityOverflow,
}

pub const TERM_DEPTH: &'static str = "term depth";

pub const TERM_NODES: &'static str = "term nodes";

/// The deepest term node a phase will visit.
pub const MAX_DEPTH: usize = 128;

#[derive(Clone, Copy, Debug, PartialEq, Eq)]
pub struct Limits {
    pub steps: usize,
    pub partitions: usize,
    pub solutions: usize,
    pub term_nodes: usize,
}

impl Default for Limits {
    fn default() -> (r: Self)
        ensures
            r == (Limits { steps: 100_000, partitions: 4096, solutions: 4096, term_nodes: 2_000_000 }),
    {
        Self { steps: 100_000, partitions: 4096, solutions: 4096, term_nodes: 2_000_000 }
    }
}

/// The term nodes a phase may still visit.
#[derive(Debug)]
pub struct Budget {
    pub left: usize,
}

impl Budget {
    /// Pay for one term node at `depth`.
    pub fn node(&mut self, depth: usize) -> (r: Result<(), Error>)
        ensures
            depth > MAX_DEPTH ==> r == Err::<(), Error>(Error::Limit(TERM_DEPTH)) && final(self).left
                == old(self).left,
            depth <= MAX_DEPTH && old(self).left == 0 ==> r == Err::<(), Error>(
                Error::Limit(TERM_NODES),
            ) && final(self).left == 0,
            depth <= MAX_DEPTH && old(self).left > 0 ==> r is Ok && final(self).left == old(
                self,
            ).left - 1,
    {
        if depth > MAX_DEPTH {
            return Err(Error::Limit(TERM_DEPTH));
        }
        match self.left.checked_sub(1) {
            Some(left) => {
                self.left = left;
                Ok(())
            },
            None => Err(Error::Limit(TERM_NODES)),
        }
    }
}

/// Multiply two weights, refusing overflow.
pub fn mul(a: u128, b: u128) -> (r: Result<u128, Error>)
    ensures
        a * b <= u128::MAX ==> r == Ok::<u128, Error>((a * b) as u128),
        a * b > u128::MAX ==> r == Err::<u128, Error>(Error::MultiplicityOverflow),
{
    match a.checked_mul(b) {
        Some(w) => Ok(w),
        None => Err(Error::MultiplicityOverflow),
    }
}

/// A weighted domain of atom values: each value occurs once, with its multiplicity.
#[derive(Debug)]
pub struct Domain {
    entries: Vec<(String, u128)>,
}

spec fn distinct_values(entries: Seq<(String, u128)>) -> bool {
    forall|i: int, j: int| 0 <= i < j < entries.len() ==> entries[i].0@ != entries[j].0@
}

spec fn has_value(entries: Seq<(String, u128)>, v: Seq<char>) -> bool {
    exists|i: int| 0 <= i < entries.len() && #[trigger] entries[i].0@ == v
}

spec fn weight_in(entries: Seq<(String, u128)>, v: Seq<char>) -> u128 {
    entries[choose|i: int| 0 <= i < entries.len() && #[trigger] entries[i].0@ == v].1
}

proof fn lemma_weight_at(entries: Seq<(String, u128)>, i: int)
    requires
        distinct_values(entries),
        0 <= i < entries.len(),
    ensures
        has_value(entries, entries[i].0@),
        weight_in(entries, entries[i].0@) == entries[i].1,
{
    let v = entries[i].0@;
    assert(entries[i].0@ == v);
    let j = choose|j: int| 0 <= j < entries.len() && #[trigger] entries[j].0@ == v;
    if i != j {
        if i < j {
            assert(entries[i].0@ != entries[j].0@);
        } else {
            assert(entries[j].0@ != entries[i].0@);
        }
    }
}

impl Domain {
    pub closed spec fn wf(&self) -> bool {
        distinct_values(self.entries@)
    }

    /// The weight of every value in the domain.
    pub closed spec fn weights(&self) -> Map<Seq<char>, u128> {
        Map::new(|v: Seq<char>| has_value(self.entries@, v), |v: Seq<char>| weight_in(self.entries@, v))
    }

    pub fn new() -> (d: Domain)
        ensures
            d.wf(),
            d.weights() == Map::<Seq<char>, u128>::empty(),
    {
        let d = Domain { entries: Vec::new() };
        proof {
            assert(d.weights() =~= Map::<Seq<char>, u128>::empty());
        }
        d
    }

    pub fn len(&self) -> (r: usize)
        requires
            self.wf(),
        ensures
            r == self.weights().len(),
    {
        proof {
            self.lemma_len();
        }
        self.entries.len()
    }

    proof fn lemma_len(&self)
        requires
            self.wf(),
        ensures
            self.weights().len() == self.entries@.len(),
            self.weights().dom().finite(),
    {
        let s = self.entries@;
        let keys = s.map_values(|e: (String, u128)| e.0@);
        assert forall|i: int, j: int| 0 <= i < j < keys.len() implies keys[i] != keys[j] by {}
        keys.unique_seq_to_set();
        assert(self.weights().dom() =~= keys.to_set()) by {
            assert forall|v: Seq<char>| self.weights().dom().contains(v) implies keys.to_set().contains(v) by {
                let i = choose|i: int| 0 <= i < s.len() && #[trigger] s[i].0@ == v;
                assert(keys[i] == v);
            }
            assert forall|v: Seq<char>| keys.to_set().contains(v) implies self.weights().dom().contains(v) by {
                let i = choose|i: int| 0 <= i < keys.len() && keys[i] == v;
                assert(s[i].0@ == v);
            }
        }
    }

    fn position(&self, value: &String) -> (r: Option<usize>)
        ensures
            match r {
                Some(i) => i < self.entries@.len() && self.entries@[i as int].0@ == value@,
                None => !has_value(self.entries@, value@),
            },
    {
        let mut i: usize = 0;
        while i < self.entries.len()
            invariant
                0 <= i <= self.entries.len(),
                forall|j: int| 0 <= j < i ==> #[trigger] self.entries@[j].0@ != value@,
            decreases self.entries.len() - i,
        {
            if self.entries[i].0 == *value {
                return Some(i);
            }
            i += 1;
        }
        None
    }

    /// The weight of `value`, if it is in the domain.
    pub fn get(&self, value: &String) -> (r: Option<u128>)
        requires
            self.wf(),
        ensures
            r == (if self.weights().contains_key(value@) {
                Some(self.weights()[value@])
            } else {
                None
            }),
    {
        match self.position(value) {
            Some(i) => {
                proof {
                    lemma_weight_at(self.entries@, i as int);
                }
                Some(self.entries[i].1)
            },
            None => None,
        }
    }

    /// Set the weight of `value`.
    pub fn insert(&mut self, value: String, weight: u128)
        requires
            old(self).wf(),
        ensures
            final(self).wf(),
            final(self).weights() == old(self).weights().insert(value@, weight),
    {
        let ghost before = self.entries@;
        match self.position(&value) {
            Some(i) => {
                let ghost key = value@;
                self.entries.set(i, (value, weight));
                proof {
                    let after = self.entries@;
                    assert forall|a: int, b: int| 0 <= a < b < after.len() implies after[a].0@
                        != after[b].0@ by {
                        if a != i as int && b != i as int {
                            assert(after[a] == before[a] && after[b] == before[b]);
                        } else if a == i as int {
                            assert(after[b] == before[b]);
                            assert(before[a].0@ == key);
                        } else {
                            assert(after[a] == before[a]);
                            assert(before[b].0@ == key);
                        }
                    }
                    self.lemma_insert_existing(before, i as int, key, weight);
                }
            },
            None => {
                let ghost key = value@;
                self.entries.push((value, weight));
                proof {
                    let after = self.entries@;
                    assert(after == before.push((after[after.len() - 1].0, weight)));
                    assert forall|a: int, b: int| 0 <= a < b < after.len() implies after[a].0@
                        != after[b].0@ by {
                        if b < before.len() {
                            assert(after[a] == before[a] && after[b] == before[b]);
                        } else {
                            assert(after[a] == before[a]);
                            assert(!has_value(before, key));
                            assert(before[a].0@ != key);
                        }
                    }
                    let old_w = Map::new(|v: Seq<char>| has_value(before, v), |v: Seq<char>| weight_in(before, v));
                    assert forall|v: Seq<char>| #[trigger] has_value(after, v) == (has_value(before, v) || v == key) by {
                        if has_value(after, v) {
                            let j = choose|j: int| 0 <= j < after.len() && #[trigger] after[j].0@ == v;
                            if j < before.len() {
                                assert(after[j] == before[j]);
                            }
                        }
                        if has_value(before, v) {
                            let j = choose|j: int| 0 <= j < before.len() && #[trigger] before[j].0@ == v;
                            assert(after[j] == before[j]);
                        }
                        if v == key {
                            assert(after[after.len() - 1].0@ == key);
                        }
                    }
                    assert forall|v: Seq<char>| has_value(after, v) implies #[trigger] weight_in(after, v) == if v == key {
                        weight
                    } else {
                        weight_in(before, v)
                    } by {
                        let j = choose|j: int| 0 <= j < after.len() && #[trigger] after[j].0@ == v;
                        lemma_weight_at(after, j);
                        if j < before.len() {
                            assert(after[j] == before[j]);
                            lemma_weight_at(before, j);
                        }
                    }
                    lemma_weights_update(after, before, key, weight);
                }
            },
        }
    }

    proof fn lemma_insert_existing(&self, before: Seq<(String, u128)>, i: int, key: Seq<char>, weight: u128)
        requires
            distinct_values(before),
            self.wf(),
            0 <= i < before.len(),
            before[i].0@ == key,
            self.entries@.len() == before.len(),
            self.entries@[i].0@ == key,
            self.entries@[i].1 == weight,
            forall|j: int| 0 <= j < before.len() && j != i ==> self.entries@[j] == before[j],
        ensures
            self.weights() == Map::new(|v: Seq<char>| has_value(before, v), |v: Seq<char>| weight_in(before, v)).insert(key, weight),
    {
        let after = self.entries@;
        let old_w = Map::new(|v: Seq<char>| has_value(before, v), |v: Seq<char>| weight_in(before, v));
        assert forall|v: Seq<char>| #[trigger] has_value(after, v) == (has_value(before, v) || v == key) by {
            if has_value(after, v) {
                let j = choose|j: int| 0 <= j < after.len() && #[trigger] after[j].0@ == v;
                if j != i {
                    assert(after[j] == before[j]);
                }
            }
            if has_value(before, v) {
                let j = choose|j: int| 0 <= j < before.len() && #[trigger] before[j].0@ == v;
                if j != i {
                    assert(after[j] == before[j]);
                } else {
                    assert(after[i].0@ == v);
                }
            }
            if v == key {
                assert(after[i].0@ == key);
            }
        }
        assert forall|v: Seq<char>| has_value(after, v) implies #[trigger] weight_in(after, v) == if v == key {
            weight
        } else {
            weight_in(before, v)
        } by {
            let j = choose|j: int| 0 <= j < after.len() && #[trigger] after[j].0@ == v;
            lemma_weight_at(after, j);
            if j != i {
                assert(after[j] == before[j]);
                lemma_weight_at(before, j);
            }
        }
        lemma_weights_update(after, before, key, weight);
    }
}

proof fn lemma_weights_update(
    after: Seq<(String, u128)>,
    before: Seq<(String, u128)>,
    key: Seq<char>,
    weight: u128,
)
    requires
        forall|v: Seq<char>| #[trigger] has_value(after, v) == (has_value(before, v) || v == key),
        forall|v: Seq<char>|
            has_value(after, v) ==> #[trigger] weight_in(after, v) == if v == key {
                weight
            } else {
                weight_in(before, v)
            },
    ensures
        Map::new(|v: Seq<char>| has_value(after, v), |v: Seq<char>| weight_in(after, v)) == Map::new(
            |v: Seq<char>| has_value(before, v),
            |v: Seq<char>| weight_in(before, v),
        ).insert(key, weight),
{
    let m1 = Map::new(|v: Seq<char>| has_value(after, v), |v: Seq<char>| weight_in(after, v));
    let m2 = Map::new(|v: Seq<char>| has_value(before, v), |v: Seq<char>| weight_in(before, v)).insert(
        key,
        weight,
    );
    assert forall|v: Seq<char>| m1.dom().contains(v) <==> m2.dom().contains(v) by {
        assert(has_value(after, v) == (has_value(before, v) || v == key));
    }
    assert forall|v: Seq<char>| m1.dom().contains(v) implies m1[v] == m2[v] by {
        assert(weight_in(after, v) == if v == key {
            weight
        } else {
            weight_in(before, v)
        });
    }
    assert(m1 =~= m2);
}

/// Some value common to both domains has a weight product beyond `u128`.
pub open spec fn product_overflows(a: Map<Seq<char>, u128>, b: Map<Seq<char>, u128>) -> bool {
    exists|v: Seq<char>| a.contains_key(v) && b.contains_key(v) && #[trigger] (a[v] * b[v]) > u128::MAX
}

/// The values common to both domains, each weighted by the product of its weights.
pub fn intersection(a: &Domain, b: &Domain) -> (r: Result<Domain, Error>)
    requires
        a.wf(),
        b.wf(),
    ensures
        product_overflows(a.weights(), b.weights()) ==> r == Err::<Domain, Error>(
            Error::MultiplicityOverflow,
        ),
        !product_overflows(a.weights(), b.weights()) ==> (r matches Ok(d) && d.wf() && forall|
            v: Seq<char>,
        |
            #![trigger d.weights().contains_key(v)]
            (d.weights().contains_key(v) <==> (a.weights().contains_key(v) && b.weights().contains_key(v)))
                && (d.weights().contains_key(v) ==> d.weights()[v] == a.weights()[v] * b.weights()[v])),
{
    let mut result = Domain::new();
    let mut i: usize = 0;
    while i < a.entries.len()
        invariant
            0 <= i <= a.entries.len(),
            a.wf(),
            b.wf(),
            result.wf(),
            forall|v: Seq<char>|
                #![trigger result.weights().contains_key(v)]
                (result.weights().contains_key(v) <==> (exists|j: int|
                    0 <= j < i && #[trigger] a.entries@[j].0@ == v) && b.weights().contains_key(v))
                    && (result.weights().contains_key(v) ==> result.weights()[v] == a.weights()[v]
                    * b.weights()[v]),
            forall|j: int|
                0 <= j < i && b.weights().contains_key(#[trigger] a.entries@[j].0@) ==> a.weights()[a.entries@[j].0@]
                    * b.weights()[a.entries@[j].0@] <= u128::MAX,
        decreases a.entries.len() - i,
    {
        let value = &a.entries[i].0;
        let x = a.entries[i].1;
        proof {
            lemma_weight_at(a.entries@, i as int);
        }
        match b.get(value) {
            Some(y) => {
                match self::mul(x, y) {
                    Ok(w) => {
                        let ghost before = result.weights();
                        result.insert(value.clone(), w);
                        proof {
                            assert forall|v: Seq<char>|
                                #![trigger result.weights().contains_key(v)]
                                (result.weights().contains_key(v) <==> (exists|j: int|
                                    0 <= j < i + 1 && #[trigger] a.entries@[j].0@ == v)
                                    && b.weights().contains_key(v)) && (
                                result.weights().contains_key(v) ==> result.weights()[v]
                                    == a.weights()[v] * b.weights()[v]) by {
                                if v == a.entries@[i as int].0@ {
                                } else {
                                    assert(before.contains_key(v) == result.weights().contains_key(v));
                                    if exists|j: int| 0 <= j < i + 1 && #[trigger] a.entries@[j].0@ == v {
                                        let j = choose|j: int| 0 <= j < i + 1 && #[trigger] a.entries@[j].0@ == v;
                                        assert(j < i);
                                    }
                                }
                            }
                        }
                    },
                    Err(e) => {
                        proof {
                            assert(a.weights().contains_key(a.entries@[i as int].0@));
                        }
                        return Err(e);
                    },
                }
            },
            None => {
                proof {
                    assert forall|v: Seq<char>|
                        #![trigger result.weights().contains_key(v)]
                        (result.weights().contains_key(v) <==> (exists|j: int|
                            0 <= j < i + 1 && #[trigger] a.entries@[j].0@ == v)
                            && b.weights().contains_key(v)) by {
                        if exists|j: int| 0 <= j < i + 1 && #[trigger] a.entries@[j].0@ == v {
                            let j = choose|j: int| 0 <= j < i + 1 && #[trigger] a.entries@[j].0@ == v;
                            if j == i {
                                assert(!b.weights().contains_key(v));
                            }
                        }
                    }
                }
            },
        }
        i += 1;
    }
    proof {
        assert forall|v: Seq<char>|
            #![trigger result.weights().contains_key(v)]
            result.weights().contains_key(v) <==> (a.weights().contains_key(v) && b.weights().contains_key(v)) by {
            if a.weights().contains_key(v) {
                let j = choose|j: int| 0 <= j < a.entries@.len() && #[trigger] a.entries@[j].0@ == v;
            }
        }
        assert(!product_overflows(a.weights(), b.weights())) by {
            if product_overflows(a.weights(), b.weights()) {
                let v = choose|v: Seq<char>| a.weights().contains_key(v) && b.weights().contains_key(v)
                    && #[trigger] (a.weights()[v] * b.weights()[v]) > u128::MAX;
                let j = choose|j: int| 0 <= j < a.entries@.len() && #[trigger] a.entries@[j].0@ == v;
            }
        }
    }
    Ok(result)
}

/// Some value of both domains has a weight sum beyond `u128`.
pub open spec fn sum_overflows(a: Map<Seq<char>, u128>, b: Map<Seq<char>, u128>) -> bool {
    exists|v: Seq<char>| a.contains_key(v) && b.contains_key(v) && #[trigger] (a[v] + b[v]) > u128::MAX
}

/// The values of either domain, each weighted by the sum of its weights.
pub open spec fn sum_v(a: Map<Seq<char>, u128>, b: Map<Seq<char>, u128>) -> Map<Seq<char>, u128> {
    Map::new(
        |v: Seq<char>| a.contains_key(v) || b.contains_key(v),
        |v: Seq<char>|
            ((if a.contains_key(v) {
                a[v] as int
            } else {
                0
            }) + (if b.contains_key(v) {
                b[v] as int
            } else {
                0
            })) as u128,
    )
}

impl Domain {
    /// Add the weights of `other`, value by value.
    pub fn add_all(&mut self, other: &Domain) -> (r: Result<(), Error>)
        requires
            old(self).wf(),
            other.wf(),
        ensures
            r is Ok <==> !sum_overflows(old(self).weights(), other.weights()),
            r is Ok ==> final(self).wf() && final(self).weights() == sum_v(old(self).weights(), other.weights()),
            r is Err ==> r == Err::<(), Error>(Error::MultiplicityOverflow),
    {
        let ghost orig = self.weights();
        let ghost b = other.weights();
        let mut i: usize = 0;
        while i < other.entries.len()
            invariant
                0 <= i <= other.entries.len(),
                other.wf(),
                b == other.weights(),
                orig == old(self).weights(),
                self.wf(),
                forall|v: Seq<char>|
                    #![trigger self.weights().contains_key(v)]
                    (self.weights().contains_key(v) <==> (orig.contains_key(v) || exists|j: int|
                        0 <= j < i && #[trigger] other.entries@[j].0@ == v)) && (self.weights().contains_key(v)
                        ==> self.weights()[v] == ((if orig.contains_key(v) {
                        orig[v] as int
                    } else {
                        0
                    }) + (if exists|j: int| 0 <= j < i && #[trigger] other.entries@[j].0@ == v {
                        b[v] as int
                    } else {
                        0
                    }))),
                forall|j: int|
                    0 <= j < i && orig.contains_key(#[trigger] other.entries@[j].0@) ==> orig[other.entries@[j].0@]
                        + b[other.entries@[j].0@] <= u128::MAX,
            decreases other.entries.len() - i,
        {
            let value = &other.entries[i].0;
            let w = other.entries[i].1;
            let ghost key = value@;
            proof {
                lemma_weight_at(other.entries@, i as int);
                assert(b.contains_key(key) && b[key] == w);
                assert forall|j: int| 0 <= j < i implies #[trigger] other.entries@[j].0@ != key by {
                    assert(other.entries@[j].0@ != other.entries@[i as int].0@);
                }
            }
            let ghost before = self.weights();
            match self.get(value) {
                Some(x) => {
                    proof {
                        assert(before.contains_key(key));
                        assert(orig.contains_key(key));
                        assert(x == orig[key]);
                    }
                    match x.checked_add(w) {
                        Some(t) => {
                            self.insert(value.clone(), t);
                        },
                        None => {
                            proof {
                                assert(orig.contains_key(key) && b.contains_key(key) && orig[key] + b[key] > u128::MAX);
                                assert(sum_overflows(orig, b));
                            }
                            return Err(Error::MultiplicityOverflow);
                        },
                    }
                },
                None => {
                    proof {
                        assert(!orig.contains_key(key));
                    }
                    self.insert(value.clone(), w);
                },
            }
            proof {
                assert forall|v: Seq<char>|
                    #![trigger self.weights().contains_key(v)]
                    (self.weights().contains_key(v) <==> (orig.contains_key(v) || exists|j: int|
                        0 <= j < i + 1 && #[trigger] other.entries@[j].0@ == v)) && (self.weights().contains_key(v)
                        ==> self.weights()[v] == ((if orig.contains_key(v) {
                        orig[v] as int
                    } else {
                        0
                    }) + (if exists|j: int| 0 <= j < i + 1 && #[trigger] other.entries@[j].0@ == v {
                        b[v] as int
                    } else {
                        0
                    }))) by {
                    if v == key {
                        assert(other.entries@[i as int].0@ == v);
                    } else {
                        assert(before.contains_key(v) == self.weights().contains_key(v));
                        if exists|j: int| 0 <= j < i + 1 && #[trigger] other.entries@[j].0@ == v {
                            let j = choose|j: int| 0 <= j < i + 1 && #[trigger] other.entries@[j].0@ == v;
                            assert(j < i);
                        }
                    }
                }
            }
            i += 1;
        }
        proof {
            let m = sum_v(orig, b);
            assert forall|v: Seq<char>| #[trigger] b.contains_key(v) implies exists|j: int|
                0 <= j < i && #[trigger] other.entries@[j].0@ == v by {
                let j = choose|j: int| 0 <= j < other.entries@.len() && #[trigger] other.entries@[j].0@ == v;
            }
            assert forall|v: Seq<char>| (exists|j: int| 0 <= j < i && #[trigger] other.entries@[j].0@ == v) implies #[trigger] b.contains_key(v) by {
                let j = choose|j: int| 0 <= j < i && #[trigger] other.entries@[j].0@ == v;
                lemma_weight_at(other.entries@, j);
            }
            assert forall|v: Seq<char>| #[trigger] self.weights().contains_key(v) <==> m.contains_key(v) by {}
            assert forall|v: Seq<char>| #[trigger] self.weights().contains_key(v) implies self.weights()[v] == m[v] by {}
            assert(self.weights() =~= m);
            assert(!sum_overflows(orig, b)) by {
                if sum_overflows(orig, b) {
                    let v = choose|v: Seq<char>| orig.contains_key(v) && b.contains_key(v) && #[trigger] (orig[v] + b[v]) > u128::MAX;
                    let j = choose|j: int| 0 <= j < other.entries@.len() && #[trigger] other.entries@[j].0@ == v;
                }
            }
        }
        Ok(())
    }
}

/// `x` is the least value of the domain in text order.
pub open spec fn is_least(m: Map<Seq<char>, u128>, x: Seq<char>) -> bool {
    &&& m.contains_key(x)
    &&& forall|y: Seq<char>| #[trigger] m.contains_key(y) ==> y == x || text_order(x, y) == Order::Less
}

/// The least value of a non-empty finite domain.
pub open spec fn least(m: Map<Seq<char>, u128>) -> Seq<char> {
    choose|x: Seq<char>| is_least(m, x)
}

/// The entries of a finite domain in ascending text order of their values.
pub open spec fn listing(m: Map<Seq<char>, u128>) -> Seq<(Seq<char>, u128)>
    decreases m.dom().len(),
    when m.dom().finite()
{
    let x = least(m);
    if m.contains_key(x) {
        seq![(x, m[x])] + listing(m.remove(x))
    } else {
        Seq::empty()
    }
}

/// A non-empty finite domain has exactly one least value.
pub proof fn lemma_least(m: Map<Seq<char>, u128>)
    requires
        m.dom().finite(),
        m.dom().len() > 0,
    ensures
        is_least(m, least(m)),
        forall|x: Seq<char>| #[trigger] is_least(m, x) ==> x == least(m),
    decreases m.dom().len(),
{
    let a = m.dom().choose();
    let r = m.remove(a);
    assert(r.dom() =~= m.dom().remove(a));
    if r.dom().len() == 0 {
        assert forall|y: Seq<char>| #[trigger] m.contains_key(y) implies y == a || text_order(a, y) == Order::Less by {
            if y != a {
                assert(r.dom().contains(y));
            }
        }
        assert(is_least(m, a));
    } else {
        lemma_least(r);
        let b = least(r);
        lemma_text_order(a, b);
        if text_order(a, b) == Order::Less {
            assert forall|y: Seq<char>| #[trigger] m.contains_key(y) implies y == a || text_order(a, y) == Order::Less by {
                if y != a {
                    assert(r.contains_key(y));
                    if y != b {
                        lemma_text_order_trans(a, b, y);
                    }
                }
            }
            assert(is_least(m, a));
        } else {
            assert forall|y: Seq<char>| #[trigger] m.contains_key(y) implies y == b || text_order(b, y) == Order::Less by {
                if y != b && y != a {
                    assert(r.contains_key(y));
                }
            }
            assert(is_least(m, b));
        }
    }
    let l = least(m);
    assert forall|x: Seq<char>| #[trigger] is_least(m, x) implies x == l by {
        lemma_text_order(x, l);
    }
}

/// The map of a list of entries whose values are distinct.
spec fn entries_map(s: Seq<(String, u128)>) -> Map<Seq<char>, u128> {
    Map::new(|v: Seq<char>| has_value(s, v), |v: Seq<char>| weight_in(s, v))
}

/// The values of a list of entries.
pub open spec fn entries_v(s: Seq<(String, u128)>) -> Seq<(Seq<char>, u128)> {
    s.map_values(|e: (String, u128)| (e.0@, e.1))
}

proof fn lemma_entries_len(s: Seq<(String, u128)>)
    requires
        distinct_values(s),
    ensures
        entries_map(s).dom().finite(),
        entries_map(s).dom().len() == s.len(),
{
    let keys = s.map_values(|e: (String, u128)| e.0@);
    assert forall|i: int, j: int| 0 <= i < j < keys.len() implies keys[i] != keys[j] by {}
    keys.unique_seq_to_set();
    assert(entries_map(s).dom() =~= keys.to_set()) by {
        assert forall|v: Seq<char>| entries_map(s).dom().contains(v) implies keys.to_set().contains(v) by {
            let i = choose|i: int| 0 <= i < s.len() && #[trigger] s[i].0@ == v;
            assert(keys[i] == v);
        }
        assert forall|v: Seq<char>| keys.to_set().contains(v) implies entries_map(s).dom().contains(v) by {
            let i = choose|i: int| 0 <= i < keys.len() && keys[i] == v;
            assert(s[i].0@ == v);
        }
    }
}

proof fn lemma_entries_remove(s: Seq<(String, u128)>, m: int)
    requires
        distinct_values(s),
        0 <= m < s.len(),
    ensures
        distinct_values(s.remove(m)),
        entries_map(s.remove(m)) == entries_map(s).remove(s[m].0@),
{
    let t = s.remove(m);
    let x = s[m].0@;
    assert forall|i: int, j: int| 0 <= i < j < t.len() implies t[i].0@ != t[j].0@ by {
        let a = if i < m { i } else { i + 1 };
        let b = if j < m { j } else { j + 1 };
        assert(t[i] == s[a] && t[j] == s[b]);
    }
    assert forall|v: Seq<char>| #[trigger] has_value(t, v) == (has_value(s, v) && v != x) by {
        if has_value(t, v) {
            let i = choose|i: int| 0 <= i < t.len() && #[trigger] t[i].0@ == v;
            let a = if i < m { i } else { i + 1 };
            assert(t[i] == s[a]);
            assert(s[a].0@ == v);
        }
        if has_value(s, v) && v != x {
            let a = choose|a: int| 0 <= a < s.len() && #[trigger] s[a].0@ == v;
            let i = if a < m { a } else { a - 1 };
            assert(t[i] == s[a]);
        }
    }
    assert forall|v: Seq<char>| has_value(t, v) implies #[trigger] weight_in(t, v) == weight_in(s, v) by {
        let i = choose|i: int| 0 <= i < t.len() && #[trigger] t[i].0@ == v;
        let a = if i < m { i } else { i + 1 };
        assert(t[i] == s[a]);
        lemma_weight_at(t, i);
        lemma_weight_at(s, a);
    }
    assert(entries_map(t) =~= entries_map(s).remove(x));
}

impl Domain {
    /// The entries in ascending text order of their values.
    pub fn ascending(&self) -> (r: Vec<(String, u128)>)
        requires
            self.wf(),
        ensures
            entries_v(r@) == listing(self.weights()),
    {
        let mut rest: Vec<(String, u128)> = Vec::new();
        let mut i: usize = 0;
        while i < self.entries.len()
            invariant
                0 <= i <= self.entries.len(),
                entries_v(rest@) == entries_v(self.entries@.take(i as int)),
                rest@.len() == i,
            decreases self.entries.len() - i,
        {
            let e = &self.entries[i];
            let name = e.0.clone();
            let ghost before = rest@;
            rest.push((name, e.1));
            proof {
                assert(rest@ == before.push((name, e.1)));
                assert(self.entries@.take(i + 1) == self.entries@.take(i as int).push(self.entries@[i as int]));
                assert(entries_v(rest@) =~= entries_v(before).push((name@, e.1)));
                assert(entries_v(self.entries@.take(i + 1)) =~= entries_v(self.entries@.take(i as int)).push((e.0@, e.1)));
            }
            i += 1;
        }
        proof {
            assert(self.entries@.take(i as int) =~= self.entries@);
            assert forall|a: int, b: int| 0 <= a < b < rest@.len() implies rest@[a].0@ != rest@[b].0@ by {
                assert(entries_v(rest@)[a] == entries_v(self.entries@)[a]);
                assert(entries_v(rest@)[b] == entries_v(self.entries@)[b]);
            }
            assert(entries_map(rest@) =~= self.weights()) by {
                assert forall|v: Seq<char>| has_value(rest@, v) == has_value(self.entries@, v) by {
                    if has_value(rest@, v) {
                        let j = choose|j: int| 0 <= j < rest@.len() && #[trigger] rest@[j].0@ == v;
                        assert(entries_v(rest@)[j] == entries_v(self.entries@)[j]);
                    }
                    if has_value(self.entries@, v) {
                        let j = choose|j: int| 0 <= j < self.entries@.len() && #[trigger] self.entries@[j].0@ == v;
                        assert(entries_v(rest@)[j] == entries_v(self.entries@)[j]);
                    }
                }
                assert forall|v: Seq<char>| has_value(rest@, v) implies weight_in(rest@, v) == weight_in(self.entries@, v) by {
                    let j = choose|j: int| 0 <= j < rest@.len() && #[trigger] rest@[j].0@ == v;
                    assert(entries_v(rest@)[j] == entries_v(self.entries@)[j]);
                    lemma_weight_at(rest@, j);
                    lemma_weight_at(self.entries@, j);
                }
            }
            lemma_entries_len(rest@);
            assert(entries_v(Seq::<(String, u128)>::empty()) =~= Seq::<(Seq<char>, u128)>::empty());
        }
        let mut out: Vec<(String, u128)> = Vec::new();
        while rest.len() > 0
            invariant
                distinct_values(rest@),
                entries_map(rest@).dom().finite(),
                entries_map(rest@).dom().len() == rest@.len(),
                entries_v(out@) + listing(entries_map(rest@)) == listing(self.weights()),
            decreases rest.len(),
        {
            let mut m: usize = 0;
            let mut j: usize = 1;
            while j < rest.len()
                invariant
                    0 <= m < j <= rest.len(),
                    distinct_values(rest@),
                    forall|k: int| 0 <= k < j ==> k == m || text_order(rest@[m as int].0@, #[trigger] rest@[k].0@)
                        == Order::Less,
                decreases rest.len() - j,
            {
                if compare_text(rest[j].0.as_str(), rest[m].0.as_str()) == Order::Less {
                    proof {
                        assert forall|k: int| 0 <= k < j + 1 implies k == j || text_order(rest@[j as int].0@, #[trigger] rest@[k].0@)
                            == Order::Less by {
                            if k < j && k != m {
                                lemma_text_order_trans(rest@[j as int].0@, rest@[m as int].0@, rest@[k].0@);
                            }
                        }
                    }
                    m = j;
                } else {
                    proof {
                        lemma_text_order(rest@[j as int].0@, rest@[m as int].0@);
                        assert(rest@[j as int].0@ != rest@[m as int].0@);
                    }
                }
                j += 1;
            }
            let ghost map = entries_map(rest@);
            let ghost x = rest@[m as int].0@;
            proof {
                assert forall|y: Seq<char>| #[trigger] map.contains_key(y) implies y == x || text_order(x, y) == Order::Less by {
                    let k = choose|k: int| 0 <= k < rest@.len() && #[trigger] rest@[k].0@ == y;
                }
                lemma_weight_at(rest@, m as int);
                assert(is_least(map, x));
                lemma_least(map);
                assert(least(map) == x);
                assert(listing(map) == seq![(x, map[x])] + listing(map.remove(x)));
                lemma_entries_remove(rest@, m as int);
            }
            let ghost before = rest@;
            let e = rest.remove(m);
            proof {
                assert(rest@ == before.remove(m as int));
                lemma_entries_len(rest@);
            }
            let ghost out_before = out@;
            out.push(e);
            proof {
                assert(entries_v(out@) =~= entries_v(out_before) + seq![(x, map[x])]);
                assert(entries_v(out@) + listing(entries_map(rest@)) =~= entries_v(out_before) + listing(map));
            }
        }
        out
    }
}

impl Domain {
    /// A domain with the same weights.
    pub fn copy(&self) -> (r: Domain)
        requires
            self.wf(),
        ensures
            r.wf(),
            r.weights() == self.weights(),
    {
        let mut entries: Vec<(String, u128)> = Vec::new();
        let mut i: usize = 0;
        while i < self.entries.len()
            invariant
                0 <= i <= self.entries@.len(),
                entries_v(entries@) == entries_v(self.entries@.take(i as int)),
                entries@.len() == i,
            decreases self.entries.len() - i,
        {
            let name = self.entries[i].0.clone();
            let ghost before = entries@;
            entries.push((name, self.entries[i].1));
            proof {
                assert(self.entries@.take(i + 1) == self.entries@.take(i as int).push(self.entries@[i as int]));
                assert(entries_v(entries@) =~= entries_v(before).push((name@, self.entries@[i as int].1)));
                assert(entries_v(self.entries@.take(i + 1)) =~= entries_v(self.entries@.take(i as int)).push(
                    (self.entries@[i as int].0@, self.entries@[i as int].1),
                ));
            }
            i += 1;
        }
        let r = Domain { entries };
        proof {
            assert(self.entries@.take(i as int) =~= self.entries@);
            assert forall|a: int, b: int| 0 <= a < b < r.entries@.len() implies r.entries@[a].0@ != r.entries@[b].0@ by {
                assert(entries_v(r.entries@)[a] == entries_v(self.entries@)[a]);
                assert(entries_v(r.entries@)[b] == entries_v(self.entries@)[b]);
            }
            assert forall|v: Seq<char>| has_value(r.entries@, v) == has_value(self.entries@, v) by {
                if has_value(r.entries@, v) {
                    let j = choose|j: int| 0 <= j < r.entries@.len() && #[trigger] r.entries@[j].0@ == v;
                    assert(entries_v(r.entries@)[j] == entries_v(self.entries@)[j]);
                }
                if has_value(self.entries@, v) {
                    let j = choose|j: int| 0 <= j < self.entries@.len() && #[trigger] self.entries@[j].0@ == v;
                    assert(entries_v(r.entries@)[j] == entries_v(self.entries@)[j]);
                }
            }
            assert forall|v: Seq<char>| has_value(r.entries@, v) implies weight_in(r.entries@, v) == weight_in(self.entries@, v) by {
                let j = choose|j: int| 0 <= j < r.entries@.len() && #[trigger] r.entries@[j].0@ == v;
                assert(entries_v(r.entries@)[j] == entries_v(self.entries@)[j]);
                lemma_weight_at(r.entries@, j);
                lemma_weight_at(self.entries@, j);
            }
            assert(r.weights() =~= self.weights());
        }
        r
    }

    /// Remove `value` from the domain.
    pub fn remove(&mut self, value: &String)
        requires
            old(self).wf(),
        ensures
            final(self).wf(),
            final(self).weights() == old(self).weights().remove(value@),
    {
        match self.position(value) {
            Some(i) => {
                let ghost before = self.entries@;
                self.entries.remove(i);
                proof {
                    lemma_entries_remove(before, i as int);
                    assert(self.entries@ == before.remove(i as int));
                    assert(entries_map(self.entries@) == self.weights());
                    assert(entries_map(before) == old(self).weights());
                }
            },
            None => {
                proof {
                    assert(self.weights() =~= old(self).weights().remove(value@));
                }
            },
        }
    }
}

/// Every entry of a listing is an entry of the domain.
pub proof fn lemma_listing_entries(m: Map<Seq<char>, u128>)
    requires
        m.dom().finite(),
    ensures
        forall|k: int|
            0 <= k < listing(m).len() ==> m.contains_key(#[trigger] listing(m)[k].0) && m[listing(m)[k].0] == listing(m)[k].1,
    decreases m.dom().len(),
{
    let x = least(m);
    if m.contains_key(x) {
        let r = m.remove(x);
        assert(r.dom() =~= m.dom().remove(x));
        lemma_listing_entries(r);
        let l = listing(m);
        assert(l == seq![(x, m[x])] + listing(r));
        assert forall|k: int| 0 <= k < l.len() implies m.contains_key(#[trigger] l[k].0) && m[l[k].0] == l[k].1 by {
            if k > 0 {
                assert(l[k] == listing(r)[k - 1]);
            }
        }
    }
}

impl Domain {
    /// A well-formed domain is finite.
    pub proof fn lemma_finite(&self)
        requires
            self.wf(),
        ensures
            self.weights().dom().finite(),
    {
        self.lemma_len();
    }
}

/// The texts of a list, as a set.
pub open spec fn texts_set(s: Seq<String>) -> Set<Seq<char>> {
    Set::new(|x: Seq<char>| exists|i: int| 0 <= i < s.len() && #[trigger] s[i]@ == x)
}

/// Whether a list holds the text `x`.
pub fn contains_text(s: &Vec<String>, x: &String) -> (r: bool)
    ensures
        r == texts_set(s@).contains(x@),
{
    let mut i: usize = 0;
    while i < s.len()
        invariant
            0 <= i <= s@.len(),
            forall|j: int| 0 <= j < i ==> #[trigger] s@[j]@ != x@,
        decreases s.len() - i,
    {
        if s[i] == *x {
            proof {
                assert(s@[i as int]@ == x@);
            }
            return true;
        }
        i += 1;
    }
    false
}

impl Domain {
    /// The values of the domain.
    pub fn keys(&self) -> (r: Vec<String>)
        requires
            self.wf(),
        ensures
            texts_set(r@) == self.weights().dom(),
    {
        let mut out: Vec<String> = Vec::new();
        let mut i: usize = 0;
        while i < self.entries.len()
            invariant
                0 <= i <= self.entries@.len(),
                out@.len() == i,
                forall|j: int| 0 <= j < i ==> (#[trigger] out@[j])@ == self.entries@[j].0@,
            decreases self.entries.len() - i,
        {
            out.push(self.entries[i].0.clone());
            i += 1;
        }
        proof {
            assert forall|x: Seq<char>| #[trigger] texts_set(out@).contains(x) == self.weights().dom().contains(x) by {
                if texts_set(out@).contains(x) {
                    let j = choose|j: int| 0 <= j < out@.len() && #[trigger] out@[j]@ == x;
                    assert(self.entries@[j].0@ == x);
                }
                if self.weights().dom().contains(x) {
                    let j = choose|j: int| 0 <= j < self.entries@.len() && #[trigger] self.entries@[j].0@ == x;
                    assert(out@[j]@ == x);
                }
            }
            assert(texts_set(out@) =~= self.weights().dom());
        }
        out
    }

    /// The entries whose values lie in `set`, or, where `inside` is false,
    /// those whose values lie outside it.
    pub fn restricted(&self, set: &Vec<String>, inside: bool) -> (r: Domain)
        requires
            self.wf(),
        ensures
            r.wf(),
            r.weights() == self.weights().restrict(Set::new(|x: Seq<char>| texts_set(set@).contains(x) == inside)),
    {
        let ghost keep = Set::new(|x: Seq<char>| texts_set(set@).contains(x) == inside);
        let mut out = Domain::new();
        let mut i: usize = 0;
        while i < self.entries.len()
            invariant
                0 <= i <= self.entries@.len(),
                self.wf(),
                out.wf(),
                keep == Set::new(|x: Seq<char>| texts_set(set@).contains(x) == inside),
                out.weights() == self.weights().restrict(
                    keep.intersect(Set::new(|x: Seq<char>| exists|j: int| 0 <= j < i && #[trigger] self.entries@[j].0@ == x)),
                ),
            decreases self.entries.len() - i,
        {
            let e = &self.entries[i];
            let ghost seen = Set::new(|x: Seq<char>| exists|j: int| 0 <= j < i && #[trigger] self.entries@[j].0@ == x);
            let ghost seen2 = Set::new(|x: Seq<char>| exists|j: int| 0 <= j < i + 1 && #[trigger] self.entries@[j].0@ == x);
            proof {
                lemma_weight_at(self.entries@, i as int);
                assert(seen2 =~= seen.insert(e.0@)) by {
                    assert forall|x: Seq<char>| seen2.contains(x) implies #[trigger] seen.insert(e.0@).contains(x) by {
                        let j = choose|j: int| 0 <= j < i + 1 && #[trigger] self.entries@[j].0@ == x;
                        if j < i {
                            assert(seen.contains(x));
                        }
                    }
                    assert forall|x: Seq<char>| #[trigger] seen.insert(e.0@).contains(x) implies seen2.contains(x) by {
                        if x == e.0@ {
                            assert(self.entries@[i as int].0@ == x);
                        } else {
                            let j = choose|j: int| 0 <= j < i && #[trigger] self.entries@[j].0@ == x;
                            assert(self.entries@[j].0@ == x);
                        }
                    }
                }
            }
            if contains_text(set, &e.0) == inside {
                out.insert(e.0.clone(), e.1);
                proof {
                    assert(out.weights() =~= self.weights().restrict(keep.intersect(seen2)));
                }
            } else {
                proof {
                    assert(out.weights() =~= self.weights().restrict(keep.intersect(seen2)));
                }
            }
            i += 1;
        }
        proof {
            let seen = Set::new(|x: Seq<char>| exists|j: int| 0 <= j < i && #[trigger] self.entries@[j].0@ == x);
            assert(out.weights() =~= self.weights().restrict(keep)) by {
                assert forall|x: Seq<char>| #[trigger] self.weights().contains_key(x) implies seen.contains(x) by {
                    let j = choose|j: int| 0 <= j < self.entries@.len() && #[trigger] self.entries@[j].0@ == x;
                    assert(self.entries@[j].0@ == x);
                }
            }
        }
        out
    }

    /// Whether some value of the domain lies in `set`.
    pub fn some_in(&self, set: &Vec<String>) -> (r: bool)
        requires
            self.wf(),
        ensures
            r == exists|x: Seq<char>| #[trigger] self.weights().contains_key(x) && texts_set(set@).contains(x),
    {
        let mut i: usize = 0;
        while i < self.entries.len()
            invariant
                0 <= i <= self.entries@.len(),
                self.wf(),
                forall|j: int| 0 <= j < i ==> !texts_set(set@).contains(#[trigger] self.entries@[j].0@),
            decreases self.entries.len() - i,
        {
            if contains_text(set, &self.entries[i].0) {
                proof {
                    lemma_weight_at(self.entries@, i as int);
                    assert(self.weights().contains_key(self.entries@[i as int].0@));
                }
                return true;
            }
            i += 1;
        }
        proof {
            assert forall|x: Seq<char>| #[trigger] self.weights().contains_key(x) implies !texts_set(set@).contains(x) by {
                let j = choose|j: int| 0 <= j < self.entries@.len() && #[trigger] self.entries@[j].0@ == x;
                assert(!texts_set(set@).contains(self.entries@[j].0@));
            }
        }
        false
    }

    /// Whether every value of the domain lies in `set`.
    pub fn all_in(&self, set: &Vec<String>) -> (r: bool)
        requires
            self.wf(),
        ensures
            r == self.weights().dom().subset_of(texts_set(set@)),
    {
        let mut i: usize = 0;
        while i < self.entries.len()
            invariant
                0 <= i <= self.entries@.len(),
                self.wf(),
                forall|j: int| 0 <= j < i ==> texts_set(set@).contains(#[trigger] self.entries@[j].0@),
            decreases self.entries.len() - i,
        {
            if !contains_text(set, &self.entries[i].0) {
                proof {
                    lemma_weight_at(self.entries@, i as int);
                }
                return false;
            }
            i += 1;
        }
        proof {
            assert forall|x: Seq<char>| #[trigger] self.weights().dom().contains(x) implies texts_set(set@).contains(x) by {
                let j = choose|j: int| 0 <= j < self.entries@.len() && #[trigger] self.entries@[j].0@ == x;
                assert(texts_set(set@).contains(self.entries@[j].0@));
            }
        }
        true
    }
}

} // verus!
