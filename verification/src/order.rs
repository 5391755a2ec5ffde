//! Total orders on text, predicate keys and terms, as ordered collections sort them.
//!
//! Text is ordered lexicographically by character; keys by name, then arity;
//! terms variables first (by number), then applications by name, then by
//! their arguments lexicographically.
use crate::syntax::{Term, TermV, term_v};
use vstd::prelude::*;
use vstd::string::*;

verus! {

/// The outcome of comparing two values.
#[derive(Clone, Copy, Debug, PartialEq, Eq, Structural)]
pub enum Order {
    Less,
    Equal,
    Greater,
}

pub open spec fn flip(o: Order) -> Order {
    match o {
        Order::Less => Order::Greater,
        Order::Equal => Order::Equal,
        Order::Greater => Order::Less,
    }
}

/// Lexicographic order on character sequences.
pub open spec fn text_order(a: Seq<char>, b: Seq<char>) -> Order
    decreases a.len(),
{
    if a.len() == 0 {
        if b.len() == 0 {
            Order::Equal
        } else {
            Order::Less
        }
    } else if b.len() == 0 {
        Order::Greater
    } else if (a[0] as int) < (b[0] as int) {
        Order::Less
    } else if (a[0] as int) > (b[0] as int) {
        Order::Greater
    } else {
        text_order(a.drop_first(), b.drop_first())
    }
}

/// Keys are ordered by name, then by arity.
pub open spec fn key_order(a: (Seq<char>, nat), b: (Seq<char>, nat)) -> Order {
    match text_order(a.0, b.0) {
        Order::Equal => if a.1 < b.1 {
            Order::Less
        } else if a.1 > b.1 {
            Order::Greater
        } else {
            Order::Equal
        },
        o => o,
    }
}

/// Terms: variables before applications; applications by name, then arguments.
pub open spec fn term_order(a: TermV, b: TermV) -> Order
    decreases a,
{
    match a {
        TermV::Var(x) => match b {
            TermV::Var(y) => if x < y {
                Order::Less
            } else if x > y {
                Order::Greater
            } else {
                Order::Equal
            },
            TermV::App(..) => Order::Less,
        },
        TermV::App(n, xs) => match b {
            TermV::Var(_) => Order::Greater,
            TermV::App(m, ys) => match text_order(n, m) {
                Order::Equal => terms_order(xs, ys),
                o => o,
            },
        },
    }
}

/// Lexicographic order on argument lists.
pub open spec fn terms_order(xs: Seq<TermV>, ys: Seq<TermV>) -> Order
    decreases xs,
{
    if xs.len() == 0 {
        if ys.len() == 0 {
            Order::Equal
        } else {
            Order::Less
        }
    } else if ys.len() == 0 {
        Order::Greater
    } else {
        match term_order(xs[0], ys[0]) {
            Order::Equal => terms_order(xs.drop_first(), ys.drop_first()),
            o => o,
        }
    }
}

pub proof fn lemma_text_order(a: Seq<char>, b: Seq<char>)
    ensures
        (text_order(a, b) == Order::Equal) == (a == b),
        text_order(b, a) == flip(text_order(a, b)),
    decreases a.len(),
{
    if a.len() > 0 && b.len() > 0 {
        lemma_text_order(a.drop_first(), b.drop_first());
        if (a[0] as int) == (b[0] as int) {
            assert(a[0] == b[0]);
            if a.drop_first() == b.drop_first() {
                assert(a =~= seq![a[0]] + a.drop_first());
                assert(b =~= seq![b[0]] + b.drop_first());
            }
        }
        if a == b {
            assert(a.drop_first() == b.drop_first());
        }
    } else if a.len() == 0 && b.len() == 0 {
        assert(a =~= b);
    }
}

pub proof fn lemma_text_order_trans(a: Seq<char>, b: Seq<char>, c: Seq<char>)
    requires
        text_order(a, b) == Order::Less,
        text_order(b, c) == Order::Less,
    ensures
        text_order(a, c) == Order::Less,
    decreases a.len(),
{
    if a.len() > 0 && b.len() > 0 && c.len() > 0 && a[0] == b[0] && b[0] == c[0] {
        lemma_text_order_trans(a.drop_first(), b.drop_first(), c.drop_first());
    }
}

pub proof fn lemma_key_order(a: (Seq<char>, nat), b: (Seq<char>, nat))
    ensures
        (key_order(a, b) == Order::Equal) == (a == b),
        key_order(b, a) == flip(key_order(a, b)),
{
    lemma_text_order(a.0, b.0);
}

pub proof fn lemma_key_order_trans(a: (Seq<char>, nat), b: (Seq<char>, nat), c: (Seq<char>, nat))
    requires
        key_order(a, b) == Order::Less,
        key_order(b, c) == Order::Less,
    ensures
        key_order(a, c) == Order::Less,
{
    lemma_text_order(a.0, b.0);
    lemma_text_order(b.0, c.0);
    lemma_text_order(a.0, c.0);
    if text_order(a.0, b.0) == Order::Less && text_order(b.0, c.0) == Order::Less {
        lemma_text_order_trans(a.0, b.0, c.0);
    }
}

pub proof fn lemma_term_order(a: TermV, b: TermV)
    ensures
        (term_order(a, b) == Order::Equal) == (a == b),
        term_order(b, a) == flip(term_order(a, b)),
    decreases a,
{
    if let TermV::App(n, xs) = a {
        if let TermV::App(m, ys) = b {
            lemma_text_order(n, m);
            lemma_terms_order(xs, ys);
        }
    }
}

pub proof fn lemma_terms_order(xs: Seq<TermV>, ys: Seq<TermV>)
    ensures
        (terms_order(xs, ys) == Order::Equal) == (xs == ys),
        terms_order(ys, xs) == flip(terms_order(xs, ys)),
    decreases xs,
{
    if xs.len() > 0 && ys.len() > 0 {
        lemma_term_order(xs[0], ys[0]);
        lemma_terms_order(xs.drop_first(), ys.drop_first());
        if xs[0] == ys[0] && xs.drop_first() == ys.drop_first() {
            assert(xs =~= seq![xs[0]] + xs.drop_first());
            assert(ys =~= seq![ys[0]] + ys.drop_first());
        }
        if xs == ys {
            assert(xs.drop_first() == ys.drop_first());
        }
    } else if xs.len() == 0 && ys.len() == 0 {
        assert(xs =~= ys);
    }
}

pub proof fn lemma_term_order_trans(a: TermV, b: TermV, c: TermV)
    requires
        term_order(a, b) == Order::Less,
        term_order(b, c) == Order::Less,
    ensures
        term_order(a, c) == Order::Less,
    decreases a,
{
    if let TermV::App(n, xs) = a {
        if let TermV::App(m, ys) = b {
            if let TermV::App(o, zs) = c {
                lemma_text_order(n, m);
                lemma_text_order(m, o);
                lemma_text_order(n, o);
                if text_order(n, m) == Order::Less && text_order(m, o) == Order::Less {
                    lemma_text_order_trans(n, m, o);
                } else if text_order(n, m) == Order::Equal && text_order(m, o) == Order::Equal {
                    lemma_terms_order_trans(xs, ys, zs);
                }
            }
        }
    }
}

pub proof fn lemma_terms_order_trans(xs: Seq<TermV>, ys: Seq<TermV>, zs: Seq<TermV>)
    requires
        terms_order(xs, ys) == Order::Less,
        terms_order(ys, zs) == Order::Less,
    ensures
        terms_order(xs, zs) == Order::Less,
    decreases xs,
{
    if xs.len() > 0 && ys.len() > 0 && zs.len() > 0 {
        lemma_term_order(xs[0], ys[0]);
        lemma_term_order(ys[0], zs[0]);
        lemma_term_order(xs[0], zs[0]);
        if term_order(xs[0], ys[0]) == Order::Less && term_order(ys[0], zs[0]) == Order::Less {
            lemma_term_order_trans(xs[0], ys[0], zs[0]);
        } else if term_order(xs[0], ys[0]) == Order::Equal && term_order(ys[0], zs[0]) == Order::Equal {
            lemma_terms_order_trans(xs.drop_first(), ys.drop_first(), zs.drop_first());
        }
    }
}

/// Compare two texts.
pub fn compare_text(a: &str, b: &str) -> (r: Order)
    ensures
        r == text_order(a@, b@),
{
    let n = a.unicode_len();
    let m = b.unicode_len();
    let mut i: usize = 0;
    proof {
        assert(a@.subrange(0, n as int) =~= a@);
        assert(b@.subrange(0, m as int) =~= b@);
    }
    while i < n && i < m
        invariant
            n == a@.len(),
            m == b@.len(),
            0 <= i <= n,
            i <= m,
            text_order(a@, b@) == text_order(a@.subrange(i as int, n as int), b@.subrange(i as int, m as int)),
        decreases n - i,
    {
        let x = a.get_char(i);
        let y = b.get_char(i);
        let ghost rest_a = a@.subrange(i as int, n as int);
        let ghost rest_b = b@.subrange(i as int, m as int);
        proof {
            assert(rest_a[0] == x);
            assert(rest_b[0] == y);
            assert(rest_a.drop_first() =~= a@.subrange(i + 1, n as int));
            assert(rest_b.drop_first() =~= b@.subrange(i + 1, m as int));
        }
        if (x as u32) < (y as u32) {
            return Order::Less;
        }
        if (x as u32) > (y as u32) {
            return Order::Greater;
        }
        i += 1;
    }
    proof {
        assert(a@.subrange(i as int, n as int).len() == n - i);
        assert(b@.subrange(i as int, m as int).len() == m - i);
    }
    if i < n {
        Order::Greater
    } else if i < m {
        Order::Less
    } else {
        Order::Equal
    }
}

/// Compare two predicate keys.
pub fn compare_key(a: (&str, usize), b: (&str, usize)) -> (r: Order)
    ensures
        r == key_order((a.0@, a.1 as nat), (b.0@, b.1 as nat)),
{
    match compare_text(a.0, b.0) {
        Order::Equal => if a.1 < b.1 {
            Order::Less
        } else if a.1 > b.1 {
            Order::Greater
        } else {
            Order::Equal
        },
        o => o,
    }
}

/// Compare two terms.
pub fn compare_term(a: &Term, b: &Term) -> (r: Order)
    ensures
        r == term_order(term_v(*a), term_v(*b)),
    decreases a,
{
    match a {
        Term::Var(x) => match b {
            Term::Var(y) => if x.0 < y.0 {
                Order::Less
            } else if x.0 > y.0 {
                Order::Greater
            } else {
                Order::Equal
            },
            Term::App(..) => Order::Less,
        },
        Term::App(n, xs) => match b {
            Term::Var(_) => Order::Greater,
            Term::App(m, ys) => match compare_text(n.as_str(), m.as_str()) {
                Order::Equal => {
                    let ghost vx = term_v(*a)->App_1;
                    let ghost vy = term_v(*b)->App_1;
                    let mut i: usize = 0;
                    proof {
                        assert(vx.subrange(0, vx.len() as int) =~= vx);
                        assert(vy.subrange(0, vy.len() as int) =~= vy);
                    }
                    while i < xs.len() && i < ys.len()
                        invariant
                            *a == Term::App(*n, *xs),
                            *b == Term::App(*m, *ys),
                            vx == term_v(*a)->App_1,
                            vy == term_v(*b)->App_1,
                            vx.len() == xs@.len(),
                            vy.len() == ys@.len(),
                            text_order(n@, m@) == Order::Equal,
                            0 <= i <= xs.len(),
                            i <= ys.len(),
                            terms_order(vx, vy) == terms_order(vx.subrange(i as int, vx.len() as int), vy.subrange(i as int, vy.len() as int)),
                        decreases xs.len() - i,
                    {
                        let ghost ra = vx.subrange(i as int, vx.len() as int);
                        let ghost rb = vy.subrange(i as int, vy.len() as int);
                        proof {
                            assert(decreases_to!(*a => a->App_1));
                            assert(decreases_to!(*xs => xs[i as int]));
                            assert(ra[0] == vx[i as int]);
                            assert(rb[0] == vy[i as int]);
                            assert(vx[i as int] == term_v(xs@[i as int]));
                            assert(vy[i as int] == term_v(ys@[i as int]));
                            assert(ra.drop_first() =~= vx.subrange(i + 1, vx.len() as int));
                            assert(rb.drop_first() =~= vy.subrange(i + 1, vy.len() as int));
                        }
                        match compare_term(&xs[i], &ys[i]) {
                            Order::Equal => {},
                            o => {
                                proof {
                                    assert(ra.len() > 0 && rb.len() > 0);
                                    assert(term_order(ra[0], rb[0]) == o);
                                    assert(terms_order(ra, rb) == o);
                                    assert(text_order(n@, m@) == Order::Equal);
                                    assert(term_order(term_v(*a), term_v(*b)) == terms_order(vx, vy));
                                }
                                return o;
                            },
                        }
                        i += 1;
                    }
                    proof {
                        assert(vx.subrange(i as int, vx.len() as int).len() == vx.len() - i);
                        assert(vy.subrange(i as int, vy.len() as int).len() == vy.len() - i);
                    }
                    if i < xs.len() {
                        Order::Greater
                    } else if i < ys.len() {
                        Order::Less
                    } else {
                        Order::Equal
                    }
                },
                o => o,
            },
        },
    }
}

} // verus!
