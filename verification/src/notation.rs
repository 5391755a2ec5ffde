//! A line notation for rules, goals, constraints and answers.
//!
//! A term is `v<n>` for variable `n` or else a bare atom; a constraint is
//! `name:arg:...`; a list of constraints is comma separated, or `-` for none.
//! A goal is a comma-separated conjunction at parenthesis depth zero, `(a|b)`
//! for a choice, `=:x:y` for an equation, `!` for failure and `-` for truth.
use crate::syntax::{Constraint, ConstraintV, Goal, GoalV, Term, TermV, Var, constraint_v, constraints_v, goal_v, term_v, terms_v};
use vstd::prelude::*;
use vstd::string::*;

verus! {

/// A decimal digit.
pub open spec fn is_digit(c: char) -> bool {
    '0' <= c && c <= '9'
}

pub open spec fn digit_value(c: char) -> nat {
    (c as int - '0' as int) as nat
}

/// The value of a string of decimal digits.
pub open spec fn digits_value(ds: Seq<char>) -> nat
    decreases ds.len(),
{
    if ds.len() == 0 {
        0
    } else {
        digits_value(ds.drop_last()) * 10 + digit_value(ds.last())
    }
}

/// The text after an optional leading `+`.
pub open spec fn unsigned_digits(s: Seq<char>) -> Seq<char> {
    if s.len() > 0 && s[0] == '+' {
        s.drop_first()
    } else {
        s
    }
}

/// A nonempty string of decimal digits.
pub open spec fn all_digits(ds: Seq<char>) -> bool {
    ds.len() > 0 && forall|i: int| 0 <= i < ds.len() ==> #[trigger] is_digit(ds[i])
}

/// The unsigned number a text denotes: an optional `+`, then at least one decimal digit.
pub open spec fn number_v(s: Seq<char>) -> Option<nat> {
    if all_digits(unsigned_digits(s)) {
        Some(digits_value(unsigned_digits(s)))
    } else {
        None
    }
}

/// The number a text denotes, where it fits in `u64`.
pub open spec fn u64_v(s: Seq<char>) -> Option<u64> {
    match number_v(s) {
        Some(n) => if n <= u64::MAX {
            Some(n as u64)
        } else {
            None
        },
        None => None,
    }
}

proof fn lemma_digits_value_prefix(ds: Seq<char>, i: int)
    requires
        0 <= i <= ds.len(),
    ensures
        digits_value(ds.take(i)) <= digits_value(ds),
    decreases ds.len() - i,
{
    if i < ds.len() {
        lemma_digits_value_prefix(ds, i + 1);
        assert(ds.take(i + 1).drop_last() =~= ds.take(i));
    } else {
        assert(ds.take(i) =~= ds);
    }
}

/// The characters of a text.
pub fn chars_of(s: &str) -> (r: Vec<char>)
    ensures
        r@ == s@,
{
    let n = s.unicode_len();
    let mut out: Vec<char> = Vec::new();
    let mut i: usize = 0;
    while i < n
        invariant
            n == s@.len(),
            0 <= i <= n,
            out@ == s@.take(i as int),
        decreases n - i,
    {
        out.push(s.get_char(i));
        proof {
            assert(out@ =~= s@.take(i + 1));
        }
        i += 1;
    }
    proof {
        assert(s@.take(i as int) =~= s@);
    }
    out
}

/// Read an unsigned number; `None` where the text is no number or too large.
pub fn parse_u64(s: &str) -> (r: Option<u64>)
    ensures
        r == u64_v(s@),
{
    let cs = chars_of(s);
    let n = cs.len();
    let mut start: usize = 0;
    if n > 0 && cs[0] == '+' {
        start = 1;
    }
    let ghost ds = unsigned_digits(s@);
    proof {
        assert(ds =~= s@.subrange(start as int, n as int));
    }
    if start == n {
        return None;
    }
    let mut value: u64 = 0;
    let mut i: usize = start;
    while i < n
        invariant
            cs@ == s@,
            n == cs@.len(),
            start <= i <= n,
            start < n,
            ds == s@.subrange(start as int, n as int),
            ds == unsigned_digits(s@),
            forall|j: int| 0 <= j < i - start ==> #[trigger] is_digit(ds[j]),
            value == digits_value(ds.take(i - start)),
        decreases n - i,
    {
        let c = cs[i];
        if !('0' <= c && c <= '9') {
            proof {
                assert(ds[i - start] == cs@[i as int]);
                assert(!is_digit(ds[i - start]));
                assert(!all_digits(ds));
            }
            return None;
        }
        let d = (c as u32 - '0' as u32) as u64;
        proof {
            assert(ds.take(i - start + 1).drop_last() =~= ds.take(i - start));
            assert(ds.take(i - start + 1).last() == c);
            assert(d == digit_value(c));
        }
        let next = match value.checked_mul(10) {
            Some(x) => x.checked_add(d),
            None => None,
        };
        match next {
            Some(x) => {
                value = x;
            },
            None => {
                proof {
                    lemma_digits_value_prefix(ds, i - start + 1);
                    if all_digits(ds) {
                        assert(number_v(s@) == Some(digits_value(ds)));
                    }
                }
                return None;
            },
        }
        i += 1;
    }
    proof {
        assert(ds.take(i - start) =~= ds);
    }
    Some(value)
}

/// The decimal digits of a number, most significant first.
pub open spec fn decimal_v(n: nat) -> Seq<char>
    decreases n,
{
    if n < 10 {
        seq![digit_char(n)]
    } else {
        decimal_v(n / 10).push(digit_char(n % 10))
    }
}

pub open spec fn digit_char(d: nat) -> char {
    if d == 0 {
        '0'
    } else if d == 1 {
        '1'
    } else if d == 2 {
        '2'
    } else if d == 3 {
        '3'
    } else if d == 4 {
        '4'
    } else if d == 5 {
        '5'
    } else if d == 6 {
        '6'
    } else if d == 7 {
        '7'
    } else if d == 8 {
        '8'
    } else {
        '9'
    }
}

/// Append one decimal digit.
fn push_digit(out: &mut String, d: u128)
    requires
        d < 10,
    ensures
        final(out)@ == old(out)@.push(digit_char(d as nat)),
{
    let t = if d == 0 {
        "0"
    } else if d == 1 {
        "1"
    } else if d == 2 {
        "2"
    } else if d == 3 {
        "3"
    } else if d == 4 {
        "4"
    } else if d == 5 {
        "5"
    } else if d == 6 {
        "6"
    } else if d == 7 {
        "7"
    } else if d == 8 {
        "8"
    } else {
        "9"
    };
    proof {
        reveal_strlit("0");
        reveal_strlit("1");
        reveal_strlit("2");
        reveal_strlit("3");
        reveal_strlit("4");
        reveal_strlit("5");
        reveal_strlit("6");
        reveal_strlit("7");
        reveal_strlit("8");
        reveal_strlit("9");
        assert(t@ =~= seq![digit_char(d as nat)]);
    }
    out.append(t);
    proof {
        assert(out@ =~= old(out)@.push(digit_char(d as nat)));
    }
}

/// Append the decimal digits of `n`.
pub(crate) fn push_decimal(out: &mut String, n: u128)
    ensures
        final(out)@ == old(out)@ + decimal_v(n as nat),
    decreases n,
{
    if n >= 10 {
        push_decimal(out, n / 10);
    }
    push_digit(out, n % 10);
    proof {
        if n >= 10 {
            assert(old(out)@ + decimal_v(n as nat) =~= (old(out)@ + decimal_v((n / 10) as nat)).push(digit_char((n % 10) as nat)));
        } else {
            assert(old(out)@ + decimal_v(n as nat) =~= old(out)@.push(digit_char(n as nat)));
        }
    }
}

/// How deep in parentheses a text is after its first `i` characters.
pub open spec fn depth_before(s: Seq<char>, i: int) -> int
    decreases i,
{
    if i <= 0 {
        0
    } else {
        depth_before(s, i - 1) + if s[i - 1] == '(' {
            1int
        } else if s[i - 1] == ')' {
            -1int
        } else {
            0int
        }
    }
}

/// The positions below `n` holding `sep`, in increasing order.
pub open spec fn all_cuts(s: Seq<char>, sep: char, n: int) -> Seq<int>
    decreases n,
{
    if n <= 0 {
        Seq::empty()
    } else {
        all_cuts(s, sep, n - 1) + if s[n - 1] == sep {
            seq![n - 1]
        } else {
            Seq::empty()
        }
    }
}

/// The positions below `n` holding `sep` at parenthesis depth zero, in increasing order.
pub open spec fn top_cuts(s: Seq<char>, sep: char, n: int) -> Seq<int>
    decreases n,
{
    if n <= 0 {
        Seq::empty()
    } else {
        top_cuts(s, sep, n - 1) + if s[n - 1] == sep && depth_before(s, n) == 0 {
            seq![n - 1]
        } else {
            Seq::empty()
        }
    }
}

/// The cut positions below `n`: at top level only, or all of them.
pub open spec fn cuts_of(s: Seq<char>, sep: char, n: int, top: bool) -> Seq<int> {
    if top {
        top_cuts(s, sep, n)
    } else {
        all_cuts(s, sep, n)
    }
}

/// The pieces of `s` between the cut positions.
pub open spec fn pieces(s: Seq<char>, cuts: Seq<int>) -> Seq<Seq<char>> {
    Seq::new(
        cuts.len() + 1,
        |k: int|
            s.subrange(
                if k == 0 {
                    0
                } else {
                    cuts[k - 1] + 1
                },
                if k == cuts.len() {
                    s.len() as int
                } else {
                    cuts[k]
                },
            ),
    )
}

/// The text split at every `sep`.
pub open spec fn split_v(s: Seq<char>, sep: char) -> Seq<Seq<char>> {
    pieces(s, all_cuts(s, sep, s.len() as int))
}

/// The text split at every `sep` outside parentheses.
pub open spec fn split_top_v(s: Seq<char>, sep: char) -> Seq<Seq<char>> {
    pieces(s, top_cuts(s, sep, s.len() as int))
}

/// Counting parentheses stays within `i32` and ends at depth zero.
pub open spec fn balanced(s: Seq<char>) -> bool {
    &&& forall|i: int| 0 <= i <= s.len() ==> i32::MIN <= #[trigger] depth_before(s, i) <= i32::MAX
    &&& depth_before(s, s.len() as int) == 0
}

proof fn lemma_cuts_bounds(s: Seq<char>, sep: char, n: int, top: bool)
    requires
        0 <= n <= s.len(),
    ensures
        forall|k: int|
            0 <= k < cuts_of(s, sep, n, top).len() ==> 0 <= #[trigger] cuts_of(s, sep, n, top)[k] < n,
        forall|a: int, b: int|
            0 <= a < b < cuts_of(s, sep, n, top).len() ==> cuts_of(s, sep, n, top)[a] < cuts_of(s, sep, n, top)[b],
        forall|k: int| 0 <= k < cuts_of(s, sep, n, top).len() ==> s[#[trigger] cuts_of(s, sep, n, top)[k]] == sep,
    decreases n,
{
    if n > 0 {
        lemma_cuts_bounds(s, sep, n - 1, top);
        let prev = cuts_of(s, sep, n - 1, top);
        let cur = cuts_of(s, sep, n, top);
        assert(cur.len() == prev.len() || (cur.len() == prev.len() + 1 && cur.last() == n - 1));
        assert forall|k: int| 0 <= k < prev.len() implies cur[k] == prev[k] by {}
    }
}

/// Split `s` at the cut positions, piece by piece.
fn split_at<'a>(s: &'a str, separator: char, top: bool) -> (r: Vec<&'a str>)
    requires
        top ==> balanced(s@),
    ensures
        r@.map_values(|p: &str| p@) == pieces(
            s@,
            if top {
                top_cuts(s@, separator, s@.len() as int)
            } else {
                all_cuts(s@, separator, s@.len() as int)
            },
        ),
{
    let cs = chars_of(s);
    let n = cs.len();
    let mut depth: i32 = 0;
    let mut start: usize = 0;
    let mut parts: Vec<&'a str> = Vec::new();
    let mut i: usize = 0;
    while i < n
        invariant
            cs@ == s@,
            n == s@.len(),
            top ==> balanced(s@),
            0 <= i <= n,
            top ==> depth == depth_before(s@, i as int),
            ({
                let cuts = cuts_of(s@, separator, i as int, top);
                &&& parts@.len() == cuts.len()
                &&& start == if cuts.len() == 0 {
                    0
                } else {
                    cuts.last() + 1
                }
                &&& forall|k: int|
                    0 <= k < parts@.len() ==> (#[trigger] parts@[k])@ == s@.subrange(
                        if k == 0 {
                            0
                        } else {
                            cuts[k - 1] + 1
                        },
                        cuts[k],
                    )
            }),
        decreases n - i,
    {
        let ch = cs[i];
        let ghost before = cuts_of(s@, separator, i as int, top);
        proof {
            lemma_cuts_bounds(s@, separator, i as int, top);
            if top {
                assert(i32::MIN <= depth_before(s@, i + 1) <= i32::MAX);
            }
        }
        if top {
            if ch == '(' {
                depth = depth + 1;
            } else if ch == ')' {
                depth = depth - 1;
            }
        }
        if ch == separator && (!top || depth == 0) {
            proof {
                if before.len() > 0 {
                    assert(before.last() < i);
                }
            }
            parts.push(s.substring_char(start, i));
            start = i + 1;
        }
        proof {
            let after = cuts_of(s@, separator, i + 1, top);
            assert(s@[i as int] == ch);
            assert forall|k: int| 0 <= k < before.len() implies after[k] == before[k] by {}
        }
        i += 1;
    }
    proof {
        lemma_cuts_bounds(s@, separator, n as int, top);
        let cuts = cuts_of(s@, separator, n as int, top);
        if cuts.len() > 0 {
            assert(cuts.last() < n);
        }
    }
    parts.push(s.substring_char(start, n));
    proof {
        let cuts = cuts_of(s@, separator, n as int, top);
        assert(parts@.map_values(|p: &str| p@) =~= pieces(s@, cuts));
    }
    parts
}

/// Split a text at every `separator` outside parentheses.
pub fn split_top<'a>(s: &'a str, separator: char) -> (r: Vec<&'a str>)
    requires
        balanced(s@),
    ensures
        r@.map_values(|p: &str| p@) == split_top_v(s@, separator),
{
    split_at(s, separator, true)
}

/// Split a text at every `separator`.
pub fn split_plain<'a>(s: &'a str, separator: char) -> (r: Vec<&'a str>)
    ensures
        r@.map_values(|p: &str| p@) == split_v(s@, separator),
{
    split_at(s, separator, false)
}

/// A term can be read: text after a leading `v` must be a number that fits in `u64`.
pub open spec fn term_ok(s: Seq<char>) -> bool {
    s.len() > 0 && s[0] == 'v' ==> u64_v(s.drop_first()) is Some
}

/// The term a text denotes: `v` and a number is that variable, anything else an atom.
pub open spec fn term_of(s: Seq<char>) -> TermV {
    if s.len() > 0 && s[0] == 'v' {
        TermV::Var(u64_v(s.drop_first())->Some_0)
    } else {
        TermV::App(s, Seq::empty())
    }
}

/// A constraint can be read: its arguments can.
pub open spec fn constraint_ok(s: Seq<char>) -> bool {
    forall|k: int| 1 <= k < split_v(s, ':').len() ==> #[trigger] term_ok(split_v(s, ':')[k])
}

/// The constraint `name:arg:...`.
pub open spec fn constraint_of(s: Seq<char>) -> ConstraintV {
    let parts = split_v(s, ':');
    ConstraintV { name: parts[0], args: parts.drop_first().map_values(|p: Seq<char>| term_of(p)) }
}

/// A list of constraints can be read.
pub open spec fn constraints_ok(s: Seq<char>) -> bool {
    s != seq!['-'] ==> forall|k: int| 0 <= k < split_v(s, ',').len() ==> #[trigger] constraint_ok(split_v(s, ',')[k])
}

/// The comma-separated constraints, or none for `-`.
pub open spec fn constraints_of(s: Seq<char>) -> Seq<ConstraintV> {
    if s == seq!['-'] {
        Seq::empty()
    } else {
        split_v(s, ',').map_values(|p: Seq<char>| constraint_of(p))
    }
}

/// A list of output variables can be read.
pub open spec fn outputs_ok(s: Seq<char>) -> bool {
    s != seq!['-'] ==> forall|k: int| 0 <= k < split_v(s, ',').len() ==> #[trigger] u64_v(split_v(s, ',')[k]) is Some
}

/// The comma-separated output variables, named `o0`, `o1`, ... in order, or none for `-`.
pub open spec fn outputs_of(s: Seq<char>) -> Seq<(Seq<char>, u64)> {
    if s == seq!['-'] {
        Seq::empty()
    } else {
        split_v(s, ',').map(|k: int, p: Seq<char>| (seq!['o'] + decimal_v(k as nat), u64_v(p)->Some_0))
    }
}

/// How a term is written: `v` and the number of a variable, or the atom itself.
pub open spec fn show_v(t: TermV) -> Seq<char> {
    match t {
        TermV::Var(n) => seq!['v'] + decimal_v(n as nat),
        TermV::App(name, _) => name,
    }
}

/// Whether a text is exactly one given character.
fn is_char(s: &str, c: char) -> (r: bool)
    ensures
        r == (s@ == seq![c]),
{
    let n = s.unicode_len();
    if n == 1 {
        let d = s.get_char(0);
        proof {
            if d == c {
                assert(s@ =~= seq![c]);
            }
        }
        d == c
    } else {
        false
    }
}

/// Read a term.
pub fn term(s: &str) -> (r: Term)
    requires
        term_ok(s@),
    ensures
        term_v(r) == term_of(s@),
{
    let n = s.unicode_len();
    if n > 0 && s.get_char(0) == 'v' {
        let rest = s.substring_char(1, n);
        proof {
            assert(rest@ =~= s@.drop_first());
        }
        match parse_u64(rest) {
            Some(x) => Term::Var(Var(x)),
            None => {
                proof {
                    assert(false);
                }
                Term::Var(Var(0))
            },
        }
    } else {
        let r = Term::App(s.to_owned(), Vec::new());
        proof {
            assert(term_v(r)->App_1 =~= Seq::<TermV>::empty());
            assert(term_v(r) == TermV::App(s@, Seq::empty()));
        }
        r
    }
}

/// Read a constraint `name:arg:...`.
pub fn constraint(s: &str) -> (r: Constraint)
    requires
        constraint_ok(s@),
    ensures
        constraint_v(r) == constraint_of(s@),
{
    let parts = split_plain(s, ':');
    let ghost ps = split_v(s@, ':');
    proof {
        assert(parts@.len() == ps.len());
        assert(parts@[0]@ == ps[0]);
    }
    let mut args: Vec<Term> = Vec::new();
    let mut k: usize = 1;
    while k < parts.len()
        invariant
            ps == split_v(s@, ':'),
            parts@.map_values(|p: &str| p@) == ps,
            constraint_ok(s@),
            1 <= k <= parts@.len(),
            args@.len() == k - 1,
            forall|j: int| 0 <= j < args@.len() ==> term_v(#[trigger] args@[j]) == term_of(ps[j + 1]),
        decreases parts.len() - k,
    {
        proof {
            assert(parts@[k as int]@ == ps[k as int]);
            assert(term_ok(ps[k as int]));
        }
        args.push(term(parts[k]));
        k += 1;
    }
    let r = Constraint { name: parts[0].to_owned(), args };
    proof {
        assert(terms_v(args@) =~= ps.drop_first().map_values(|p: Seq<char>| term_of(p)));
    }
    r
}

/// Read comma-separated constraints, or none for `-`.
pub fn constraints(s: &str) -> (r: Vec<Constraint>)
    requires
        constraints_ok(s@),
    ensures
        constraints_v(r@) == constraints_of(s@),
{
    if is_char(s, '-') {
        return Vec::new();
    }
    let parts = split_plain(s, ',');
    let ghost ps = split_v(s@, ',');
    let mut out: Vec<Constraint> = Vec::new();
    let mut k: usize = 0;
    while k < parts.len()
        invariant
            ps == split_v(s@, ','),
            parts@.map_values(|p: &str| p@) == ps,
            s@ != seq!['-'],
            constraints_ok(s@),
            0 <= k <= parts@.len(),
            out@.len() == k,
            forall|j: int| 0 <= j < k ==> constraint_v(#[trigger] out@[j]) == constraint_of(ps[j]),
        decreases parts.len() - k,
    {
        proof {
            assert(parts@[k as int]@ == ps[k as int]);
            assert(constraint_ok(ps[k as int]));
        }
        out.push(constraint(parts[k]));
        k += 1;
    }
    proof {
        assert(constraints_v(out@) =~= constraints_of(s@));
    }
    out
}

/// Read comma-separated output variables, named `o0`, `o1`, ... in order, or none for `-`.
pub fn outputs(s: &str) -> (r: Vec<(String, Var)>)
    requires
        outputs_ok(s@),
    ensures
        r@.map_values(|o: (String, Var)| (o.0@, o.1.0)) == outputs_of(s@),
{
    if is_char(s, '-') {
        let r: Vec<(String, Var)> = Vec::new();
        proof {
            assert(r@.map_values(|o: (String, Var)| (o.0@, o.1.0)) =~= outputs_of(s@));
        }
        return r;
    }
    let parts = split_plain(s, ',');
    let ghost ps = split_v(s@, ',');
    let mut out: Vec<(String, Var)> = Vec::new();
    let mut k: usize = 0;
    while k < parts.len()
        invariant
            ps == split_v(s@, ','),
            parts@.map_values(|p: &str| p@) == ps,
            s@ != seq!['-'],
            outputs_ok(s@),
            0 <= k <= parts@.len(),
            out@.len() == k,
            forall|j: int|
                0 <= j < k ==> (#[trigger] out@[j]).0@ == seq!['o'] + decimal_v(j as nat) && out@[j].1.0 == u64_v(ps[j])->Some_0,
        decreases parts.len() - k,
    {
        proof {
            assert(parts@[k as int]@ == ps[k as int]);
            assert(u64_v(ps[k as int]) is Some);
        }
        let value = match parse_u64(parts[k]) {
            Some(x) => x,
            None => {
                proof {
                    assert(false);
                }
                0
            },
        };
        let mut name = String::new();
        name.append("o");
        proof {
            reveal_strlit("o");
        }
        push_decimal(&mut name, k as u128);
        proof {
            assert(name@ =~= seq!['o'] + decimal_v(k as nat));
        }
        out.push((name, Var(value)));
        k += 1;
    }
    proof {
        assert(out@.map_values(|o: (String, Var)| (o.0@, o.1.0)) =~= outputs_of(s@));
    }
    out
}

/// Write a term: `v` and the number of a variable, or the name of an atom.
pub fn show(t: &Term) -> (r: String)
    requires
        t matches Term::App(_, xs) ==> xs@.len() == 0,
    ensures
        r@ == show_v(term_v(*t)),
{
    match t {
        Term::Var(v) => {
            let mut out = String::new();
            out.append("v");
            proof {
                reveal_strlit("v");
            }
            push_decimal(&mut out, v.0 as u128);
            proof {
                assert(out@ =~= seq!['v'] + decimal_v(v.0 as nat));
            }
            out
        },
        Term::App(name, _) => name.clone(),
    }
}

/// The goal a text denotes, or `None` where it cannot be read.
pub open spec fn goal_of(s: Seq<char>) -> Option<GoalV>
    decreases s.len(), 1int, 0int,
{
    if s == seq!['-'] {
        Some(GoalV::And(Seq::empty()))
    } else if s == seq!['!'] {
        Some(GoalV::Fail)
    } else if !balanced(s) {
        None
    } else if split_top_v(s, ',').len() > 1 {
        match goals_of(split_top_v(s, ','), s.len() as int) {
            Some(gs) => Some(GoalV::And(gs)),
            None => None,
        }
    } else if s.len() > 0 && s[0] == '(' {
        if s.len() < 2 || s.last() != ')' {
            None
        } else if !balanced(s.subrange(1, s.len() - 1)) {
            None
        } else if split_top_v(s.subrange(1, s.len() - 1), '|').len() != 2 {
            None
        } else {
            match goals_of(split_top_v(s.subrange(1, s.len() - 1), '|'), s.len() as int) {
                Some(gs) => Some(GoalV::Or(Box::new(gs[0]), Box::new(gs[1]))),
                None => None,
            }
        }
    } else if s.len() >= 2 && s[0] == '=' && s[1] == ':' {
        let ts = split_v(s.subrange(2, s.len() as int), ':');
        if ts.len() == 2 && term_ok(ts[0]) && term_ok(ts[1]) {
            Some(GoalV::Unify(term_of(ts[0]), term_of(ts[1])))
        } else {
            None
        }
    } else if constraint_ok(s) {
        Some(GoalV::Constraint(constraint_of(s)))
    } else {
        None
    }
}

/// The goals of texts each shorter than `bound`, or `None` where one cannot be read.
pub open spec fn goals_of(parts: Seq<Seq<char>>, bound: int) -> Option<Seq<GoalV>>
    decreases bound, 0int, parts.len(),
{
    if parts.len() == 0 {
        Some(Seq::empty())
    } else if parts.last().len() >= bound {
        None
    } else {
        match goals_of(parts.drop_last(), bound) {
            Some(gs) => match goal_of(parts.last()) {
                Some(g) => Some(gs.push(g)),
                None => None,
            },
            None => None,
        }
    }
}

proof fn lemma_goals_of(parts: Seq<Seq<char>>, bound: int)
    requires
        goals_of(parts, bound) is Some,
    ensures
        goals_of(parts, bound)->Some_0.len() == parts.len(),
        forall|k: int|
            0 <= k < parts.len() ==> (#[trigger] parts[k]).len() < bound && goal_of(parts[k]) is Some && goals_of(
                parts,
                bound,
            )->Some_0[k] == goal_of(parts[k])->Some_0,
    decreases parts.len(),
{
    if parts.len() > 0 {
        let pre = parts.drop_last();
        lemma_goals_of(pre, bound);
        let gs = goals_of(pre, bound)->Some_0;
        let g = goal_of(parts.last())->Some_0;
        assert(goals_of(parts, bound) == Some(gs.push(g)));
        assert forall|k: int|
            0 <= k < parts.len() implies (#[trigger] parts[k]).len() < bound && goal_of(parts[k]) is Some && goals_of(
            parts,
            bound,
        )->Some_0[k] == goal_of(parts[k])->Some_0 by {
            if k < parts.len() - 1 {
                assert(parts[k] == pre[k]);
            } else {
                assert(parts[k] == parts.last());
            }
        }
    }
}

/// Read a goal.
pub fn goal(s: &str) -> (r: Goal)
    requires
        goal_of(s@) is Some,
    ensures
        goal_v(r) == goal_of(s@)->Some_0,
    decreases s@.len(),
{
    if is_char(s, '-') {
        let r = Goal::And(Vec::new());
        proof {
            assert(goal_v(r)->And_0 =~= Seq::<GoalV>::empty());
        }
        return r;
    }
    if is_char(s, '!') {
        return Goal::Fail;
    }
    let parts = split_top(s, ',');
    if parts.len() > 1 {
        let ghost ps = split_top_v(s@, ',');
        proof {
            lemma_goals_of(ps, s@.len() as int);
        }
        let mut gs: Vec<Goal> = Vec::new();
        let mut k: usize = 0;
        while k < parts.len()
            invariant
                ps == split_top_v(s@, ','),
                parts@.map_values(|p: &str| p@) == ps,
                goals_of(ps, s@.len() as int) is Some,
                goals_of(ps, s@.len() as int)->Some_0.len() == ps.len(),
                forall|j: int|
                    0 <= j < ps.len() ==> (#[trigger] ps[j]).len() < s@.len() && goal_of(ps[j]) is Some
                        && goals_of(ps, s@.len() as int)->Some_0[j] == goal_of(ps[j])->Some_0,
                0 <= k <= parts@.len(),
                gs@.len() == k,
                forall|j: int| 0 <= j < k ==> goal_v(#[trigger] gs@[j]) == goal_of(ps[j])->Some_0,
            decreases parts.len() - k,
        {
            proof {
                assert(parts@[k as int]@ == ps[k as int]);
            }
            gs.push(goal(parts[k]));
            k += 1;
        }
        let r = Goal::And(gs);
        proof {
            assert(goal_v(r)->And_0 =~= goals_of(ps, s@.len() as int)->Some_0);
        }
        return r;
    }
    let n = s.unicode_len();
    if n > 0 && s.get_char(0) == '(' {
        let inner = s.substring_char(1, n - 1);
        let arms = split_top(inner, '|');
        let ghost ps = split_top_v(inner@, '|');
        proof {
            lemma_goals_of(ps, s@.len() as int);
            assert(arms@[0]@ == ps[0]);
            assert(arms@[1]@ == ps[1]);
        }
        let a = goal(arms[0]);
        let b = goal(arms[1]);
        return Goal::Or(Box::new(a), Box::new(b));
    }
    if n >= 2 && s.get_char(0) == '=' && s.get_char(1) == ':' {
        let rest = s.substring_char(2, n);
        let ts = split_plain(rest, ':');
        proof {
            assert(ts@[0]@ == split_v(rest@, ':')[0]);
            assert(ts@[1]@ == split_v(rest@, ':')[1]);
        }
        let a = term(ts[0]);
        let b = term(ts[1]);
        return Goal::Unify(a, b);
    }
    Goal::Constraint(constraint(s))
}

/// The parts joined again, `sep` between each two.
pub open spec fn join_v(parts: Seq<Seq<char>>, sep: char) -> Seq<char>
    decreases parts.len(),
{
    if parts.len() <= 1 {
        if parts.len() == 0 {
            Seq::empty()
        } else {
            parts[0]
        }
    } else {
        join_v(parts.drop_last(), sep) + seq![sep] + parts.last()
    }
}

proof fn lemma_join_pieces(s: Seq<char>, cuts: Seq<int>, sep: char)
    requires
        forall|k: int| 0 <= k < cuts.len() ==> 0 <= #[trigger] cuts[k] < s.len(),
        forall|a: int, b: int| 0 <= a < b < cuts.len() ==> cuts[a] < cuts[b],
        forall|k: int| 0 <= k < cuts.len() ==> s[#[trigger] cuts[k]] == sep,
    ensures
        join_v(pieces(s, cuts), sep) == s,
    decreases cuts.len(),
{
    if cuts.len() == 0 {
        assert(pieces(s, cuts)[0] =~= s);
    } else {
        let c = cuts.last();
        let pre = cuts.drop_last();
        let t = s.take(c);
        assert forall|k: int| 0 <= k < pre.len() implies 0 <= #[trigger] pre[k] < t.len() by {
            assert(pre[k] == cuts[k]);
            assert(cuts[k] < cuts[cuts.len() - 1]);
        }
        assert forall|k: int| 0 <= k < pre.len() implies t[#[trigger] pre[k]] == sep by {
            assert(pre[k] == cuts[k]);
            assert(cuts[k] < cuts[cuts.len() - 1]);
        }
        lemma_join_pieces(t, pre, sep);
        let ps = pieces(s, cuts);
        let qs = pieces(t, pre);
        assert(ps.drop_last() =~= qs) by {
            assert forall|k: int| 0 <= k < qs.len() implies ps[k] == qs[k] by {
                if k > 0 {
                    assert(cuts[k - 1] < c);
                }
                if k < pre.len() {
                    assert(cuts[k] <= c);
                }
                assert(ps[k] =~= qs[k]);
            }
        }
        assert(ps.last() =~= s.subrange(c + 1, s.len() as int));
        assert(s =~= t + seq![sep] + s.subrange(c + 1, s.len() as int));
    }
}

/// Splitting loses nothing: the parts joined with the separator give the text back.
pub proof fn lemma_split_join(s: Seq<char>, sep: char)
    ensures
        join_v(split_v(s, sep), sep) == s,
        join_v(split_top_v(s, sep), sep) == s,
{
    lemma_cuts_bounds(s, sep, s.len() as int, false);
    lemma_cuts_bounds(s, sep, s.len() as int, true);
    assert(cuts_of(s, sep, s.len() as int, false) == all_cuts(s, sep, s.len() as int));
    assert(cuts_of(s, sep, s.len() as int, true) == top_cuts(s, sep, s.len() as int));
    lemma_join_pieces(s, all_cuts(s, sep, s.len() as int), sep);
    lemma_join_pieces(s, top_cuts(s, sep, s.len() as int), sep);
}

proof fn lemma_digit(d: nat)
    requires
        d < 10,
    ensures
        is_digit(digit_char(d)),
        digit_value(digit_char(d)) == d,
{
}

proof fn lemma_decimal(n: nat)
    ensures
        all_digits(decimal_v(n)),
        digits_value(decimal_v(n)) == n,
    decreases n,
{
    if n < 10 {
        lemma_digit(n);
        assert(decimal_v(n).drop_last() =~= Seq::<char>::empty());
        assert(decimal_v(n).last() == digit_char(n));
        assert(digits_value(decimal_v(n)) == digits_value(Seq::<char>::empty()) * 10 + digit_value(digit_char(n)));
    } else {
        lemma_decimal(n / 10);
        lemma_digit(n % 10);
        let ds = decimal_v(n);
        assert(ds.drop_last() =~= decimal_v(n / 10));
        assert(forall|i: int| 0 <= i < ds.len() ==> #[trigger] is_digit(ds[i])) by {
            assert forall|i: int| 0 <= i < ds.len() implies #[trigger] is_digit(ds[i]) by {
                if i < ds.len() - 1 {
                    assert(ds[i] == decimal_v(n / 10)[i]);
                }
            }
        }
        assert(ds.last() == digit_char(n % 10));
        assert(digits_value(ds) == digits_value(decimal_v(n / 10)) * 10 + digit_value(digit_char(n % 10)));
        assert((n / 10) * 10 + n % 10 == n) by (nonlinear_arith);
    }
}

/// Writing a variable or an atom and reading it back gives the same term.
/// Atoms whose names start with `v` are left out: they read as variables.
pub proof fn lemma_show_term(t: TermV)
    requires
        t matches TermV::App(name, args) ==> args.len() == 0 && !(name.len() > 0 && name[0] == 'v'),
    ensures
        term_ok(show_v(t)),
        term_of(show_v(t)) == t,
{
    match t {
        TermV::Var(n) => {
            lemma_decimal(n as nat);
            let s = show_v(t);
            assert(s.drop_first() =~= decimal_v(n as nat));
            assert(unsigned_digits(decimal_v(n as nat)) == decimal_v(n as nat)) by {
                if decimal_v(n as nat)[0] == '+' {
                    assert(is_digit(decimal_v(n as nat)[0]));
                }
            }
        },
        TermV::App(name, args) => {
            assert(args =~= Seq::<TermV>::empty());
        },
    }
}

} // verus!
