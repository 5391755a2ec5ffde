//! Names: prefixes of generated code and the widths of dispatch families.
use crate::notation::{is_digit, number_v, parse_u64, u64_v};
use vstd::prelude::*;
use vstd::string::*;

verus! {

/// The error for a name that cannot prefix generated items.
pub const INVALID_PREFIX: &'static str = "invalid Rust prefix";

/// An ASCII letter, digit or underscore.
pub open spec fn word_char(c: char) -> bool {
    ('a' <= c && c <= 'z') || ('A' <= c && c <= 'Z') || ('0' <= c && c <= '9') || c == '_'
}

/// A name can prefix generated items: nonempty, made of ASCII letters, digits
/// and underscores, not starting with a digit.
pub open spec fn valid_prefix(name: Seq<char>) -> bool {
    &&& name.len() > 0
    &&& forall|i: int| 0 <= i < name.len() ==> #[trigger] word_char(name[i])
    &&& !is_digit(name[0])
}

/// Check that a name can prefix generated items.
pub fn validate_prefix(name: &str) -> (r: Result<(), String>)
    ensures
        r is Ok <==> valid_prefix(name@),
        r matches Err(e) ==> e@ == INVALID_PREFIX@,
{
    let n = name.unicode_len();
    let mut ok = n > 0;
    let mut i: usize = 0;
    while i < n && ok
        invariant
            n == name@.len(),
            0 <= i <= n,
            ok == (n > 0 && forall|j: int| 0 <= j < i ==> #[trigger] word_char(name@[j])),
        decreases n - i,
    {
        let c = name.get_char(i);
        if !(('a' <= c && c <= 'z') || ('A' <= c && c <= 'Z') || ('0' <= c && c <= '9') || c == '_') {
            ok = false;
            proof {
                assert(!word_char(name@[i as int]));
            }
        } else {
            proof {
                assert(word_char(name@[i as int]));
            }
        }
        i += 1;
    }
    if ok {
        let c = name.get_char(0);
        if '0' <= c && c <= '9' {
            ok = false;
        }
    }
    if ok {
        Ok(())
    } else {
        Err(INVALID_PREFIX.to_owned())
    }
}

/// The width of a dispatch family: `dispatch` followed by a number from 1 to 256.
pub open spec fn dispatch_width_v(family: Seq<char>) -> Option<nat> {
    let prefix = seq!['d', 'i', 's', 'p', 'a', 't', 'c', 'h'];
    if family.len() >= 8 && family.take(8) == prefix {
        match number_v(family.skip(8)) {
            Some(n) => if 1 <= n <= 256 {
                Some(n)
            } else {
                None
            },
            None => None,
        }
    } else {
        None
    }
}

/// The width of a dispatch family, if `family` names one.
pub fn dispatch_width(family: &str) -> (r: Option<usize>)
    ensures
        match r {
            Some(w) => dispatch_width_v(family@) == Some(w as nat),
            None => dispatch_width_v(family@) is None,
        },
{
    let n = family.unicode_len();
    if n < 8 {
        return None;
    }
    let head = family.substring_char(0, 8);
    let prefix = "dispatch";
    proof {
        reveal_strlit("dispatch");
    }
    let mut i: usize = 0;
    while i < 8
        invariant
            head@ == family@.take(8),
            prefix@ == seq!['d', 'i', 's', 'p', 'a', 't', 'c', 'h'],
            n == family@.len(),
            n >= 8,
            0 <= i <= 8,
            forall|j: int| 0 <= j < i ==> head@[j] == prefix@[j],
        decreases 8 - i,
    {
        if head.get_char(i) != prefix.get_char(i) {
            proof {
                assert(head@[i as int] != prefix@[i as int]);
                assert(family@.take(8) != prefix@);
            }
            return None;
        }
        i += 1;
    }
    proof {
        assert(family@.take(8) =~= seq!['d', 'i', 's', 'p', 'a', 't', 'c', 'h']);
    }
    let rest = family.substring_char(8, n);
    proof {
        assert(rest@ =~= family@.skip(8));
    }
    match parse_u64(rest) {
        Some(w) => {
            if 1 <= w && w <= 256 {
                Some(w as usize)
            } else {
                None
            }
        },
        None => {
            proof {
                assert(u64_v(rest@) is None);
            }
            None
        },
    }
}

} // verus!
