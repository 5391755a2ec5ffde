//! Semijoin probes: which later heads of a rule share a slot with an earlier one.
use std::collections::BTreeSet;
use vstd::prelude::*;

verus! {

/// A compiled head argument: a slot of the rule frame or a constructor.
#[derive(Debug)]
pub enum Template {
    Slot(usize),
    App(String, Vec<Template>),
}

/// A compiled rule head: a predicate and its argument templates.
#[derive(Debug)]
pub struct Head {
    pub pred: usize,
    pub args: Vec<Template>,
}

/// The slots a template mentions.
pub open spec fn template_slots(t: Template) -> Set<usize>
    decreases t, 0nat,
{
    match t {
        Template::Slot(s) => set![s],
        Template::App(_, args) => templates_slots(args@),
    }
}

/// The slots a list of templates mentions.
pub open spec fn templates_slots(s: Seq<Template>) -> Set<usize>
    decreases s, 1nat,
{
    if s.len() == 0 {
        Set::empty()
    } else {
        templates_slots(s.drop_last()) + template_slots(s.last())
    }
}

/// The slots a head mentions.
pub open spec fn head_slots(h: Head) -> Set<usize> {
    templates_slots(h.args@)
}

/// Heads `i` and `j` mention a common slot.
pub open spec fn shares(heads: Seq<Head>, i: int, j: int) -> bool {
    exists|x: usize| head_slots(heads[i]).contains(x) && head_slots(heads[j]).contains(x)
}

/// Add the slots of `t` to `out`.
fn slots(t: &Template, out: &mut BTreeSet<usize>)
    ensures
        final(out)@ == old(out)@ + template_slots(*t),
    decreases t,
{
    match t {
        Template::Slot(s) => {
            out.insert(*s);
            proof {
                assert(final(out)@ =~= old(out)@ + template_slots(*t));
            }
        },
        Template::App(name, args) => {
            let mut i: usize = 0;
            proof {
                assert(args@.take(0) =~= Seq::<Template>::empty());
                assert(out@ =~= old(out)@ + templates_slots(args@.take(0)));
            }
            while i < args.len()
                invariant
                    *t == Template::App(*name, *args),
                    0 <= i <= args.len(),
                    out@ == old(out)@ + templates_slots(args@.take(i as int)),
                decreases args.len() - i,
            {
                proof {
                    assert(decreases_to!(*t => t->App_1));
                    assert(decreases_to!(*args => args[i as int]));
                }
                slots(&args[i], out);
                proof {
                    assert(args@.take(i + 1).drop_last() == args@.take(i as int));
                    assert(args@.take(i + 1).last() == args@[i as int]);
                    assert(out@ =~= old(out)@ + templates_slots(args@.take(i + 1)));
                }
                i += 1;
            }
            proof {
                assert(args@.take(i as int) == args@);
            }
        },
    }
}

/// Some slot of `t` is in `set`.
fn template_meets(t: &Template, set: &BTreeSet<usize>) -> (r: bool)
    ensures
        r == exists|x: usize| template_slots(*t).contains(x) && set@.contains(x),
    decreases t,
{
    match t {
        Template::Slot(s) => {
            let r = set.contains(s);
            proof {
                if r {
                    assert(template_slots(*t).contains(*s));
                }
            }
            r
        },
        Template::App(name, args) => {
            let mut i: usize = 0;
            proof {
                assert(args@.take(0) =~= Seq::<Template>::empty());
            }
            while i < args.len()
                invariant
                    *t == Template::App(*name, *args),
                    0 <= i <= args.len(),
                    forall|x: usize| templates_slots(args@.take(i as int)).contains(x) ==> !set@.contains(x),
                decreases args.len() - i,
            {
                proof {
                    assert(decreases_to!(*t => t->App_1));
                    assert(decreases_to!(*args => args[i as int]));
                    assert(args@.take(i + 1).drop_last() == args@.take(i as int));
                    assert(args@.take(i + 1).last() == args@[i as int]);
                }
                if template_meets(&args[i], set) {
                    proof {
                        let x = choose|x: usize| template_slots(args@[i as int]).contains(x) && set@.contains(x);
                        lemma_templates_slots_contains(args@, i as int, x);
                    }
                    return true;
                }
                i += 1;
            }
            proof {
                assert(args@.take(i as int) == args@);
            }
            false
        },
    }
}

proof fn lemma_templates_slots_contains(s: Seq<Template>, i: int, x: usize)
    requires
        0 <= i < s.len(),
        template_slots(s[i]).contains(x),
    ensures
        templates_slots(s).contains(x),
    decreases s.len(),
{
    if i < s.len() - 1 {
        assert(s.drop_last()[i] == s[i]);
        lemma_templates_slots_contains(s.drop_last(), i, x);
    }
}

/// Some slot of the head is in `set`.
fn head_meets(head: &Head, set: &BTreeSet<usize>) -> (r: bool)
    ensures
        r == exists|x: usize| head_slots(*head).contains(x) && set@.contains(x),
{
    let args = &head.args;
    let mut i: usize = 0;
    proof {
        assert(args@.take(0) =~= Seq::<Template>::empty());
    }
    while i < args.len()
        invariant
            0 <= i <= args.len(),
            args@ == head.args@,
            forall|x: usize| templates_slots(args@.take(i as int)).contains(x) ==> !set@.contains(x),
        decreases args.len() - i,
    {
        proof {
            assert(args@.take(i + 1).drop_last() == args@.take(i as int));
            assert(args@.take(i + 1).last() == args@[i as int]);
        }
        if template_meets(&args[i], set) {
            proof {
                let x = choose|x: usize| template_slots(args@[i as int]).contains(x) && set@.contains(x);
                lemma_templates_slots_contains(args@, i as int, x);
                assert(head_slots(*head).contains(x) && set@.contains(x));
            }
            return true;
        }
        i += 1;
    }
    proof {
        assert(args@.take(i as int) == args@);
    }
    false
}

/// For each head, the later heads that share a slot with it, in order.
pub fn prepare(heads: &[Head]) -> (r: Vec<Vec<usize>>)
    ensures
        r.len() == heads.len(),
        forall|i: int|
            0 <= i < heads.len() ==> {
                let later = #[trigger] r[i]@;
                &&& forall|a: int, b: int| 0 <= a < b < later.len() ==> later[a] < later[b]
                &&& forall|k: int| 0 <= k < later.len() ==> i < later[k] < heads.len() && shares(heads@, i, later[k] as int)
                &&& forall|j: int| i < j < heads.len() && shares(heads@, i, j) ==> later.contains(j as usize)
            },
{
    let mut variables: Vec<BTreeSet<usize>> = Vec::new();
    let mut h: usize = 0;
    while h < heads.len()
        invariant
            0 <= h <= heads.len(),
            variables.len() == h,
            forall|k: int| 0 <= k < h ==> #[trigger] variables[k]@ == head_slots(heads@[k]),
        decreases heads.len() - h,
    {
        let mut out: BTreeSet<usize> = BTreeSet::new();
        let args = &heads[h].args;
        let mut a: usize = 0;
        proof {
            assert(args@.take(0) =~= Seq::<Template>::empty());
            assert(out@ =~= templates_slots(args@.take(0)));
        }
        while a < args.len()
            invariant
                0 <= a <= args.len(),
                out@ == templates_slots(args@.take(a as int)),
            decreases args.len() - a,
        {
            slots(&args[a], &mut out);
            proof {
                assert(args@.take(a + 1).drop_last() == args@.take(a as int));
                assert(args@.take(a + 1).last() == args@[a as int]);
            }
            a += 1;
        }
        proof {
            assert(args@.take(a as int) == args@);
        }
        variables.push(out);
        h += 1;
    }
    let mut result: Vec<Vec<usize>> = Vec::new();
    let mut i: usize = 0;
    while i < heads.len()
        invariant
            0 <= i <= heads.len(),
            variables.len() == heads.len(),
            forall|k: int| 0 <= k < heads.len() ==> #[trigger] variables[k]@ == head_slots(heads@[k]),
            result.len() == i,
            forall|p: int|
                0 <= p < i ==> {
                    let later = #[trigger] result[p]@;
                    &&& forall|a: int, b: int| 0 <= a < b < later.len() ==> later[a] < later[b]
                    &&& forall|k: int| 0 <= k < later.len() ==> p < later[k] < heads.len() && shares(heads@, p, later[k] as int)
                    &&& forall|j: int| p < j < heads.len() && shares(heads@, p, j) ==> later.contains(j as usize)
                },
        decreases heads.len() - i,
    {
        let mut later: Vec<usize> = Vec::new();
        let mut j: usize = i + 1;
        while j < heads.len()
            invariant
                i < heads.len(),
                i + 1 <= j <= heads.len(),
                variables.len() == heads.len(),
                forall|k: int| 0 <= k < heads.len() ==> #[trigger] variables[k]@ == head_slots(heads@[k]),
                forall|a: int, b: int| 0 <= a < b < later@.len() ==> later@[a] < later@[b],
                forall|k: int| 0 <= k < later@.len() ==> i < later@[k] < j && shares(heads@, i as int, later@[k] as int),
                forall|q: int| i < q < j && shares(heads@, i as int, q) ==> later@.contains(q as usize),
            decreases heads.len() - j,
        {
            let common = head_meets(&heads[j], &variables[i]);
            proof {
                assert(variables[i as int]@ == head_slots(heads@[i as int]));
                assert(variables[j as int]@ == head_slots(heads@[j as int]));
            }
            proof {
                if shares(heads@, i as int, j as int) {
                    let x = choose|x: usize| head_slots(heads@[i as int]).contains(x) && head_slots(heads@[j as int]).contains(x);
                    assert(head_slots(heads[j as int]).contains(x) && variables[i as int]@.contains(x));
                }
                if common {
                    let x = choose|x: usize| head_slots(heads[j as int]).contains(x) && variables[i as int]@.contains(x);
                    assert(head_slots(heads@[i as int]).contains(x) && head_slots(heads@[j as int]).contains(x));
                }
            }
            let ghost prev_later = later@;
            if common {
                later.push(j);
                proof {
                    assert(later@[later@.len() - 1] == j);
                }
            }
            proof {
                assert forall|q: int| i < q < j + 1 && shares(heads@, i as int, q) implies later@.contains(q as usize) by {
                    if q == j {
                        assert(later@[later@.len() - 1] == j);
                    } else {
                        assert(prev_later.contains(q as usize));
                        let k = choose|k: int| 0 <= k < prev_later.len() && prev_later[k] == q as usize;
                        assert(later@[k] == prev_later[k]);
                    }
                }
            }
            j += 1;
        }
        let ghost prev = result@;
        result.push(later);
        proof {
            assert forall|p: int| 0 <= p < i implies #[trigger] result@[p] == prev[p] by {}
        }
        i += 1;
    }
    result
}

} // verus!
