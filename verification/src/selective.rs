//! Selective structural joins driven by an instruction list.
//!
//! A query holds `left(K, P)` and `right(K, P)` rows and one `drive(S)` row
//! whose argument is a closed list of instructions: `req(K, R)` asks for every
//! pair of a left row `f(X)` and a right row `g(X)` under key `K`, one receipt
//! per step; `replace(K, Old, New)` swaps a right row's payload; `bind(V, T)`
//! binds a variable to a ground term; `insert(K, P)` adds a right row. In the
//! consuming variant each receipt consumes its right row.
use crate::order::{Order, compare_term, lemma_term_order};
use crate::resource_fusion::{ground_term, ground_v};
use crate::syntax::{
    Answer, AnswerV, Constraint, ConstraintV, Query, Term, TermV, Var, answer_v, constraint_v, constraints_v, copy_term, term_v,
    terms_v,
};
use crate::fixtures::{and2, app, atom, atom_v, c1, c2, c3, con, con_v, post, propagate, propagate_v, simplify, simplify_v, t1, t2, unify, var};
use crate::syntax::{Goal, GoalV, Guard, Rule, RuleV, goal_v, guard_v, rule_v, rules_v};
use vstd::prelude::*;
use vstd::string::*;

verus! {

/// How pairs are found: by scanning the left rows of a key, or from pairs
/// kept up to date as rows change.
#[derive(Clone, Copy, Debug, PartialEq, Eq, Structural)]
pub enum Mode {
    Direct,
    Retained,
}

/// The value of an instruction.
pub enum OpV {
    Request(TermV, TermV),
    Replace(TermV, TermV, TermV),
    Bind(u64, TermV),
    Insert(TermV, TermV),
}

/// An instruction, with the rest of the list from it on.
pub struct InstructionV {
    pub op: OpV,
    pub remaining: TermV,
}

/// Why a query is refused.
pub open spec fn duplicate_output() -> Seq<char> {
    "duplicate output name"@
}

pub open spec fn unsupported_row() -> Seq<char> {
    "unsupported query row or multiple drivers"@
}

pub open spec fn one_driver() -> Seq<char> {
    "one driver required"@
}

pub open spec fn closed_spine() -> Seq<char> {
    "closed instruction spine required"@
}

pub open spec fn instruction_constructor() -> Seq<char> {
    "instruction constructor required"@
}

pub open spec fn unsupported_instruction() -> Seq<char> {
    "unsupported instruction: bindings must be distinct variable-to-ground equations"@
}

/// The output names are pairwise distinct.
pub open spec fn distinct_names(os: Seq<(Seq<char>, u64)>) -> bool {
    forall|i: int, j: int| 0 <= i < j < os.len() ==> os[i].0 != os[j].0
}

/// Row `i` is a left or right row with two arguments, or the first driver.
pub open spec fn row_ok(cs: Seq<ConstraintV>, i: int) -> bool {
    ||| (cs[i].name == "left"@ && cs[i].args.len() == 2)
    ||| (cs[i].name == "right"@ && cs[i].args.len() == 2)
    ||| (cs[i].name == "drive"@ && cs[i].args.len() == 1 && forall|j: int|
        0 <= j < i ==> !(#[trigger] cs[j].name == "drive"@ && cs[j].args.len() == 1))
}

/// The rows of one side, in query order, as key and payload.
pub open spec fn side_rows(cs: Seq<ConstraintV>, name: Seq<char>) -> Seq<(TermV, TermV)>
    decreases cs.len(),
{
    if cs.len() == 0 {
        Seq::empty()
    } else {
        let rest = side_rows(cs.drop_last(), name);
        if cs.last().name == name && cs.last().args.len() == 2 {
            rest.push((cs.last().args[0], cs.last().args[1]))
        } else {
            rest
        }
    }
}

/// The argument of the first driver, if there is one.
pub open spec fn driver(cs: Seq<ConstraintV>) -> Option<TermV>
    decreases cs.len(),
{
    if cs.len() == 0 {
        None
    } else {
        match driver(cs.drop_last()) {
            Some(t) => Some(t),
            None => if cs.last().name == "drive"@ && cs.last().args.len() == 1 {
                Some(cs.last().args[0])
            } else {
                None
            },
        }
    }
}

/// A driver is found exactly where some row is a `drive/1` row.
proof fn lemma_driver_found(cs: Seq<ConstraintV>)
    ensures
        driver(cs) is Some <==> exists|j: int| 0 <= j < cs.len() && #[trigger] cs[j].name == "drive"@ && cs[j].args.len() == 1,
    decreases cs.len(),
{
    if cs.len() > 0 {
        let d = cs.drop_last();
        lemma_driver_found(d);
        if driver(d) is Some {
            let j = choose|j: int| 0 <= j < d.len() && #[trigger] d[j].name == "drive"@ && d[j].args.len() == 1;
            assert(cs[j] == d[j]);
        } else {
            assert forall|j: int| 0 <= j < cs.len() - 1 implies !(#[trigger] cs[j].name == "drive"@ && cs[j].args.len() == 1) by {
                assert(cs[j] == d[j]);
            }
        }
    }
}

/// One instruction decoded from its constructor, with the variables bound
/// before it; an error where it is none of the four.
pub open spec fn decode_v(head: TermV, bound: Set<u64>) -> Result<OpV, Seq<char>> {
    match head {
        TermV::Var(_) => Err(instruction_constructor()),
        TermV::App(op, args) => if op == "req"@ && args.len() == 2 {
            Ok(OpV::Request(args[0], args[1]))
        } else if op == "replace"@ && args.len() == 3 {
            Ok(OpV::Replace(args[0], args[1], args[2]))
        } else if op == "bind"@ && args.len() == 2 && args[0] is Var && ground_v(args[1]) && !bound.contains(
            args[0]->Var_0,
        ) {
            Ok(OpV::Bind(args[0]->Var_0, args[1]))
        } else if op == "insert"@ && args.len() == 2 {
            Ok(OpV::Insert(args[0], args[1]))
        } else {
            Err(unsupported_instruction())
        },
    }
}

/// The instructions of a list `cons(I, ...cons(I, nil))`, each with the list
/// from it on; the error of the first cell that is no instruction.
pub open spec fn spine_v(t: TermV, bound: Set<u64>) -> Result<Seq<InstructionV>, Seq<char>>
    decreases t,
{
    if t == TermV::App("nil"@, Seq::empty()) {
        Ok(Seq::empty())
    } else {
        match t {
            TermV::App(name, xs) => if name != "cons"@ || xs.len() != 2 {
                Err(closed_spine())
            } else {
                match decode_v(xs[0], bound) {
                    Err(e) => Err(e),
                    Ok(op) => {
                        let b2 = match op {
                            OpV::Bind(x, _) => bound.insert(x),
                            _ => bound,
                        };
                        match spine_v(xs[1], b2) {
                            Err(e) => Err(e),
                            Ok(rest) => Ok(seq![InstructionV { op, remaining: t }] + rest),
                        }
                    }
                }
            },
            TermV::Var(_) => Err(closed_spine()),
        }
    }
}

/// What a query admits to: the left and right rows and the instructions, or
/// the message of the first check that fails.
pub open spec fn admit_v(cs: Seq<ConstraintV>, outputs: Seq<(Seq<char>, u64)>) -> Result<
    (Seq<(TermV, TermV)>, Seq<(TermV, TermV)>, Seq<InstructionV>),
    Seq<char>,
> {
    if !distinct_names(outputs) {
        Err(duplicate_output())
    } else if exists|i: int| 0 <= i < cs.len() && !#[trigger] row_ok(cs, i) {
        Err(unsupported_row())
    } else {
        match driver(cs) {
            None => Err(one_driver()),
            Some(s) => match spine_v(s, Set::empty()) {
                Err(e) => Err(e),
                Ok(ins) => Ok((side_rows(cs, "left"@), side_rows(cs, "right"@), ins)),
            },
        }
    }
}

/// What starting a join on a query gives: the engine over its rows and
/// instructions, with no bindings, receipts or request yet, or the message of
/// the first check that fails.
pub open spec fn started(query: Query, mode: Mode, consuming: bool, r: Result<Engine, String>) -> bool {
    match admit_v(constraints_v(query.constraints@), query.outputs@.map_values(|o: (String, Var)| (o.0@, o.1.0))) {
        Ok((left, right, ins)) => r matches Ok(e) && e.left_v() == left && e.right_v() == Seq::new(
            right.len(),
            |i: int| (i as nat, right[i]),
        ) && e.instructions_v() == ins && e.mode_v() == mode && e.wf() && e.consuming_v() == consuming && e.next_right_v()
            == right.len() && e.bindings_v() == Seq::<(u64, TermV)>::empty() && e.receipts_v() == Seq::<
            ConstraintV,
        >::empty() && e.outputs_v() == query.outputs@.map_values(|o: (String, Var)| (o.0@, o.1.0)) && !e.serving()
            && !e.done_v() && e.stopped_v() is None,
        Err(m) => r matches Err(s) && s@ == m,
    }
}

/// The mode only changes how pairs are found: on one query the two modes
/// admit alike and start from the same state, so the same advances leave them
/// in the same state with the same answer.
pub proof fn lemma_modes_agree(query: Query, consuming: bool, d: Result<Engine, String>, r: Result<Engine, String>)
    requires
        started(query, Mode::Direct, consuming, d),
        started(query, Mode::Retained, consuming, r),
    ensures
        d is Ok <==> r is Ok,
        d matches Err(a) ==> (r matches Err(b) && a@ == b@),
        d matches Ok(e1) ==> (r matches Ok(e2) && e1.state_v() == e2.state_v() && e1.outputs_v() == e2.outputs_v()),
{
    if d is Ok {
        let e1 = d->Ok_0;
        let e2 = r->Ok_0;
        assert(e1.right_v() == e2.right_v());
        assert(e1.state_v() == e2.state_v());
    }
}

/// Whether two texts are equal.
fn same_text(a: &str, b: &str) -> (r: bool)
    ensures
        r == (a@ == b@),
{
    proof {
        crate::order::lemma_text_order(a@, b@);
    }
    crate::order::compare_text(a, b) == Order::Equal
}

/// A row: its key and payload.
struct Row {
    key: Term,
    payload: Term,
}

/// An instruction.
enum Op {
    Request(Term, Term),
    Replace(Term, Term, Term),
    Bind(u64, Term),
    Insert(Term, Term),
}

/// An instruction with the rest of the list from it on.
struct Instruction {
    op: Op,
    remaining: Term,
}

spec fn op_v(o: Op) -> OpV {
    match o {
        Op::Request(k, r) => OpV::Request(term_v(k), term_v(r)),
        Op::Replace(k, a, b) => OpV::Replace(term_v(k), term_v(a), term_v(b)),
        Op::Bind(x, t) => OpV::Bind(x, term_v(t)),
        Op::Insert(k, p) => OpV::Insert(term_v(k), term_v(p)),
    }
}

spec fn instructions_of(s: Seq<Instruction>) -> Seq<InstructionV> {
    s.map_values(|i: Instruction| InstructionV { op: op_v(i.op), remaining: term_v(i.remaining) })
}

spec fn rows_of(s: Seq<Row>) -> Seq<(TermV, TermV)> {
    s.map_values(|r: Row| (term_v(r.key), term_v(r.payload)))
}

/// A pending request: its round, its resolved key, and the last pair served.
struct Request {
    round: Term,
    key: Term,
    previous: Option<(usize, usize)>,
}

/// A selective join over the rows of one query.
pub struct Engine {
    mode: Mode,
    consuming: bool,
    left: Vec<Row>,
    right: Vec<(usize, Row)>,
    next_right: usize,
    bindings: Vec<(u64, Term)>,
    instructions: Vec<Instruction>,
    next: usize,
    current: Option<Request>,
    receipts: Vec<Constraint>,
    outputs: Vec<(String, Var)>,
    stopped: Option<Term>,
    done: bool,
}

impl Engine {
    /// The left rows, by identity from 0 on.
    pub closed spec fn left_v(&self) -> Seq<(TermV, TermV)> {
        rows_of(self.left@)
    }

    /// The right rows with their identities, in increasing identity.
    pub closed spec fn right_v(&self) -> Seq<(nat, (TermV, TermV))> {
        self.right@.map_values(|e: (usize, Row)| (e.0 as nat, (term_v(e.1.key), term_v(e.1.payload))))
    }

    /// The instructions still to run.
    pub closed spec fn instructions_v(&self) -> Seq<InstructionV> {
        instructions_of(self.instructions@).skip(self.next as int)
    }

    pub closed spec fn mode_v(&self) -> Mode {
        self.mode
    }

    pub closed spec fn consuming_v(&self) -> bool {
        self.consuming
    }

    /// The identity the next inserted right row takes.
    pub closed spec fn next_right_v(&self) -> nat {
        self.next_right as nat
    }

    /// The ground terms bound to variables.
    pub closed spec fn bindings_v(&self) -> Seq<(u64, TermV)> {
        bindings_of(self.bindings@)
    }

    /// The receipts emitted so far.
    pub closed spec fn receipts_v(&self) -> Seq<ConstraintV> {
        constraints_v(self.receipts@)
    }

    /// The named outputs of the query.
    pub closed spec fn outputs_v(&self) -> Seq<(Seq<char>, u64)> {
        self.outputs@.map_values(|o: (String, Var)| (o.0@, o.1.0))
    }

    /// Whether a request is being served.
    pub closed spec fn serving(&self) -> bool {
        self.current is Some
    }

    /// Whether the instructions have run out or stopped.
    pub closed spec fn done_v(&self) -> bool {
        self.done
    }

    /// The rest of the list where a replacement found no row, if one did.
    pub closed spec fn stopped_v(&self) -> Option<TermV> {
        match self.stopped {
            Some(t) => Some(term_v(t)),
            None => None,
        }
    }

    /// Admit a query: distinct output names, only `left/2` and `right/2` rows
    /// and one `drive/1` row whose argument is a closed list of instructions,
    /// each binding a distinct variable to a ground term. The right rows take
    /// the identities from 0 on.
    pub fn new(query: Query, mode: Mode, consuming: bool) -> (r: Result<Engine, String>)
        ensures
            started(query, mode, consuming, r),
    {
        let ghost cs = constraints_v(query.constraints@);
        let ghost os = query.outputs@.map_values(|o: (String, Var)| (o.0@, o.1.0));
        // Distinct output names.
        let mut i: usize = 0;
        while i < query.outputs.len()
            invariant
                os == query.outputs@.map_values(|o: (String, Var)| (o.0@, o.1.0)),
                0 <= i <= query.outputs@.len(),
                forall|a: int, b: int| 0 <= a < b < i ==> os[a].0 != os[b].0,
            decreases query.outputs.len() - i,
        {
            let mut j: usize = 0;
            while j < i
                invariant
                    os == query.outputs@.map_values(|o: (String, Var)| (o.0@, o.1.0)),
                    0 <= j <= i < query.outputs@.len(),
                    forall|a: int| 0 <= a < j ==> os[a].0 != os[i as int].0,
                decreases i - j,
            {
                if same_text(query.outputs[j].0.as_str(), query.outputs[i].0.as_str()) {
                    proof {
                        assert(os[j as int].0 == os[i as int].0);
                        assert(!distinct_names(os));
                    }
                    return Err(String::from_str("duplicate output name"));
                }
                j += 1;
            }
            i += 1;
        }
        // The rows.
        let mut left: Vec<Row> = Vec::new();
        let mut right: Vec<(usize, Row)> = Vec::new();
        let mut script: Option<Term> = None;
        let mut k: usize = 0;
        while k < query.constraints.len()
            invariant
                cs == constraints_v(query.constraints@),
                os == query.outputs@.map_values(|o: (String, Var)| (o.0@, o.1.0)),
                distinct_names(os),
                0 <= k <= query.constraints@.len(),
                forall|a: int| 0 <= a < k ==> #[trigger] row_ok(cs, a),
                rows_of(left@) == side_rows(cs.take(k as int), "left"@),
                right@.len() == side_rows(cs.take(k as int), "right"@).len(),
                forall|a: int| 0 <= a < right@.len() ==> (#[trigger] right@[a]).0 == a && (term_v(right@[a].1.key), term_v(
                    right@[a].1.payload,
                )) == side_rows(cs.take(k as int), "right"@)[a],
                match script {
                    Some(t) => driver(cs.take(k as int)) == Some(term_v(t)),
                    None => driver(cs.take(k as int)) is None,
                },
            decreases query.constraints.len() - k,
        {
            let c = &query.constraints[k];
            let ghost ck = cs[k as int];
            proof {
                reveal_strlit("left");
                reveal_strlit("right");
                reveal_strlit("drive");
                assert("left"@[0] != "right"@[0] && "left"@[0] != "drive"@[0] && "right"@[0] != "drive"@[0]);
                assert(ck == constraint_v(*c));
                assert(cs.take(k + 1).drop_last() =~= cs.take(k as int));
                assert(cs.take(k + 1).last() == ck);
                assert(ck.args.len() == c.args@.len());
            }
            let ghost rb = side_rows(cs.take(k as int), "right"@);
            let ghost lb = side_rows(cs.take(k as int), "left"@);
            if same_text(c.name.as_str(), "left") && c.args.len() == 2 {
                let ghost before = rows_of(left@);
                left.push(Row { key: copy_term(&c.args[0]), payload: copy_term(&c.args[1]) });
                proof {
                    assert(rows_of(left@) =~= before.push((ck.args[0], ck.args[1])));
                    assert(side_rows(cs.take(k + 1), "right"@) == rb);
                }
            } else if same_text(c.name.as_str(), "right") && c.args.len() == 2 {
                let n = right.len();
                right.push((n, Row { key: copy_term(&c.args[0]), payload: copy_term(&c.args[1]) }));
                proof {
                    assert(side_rows(cs.take(k + 1), "right"@) == rb.push((ck.args[0], ck.args[1])));
                    assert(side_rows(cs.take(k + 1), "left"@) == lb);
                    assert(right@[n as int].0 == n);
                }
            } else if same_text(c.name.as_str(), "drive") && c.args.len() == 1 && script.is_none() {
                script = Some(copy_term(&c.args[0]));
                proof {
                    assert(side_rows(cs.take(k + 1), "right"@) == rb);
                    assert(side_rows(cs.take(k + 1), "left"@) == lb);
                    lemma_driver_found(cs.take(k as int));
                    assert forall|j: int| 0 <= j < k implies !(#[trigger] cs[j].name == "drive"@ && cs[j].args.len() == 1) by {
                        if cs[j].name == "drive"@ && cs[j].args.len() == 1 {
                            assert(cs.take(k as int)[j] == cs[j]);
                        }
                    }
                    assert(row_ok(cs, k as int));
                }
            } else {
                proof {
                    if ck.name == "drive"@ && ck.args.len() == 1 {
                        lemma_driver_found(cs.take(k as int));
                        let t = choose|w: int| 0 <= w < cs.take(k as int).len() && #[trigger] cs.take(k as int)[w].name == "drive"@ && cs.take(
                            k as int,
                        )[w].args.len() == 1;
                        assert(cs.take(k as int)[t] == cs[t]);
                    }
                    assert(!row_ok(cs, k as int));
                }
                return Err(String::from_str("unsupported query row or multiple drivers"));
            }
            proof {
                assert(row_ok(cs, k as int));
            }
            k += 1;
        }
        proof {
            assert(cs.take(k as int) =~= cs);
        }
        let script = match script {
            Some(t) => t,
            None => {
                return Err(String::from_str("one driver required"));
            },
        };
        let ghost sv = term_v(script);
        let mut bound: Vec<u64> = Vec::new();
        proof {
            assert(bound@.to_set() =~= Set::<u64>::empty());
        }
        let instructions = match spine(&script, &mut bound) {
            Ok(v) => v,
            Err(e) => {
                return Err(e);
            },
        };
        let next_right = right.len();
        let e = Engine {
            mode,
            consuming,
            left,
            right,
            next_right,
            bindings: Vec::new(),
            instructions,
            next: 0,
            current: None,
            receipts: Vec::new(),
            outputs: query.outputs,
            stopped: None,
            done: false,
        };
        proof {
            assert(instructions_of(e.instructions@).skip(0) =~= instructions_of(e.instructions@));
            assert(e.bindings_v() =~= Seq::<(u64, TermV)>::empty());
            assert(e.receipts_v() =~= Seq::<ConstraintV>::empty());
            let rr = side_rows(cs, "right"@);
            assert(e.right_v() =~= Seq::new(rr.len(), |i: int| (i as nat, rr[i])));
        }
        Ok(e)
    }
}

/// Decode a closed list of instructions, given the variables already bound.
fn spine(t: &Term, bound: &mut Vec<u64>) -> (r: Result<Vec<Instruction>, String>)
    ensures
        match spine_v(term_v(*t), old(bound)@.to_set()) {
            Ok(ins) => r matches Ok(v) && instructions_of(v@) == ins,
            Err(e) => r matches Err(s) && s@ == e,
        },
    decreases t,
{
    let nil = Term::App(String::from_str("nil"), Vec::new());
    proof {
        assert(term_v(nil) == TermV::App("nil"@, Seq::empty())) by {
            assert(term_v(nil)->App_1 =~= Seq::<TermV>::empty());
        }
        lemma_term_order(term_v(*t), term_v(nil));
    }
    if compare_term(t, &nil) == Order::Equal {
        let v: Vec<Instruction> = Vec::new();
        proof {
            assert(instructions_of(v@) =~= Seq::<InstructionV>::empty());
        }
        return Ok(v);
    }
    match t {
        Term::Var(_) => Err(String::from_str("closed instruction spine required")),
        Term::App(name, xs) => {
            proof {
                assert(term_v(*t)->App_1.len() == xs@.len());
            }
            if !same_text(name.as_str(), "cons") || xs.len() != 2 {
                return Err(String::from_str("closed instruction spine required"));
            }
            proof {
                assert(term_v(*t)->App_1[0] == term_v(xs@[0]));
                assert(term_v(*t)->App_1[1] == term_v(xs@[1]));
            }
            let ghost b0 = bound@.to_set();
            let op = match decode(&xs[0], bound) {
                Ok(op) => op,
                Err(e) => {
                    return Err(e);
                },
            };
            proof {
                assert(decreases_to!(*t => t->App_1));
                assert(decreases_to!(*xs => xs[1]));
            }
            let rest = match spine(&xs[1], bound) {
                Ok(v) => v,
                Err(e) => {
                    return Err(e);
                },
            };
            let mut out: Vec<Instruction> = Vec::new();
            let ghost head = InstructionV { op: op_v(op), remaining: term_v(*t) };
            out.push(Instruction { op, remaining: copy_term(t) });
            let mut rest = rest;
            let ghost rv = instructions_of(rest@);
            out.append(&mut rest);
            proof {
                assert(instructions_of(out@) =~= seq![head] + rv);
            }
            Ok(out)
        },
    }
}

/// Whether a list of variables holds `x`.
fn holds_var(vs: &Vec<u64>, x: u64) -> (r: bool)
    ensures
        r == vs@.to_set().contains(x),
{
    let mut i: usize = 0;
    while i < vs.len()
        invariant
            0 <= i <= vs@.len(),
            forall|j: int| 0 <= j < i ==> vs@[j] != x,
        decreases vs.len() - i,
    {
        if vs[i] == x {
            proof {
                assert(vs@.contains(x));
            }
            return true;
        }
        i += 1;
    }
    false
}

/// Decode one instruction; a binding records its variable.
fn decode(head: &Term, bound: &mut Vec<u64>) -> (r: Result<Op, String>)
    ensures
        match decode_v(term_v(*head), old(bound)@.to_set()) {
            Ok(o) => r matches Ok(x) && op_v(x) == o && final(bound)@.to_set() == match o {
                OpV::Bind(v, _) => old(bound)@.to_set().insert(v),
                _ => old(bound)@.to_set(),
            },
            Err(e) => r matches Err(s) && s@ == e,
        },
{
    match head {
        Term::Var(_) => Err(String::from_str("instruction constructor required")),
        Term::App(op, args) => {
            let ghost av = term_v(*head)->App_1;
            proof {
                assert(av.len() == args@.len());
                assert(forall|i: int| 0 <= i < args@.len() ==> av[i] == term_v(#[trigger] args@[i]));
            }
            if same_text(op.as_str(), "req") && args.len() == 2 {
                Ok(Op::Request(copy_term(&args[0]), copy_term(&args[1])))
            } else if same_text(op.as_str(), "replace") && args.len() == 3 {
                Ok(Op::Replace(copy_term(&args[0]), copy_term(&args[1]), copy_term(&args[2])))
            } else if same_text(op.as_str(), "bind") && args.len() == 2 && matches!(args[0], Term::Var(_)) && ground_term(
                &args[1],
            ) && match &args[0] {
                Term::Var(x) => !holds_var(bound, x.0),
                _ => false,
            } {
                let x = match &args[0] {
                    Term::Var(x) => x.0,
                    _ => 0,
                };
                bound.push(x);
                proof {
                    assert(bound@.to_set() =~= old(bound)@.to_set().insert(x)) by {
                        assert forall|y: u64| bound@.to_set().contains(y) == old(bound)@.to_set().insert(x).contains(y) by {
                            if y == x {
                                assert(bound@[bound@.len() - 1] == x);
                            }
                            if old(bound)@.contains(y) {
                                let j = choose|j: int| 0 <= j < old(bound)@.len() && old(bound)@[j] == y;
                                assert(bound@[j] == y);
                            }
                            if bound@.contains(y) && y != x {
                                let j = choose|j: int| 0 <= j < bound@.len() && bound@[j] == y;
                                assert(j < old(bound)@.len());
                                assert(old(bound)@[j] == y);
                            }
                        }
                    }
                }
                Ok(Op::Bind(x, copy_term(&args[1])))
            } else if same_text(op.as_str(), "insert") && args.len() == 2 {
                Ok(Op::Insert(copy_term(&args[0]), copy_term(&args[1])))
            } else {
                Err(String::from_str("unsupported instruction: bindings must be distinct variable-to-ground equations"))
            }
        },
    }
}


/// The value last bound to `x`, if any.
pub open spec fn lookup_v(bs: Seq<(u64, TermV)>, x: u64) -> Option<TermV>
    decreases bs.len(),
{
    if bs.len() == 0 {
        None
    } else if bs.last().0 == x {
        Some(bs.last().1)
    } else {
        lookup_v(bs.drop_last(), x)
    }
}

/// A term with each bound variable replaced by its value.
pub open spec fn resolve_v(t: TermV, bs: Seq<(u64, TermV)>) -> TermV
    decreases t,
{
    match t {
        TermV::Var(x) => match lookup_v(bs, x) {
            Some(u) => u,
            None => t,
        },
        TermV::App(n, xs) => TermV::App(
            n,
            Seq::new(xs.len(), |i: int| if 0 <= i < xs.len() { resolve_v(xs[i], bs) } else { TermV::Var(0) }),
        ),
    }
}

spec fn bindings_of(bs: Seq<(u64, Term)>) -> Seq<(u64, TermV)> {
    bs.map_values(|b: (u64, Term)| (b.0, term_v(b.1)))
}

/// Whether two terms are equal.
fn same_term(a: &Term, b: &Term) -> (r: bool)
    ensures
        r == (term_v(*a) == term_v(*b)),
{
    proof {
        lemma_term_order(term_v(*a), term_v(*b));
    }
    compare_term(a, b) == Order::Equal
}

/// The value last bound to `x`.
fn lookup(bs: &Vec<(u64, Term)>, x: u64) -> (r: Option<Term>)
    ensures
        match r {
            Some(t) => lookup_v(bindings_of(bs@), x) == Some(term_v(t)),
            None => lookup_v(bindings_of(bs@), x) is None,
        },
{
    let ghost bv = bindings_of(bs@);
    let mut i: usize = bs.len();
    proof {
        assert(bv.take(i as int) =~= bv);
    }
    while i > 0
        invariant
            bv == bindings_of(bs@),
            0 <= i <= bs@.len(),
            lookup_v(bv, x) == lookup_v(bv.take(i as int), x),
        decreases i,
    {
        proof {
            assert(bv.take(i as int).drop_last() =~= bv.take(i - 1));
            assert(bv.take(i as int).last() == bv[i - 1]);
        }
        if bs[i - 1].0 == x {
            return Some(copy_term(&bs[i - 1].1));
        }
        i -= 1;
    }
    None
}

/// A term with each bound variable replaced by its value.
fn resolve(t: &Term, bs: &Vec<(u64, Term)>) -> (r: Term)
    ensures
        term_v(r) == resolve_v(term_v(*t), bindings_of(bs@)),
    decreases t,
{
    match t {
        Term::Var(x) => match lookup(bs, x.0) {
            Some(u) => u,
            None => Term::Var(*x),
        },
        Term::App(n, xs) => {
            let mut out: Vec<Term> = Vec::new();
            let mut i: usize = 0;
            while i < xs.len()
                invariant
                    *t == Term::App(*n, *xs),
                    0 <= i <= xs.len(),
                    out@.len() == i,
                    forall|j: int| 0 <= j < i ==> term_v(#[trigger] out@[j]) == resolve_v(term_v(xs@[j]), bindings_of(bs@)),
                decreases xs.len() - i,
            {
                proof {
                    assert(decreases_to!(*t => t->App_1));
                    assert(decreases_to!(*xs => xs[i as int]));
                }
                out.push(resolve(&xs[i], bs));
                i += 1;
            }
            let r = Term::App(n.clone(), out);
            proof {
                let a = term_v(r)->App_1;
                let b = resolve_v(term_v(*t), bindings_of(bs@))->App_1;
                assert(a.len() == b.len());
                assert forall|j: int| 0 <= j < a.len() implies a[j] == b[j] by {
                    assert(a[j] == term_v(out@[j]));
                    assert(term_v(*t)->App_1[j] == term_v(xs@[j]));
                }
                assert(a =~= b);
            }
            r
        },
    }
}


/// A request being served: its round, its key as resolved when it was
/// issued, and the identities of the last pair served.
pub struct RequestV {
    pub round: TermV,
    pub key: TermV,
    pub previous: Option<(nat, nat)>,
}

/// The state of a selective join.
pub struct StateV {
    pub consuming: bool,
    pub left: Seq<(TermV, TermV)>,
    pub right: Seq<(nat, (TermV, TermV))>,
    pub next_right: nat,
    pub bindings: Seq<(u64, TermV)>,
    pub instructions: Seq<InstructionV>,
    pub current: Option<RequestV>,
    pub receipts: Seq<ConstraintV>,
    pub stopped: Option<TermV>,
    pub done: bool,
}

/// The argument of `name(X)`.
pub open spec fn unary_arg(t: TermV, name: Seq<char>) -> Option<TermV> {
    match t {
        TermV::App(n, xs) => if n == name && xs.len() == 1 {
            Some(xs[0])
        } else {
            None
        },
        TermV::Var(_) => None,
    }
}

/// Left row `a` and right row `j` (by position) form a pair under `key`:
/// both keys resolve to it and the payloads resolve to `f(X)` and `g(X)`.
pub open spec fn joined(s: StateV, key: TermV, a: int, j: int) -> bool {
    &&& 0 <= a < s.left.len()
    &&& 0 <= j < s.right.len()
    &&& resolve_v(s.left[a].0, s.bindings) == key
    &&& resolve_v(s.right[j].1.0, s.bindings) == key
    &&& unary_arg(resolve_v(s.left[a].1, s.bindings), "f"@) is Some
    &&& unary_arg(resolve_v(s.left[a].1, s.bindings), "f"@) == unary_arg(resolve_v(s.right[j].1.1, s.bindings), "g"@)
}

/// The pair of identities `(a, b)` comes after `previous`.
pub open spec fn after(previous: Option<(nat, nat)>, a: nat, b: nat) -> bool {
    match previous {
        None => true,
        Some((a0, b0)) => a > a0 || (a == a0 && b > b0),
    }
}

/// The pair at left row `a` and right position `j` is the least pair after
/// `previous`, ordered by left row and then right identity.
pub open spec fn least_pair(s: StateV, key: TermV, previous: Option<(nat, nat)>, a: int, j: int) -> bool {
    &&& joined(s, key, a, j)
    &&& after(previous, a as nat, s.right[j].0)
    &&& forall|a2: int, j2: int|
        #![trigger joined(s, key, a2, j2)]
        joined(s, key, a2, j2) && after(previous, a2 as nat, s.right[j2].0) ==> a < a2 || (a == a2 && s.right[j].0
            <= s.right[j2].0)
}

/// The next pair a request serves, if any.
pub open spec fn next_pair_v(s: StateV, key: TermV, previous: Option<(nat, nat)>) -> Option<(int, int)> {
    if exists|a: int, j: int| least_pair(s, key, previous, a, j) {
        Some(choose|a: int, j: int| least_pair(s, key, previous, a, j))
    } else {
        None
    }
}

/// Right row `j` has the key and payload given, once resolved.
pub open spec fn holds_row(s: StateV, key: TermV, payload: TermV, j: int) -> bool {
    &&& 0 <= j < s.right.len()
    &&& resolve_v(s.right[j].1.0, s.bindings) == key
    &&& resolve_v(s.right[j].1.1, s.bindings) == payload
}

/// The first right row, from position `j` on, with the key and payload given.
pub open spec fn first_row_from(s: StateV, key: TermV, payload: TermV, j: int) -> Option<int>
    decreases s.right.len() - j,
{
    if j < 0 || j >= s.right.len() {
        None
    } else if holds_row(s, key, payload, j) {
        Some(j)
    } else {
        first_row_from(s, key, payload, j + 1)
    }
}

/// The first right row with the key and payload given.
pub open spec fn first_row_v(s: StateV, key: TermV, payload: TermV) -> Option<int> {
    first_row_from(s, key, payload, 0)
}

/// The receipt of a request's round for a pair.
pub open spec fn receipt_v(round: TermV, left: TermV, right: TermV) -> ConstraintV {
    ConstraintV { name: "receipt"@, args: seq![round, left, right] }
}

/// Serve one more pair of the current request.
pub open spec fn serve_v(s: StateV, req: RequestV) -> StateV {
    match next_pair_v(s, req.key, req.previous) {
        Some((a, j)) => StateV {
            receipts: s.receipts.push(receipt_v(req.round, s.left[a].1, s.right[j].1.1)),
            right: if s.consuming {
                s.right.remove(j)
            } else {
                s.right
            },
            current: Some(RequestV { previous: Some((a as nat, s.right[j].0)), ..req }),
            ..s
        },
        None => StateV { current: None, ..s },
    }
}

/// Run the next instruction.
pub open spec fn run_v(s: StateV) -> StateV {
    if s.instructions.len() == 0 {
        StateV { done: true, ..s }
    } else {
        let i = s.instructions[0];
        let s1 = StateV { instructions: s.instructions.drop_first(), ..s };
        match i.op {
            OpV::Request(k, round) => StateV {
                current: Some(RequestV { round, key: resolve_v(k, s.bindings), previous: None }),
                ..s1
            },
            OpV::Replace(k, old, new) => {
                let key = resolve_v(k, s.bindings);
                match first_row_v(s, key, resolve_v(old, s.bindings)) {
                    None => StateV { stopped: Some(i.remaining), done: true, ..s1 },
                    Some(j) => StateV {
                        right: s.right.remove(j).push((s.next_right, (key, new))),
                        next_right: s.next_right + 1,
                        ..s1
                    },
                }
            },
            OpV::Insert(k, p) => StateV {
                right: s.right.push((s.next_right, (k, p))),
                next_right: s.next_right + 1,
                ..s1
            },
            OpV::Bind(x, t) => StateV { bindings: s.bindings.push((x, t)), ..s1 },
        }
    }
}

/// One step: nothing once done; else one receipt of the current request,
/// or the end of it, or one instruction.
pub open spec fn step_v(s: StateV) -> StateV {
    if s.done {
        s
    } else {
        match s.current {
            Some(req) => serve_v(s, req),
            None => run_v(s),
        }
    }
}

/// `n` steps.
pub open spec fn steps_v(s: StateV, n: nat) -> StateV
    decreases n,
{
    if n == 0 {
        s
    } else {
        steps_v(step_v(s), (n - 1) as nat)
    }
}


spec fn request_v(r: Request) -> RequestV {
    RequestV {
        round: term_v(r.round),
        key: term_v(r.key),
        previous: match r.previous {
            Some((a, b)) => Some((a as nat, b as nat)),
            None => None,
        },
    }
}

spec fn previous_v(p: Option<(usize, usize)>) -> Option<(nat, nat)> {
    match p {
        Some((a, b)) => Some((a as nat, b as nat)),
        None => None,
    }
}

/// Right identities increase along the rows.
pub open spec fn ids_increasing(r: Seq<(nat, (TermV, TermV))>) -> bool {
    forall|i: int, j: int| 0 <= i < j < r.len() ==> r[i].0 < r[j].0
}

/// Under increasing identities there is at most one least pair.
proof fn lemma_least_unique(s: StateV, key: TermV, p: Option<(nat, nat)>, a: int, j: int, a2: int, j2: int)
    requires
        ids_increasing(s.right),
        least_pair(s, key, p, a, j),
        least_pair(s, key, p, a2, j2),
    ensures
        a == a2 && j == j2,
{
    assert(joined(s, key, a2, j2));
    assert(joined(s, key, a, j));
    if j < j2 {
        assert(s.right[j].0 < s.right[j2].0);
    } else if j2 < j {
        assert(s.right[j2].0 < s.right[j].0);
    }
}

/// A replacement that finds right row `j` swaps it for a new last row.
proof fn lemma_run_replace(s: StateV, j: int, key: TermV, from: TermV, new: TermV)
    requires
        s.instructions.len() > 0,
        s.instructions[0].op matches OpV::Replace(k, f, w) && key == resolve_v(k, s.bindings) && from == resolve_v(f, s.bindings) && w == new,
        first_row_v(s, key, from) == Some(j),
    ensures
        0 <= j < s.right.len(),
        run_v(s) == (StateV {
            right: s.right.remove(j).push((s.next_right, (key, new))),
            next_right: s.next_right + 1,
            instructions: s.instructions.drop_first(),
            ..s
        }),
{
    lemma_first_row(s, key, from, 0);
}

proof fn lemma_first_row(s: StateV, key: TermV, payload: TermV, j: int)
    ensures
        first_row_from(s, key, payload, j) matches Some(i) ==> 0 <= i < s.right.len(),
    decreases s.right.len() - j,
{
    if 0 <= j < s.right.len() && !holds_row(s, key, payload, j) {
        lemma_first_row(s, key, payload, j + 1);
    }
}

/// Each step adds at most one receipt and keeps the earlier ones.
pub proof fn lemma_step_receipts(s: StateV)
    ensures
        step_v(s).receipts == s.receipts || (step_v(s).receipts.len() == s.receipts.len() + 1
            && step_v(s).receipts.take(s.receipts.len() as int) == s.receipts),
{
    if !s.done && s.current is Some {
        let t = step_v(s);
        if t.receipts != s.receipts {
            assert(t.receipts.take(s.receipts.len() as int) =~= s.receipts);
        }
    }
}

/// Steps compose.
pub proof fn lemma_steps_add(s: StateV, m: nat, n: nat)
    ensures
        steps_v(s, m + n) == steps_v(steps_v(s, m), n),
    decreases m,
{
    if m > 0 {
        lemma_steps_add(step_v(s), (m - 1) as nat, n);
        assert((m + n - 1) as nat == (m - 1) as nat + n);
    }
}

/// A finished join takes no more steps.
pub proof fn lemma_steps_done(s: StateV, n: nat)
    requires
        s.done,
    ensures
        steps_v(s, n) == s,
    decreases n,
{
    if n > 0 {
        lemma_steps_done(step_v(s), (n - 1) as nat);
    }
}

/// A step inserts at most one right row.
proof fn lemma_step_next_right(s: StateV)
    ensures
        s.next_right <= step_v(s).next_right <= s.next_right + 1,
{
}

/// The argument of `name(X)`.
fn unary(t: &Term, name: &str) -> (r: Option<Term>)
    ensures
        match r {
            Some(x) => unary_arg(term_v(*t), name@) == Some(term_v(x)),
            None => unary_arg(term_v(*t), name@) is None,
        },
{
    match t {
        Term::App(n, xs) => {
            proof {
                assert(term_v(*t)->App_1.len() == xs@.len());
            }
            if same_text(n.as_str(), name) && xs.len() == 1 {
                proof {
                    assert(term_v(*t)->App_1[0] == term_v(xs@[0]));
                }
                Some(copy_term(&xs[0]))
            } else {
                None
            }
        },
        Term::Var(_) => None,
    }
}

impl Engine {
    /// The whole state of the join.
    pub closed spec fn state_v(&self) -> StateV {
        StateV {
            consuming: self.consuming,
            left: self.left_v(),
            right: self.right_v(),
            next_right: self.next_right as nat,
            bindings: self.bindings_v(),
            instructions: self.instructions_v(),
            current: match self.current {
                Some(r) => Some(request_v(r)),
                None => None,
            },
            receipts: self.receipts_v(),
            stopped: self.stopped_v(),
            done: self.done,
        }
    }

    /// Right identities increase along the rows and stay below the next one.
    pub closed spec fn wf(&self) -> bool {
        &&& self.next <= self.instructions@.len()
        &&& forall|i: int, j: int| 0 <= i < j < self.right@.len() ==> self.right@[i].0 < self.right@[j].0
        &&& forall|i: int| 0 <= i < self.right@.len() ==> self.right@[i].0 < self.next_right
    }

    proof fn lemma_wf(&self)
        requires
            self.wf(),
        ensures
            ids_increasing(self.state_v().right),
            forall|i: int| 0 <= i < self.state_v().right.len() ==> self.state_v().right[i].0 < self.state_v().next_right,
            self.state_v().right.len() == self.right@.len(),
            forall|i: int| 0 <= i < self.right@.len() ==> #[trigger] self.state_v().right[i] == (self.right@[i].0 as nat, (term_v(self.right@[i].1.key), term_v(self.right@[i].1.payload))),
            self.state_v().left.len() == self.left@.len(),
            forall|i: int| 0 <= i < self.left@.len() ==> #[trigger] self.state_v().left[i] == (term_v(self.left@[i].key), term_v(self.left@[i].payload)),
            self.state_v().bindings == bindings_of(self.bindings@),
    {
    }

    /// The least pair after `previous` under `key`, by left row and right position.
    fn next_pair(&self, key: &Term, previous: Option<(usize, usize)>) -> (r: Option<(usize, usize)>)
        requires
            self.wf(),
        ensures
            match r {
                Some((a, j)) => next_pair_v(self.state_v(), term_v(*key), previous_v(previous)) == Some((a as int, j as int)),
                None => next_pair_v(self.state_v(), term_v(*key), previous_v(previous)) is None,
            },
    {
        let ghost s = self.state_v();
        let ghost k = term_v(*key);
        let ghost p = previous_v(previous);
        proof {
            self.lemma_wf();
        }
        let start: usize = match previous {
            Some((a0, _)) => a0,
            None => 0,
        };
        let mut a: usize = start;
        while a < self.left.len()
            invariant
                self.wf(),
                s == self.state_v(),
                k == term_v(*key),
                p == previous_v(previous),
                start == match previous { Some((a0, _)) => a0, None => 0usize },
                start <= a,
                ids_increasing(s.right),
                s.left.len() == self.left@.len(),
                s.right.len() == self.right@.len(),
                forall|i: int| 0 <= i < self.right@.len() ==> #[trigger] s.right[i] == (self.right@[i].0 as nat, (term_v(self.right@[i].1.key), term_v(self.right@[i].1.payload))),
                forall|i: int| 0 <= i < self.left@.len() ==> #[trigger] s.left[i] == (term_v(self.left@[i].key), term_v(self.left@[i].payload)),
                s.bindings == bindings_of(self.bindings@),
                forall|a2: int, j2: int| #![trigger joined(s, k, a2, j2)] 0 <= a2 < a && joined(s, k, a2, j2) ==> !after(p, a2 as nat, s.right[j2].0),
            decreases self.left.len() - a,
        {
            let lk = resolve(&self.left[a].key, &self.bindings);
            let lp = resolve(&self.left[a].payload, &self.bindings);
            let x = unary(&lp, "f");
            if same_term(&lk, key) && x.is_some() {
                let x = x.unwrap();
                let mut j: usize = 0;
                while j < self.right.len()
                    invariant
                        self.wf(),
                        s == self.state_v(),
                        k == term_v(*key),
                        p == previous_v(previous),
                        start == match previous { Some((a0, _)) => a0, None => 0usize },
                        start <= a < self.left@.len(),
                        0 <= j <= self.right@.len(),
                        ids_increasing(s.right),
                        s.left.len() == self.left@.len(),
                        s.right.len() == self.right@.len(),
                        forall|i: int| 0 <= i < self.right@.len() ==> #[trigger] s.right[i] == (self.right@[i].0 as nat, (term_v(self.right@[i].1.key), term_v(self.right@[i].1.payload))),
                        forall|i: int| 0 <= i < self.left@.len() ==> #[trigger] s.left[i] == (term_v(self.left@[i].key), term_v(self.left@[i].payload)),
                        s.bindings == bindings_of(self.bindings@),
                        forall|a2: int, j2: int| #![trigger joined(s, k, a2, j2)] 0 <= a2 < a && joined(s, k, a2, j2) ==> !after(p, a2 as nat, s.right[j2].0),
                        resolve_v(s.left[a as int].0, s.bindings) == k,
                        unary_arg(resolve_v(s.left[a as int].1, s.bindings), "f"@) == Some(term_v(x)),
                        forall|j2: int| #![trigger joined(s, k, a as int, j2)] 0 <= j2 < j && joined(s, k, a as int, j2) ==> !after(p, a as nat, s.right[j2].0),
                    decreases self.right.len() - j,
                {
                    let id = self.right[j].0;
                    let later = match previous {
                        Some((a0, b0)) => a > a0 || id > b0,
                        None => true,
                    };
                    if later {
                        let rk = resolve(&self.right[j].1.key, &self.bindings);
                        let rp = resolve(&self.right[j].1.payload, &self.bindings);
                        let y = unary(&rp, "g");
                        if same_term(&rk, key) && y.is_some() && same_term(&x, y.as_ref().unwrap()) {
                            proof {
                                assert(joined(s, k, a as int, j as int));
                                assert(least_pair(s, k, p, a as int, j as int)) by {
                                    assert forall|a2: int, j2: int| joined(s, k, a2, j2) && after(p, a2 as nat, s.right[j2].0) implies
                                        a < a2 || (a == a2 && s.right[j as int].0 <= s.right[j2].0) by {
                                        if a2 < a {
                                            if a2 < start {
                                            }
                                        } else if a2 == a && j2 < j {
                                        }
                                    }
                                }
                                let (a3, j3) = choose|a3: int, j3: int| least_pair(s, k, p, a3, j3);
                                lemma_least_unique(s, k, p, a as int, j as int, a3, j3);
                            }
                            return Some((a, j));
                        }
                    }
                    j += 1;
                }
            }
            a += 1;
        }
        proof {
            assert forall|a2: int, j2: int| !least_pair(s, k, p, a2, j2) by {
                if least_pair(s, k, p, a2, j2) {
                    assert(joined(s, k, a2, j2));
                }
            }
        }
        None
    }
}


impl Engine {
    /// The first right row whose key and payload resolve to those given.
    fn find_row(&self, key: &Term, payload: &Term) -> (r: Option<usize>)
        requires
            self.wf(),
        ensures
            match r {
                Some(j) => first_row_v(self.state_v(), term_v(*key), term_v(*payload)) == Some(j as int),
                None => first_row_v(self.state_v(), term_v(*key), term_v(*payload)) is None,
            },
    {
        let ghost s = self.state_v();
        let ghost k = term_v(*key);
        let ghost q = term_v(*payload);
        proof {
            self.lemma_wf();
        }
        let mut j: usize = 0;
        while j < self.right.len()
            invariant
                s == self.state_v(),
                k == term_v(*key),
                q == term_v(*payload),
                0 <= j <= self.right@.len(),
                s.right.len() == self.right@.len(),
                forall|i: int| 0 <= i < self.right@.len() ==> #[trigger] s.right[i] == (self.right@[i].0 as nat, (term_v(self.right@[i].1.key), term_v(self.right@[i].1.payload))),
                s.bindings == bindings_of(self.bindings@),
                first_row_v(s, k, q) == first_row_from(s, k, q, j as int),
            decreases self.right.len() - j,
        {
            let rk = resolve(&self.right[j].1.key, &self.bindings);
            let rp = resolve(&self.right[j].1.payload, &self.bindings);
            if same_term(&rk, key) && same_term(&rp, payload) {
                proof {
                    assert(holds_row(s, k, q, j as int));
                }
                return Some(j);
            }
            j += 1;
        }
        None
    }

    /// Serve the current request one more pair, or end it.
    #[verifier::rlimit(40)]
    fn serve(&mut self)
        requires
            old(self).wf(),
            old(self).current is Some,
            !old(self).done,
        ensures
            final(self).wf(),
            final(self).state_v() == serve_v(old(self).state_v(), old(self).state_v().current->0),
            final(self).mode == old(self).mode,
            final(self).outputs == old(self).outputs,
            final(self).next_right == old(self).next_right,
    {
        let ghost s = self.state_v();
        proof {
            self.lemma_wf();
        }
        let found = match &self.current {
            Some(req) => self.next_pair(&req.key, req.previous),
            None => None,
        };
        let ghost rv = request_v(self.current->0);
        let req = self.current.take().unwrap();
        match found {
            Some((a, j)) => {
                let receipt = Constraint {
                    name: String::from_str("receipt"),
                    args: vec![copy_term(&req.round), copy_term(&self.left[a].payload), copy_term(&self.right[j].1.payload)],
                };
                proof {
                    assert(constraint_v(receipt) == receipt_v(rv.round, s.left[a as int].1, s.right[j as int].1.1)) by {
                        assert(constraint_v(receipt).args =~= seq![rv.round, s.left[a as int].1, s.right[j as int].1.1]);
                    }
                }
                let ghost before = self.receipts@;
                self.receipts.push(receipt);
                proof {
                    assert(constraints_v(self.receipts@) =~= constraints_v(before).push(constraint_v(receipt)));
                }
                let b = self.right[j].0;
                if self.consuming {
                    let ghost r0 = self.right@;
                    self.right.remove(j);
                    proof {
                        assert(self.right_v() =~= s.right.remove(j as int));
                    }
                }
                self.current = Some(Request { round: req.round, key: req.key, previous: Some((a, b)) });
                proof {
                    assert(request_v(self.current->0) == RequestV { previous: Some((a as nat, s.right[j as int].0)), ..rv });
                }
            },
            None => {},
        }
    }

    /// Run the next instruction.
    #[verifier::rlimit(40)]
    fn run(&mut self)
        requires
            old(self).wf(),
            old(self).current is None,
            !old(self).done,
            old(self).next_right < usize::MAX,
        ensures
            final(self).wf(),
            final(self).state_v() == run_v(old(self).state_v()),
            final(self).mode == old(self).mode,
            final(self).outputs == old(self).outputs,
    {
        let ghost s = self.state_v();
        proof {
            self.lemma_wf();
        }
        if self.next >= self.instructions.len() {
            self.done = true;
            proof {
                assert(s.instructions.len() == 0);
            }
            return;
        }
        let n = self.next;
        match &self.instructions[n].op {
            Op::Request(k, round) => {
                let k = copy_term(k);
                let round = copy_term(round);
                self.run_request(k, round);
            },
            Op::Replace(k, from, new) => {
                let k = copy_term(k);
                let from = copy_term(from);
                let new = copy_term(new);
                self.run_replace(k, from, new);
            },
            Op::Insert(k, p) => {
                let k = copy_term(k);
                let p = copy_term(p);
                self.run_insert(k, p);
            },
            Op::Bind(x, t) => {
                let x = *x;
                let t = copy_term(t);
                self.run_bind(x, t);
            },
        }
    }

    proof fn lemma_head(&self)
        requires
            self.wf(),
            self.next < self.instructions@.len(),
        ensures
            self.state_v().instructions.len() > 0,
            self.state_v().instructions[0] == (InstructionV {
                op: op_v(self.instructions@[self.next as int].op),
                remaining: term_v(self.instructions@[self.next as int].remaining),
            }),
            instructions_of(self.instructions@).skip(self.next + 1) =~= self.state_v().instructions.drop_first(),
    {
    }

    #[verifier::rlimit(40)]
    fn run_request(&mut self, k: Term, round: Term)
        requires
            old(self).wf(),
            old(self).current is None,
            !old(self).done,
            old(self).next < old(self).instructions@.len(),
            old(self).next < usize::MAX,
            op_v(old(self).instructions@[old(self).next as int].op) == OpV::Request(term_v(k), term_v(round)),
        ensures
            final(self).wf(),
            final(self).state_v() == run_v(old(self).state_v()),
            final(self).mode == old(self).mode,
            final(self).outputs == old(self).outputs,
    {
        let ghost s = self.state_v();
        proof {
            self.lemma_head();
        }
        let key = resolve(&k, &self.bindings);
        self.next = self.next + 1;
        self.current = Some(Request { round, key, previous: None });
    }

    #[verifier::rlimit(40)]
    fn run_replace(&mut self, k: Term, from: Term, new: Term)
        requires
            old(self).wf(),
            old(self).current is None,
            !old(self).done,
            old(self).next < old(self).instructions@.len(),
            old(self).next < usize::MAX,
            old(self).next_right < usize::MAX,
            op_v(old(self).instructions@[old(self).next as int].op) == OpV::Replace(term_v(k), term_v(from), term_v(new)),
        ensures
            final(self).wf(),
            final(self).state_v() == run_v(old(self).state_v()),
            final(self).mode == old(self).mode,
            final(self).outputs == old(self).outputs,
    {
        let key = resolve(&k, &self.bindings);
        let o = resolve(&from, &self.bindings);
        match self.find_row(&key, &o) {
            None => self.stop_at_head(Ghost(term_v(key)), Ghost(term_v(o))),
            Some(j) => self.replace_row(j, key, Ghost(term_v(o)), new),
        }
    }

    #[verifier::rlimit(40)]
    fn stop_at_head(&mut self, key: Ghost<TermV>, from: Ghost<TermV>)
        requires
            old(self).wf(),
            old(self).current is None,
            !old(self).done,
            old(self).next < old(self).instructions@.len(),
            old(self).next < usize::MAX,
            op_v(old(self).instructions@[old(self).next as int].op) matches OpV::Replace(k, f, _) && key@
                == resolve_v(k, old(self).state_v().bindings) && from@ == resolve_v(f, old(self).state_v().bindings),
            first_row_v(old(self).state_v(), key@, from@) is None,
        ensures
            final(self).wf(),
            final(self).state_v() == run_v(old(self).state_v()),
            final(self).mode == old(self).mode,
            final(self).outputs == old(self).outputs,
    {
        let ghost s = self.state_v();
        proof {
            self.lemma_head();
        }
        let n = self.next;
        let rem = copy_term(&self.instructions[n].remaining);
        self.stopped = Some(rem);
        self.done = true;
        self.next = n + 1;
    }

    #[verifier::rlimit(100)]
    fn replace_row(&mut self, j: usize, key: Term, from: Ghost<TermV>, new: Term)
        requires
            old(self).wf(),
            old(self).current is None,
            !old(self).done,
            old(self).next < old(self).instructions@.len(),
            old(self).next < usize::MAX,
            old(self).next_right < usize::MAX,
            op_v(old(self).instructions@[old(self).next as int].op) matches OpV::Replace(k, f, w) && term_v(key)
                == resolve_v(k, old(self).state_v().bindings) && from@ == resolve_v(f, old(self).state_v().bindings)
                && w == term_v(new),
            first_row_v(old(self).state_v(), term_v(key), from@) == Some(j as int),
        ensures
            final(self).wf(),
            final(self).state_v() == run_v(old(self).state_v()),
            final(self).mode == old(self).mode,
            final(self).outputs == old(self).outputs,
    {
        let ghost s = self.state_v();
        let ghost kv = term_v(key);
        let ghost nv = term_v(new);
        proof {
            self.lemma_head();
            self.lemma_wf();
            lemma_run_replace(s, j as int, kv, from@, nv);
        }
        let ghost r0 = self.right@;
        let n = self.next;
        self.right.remove(j);
        let id = self.next_right;
        self.right.push((id, Row { key, payload: new }));
        self.next_right = id + 1;
        self.next = n + 1;
        proof {
            assert(self.right@ =~= r0.remove(j as int).push((id, self.right@.last().1)));
            assert forall|a: int, b: int| 0 <= a < b < self.right@.len() implies self.right@[a].0 < self.right@[b].0 by {
                if b == self.right@.len() - 1 {
                    if a < j {
                        assert(self.right@[a] == r0[a]);
                    } else {
                        assert(self.right@[a] == r0[a + 1]);
                    }
                } else {
                    if a < j {
                        assert(self.right@[a] == r0[a]);
                    } else {
                        assert(self.right@[a] == r0[a + 1]);
                    }
                    if b < j {
                        assert(self.right@[b] == r0[b]);
                    } else {
                        assert(self.right@[b] == r0[b + 1]);
                    }
                }
            }
            assert(self.right_v() =~= s.right.remove(j as int).push((s.next_right, (kv, nv))));
            assert(self.instructions_v() =~= s.instructions.drop_first());
        }
    }

    #[verifier::rlimit(40)]
    fn run_insert(&mut self, key: Term, payload: Term)
        requires
            old(self).wf(),
            old(self).current is None,
            !old(self).done,
            old(self).next < old(self).instructions@.len(),
            old(self).next < usize::MAX,
            old(self).next_right < usize::MAX,
            op_v(old(self).instructions@[old(self).next as int].op) == OpV::Insert(term_v(key), term_v(payload)),
        ensures
            final(self).wf(),
            final(self).state_v() == run_v(old(self).state_v()),
            final(self).mode == old(self).mode,
            final(self).outputs == old(self).outputs,
    {
        let ghost s = self.state_v();
        proof {
            self.lemma_head();
        }
        let ghost kv = term_v(key);
        let ghost pv = term_v(payload);
        let id = self.next_right;
        self.right.push((id, Row { key, payload }));
        self.next_right = id + 1;
        self.next = self.next + 1;
        proof {
            assert(self.right_v() =~= s.right.push((s.next_right, (kv, pv))));
        }
    }

    #[verifier::rlimit(40)]
    fn run_bind(&mut self, x: u64, t: Term)
        requires
            old(self).wf(),
            old(self).current is None,
            !old(self).done,
            old(self).next < old(self).instructions@.len(),
            old(self).next < usize::MAX,
            op_v(old(self).instructions@[old(self).next as int].op) == OpV::Bind(x, term_v(t)),
        ensures
            final(self).wf(),
            final(self).state_v() == run_v(old(self).state_v()),
            final(self).mode == old(self).mode,
            final(self).outputs == old(self).outputs,
    {
        let ghost s = self.state_v();
        proof {
            self.lemma_head();
        }
        let ghost tv = term_v(t);
        self.bindings.push((x, t));
        self.next = self.next + 1;
        proof {
            assert(self.bindings_v() =~= s.bindings.push((x, tv)));
        }
    }

    /// One step of the join.
    fn step(&mut self)
        requires
            old(self).wf(),
            old(self).next_right < usize::MAX,
        ensures
            final(self).wf(),
            final(self).state_v() == step_v(old(self).state_v()),
            final(self).mode == old(self).mode,
            final(self).outputs == old(self).outputs,
    {
        if self.done {
            return;
        }
        if self.current.is_some() {
            self.serve();
        } else {
            self.run();
        }
    }
}


impl Engine {
    /// Take up to `budget` steps, stopping once the instructions have run
    /// out or stopped; whether that has happened.
    pub fn advance(&mut self, budget: usize) -> (r: bool)
        requires
            old(self).wf(),
            old(self).state_v().next_right + budget <= usize::MAX,
        ensures
            final(self).wf(),
            final(self).state_v() == steps_v(old(self).state_v(), budget as nat),
            r == final(self).state_v().done,
            final(self).mode_v() == old(self).mode_v(),
            final(self).outputs_v() == old(self).outputs_v(),
    {
        let ghost s0 = self.state_v();
        let mut k: usize = 0;
        while k < budget
            invariant
                self.wf(),
                0 <= k <= budget,
                s0 == old(self).state_v(),
                self.state_v() == steps_v(s0, k as nat),
                self.state_v().next_right <= s0.next_right + k,
                s0.next_right + budget <= usize::MAX,
                self.mode == old(self).mode,
                self.outputs == old(self).outputs,
            decreases budget - k,
        {
            if self.done {
                proof {
                    assert(self.state_v().done);
                    lemma_steps_done(self.state_v(), (budget - k) as nat);
                    let rest = (budget - k) as nat;
                    lemma_steps_add(s0, k as nat, rest);
                    assert(k as nat + rest == budget as nat);
                    assert(steps_v(s0, budget as nat) == steps_v(steps_v(s0, k as nat), rest));
                }
                return true;
            }
            proof {
                lemma_step_next_right(self.state_v());
                lemma_steps_add(s0, k as nat, 1);
                assert(steps_v(step_v(self.state_v()), 0) == step_v(self.state_v()));
                assert(steps_v(self.state_v(), 1) == step_v(self.state_v()));
            }
            self.step();
            k += 1;
        }
        self.done
    }
}


/// A constraint with each argument resolved.
pub open spec fn resolve_c(c: ConstraintV, bs: Seq<(u64, TermV)>) -> ConstraintV {
    ConstraintV { name: c.name, args: c.args.map_values(|t: TermV| resolve_v(t, bs)) }
}

/// The constraint `name(a, b)`.
pub open spec fn pair_c(name: Seq<char>, a: TermV, b: TermV) -> ConstraintV {
    ConstraintV { name, args: seq![a, b] }
}

/// What is left once the join has finished: the left rows, the right rows,
/// the receipts, and `drive(Rest)` where a replacement stopped it or `done`;
/// every argument resolved.
pub open spec fn residual_v(s: StateV) -> Seq<ConstraintV> {
    let last = match s.stopped {
        Some(t) => ConstraintV { name: "drive"@, args: seq![t] },
        None => ConstraintV { name: "done"@, args: Seq::empty() },
    };
    let rows = s.left.map_values(|r: (TermV, TermV)| pair_c("left"@, r.0, r.1)) + s.right.map_values(
        |e: (nat, (TermV, TermV))| pair_c("right"@, e.1.0, e.1.1),
    ) + s.receipts + seq![last];
    rows.map_values(|c: ConstraintV| resolve_c(c, s.bindings))
}

/// The answer of a finished join: each output variable resolved, and the residual.
pub open spec fn observe_v(s: StateV, outputs: Seq<(Seq<char>, u64)>) -> AnswerV {
    AnswerV {
        outputs: outputs.map_values(|o: (Seq<char>, u64)| (o.0, resolve_v(TermV::Var(o.1), s.bindings))),
        residual: residual_v(s),
    }
}

/// A constraint with each argument resolved.
fn resolve_constraint(c: &Constraint, bs: &Vec<(u64, Term)>) -> (r: Constraint)
    ensures
        constraint_v(r) == resolve_c(constraint_v(*c), bindings_of(bs@)),
{
    let mut args: Vec<Term> = Vec::new();
    let mut i: usize = 0;
    while i < c.args.len()
        invariant
            0 <= i <= c.args@.len(),
            args@.len() == i,
            forall|j: int| 0 <= j < i ==> term_v(#[trigger] args@[j]) == resolve_v(term_v(c.args@[j]), bindings_of(bs@)),
        decreases c.args.len() - i,
    {
        args.push(resolve(&c.args[i], bs));
        i += 1;
    }
    let r = Constraint { name: c.name.clone(), args };
    proof {
        assert(constraint_v(r).args =~= resolve_c(constraint_v(*c), bindings_of(bs@)).args);
    }
    r
}

/// The constraint `name(a, b)`, each argument resolved.
fn resolved_pair(name: &str, a: &Term, b: &Term, bs: &Vec<(u64, Term)>) -> (r: Constraint)
    ensures
        constraint_v(r) == resolve_c(pair_c(name@, term_v(*a), term_v(*b)), bindings_of(bs@)),
{
    let r = Constraint { name: String::from_str(name), args: vec![resolve(a, bs), resolve(b, bs)] };
    proof {
        assert(constraint_v(r).args =~= resolve_c(pair_c(name@, term_v(*a), term_v(*b)), bindings_of(bs@)).args);
    }
    r
}

impl Engine {
    /// The answer once the join has finished; an error while work is pending.
    pub fn observe(&self) -> (r: Result<Answer, String>)
        requires
            self.wf(),
        ensures
            !self.state_v().done ==> (r matches Err(e) && e@ == "query has pending source work"@),
            self.state_v().done ==> (r matches Ok(a) && answer_v(a) == observe_v(self.state_v(), self.outputs_v())),
    {
        if !self.done {
            return Err(String::from_str("query has pending source work"));
        }
        let ghost s = self.state_v();
        let ghost bv = bindings_of(self.bindings@);
        proof {
            self.lemma_wf();
        }
        let mut residual: Vec<Constraint> = Vec::new();
        let ghost nl = s.left.len() as int;
        let ghost nr = s.right.len() as int;
        let ghost nc = s.receipts.len() as int;
        let mut i: usize = 0;
        while i < self.left.len()
            invariant
                s == self.state_v(),
                bv == bindings_of(self.bindings@),
                bv == s.bindings,
                nl == s.left.len(),
                s.left.len() == self.left@.len(),
                forall|j: int| 0 <= j < self.left@.len() ==> #[trigger] s.left[j] == (term_v(self.left@[j].key), term_v(self.left@[j].payload)),
                0 <= i <= self.left@.len(),
                residual@.len() == i,
                forall|j: int| 0 <= j < i ==> constraint_v(#[trigger] residual@[j]) == resolve_c(pair_c("left"@, s.left[j].0, s.left[j].1), bv),
            decreases self.left.len() - i,
        {
            let c = resolved_pair("left", &self.left[i].key, &self.left[i].payload, &self.bindings);
            residual.push(c);
            i += 1;
        }
        let mut i: usize = 0;
        while i < self.right.len()
            invariant
                s == self.state_v(),
                bv == bindings_of(self.bindings@),
                bv == s.bindings,
                nl == s.left.len(),
                nr == s.right.len(),
                s.right.len() == self.right@.len(),
                forall|j: int| 0 <= j < self.right@.len() ==> #[trigger] s.right[j] == (self.right@[j].0 as nat, (term_v(self.right@[j].1.key), term_v(self.right@[j].1.payload))),
                0 <= i <= self.right@.len(),
                residual@.len() == nl + i,
                forall|j: int| 0 <= j < nl ==> constraint_v(#[trigger] residual@[j]) == resolve_c(pair_c("left"@, s.left[j].0, s.left[j].1), bv),
                forall|j: int| nl <= j < nl + i ==> constraint_v(#[trigger] residual@[j]) == resolve_c(pair_c("right"@, s.right[j - nl].1.0, s.right[j - nl].1.1), bv),
            decreases self.right.len() - i,
        {
            let c = resolved_pair("right", &self.right[i].1.key, &self.right[i].1.payload, &self.bindings);
            residual.push(c);
            i += 1;
        }
        let mut i: usize = 0;
        while i < self.receipts.len()
            invariant
                s == self.state_v(),
                bv == bindings_of(self.bindings@),
                bv == s.bindings,
                nl == s.left.len(),
                nr == s.right.len(),
                nc == s.receipts.len(),
                s.receipts == constraints_v(self.receipts@),
                0 <= i <= self.receipts@.len(),
                residual@.len() == nl + nr + i,
                forall|j: int| 0 <= j < nl ==> constraint_v(#[trigger] residual@[j]) == resolve_c(pair_c("left"@, s.left[j].0, s.left[j].1), bv),
                forall|j: int| nl <= j < nl + nr ==> constraint_v(#[trigger] residual@[j]) == resolve_c(pair_c("right"@, s.right[j - nl].1.0, s.right[j - nl].1.1), bv),
                forall|j: int| nl + nr <= j < nl + nr + i ==> constraint_v(#[trigger] residual@[j]) == resolve_c(s.receipts[j - nl - nr], bv),
            decreases self.receipts.len() - i,
        {
            let c = resolve_constraint(&self.receipts[i], &self.bindings);
            residual.push(c);
            i += 1;
        }
        let last = match &self.stopped {
            Some(t) => Constraint { name: String::from_str("drive"), args: vec![resolve(t, &self.bindings)] },
            None => Constraint { name: String::from_str("done"), args: Vec::new() },
        };
        let ghost lv = match s.stopped {
            Some(t) => ConstraintV { name: "drive"@, args: seq![t] },
            None => ConstraintV { name: "done"@, args: Seq::empty() },
        };
        proof {
            assert(constraint_v(last).args =~= resolve_c(lv, bv).args);
        }
        residual.push(last);
        let mut outputs: Vec<(String, Term)> = Vec::new();
        let mut i: usize = 0;
        while i < self.outputs.len()
            invariant
                bv == bindings_of(self.bindings@),
                0 <= i <= self.outputs@.len(),
                outputs@.len() == i,
                forall|j: int| 0 <= j < i ==> #[trigger] outputs@[j].0@ == self.outputs@[j].0@ && term_v(outputs@[j].1) == resolve_v(
                    TermV::Var(self.outputs@[j].1.0),
                    bv,
                ),
            decreases self.outputs.len() - i,
        {
            let name = self.outputs[i].0.clone();
            let t = resolve(&Term::Var(self.outputs[i].1), &self.bindings);
            outputs.push((name, t));
            i += 1;
        }
        let a = Answer { outputs, residual };
        proof {
            let o = self.outputs_v();
            assert(crate::syntax::outputs_v(a.outputs@) =~= o.map_values(|x: (Seq<char>, u64)| (x.0, resolve_v(TermV::Var(x.1), bv))));
            let rows = s.left.map_values(|r: (TermV, TermV)| pair_c("left"@, r.0, r.1)) + s.right.map_values(
                |e: (nat, (TermV, TermV))| pair_c("right"@, e.1.0, e.1.1),
            ) + s.receipts + seq![lv];
            assert(residual_v(s) == rows.map_values(|c: ConstraintV| resolve_c(c, s.bindings)));
            assert(rows.len() == nl + nr + nc + 1);
            assert forall|j: int| 0 <= j < rows.len() implies constraint_v(a.residual@[j]) == resolve_c(rows[j], bv) by {
                if j < nl {
                } else if j < nl + nr {
                } else if j < nl + nr + nc {
                } else {
                }
            }
            assert(constraints_v(a.residual@) =~= residual_v(s));
        }
        Ok(a)
    }
}


/// `name(a)` as a term value.
pub open spec fn app1_v(name: Seq<char>, a: TermV) -> TermV {
    TermV::App(name, seq![a])
}

/// `drive(cons(Head, Rest))` as a constraint value.
pub open spec fn drive_cons_v(head: TermV, rest: TermV) -> ConstraintV {
    con_v("drive"@, seq![TermV::App("cons"@, seq![head, rest])])
}

/// The CHR program whose behaviour the join has: the pairing rule `join`
/// (consuming its right row in the consuming program), and the driver rules
/// `ack`, `issue`, `replace`, `bind`, `insert` and `done`.
pub open spec fn source_rules_v(consuming: bool) -> Seq<RuleV> {
    let x = TermV::Var(0);
    let y = TermV::Var(1);
    let z = TermV::Var(2);
    let w = TermV::Var(3);
    let left = con_v("left"@, seq![x, app1_v("f"@, y)]);
    let right = con_v("right"@, seq![x, app1_v("g"@, y)]);
    let request = con_v("request"@, seq![x, w]);
    let receipt = GoalV::Constraint(con_v("receipt"@, seq![w, app1_v("f"@, y), app1_v("g"@, y)]));
    let join = if consuming {
        RuleV { name: "join"@, kept: seq![left, request], removed: seq![right], guards: Seq::empty(), body: receipt }
    } else {
        propagate_v("join"@, seq![left, right, request], receipt)
    };
    seq![
        join,
        simplify_v(
            "ack"@,
            seq![con_v("request"@, seq![x, y]), con_v("wait"@, seq![z])],
            GoalV::Constraint(con_v("drive"@, seq![z])),
        ),
        simplify_v(
            "issue"@,
            seq![drive_cons_v(TermV::App("req"@, seq![x, y]), z)],
            GoalV::And(seq![GoalV::Constraint(con_v("request"@, seq![x, y])), GoalV::Constraint(con_v("wait"@, seq![z]))]),
        ),
        simplify_v(
            "replace"@,
            seq![drive_cons_v(TermV::App("replace"@, seq![x, y, z]), w), con_v("right"@, seq![x, y])],
            GoalV::And(seq![GoalV::Constraint(con_v("right"@, seq![x, z])), GoalV::Constraint(con_v("drive"@, seq![w]))]),
        ),
        simplify_v(
            "bind"@,
            seq![drive_cons_v(TermV::App("bind"@, seq![x, y]), z)],
            GoalV::And(seq![GoalV::Unify(x, y), GoalV::Constraint(con_v("drive"@, seq![z]))]),
        ),
        simplify_v(
            "insert"@,
            seq![drive_cons_v(TermV::App("insert"@, seq![x, y]), z)],
            GoalV::And(seq![GoalV::Constraint(con_v("right"@, seq![x, y])), GoalV::Constraint(con_v("drive"@, seq![z]))]),
        ),
        simplify_v("done"@, seq![con_v("drive"@, seq![atom_v("nil"@)])], GoalV::Constraint(con_v("done"@, Seq::empty()))),
    ]
}

/// Three terms.
fn t3(a: Term, b: Term, c: Term) -> (r: Vec<Term>)
    ensures
        terms_v(r@) == seq![term_v(a), term_v(b), term_v(c)],
{
    let ghost va = term_v(a);
    let ghost vb = term_v(b);
    let ghost vc = term_v(c);
    let r = vec![a, b, c];
    proof {
        assert(terms_v(r@) =~= seq![va, vb, vc]);
    }
    r
}

/// `name(a)`.
fn app1(name: &str, a: Term) -> (r: Term)
    ensures
        term_v(r) == app1_v(name@, term_v(a)),
{
    app(name, t1(a))
}

/// `drive(cons(Head, Rest))`.
fn drive_cons(head: Term, rest: Term) -> (r: Constraint)
    ensures
        constraint_v(r) == drive_cons_v(term_v(head), term_v(rest)),
{
    con("drive", t1(app("cons", t2(head, rest))))
}

/// The source program of the join, plain or consuming.
pub fn source_rules(consuming: bool) -> (r: Vec<Rule>)
    ensures
        rules_v(r@) == source_rules_v(consuming),
{
    let receipt = post(con("receipt", t3(var(3), app1("f", var(1)), app1("g", var(1)))));
    let join = if consuming {
        let r = Rule {
            name: String::from_str("join"),
            kept: c2(con("left", t2(var(0), app1("f", var(1)))), con("request", t2(var(0), var(3)))),
            removed: c1(con("right", t2(var(0), app1("g", var(1))))),
            guards: Vec::new(),
            body: receipt,
        };
        proof {
            assert(rule_v(r).guards =~= Seq::<(TermV, TermV)>::empty());
        }
        r
    } else {
        propagate(
            "join",
            c3(con("left", t2(var(0), app1("f", var(1)))), con("right", t2(var(0), app1("g", var(1)))), con("request", t2(var(0), var(3)))),
            receipt,
        )
    };
    let ack = simplify("ack", c2(con("request", t2(var(0), var(1))), con("wait", t1(var(2)))), post(con("drive", t1(var(2)))));
    let issue = simplify(
        "issue",
        c1(drive_cons(app("req", t2(var(0), var(1))), var(2))),
        and2(post(con("request", t2(var(0), var(1)))), post(con("wait", t1(var(2))))),
    );
    let replace = simplify(
        "replace",
        c2(drive_cons(app("replace", t3(var(0), var(1), var(2))), var(3)), con("right", t2(var(0), var(1)))),
        and2(post(con("right", t2(var(0), var(2)))), post(con("drive", t1(var(3))))),
    );
    let bind = simplify(
        "bind",
        c1(drive_cons(app("bind", t2(var(0), var(1))), var(2))),
        and2(unify(var(0), var(1)), post(con("drive", t1(var(2))))),
    );
    let insert = simplify(
        "insert",
        c1(drive_cons(app("insert", t2(var(0), var(1))), var(2))),
        and2(post(con("right", t2(var(0), var(1)))), post(con("drive", t1(var(2))))),
    );
    let done = simplify("done", c1(con("drive", t1(atom("nil")))), post(con("done", Vec::new())));
    proof {
        assert(terms_v(Seq::<Term>::empty()) =~= Seq::<TermV>::empty());
    }
    let ghost vs = seq![rule_v(join), rule_v(ack), rule_v(issue), rule_v(replace), rule_v(bind), rule_v(insert), rule_v(done)];
    let r = vec![join, ack, issue, replace, bind, insert, done];
    proof {
        assert(rules_v(r@) =~= vs);
    }
    r
}


/// Whether two lists of terms have equal values.
fn same_terms(a: &Vec<Term>, b: &Vec<Term>) -> (r: bool)
    ensures
        r == (terms_v(a@) == terms_v(b@)),
{
    if a.len() != b.len() {
        proof {
            assert(terms_v(a@).len() != terms_v(b@).len());
        }
        return false;
    }
    let mut i: usize = 0;
    while i < a.len()
        invariant
            a@.len() == b@.len(),
            0 <= i <= a@.len(),
            forall|j: int| 0 <= j < i ==> term_v(#[trigger] a@[j]) == term_v(b@[j]),
        decreases a.len() - i,
    {
        if !same_term(&a[i], &b[i]) {
            proof {
                assert(terms_v(a@)[i as int] != terms_v(b@)[i as int]);
            }
            return false;
        }
        i += 1;
    }
    proof {
        assert(terms_v(a@) =~= terms_v(b@));
    }
    true
}

/// Whether two constraints have equal values.
fn same_constraint(a: &Constraint, b: &Constraint) -> (r: bool)
    ensures
        r == (constraint_v(*a) == constraint_v(*b)),
{
    same_text(a.name.as_str(), b.name.as_str()) && same_terms(&a.args, &b.args)
}

/// Whether two lists of constraints have equal values.
fn same_constraints(a: &Vec<Constraint>, b: &Vec<Constraint>) -> (r: bool)
    ensures
        r == (constraints_v(a@) == constraints_v(b@)),
{
    if a.len() != b.len() {
        proof {
            assert(constraints_v(a@).len() != constraints_v(b@).len());
        }
        return false;
    }
    let mut i: usize = 0;
    while i < a.len()
        invariant
            a@.len() == b@.len(),
            0 <= i <= a@.len(),
            forall|j: int| 0 <= j < i ==> constraint_v(#[trigger] a@[j]) == constraint_v(b@[j]),
        decreases a.len() - i,
    {
        if !same_constraint(&a[i], &b[i]) {
            proof {
                assert(constraints_v(a@)[i as int] != constraints_v(b@)[i as int]);
            }
            return false;
        }
        i += 1;
    }
    proof {
        assert(constraints_v(a@) =~= constraints_v(b@));
    }
    true
}

/// Whether two lists of guards have equal values.
fn same_guards(a: &Vec<Guard>, b: &Vec<Guard>) -> (r: bool)
    ensures
        r == (a@.map_values(|g: Guard| guard_v(g)) == b@.map_values(|g: Guard| guard_v(g))),
{
    let ghost av = a@.map_values(|g: Guard| guard_v(g));
    let ghost bv = b@.map_values(|g: Guard| guard_v(g));
    if a.len() != b.len() {
        proof {
            assert(av.len() != bv.len());
        }
        return false;
    }
    let mut i: usize = 0;
    while i < a.len()
        invariant
            av == a@.map_values(|g: Guard| guard_v(g)),
            bv == b@.map_values(|g: Guard| guard_v(g)),
            a@.len() == b@.len(),
            0 <= i <= a@.len(),
            forall|j: int| 0 <= j < i ==> av[j] == bv[j],
        decreases a.len() - i,
    {
        let same = match (&a[i], &b[i]) {
            (Guard::Equal(x, y), Guard::Equal(u, w)) => same_term(x, u) && same_term(y, w),
        };
        if !same {
            proof {
                assert(av[i as int] != bv[i as int]);
            }
            return false;
        }
        i += 1;
    }
    proof {
        assert(av =~= bv);
    }
    true
}

/// Whether two goals have equal values.
fn same_goal(a: &Goal, b: &Goal) -> (r: bool)
    ensures
        r == (goal_v(*a) == goal_v(*b)),
    decreases a,
{
    match (a, b) {
        (Goal::Constraint(x), Goal::Constraint(y)) => same_constraint(x, y),
        (Goal::Unify(x1, x2), Goal::Unify(y1, y2)) => same_term(x1, y1) && same_term(x2, y2),
        (Goal::And(xs), Goal::And(ys)) => {
            let ghost av = goal_v(*a)->And_0;
            let ghost bv = goal_v(*b)->And_0;
            if xs.len() != ys.len() {
                proof {
                    assert(av.len() != bv.len());
                }
                return false;
            }
            let mut i: usize = 0;
            while i < xs.len()
                invariant
                    *a == Goal::And(*xs),
                    *b == Goal::And(*ys),
                    av == goal_v(*a)->And_0,
                    bv == goal_v(*b)->And_0,
                    xs@.len() == ys@.len(),
                    0 <= i <= xs@.len(),
                    forall|j: int| 0 <= j < i ==> av[j] == bv[j],
                decreases xs.len() - i,
            {
                proof {
                    assert(decreases_to!(*a => a->And_0));
                    assert(decreases_to!(*xs => xs[i as int]));
                }
                if !same_goal(&xs[i], &ys[i]) {
                    proof {
                        assert(av[i as int] == goal_v(xs@[i as int]));
                        assert(bv[i as int] == goal_v(ys@[i as int]));
                        assert(av[i as int] != bv[i as int]);
                    }
                    return false;
                }
                i += 1;
            }
            proof {
                assert(av =~= bv);
            }
            true
        },
        (Goal::Or(x1, x2), Goal::Or(y1, y2)) => same_goal(x1, y1) && same_goal(x2, y2),
        (Goal::True, Goal::True) => true,
        (Goal::Fail, Goal::Fail) => true,
        _ => false,
    }
}

/// Whether two rules have equal values.
fn same_rule(a: &Rule, b: &Rule) -> (r: bool)
    ensures
        r == (rule_v(*a) == rule_v(*b)),
{
    same_text(a.name.as_str(), b.name.as_str()) && same_constraints(&a.kept, &b.kept) && same_constraints(
        &a.removed,
        &b.removed,
    ) && same_guards(&a.guards, &b.guards) && same_goal(&a.body, &b.body)
}

/// Whether two lists of rules have equal values.
fn same_rules(a: &[Rule], b: &Vec<Rule>) -> (r: bool)
    ensures
        r == (rules_v(a@) == rules_v(b@)),
{
    if a.len() != b.len() {
        proof {
            assert(rules_v(a@).len() != rules_v(b@).len());
        }
        return false;
    }
    let mut i: usize = 0;
    while i < a.len()
        invariant
            a@.len() == b@.len(),
            0 <= i <= a@.len(),
            forall|j: int| 0 <= j < i ==> rule_v(#[trigger] a@[j]) == rule_v(b@[j]),
        decreases a.len() - i,
    {
        if !same_rule(&a[i], &b[i]) {
            proof {
                assert(rules_v(a@)[i as int] != rules_v(b@)[i as int]);
            }
            return false;
        }
        i += 1;
    }
    proof {
        assert(rules_v(a@) =~= rules_v(b@));
    }
    true
}

/// A checked source of the selective join: the plain or the consuming program.
pub struct Prepared {
    consuming: bool,
}

impl Prepared {
    /// Whether the source is the consuming program.
    pub closed spec fn consuming_v(&self) -> bool {
        self.consuming
    }

    /// Admit exactly the plain program, or else exactly the consuming one.
    pub fn new(source: &[Rule]) -> (r: Result<Prepared, String>)
        ensures
            rules_v(source@) == source_rules_v(false) ==> (r matches Ok(p) && !p.consuming_v()),
            rules_v(source@) != source_rules_v(false) && rules_v(source@) == source_rules_v(true) ==> (r matches Ok(p)
                && p.consuming_v()),
            rules_v(source@) != source_rules_v(false) && rules_v(source@) != source_rules_v(true) ==> (r matches Err(e)
                && e@ == "unsupported selective/consuming source"@),
    {
        if same_rules(source, &source_rules(false)) {
            return Ok(Prepared { consuming: false });
        }
        if same_rules(source, &source_rules(true)) {
            return Ok(Prepared { consuming: true });
        }
        Err(String::from_str("unsupported selective/consuming source"))
    }

    /// Start a join on a query, consuming where the source does.
    pub fn start(&self, query: Query, mode: Mode) -> (r: Result<Engine, String>)
        ensures
            started(query, mode, self.consuming_v(), r),
    {
        Engine::new(query, mode, self.consuming)
    }
}


/// Left row `a` and right row `j` (by position) are paired under the key of
/// the left row.
pub open spec fn linked(s: StateV, a: int, j: int) -> bool {
    joined(s, resolve_v(s.left[a].0, s.bindings), a, j)
}

/// How many of the first `m` right rows are paired with left row `a`.
pub open spec fn row_links(s: StateV, a: int, m: nat) -> nat
    decreases m,
{
    if m == 0 {
        0
    } else {
        row_links(s, a, (m - 1) as nat) + if linked(s, a, m - 1) {
            1nat
        } else {
            0nat
        }
    }
}

/// How many pairs the first `n` left rows take part in.
pub open spec fn links_upto(s: StateV, n: nat) -> nat
    decreases n,
{
    if n == 0 {
        0
    } else {
        links_upto(s, (n - 1) as nat) + row_links(s, n - 1, s.right.len())
    }
}

/// How many pairs there are among the rows.
pub open spec fn links(s: StateV) -> nat {
    links_upto(s, s.left.len())
}

proof fn lemma_row_links(s: StateV, a: int, m: nat)
    ensures
        row_links(s, a, m) <= m,
    decreases m,
{
    if m > 0 {
        lemma_row_links(s, a, (m - 1) as nat);
    }
}

proof fn lemma_links_upto(s: StateV, n: nat)
    ensures
        links_upto(s, n) <= n * s.right.len(),
    decreases n,
{
    if n > 0 {
        lemma_links_upto(s, (n - 1) as nat);
        lemma_row_links(s, n - 1, s.right.len());
        assert((n - 1) * s.right.len() + s.right.len() == n * s.right.len()) by (nonlinear_arith);
    }
}

impl Engine {
    /// How many pairs the join keeps up to date: every pair of rows in the
    /// retained mode, none in the direct mode.
    pub fn retained_pairs(&self) -> (r: usize)
        requires
            self.wf(),
            self.state_v().left.len() * self.state_v().right.len() <= usize::MAX,
        ensures
            r == if self.mode_v() == Mode::Retained {
                links(self.state_v())
            } else {
                0
            },
    {
        if self.mode != Mode::Retained {
            return 0;
        }
        let ghost s = self.state_v();
        proof {
            self.lemma_wf();
        }
        let mut count: usize = 0;
        let mut a: usize = 0;
        while a < self.left.len()
            invariant
                s == self.state_v(),
                s.left.len() == self.left@.len(),
                s.right.len() == self.right@.len(),
                forall|i: int| 0 <= i < self.right@.len() ==> #[trigger] s.right[i] == (self.right@[i].0 as nat, (term_v(self.right@[i].1.key), term_v(self.right@[i].1.payload))),
                forall|i: int| 0 <= i < self.left@.len() ==> #[trigger] s.left[i] == (term_v(self.left@[i].key), term_v(self.left@[i].payload)),
                s.bindings == bindings_of(self.bindings@),
                s.left.len() * s.right.len() <= usize::MAX,
                0 <= a <= self.left@.len(),
                count == links_upto(s, a as nat),
            decreases self.left.len() - a,
        {
            let key = resolve(&self.left[a].key, &self.bindings);
            let lp = resolve(&self.left[a].payload, &self.bindings);
            let x = unary(&lp, "f");
            let mut j: usize = 0;
            proof {
                lemma_links_upto(s, (a + 1) as nat);
                lemma_row_links(s, a as int, s.right.len());
                assert(links_upto(s, (a + 1) as nat) <= (a + 1) * s.right.len());
                assert((a + 1) * s.right.len() <= s.left.len() * s.right.len()) by (nonlinear_arith)
                    requires
                        a + 1 <= s.left.len(),
                ;
            }
            while j < self.right.len()
                invariant
                    s == self.state_v(),
                    s.left.len() == self.left@.len(),
                    s.right.len() == self.right@.len(),
                    forall|i: int| 0 <= i < self.right@.len() ==> #[trigger] s.right[i] == (self.right@[i].0 as nat, (term_v(self.right@[i].1.key), term_v(self.right@[i].1.payload))),
                    s.bindings == bindings_of(self.bindings@),
                    0 <= a < self.left@.len(),
                    0 <= j <= self.right@.len(),
                    term_v(key) == resolve_v(s.left[a as int].0, s.bindings),
                    match x {
                        Some(t) => unary_arg(resolve_v(s.left[a as int].1, s.bindings), "f"@) == Some(term_v(t)),
                        None => unary_arg(resolve_v(s.left[a as int].1, s.bindings), "f"@) is None,
                    },
                    count == links_upto(s, a as nat) + row_links(s, a as int, j as nat),
                    links_upto(s, a as nat) + row_links(s, a as int, s.right.len()) <= usize::MAX,
                    row_links(s, a as int, j as nat) <= row_links(s, a as int, s.right.len()),
                decreases self.right.len() - j,
            {
                let rk = resolve(&self.right[j].1.key, &self.bindings);
                let rp = resolve(&self.right[j].1.payload, &self.bindings);
                let y = unary(&rp, "g");
                let hit = match (&x, &y) {
                    (Some(u), Some(w)) => same_term(&rk, &key) && same_term(u, w),
                    _ => false,
                };
                proof {
                    assert(hit == linked(s, a as int, j as int));
                    lemma_row_monotone(s, a as int, (j + 1) as nat, s.right.len());
                }
                if hit {
                    count = count + 1;
                }
                j += 1;
            }
            a += 1;
        }
        count
    }
}

proof fn lemma_row_monotone(s: StateV, a: int, m: nat, n: nat)
    requires
        m <= n,
    ensures
        row_links(s, a, m) <= row_links(s, a, n),
    decreases n,
{
    if m < n {
        lemma_row_monotone(s, a, m, (n - 1) as nat);
    }
}

} // verus!
