//! Figures of a measured interval and their JSON records.
//!
//! An interval has a duration in nanoseconds and, where an allocator meter ran,
//! its allocation figures. Intervals of one class of events are added up into
//! a category; each figure is written as a JSON object with fixed field names.
use crate::notation::{decimal_v, push_decimal};
use vstd::prelude::*;
use vstd::string::*;

verus! {

/// A signed number in decimal: a minus sign before the digits of a negative one.
pub open spec fn signed_v(x: int) -> Seq<char> {
    if x < 0 {
        "-"@ + decimal_v((-x) as nat)
    } else {
        decimal_v(x as nat)
    }
}

/// Append a signed number in decimal.
fn push_signed(out: &mut String, x: i128)
    ensures
        final(out)@ == old(out)@ + signed_v(x as int),
{
    if x < 0 {
        out.append("-");
        let magnitude: u128 = ((-(x + 1)) as u128) + 1;
        push_decimal(out, magnitude);
        proof {
            assert(old(out)@ + signed_v(x as int) =~= old(out)@ + "-"@ + decimal_v(magnitude as nat));
        }
    } else {
        push_decimal(out, x as u128);
    }
}

/// What an allocator meter read over an interval: live bytes at its start and
/// end, the peak of live bytes, and the allocation calls, requested bytes and
/// deallocation calls in it.
#[derive(Clone, Copy, Debug, PartialEq, Eq)]
pub struct Reading {
    pub live_start: usize,
    pub live_end: usize,
    pub peak_live: usize,
    pub allocation_calls: usize,
    pub requested_bytes: usize,
    pub deallocation_calls: usize,
}

/// Allocation figures of an interval, with the net change of live bytes.
#[derive(Clone, Copy, Debug, Default, PartialEq, Eq, Structural)]
pub struct Memory {
    pub start: usize,
    pub end: usize,
    pub peak: usize,
    pub calls: usize,
    pub bytes: usize,
    pub frees: usize,
    pub delta: i128,
}

/// No allocation at all.
pub open spec fn memory_zero() -> Memory {
    Memory { start: 0, end: 0, peak: 0, calls: 0, bytes: 0, frees: 0, delta: 0 }
}

/// Two figures of consecutive intervals appended: where `first` holds, nothing
/// was appended before and the start is the second's, else the first's; the
/// end is the second's, the peak the larger, and the counts and changes add up.
pub open spec fn appended(a: Memory, b: Memory, first: bool) -> Memory {
    Memory {
        start: if first {
            b.start
        } else {
            a.start
        },
        end: b.end,
        peak: if a.peak >= b.peak {
            a.peak
        } else {
            b.peak
        },
        calls: (a.calls + b.calls) as usize,
        bytes: (a.bytes + b.bytes) as usize,
        frees: (a.frees + b.frees) as usize,
        delta: (a.delta + b.delta) as i128,
    }
}

/// Appending the second figures to the first stays within the integer types.
pub open spec fn appendable(a: Memory, b: Memory) -> bool {
    &&& a.calls + b.calls <= usize::MAX
    &&& a.bytes + b.bytes <= usize::MAX
    &&& a.frees + b.frees <= usize::MAX
    &&& i128::MIN <= a.delta + b.delta <= i128::MAX
}

/// The JSON record of allocation figures.
pub open spec fn memory_text(m: Memory) -> Seq<char> {
    "{\"live_start\":"@ + decimal_v(m.start as nat) + ",\"live_end\":"@ + decimal_v(m.end as nat) + ",\"peak_live\":"@
        + decimal_v(m.peak as nat) + ",\"allocation_calls\":"@ + decimal_v(m.calls as nat) + ",\"requested_bytes\":"@
        + decimal_v(m.bytes as nat) + ",\"deallocation_calls\":"@ + decimal_v(m.frees as nat) + ",\"net_live_delta\":"@
        + signed_v(m.delta as int) + "}"@
}

impl Memory {
    /// The figures of a meter reading; the net change is the end's live bytes
    /// less the start's.
    pub fn from(r: Reading) -> (m: Memory)
        ensures
            m == (Memory {
                start: r.live_start,
                end: r.live_end,
                peak: r.peak_live,
                calls: r.allocation_calls,
                bytes: r.requested_bytes,
                frees: r.deallocation_calls,
                delta: (r.live_end - r.live_start) as i128,
            }),
    {
        Memory {
            start: r.live_start,
            end: r.live_end,
            peak: r.peak_live,
            calls: r.allocation_calls,
            bytes: r.requested_bytes,
            frees: r.deallocation_calls,
            delta: r.live_end as i128 - r.live_start as i128,
        }
    }

    /// Append the figures of the next interval.
    pub fn append(&mut self, other: Memory, first: bool)
        requires
            appendable(*old(self), other),
        ensures
            *final(self) == appended(*old(self), other, first),
    {
        if first {
            self.start = other.start;
        }
        self.end = other.end;
        if other.peak > self.peak {
            self.peak = other.peak;
        }
        self.calls = self.calls + other.calls;
        self.bytes = self.bytes + other.bytes;
        self.frees = self.frees + other.frees;
        self.delta = self.delta + other.delta;
    }

    /// The JSON record of the figures.
    pub fn json(self) -> (r: String)
        ensures
            r@ == memory_text(self),
    {
        let mut out = String::from_str("{\"live_start\":");
        push_decimal(&mut out, self.start as u128);
        out.append(",\"live_end\":");
        push_decimal(&mut out, self.end as u128);
        out.append(",\"peak_live\":");
        push_decimal(&mut out, self.peak as u128);
        out.append(",\"allocation_calls\":");
        push_decimal(&mut out, self.calls as u128);
        out.append(",\"requested_bytes\":");
        push_decimal(&mut out, self.bytes as u128);
        out.append(",\"deallocation_calls\":");
        push_decimal(&mut out, self.frees as u128);
        out.append(",\"net_live_delta\":");
        push_signed(&mut out, self.delta);
        out.append("}");
        out
    }
}

/// A measured interval: its duration and, where a meter ran, its allocation figures.
#[derive(Clone, Copy, Debug, Default, PartialEq, Eq, Structural)]
pub struct Interval {
    pub ns: u128,
    pub memory: Option<Memory>,
}

/// `null`, or the record of the figures.
pub open spec fn memory_or_null(m: Option<Memory>) -> Seq<char> {
    match m {
        None => "null"@,
        Some(x) => memory_text(x),
    }
}

/// The JSON record of an interval.
pub open spec fn interval_text(i: Interval) -> Seq<char> {
    "{\"ns\":"@ + decimal_v(i.ns as nat) + ",\"memory\":"@ + memory_or_null(i.memory) + "}"@
}

impl Interval {
    /// The JSON record of the interval.
    pub fn json(self) -> (r: String)
        ensures
            r@ == interval_text(self),
    {
        let mut out = String::from_str("{\"ns\":");
        push_decimal(&mut out, self.ns);
        out.append(",\"memory\":");
        match self.memory {
            None => out.append("null"),
            Some(m) => {
                let t = m.json();
                out.append(t.as_str());
            },
        }
        out.append("}");
        out
    }
}

/// The intervals of one class of events added up: how many, and their summed
/// duration and appended figures.
#[derive(Clone, Copy, Debug, Default, PartialEq, Eq, Structural)]
pub struct Category {
    pub count: usize,
    pub interval: Interval,
}

/// The figures a category holds once an interval's are appended: where it held
/// none yet, they start from no allocation; the interval's start counts only
/// for the first interval of the category.
pub open spec fn memory_added(c: Category, m: Memory) -> Memory {
    appended(
        match c.interval.memory {
            Some(x) => x,
            None => memory_zero(),
        },
        m,
        c.count == 0,
    )
}

/// A category with one more interval.
pub open spec fn added(c: Category, i: Interval) -> Category {
    Category {
        count: (c.count + 1) as usize,
        interval: Interval {
            ns: (c.interval.ns + i.ns) as u128,
            memory: match i.memory {
                None => c.interval.memory,
                Some(m) => Some(memory_added(c, m)),
            },
        },
    }
}

/// Adding the interval keeps every sum of the category within its type.
pub open spec fn addable(c: Category, i: Interval) -> bool {
    &&& c.count < usize::MAX
    &&& c.interval.ns + i.ns <= u128::MAX
    &&& i.memory matches Some(m) ==> appendable(
        match c.interval.memory {
            Some(x) => x,
            None => memory_zero(),
        },
        m,
    )
}

/// The JSON record of a category's figures: those of its intervals but their
/// start and end, which are not contiguous.
pub open spec fn category_memory_text(m: Option<Memory>) -> Seq<char> {
    match m {
        None => "null"@,
        Some(x) => "{\"peak_live\":"@ + decimal_v(x.peak as nat) + ",\"allocation_calls\":"@ + decimal_v(x.calls as nat)
            + ",\"requested_bytes\":"@ + decimal_v(x.bytes as nat) + ",\"deallocation_calls\":"@ + decimal_v(
            x.frees as nat,
        ) + ",\"net_live_delta\":"@ + signed_v(x.delta as int) + "}"@,
    }
}

/// The JSON record of a category.
pub open spec fn category_text(c: Category) -> Seq<char> {
    "{\"count\":"@ + decimal_v(c.count as nat) + ",\"ns\":"@ + decimal_v(c.interval.ns as nat) + ",\"memory\":"@
        + category_memory_text(c.interval.memory) + "}"@
}

impl Category {
    /// Add one interval of the class.
    pub fn add(&mut self, i: Interval)
        requires
            addable(*old(self), i),
        ensures
            *final(self) == added(*old(self), i),
    {
        self.interval.ns = self.interval.ns + i.ns;
        if let Some(m) = i.memory {
            let mut sum = match self.interval.memory {
                Some(x) => x,
                None => Memory { start: 0, end: 0, peak: 0, calls: 0, bytes: 0, frees: 0, delta: 0 },
            };
            sum.append(m, self.count == 0);
            self.interval.memory = Some(sum);
        }
        self.count = self.count + 1;
    }

    /// The JSON record of the category.
    pub fn json(self) -> (r: String)
        ensures
            r@ == category_text(self),
    {
        let mut out = String::from_str("{\"count\":");
        push_decimal(&mut out, self.count as u128);
        out.append(",\"ns\":");
        push_decimal(&mut out, self.interval.ns);
        out.append(",\"memory\":");
        match self.interval.memory {
            None => out.append("null"),
            Some(m) => {
                out.append("{\"peak_live\":");
                push_decimal(&mut out, m.peak as u128);
                out.append(",\"allocation_calls\":");
                push_decimal(&mut out, m.calls as u128);
                out.append(",\"requested_bytes\":");
                push_decimal(&mut out, m.bytes as u128);
                out.append(",\"deallocation_calls\":");
                push_decimal(&mut out, m.frees as u128);
                out.append(",\"net_live_delta\":");
                push_signed(&mut out, m.delta);
                out.append("}");
            },
        }
        out.append("}");
        proof {
            assert(out@ =~= category_text(self));
        }
        out
    }
}

/// The traffic of one owner of cloned state: how often it was cloned, for how
/// long, and the allocation and deallocation calls and requested bytes.
#[derive(Clone, Copy, Debug, Default, PartialEq, Eq, Structural)]
pub struct Traffic {
    pub count: usize,
    pub ns: u128,
    pub calls: usize,
    pub bytes: usize,
    pub frees: usize,
}

/// The JSON record of an owner's traffic.
pub open spec fn traffic_text(t: Traffic) -> Seq<char> {
    "{\"count\":"@ + decimal_v(t.count as nat) + ",\"ns\":"@ + decimal_v(t.ns as nat) + ",\"allocation_calls\":"@
        + decimal_v(t.calls as nat) + ",\"requested_bytes\":"@ + decimal_v(t.bytes as nat) + ",\"deallocation_calls\":"@
        + decimal_v(t.frees as nat) + "}"@
}

impl Traffic {
    /// The JSON record of the traffic.
    pub fn json(self) -> (r: String)
        ensures
            r@ == traffic_text(self),
    {
        let mut out = String::from_str("{\"count\":");
        push_decimal(&mut out, self.count as u128);
        out.append(",\"ns\":");
        push_decimal(&mut out, self.ns);
        out.append(",\"allocation_calls\":");
        push_decimal(&mut out, self.calls as u128);
        out.append(",\"requested_bytes\":");
        push_decimal(&mut out, self.bytes as u128);
        out.append(",\"deallocation_calls\":");
        push_decimal(&mut out, self.frees as u128);
        out.append("}");
        out
    }
}

/// Counts of the forked segments that ended one way: all of them, those
/// without a mutation, the nodes they inherited, those of the mutation-free
/// ones, the segments with a first miss, the nodes and inherited nodes at
/// those misses, the predicate insertions, and the requests before the misses.
#[derive(Clone, Copy, Debug, Default, PartialEq, Eq, Structural)]
pub struct Segments {
    pub segments: u64,
    pub mutation_free_segments: u64,
    pub inherited_nodes: u64,
    pub mutation_free_inherited_nodes: u64,
    pub first_miss_segments: u64,
    pub first_miss_nodes: u64,
    pub first_miss_inherited_nodes: u64,
    pub predicate_insertions: u64,
    pub requests_before_first_miss: u64,
}

/// The JSON record of segment counts.
pub open spec fn segments_text(s: Segments) -> Seq<char> {
    "{\"segments\":"@ + decimal_v(s.segments as nat) + ",\"mutation_free_segments\":"@ + decimal_v(
        s.mutation_free_segments as nat,
    ) + ",\"inherited_nodes\":"@ + decimal_v(s.inherited_nodes as nat) + ",\"mutation_free_inherited_nodes\":"@
        + decimal_v(s.mutation_free_inherited_nodes as nat) + ",\"first_miss_segments\":"@ + decimal_v(
        s.first_miss_segments as nat,
    ) + ",\"first_miss_nodes\":"@ + decimal_v(s.first_miss_nodes as nat) + ",\"first_miss_inherited_nodes\":"@
        + decimal_v(s.first_miss_inherited_nodes as nat) + ",\"predicate_insertions\":"@ + decimal_v(
        s.predicate_insertions as nat,
    ) + ",\"requests_before_first_miss\":"@ + decimal_v(s.requests_before_first_miss as nat) + "}"@
}

impl Segments {
    /// The JSON record of the counts.
    pub fn json(self) -> (r: String)
        ensures
            r@ == segments_text(self),
    {
        let mut out = String::from_str("{\"segments\":");
        push_decimal(&mut out, self.segments as u128);
        out.append(",\"mutation_free_segments\":");
        push_decimal(&mut out, self.mutation_free_segments as u128);
        out.append(",\"inherited_nodes\":");
        push_decimal(&mut out, self.inherited_nodes as u128);
        out.append(",\"mutation_free_inherited_nodes\":");
        push_decimal(&mut out, self.mutation_free_inherited_nodes as u128);
        out.append(",\"first_miss_segments\":");
        push_decimal(&mut out, self.first_miss_segments as u128);
        out.append(",\"first_miss_nodes\":");
        push_decimal(&mut out, self.first_miss_nodes as u128);
        out.append(",\"first_miss_inherited_nodes\":");
        push_decimal(&mut out, self.first_miss_inherited_nodes as u128);
        out.append(",\"predicate_insertions\":");
        push_decimal(&mut out, self.predicate_insertions as u128);
        out.append(",\"requests_before_first_miss\":");
        push_decimal(&mut out, self.requests_before_first_miss as u128);
        out.append("}");
        out
    }
}

/// What a forked segment reports when it ends: the nodes it inherited, the
/// predicates it inserted, and, where it missed a shared node, the nodes at
/// the first miss and the requests before it.
#[derive(Clone, Copy, Debug, PartialEq, Eq)]
pub struct ForkSegment {
    pub inherited_nodes: usize,
    pub predicate_insertions: u64,
    pub first_miss_nodes: Option<usize>,
    pub requests_before_first_miss: Option<u64>,
}

/// Counts with one more ended segment: a segment with a first miss adds to the
/// miss counts, one without a miss and without insertions to the
/// mutation-free counts.
pub open spec fn segment_added(s: Segments, g: ForkSegment) -> Segments {
    let base = Segments {
        segments: (s.segments + 1) as u64,
        inherited_nodes: (s.inherited_nodes + g.inherited_nodes) as u64,
        predicate_insertions: (s.predicate_insertions + g.predicate_insertions) as u64,
        ..s
    };
    match g.first_miss_nodes {
        Some(nodes) => Segments {
            first_miss_segments: (s.first_miss_segments + 1) as u64,
            requests_before_first_miss: (s.requests_before_first_miss + g.requests_before_first_miss->Some_0) as u64,
            first_miss_nodes: (s.first_miss_nodes + nodes) as u64,
            first_miss_inherited_nodes: (s.first_miss_inherited_nodes + g.inherited_nodes) as u64,
            ..base
        },
        None => if g.predicate_insertions == 0 {
            Segments {
                mutation_free_segments: (s.mutation_free_segments + 1) as u64,
                mutation_free_inherited_nodes: (s.mutation_free_inherited_nodes + g.inherited_nodes) as u64,
                ..base
            }
        } else {
            base
        },
    }
}

/// Adding the segment keeps every count within `u64`.
pub open spec fn segment_addable(s: Segments, g: ForkSegment) -> bool {
    &&& s.segments + 1 <= u64::MAX
    &&& s.inherited_nodes + g.inherited_nodes <= u64::MAX
    &&& s.predicate_insertions + g.predicate_insertions <= u64::MAX
    &&& g.first_miss_nodes matches Some(nodes) ==> {
        &&& s.first_miss_segments + 1 <= u64::MAX
        &&& s.first_miss_nodes + nodes <= u64::MAX
        &&& s.first_miss_inherited_nodes + g.inherited_nodes <= u64::MAX
        &&& s.requests_before_first_miss + g.requests_before_first_miss->Some_0 <= u64::MAX
    }
    &&& g.first_miss_nodes is None && g.predicate_insertions == 0 ==> {
        &&& s.mutation_free_segments + 1 <= u64::MAX
        &&& s.mutation_free_inherited_nodes + g.inherited_nodes <= u64::MAX
    }
}

impl Segments {
    /// Count one more ended segment. A segment with a first miss reports the
    /// requests before it.
    pub fn add(&mut self, g: ForkSegment)
        requires
            g.first_miss_nodes is Some ==> g.requests_before_first_miss is Some,
            segment_addable(*old(self), g),
        ensures
            *final(self) == segment_added(*old(self), g),
    {
        let inherited = g.inherited_nodes as u64;
        self.segments = self.segments + 1;
        self.inherited_nodes = self.inherited_nodes + inherited;
        self.predicate_insertions = self.predicate_insertions + g.predicate_insertions;
        match g.first_miss_nodes {
            Some(nodes) => {
                self.first_miss_segments = self.first_miss_segments + 1;
                let requests = match g.requests_before_first_miss {
                    Some(n) => n,
                    None => 0,
                };
                self.requests_before_first_miss = self.requests_before_first_miss + requests;
                self.first_miss_nodes = self.first_miss_nodes + nodes as u64;
                self.first_miss_inherited_nodes = self.first_miss_inherited_nodes + inherited;
            },
            None => {
                if g.predicate_insertions == 0 {
                    self.mutation_free_segments = self.mutation_free_segments + 1;
                    self.mutation_free_inherited_nodes = self.mutation_free_inherited_nodes + inherited;
                }
            },
        }
    }
}

} // verus!
