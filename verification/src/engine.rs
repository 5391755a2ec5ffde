//! The public vocabulary of the indexed CHR engine: scheduling policy, access
//! mode, execution mode, cursor candidates and the engine's reported counts.
use vstd::prelude::*;

verus! {

/// Which occurrences a commit re-examines.
#[derive(Clone, Copy, Debug, PartialEq, Eq, Structural)]
pub enum Policy {
    Global,
    Active,
}

/// How head partners are found.
#[derive(Clone, Copy, Debug, PartialEq, Eq, Structural)]
pub enum Access {
    Scan,
    Indexed,
}

/// Whether rules run through the generic matcher or generated selectors.
#[derive(Clone, Copy, Debug)]
pub enum Execution {
    Generic,
    Generated,
}

/// One step of a head-partner cursor.
#[derive(Debug)]
pub enum Candidate {
    Value(u64),
    Yield,
    Done,
}

/// Logical retained records, not allocator bytes. Measured by inspection on request.
#[derive(Debug)]
pub struct Retention {
    pub occurrences: usize,
    pub pending: usize,
    pub history: usize,
    pub queue: usize,
    pub dependency_edges: usize,
    pub term_nodes: usize,
    pub index_entries: usize,
    pub index_buckets: usize,
    pub index_reverse_records: usize,
    pub cursor_frames: usize,
    pub cursor_pool_entries: usize,
    pub trace_entries: usize,
    pub audit_entries: usize,
}

#[derive(Debug)]
pub struct Status {
    /// A source disjunction awaits explicit branch search; no answer is available.
    pub pending_split: bool,
    pub exhausted: bool,
    pub failed: bool,
}

#[derive(Debug)]
pub struct PreparationStats {
    pub rules: usize,
    pub heads: usize,
    pub slots: usize,
    pub predicates: usize,
}

/// Occurrences must record the variables they depend on: the active policy
/// re-queues them when those variables change, and indexed access re-keys them.
pub fn needs_dependencies(policy: Policy, access: Access) -> (r: bool)
    ensures
        r == (policy == Policy::Active || access == Access::Indexed),
{
    policy == Policy::Active || access == Access::Indexed
}

} // verus!
