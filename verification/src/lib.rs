//! Verified building blocks of a CHR research toolkit.
//!
//! `syntax` holds rules, goals, terms and queries, `finite` budgets and
//! weighted atom domains, `engine` the vocabulary of the indexed engine;
//! `support` holds canonical ordered Boolean supports with resumable Boolean
//! operations; `equality` the contextual regions of choice worlds over an
//! equality graph; `capacity` and `capacity_search` closed consuming-capacity
//! relations and the search that serves them; `phase`, `phase_solve` and
//! `phase_learning` finite initial phases, their solver and the failed regions
//! learned over their queries; `join` a three-way join owner; `resource_fusion`,
//! `resource_contract`, `probe`, `order`, `notation` and `names` the source
//! analyses, orders and notations these rest on; `measurement` the records of
//! measured intervals.
use vstd::prelude::*;

pub mod support;
pub mod syntax;
pub mod resource_contract;
pub mod equality;
pub mod finite;
pub mod capacity;
pub mod capacity_search;
pub mod engine;
pub mod probe;
pub mod order;
pub mod resource_fusion;
pub mod notation;
pub mod names;
pub mod phase;
pub mod phase_solve;
pub mod phase_learning;
pub mod join;
pub mod measurement;
pub mod fixtures;
pub mod selective;

verus! {

} // verus!
