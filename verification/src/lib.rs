//! A small, file-backed issue tracker built for coordinating work items
//! across sessions on one machine.
//!
//! The crate covers the tracker's core: an ownership state machine that
//! moves an issue between open, in-progress and closed as sessions claim,
//! release or finish work; a bidirectional blocking-dependency graph with
//! readiness queries, tree rendering and cycle detection; a line-oriented
//! record codec with a proved round trip; and collision-free identifier
//! generation seeded from a digest of the title and creation time.

pub mod codec;
pub mod errors;
pub mod graph;
pub mod idgen;
pub mod import;
pub mod issue;
pub mod sorting;
pub mod store;
pub mod text;

use vstd::prelude::*;

verus! {

/// Priority given to a new issue when the caller names none.
/// Priorities run from 0 (most urgent) to 4.
pub fn default_priority() -> (p: u8)
    ensures
        p == 2,
{
    2
}

} // verus!
