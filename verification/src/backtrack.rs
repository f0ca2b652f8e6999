//! Backtracking strategies for constraint solving.

use vstd::prelude::*;

verus! {

/// Strategy for backtracking during search.
#[derive(Debug, Clone, Copy, PartialEq, Eq)]
pub enum BacktrackStrategy {
    /// No backtracking -- fail immediately on contradiction.
    NoBacktrack,
    /// Restart from scratch on contradiction (up to max_restarts).
    Restart { max_restarts: usize },
    /// Chronological backtracking (up to max_depth).
    Chronological { max_depth: usize },
}

impl Default for BacktrackStrategy {
    fn default() -> (s: Self)
        ensures
            s == (BacktrackStrategy::Chronological { max_depth: 1000 }),
    {
        BacktrackStrategy::Chronological { max_depth: 1000 }
    }
}

} // verus!
