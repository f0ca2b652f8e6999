//! Solver configuration.

use vstd::prelude::*;
use crate::backtrack::BacktrackStrategy;

verus! {

/// Variable selection heuristic for search.
#[derive(Debug, Clone, Copy, PartialEq, Eq)]
pub enum Heuristic {
    /// Select the variable with the smallest domain (MRV).
    MinDomain,
    /// Select the first unsolved variable.
    FirstUnsolved,
}

impl Default for Heuristic {
    fn default() -> (h: Self)
        ensures
            h == Heuristic::MinDomain,
    {
        Heuristic::MinDomain
    }
}

/// Configuration for the constraint solver.
#[derive(Debug, Clone, Copy)]
pub struct SolverConfig {
    /// Maximum propagation steps before giving up.
    pub max_propagation_steps: usize,
    /// Variable selection heuristic for search.
    pub heuristic: Heuristic,
    /// Backtracking strategy.
    pub backtrack: BacktrackStrategy,
}

impl Default for SolverConfig {
    fn default() -> (c: Self)
        ensures
            c.max_propagation_steps == 100_000,
            c.heuristic == Heuristic::MinDomain,
            c.backtrack == (BacktrackStrategy::Chronological { max_depth: 1000 }),
    {
        Self {
            max_propagation_steps: 100_000,
            heuristic: Heuristic::default(),
            backtrack: BacktrackStrategy::default(),
        }
    }
}

impl SolverConfig {
    /// Create a new config with defaults.
    pub fn new() -> (c: Self)
        ensures
            c.max_propagation_steps == 100_000,
            c.heuristic == Heuristic::MinDomain,
            c.backtrack == (BacktrackStrategy::Chronological { max_depth: 1000 }),
    {
        Self::default()
    }

    /// Set the maximum propagation steps.
    pub fn max_propagation_steps(self, n: usize) -> (c: Self)
        ensures
            c == (SolverConfig { max_propagation_steps: n, ..self }),
    {
        let mut c = self;
        c.max_propagation_steps = n;
        c
    }

    /// Set the variable selection heuristic.
    pub fn heuristic(self, h: Heuristic) -> (c: Self)
        ensures
            c == (SolverConfig { heuristic: h, ..self }),
    {
        let mut c = self;
        c.heuristic = h;
        c
    }

    /// Set the backtracking strategy.
    pub fn backtrack(self, b: BacktrackStrategy) -> (c: Self)
        ensures
            c == (SolverConfig { backtrack: b, ..self }),
    {
        let mut c = self;
        c.backtrack = b;
        c
    }
}

} // verus!
