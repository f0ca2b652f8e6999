//! Hooks for watching a solver at work.

use vstd::prelude::*;

verus! {

/// Receives notice of what a solver does. Every method does nothing unless an
/// implementation says otherwise.
pub trait Observer<const W: usize> {
    /// A variable was given a value.
    fn on_assign(&mut self, variable: usize, value: usize) {
    }

    /// A value left a variable's domain.
    fn on_prune(&mut self, variable: usize, value: usize) {
    }

    /// A round of propagation finished.
    fn on_propagation_round(&mut self, round: usize) {
    }

    /// The search went back to an earlier depth.
    fn on_backtrack(&mut self, depth: usize) {
    }

    /// Solving finished.
    fn on_complete(&mut self) {
    }
}

/// An observer that ignores every notice.
pub struct NoOpObserver;

impl<const W: usize> Observer<W> for NoOpObserver {
}

} // verus!
