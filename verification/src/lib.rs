//! A constraint propagation solver with arc-consistency and backtracking search.

pub mod backtrack;
pub mod bitset;
pub mod config;
pub mod domain;
pub mod error;
pub mod input;
pub mod laws;
pub mod observer;
pub mod constraint;
pub mod propagator;
pub mod puzzles;
pub mod rng;
pub mod rule;
pub mod solver;
pub mod stepper;

pub use bitset::BitSet;
pub use domain::Domain;
pub use error::{Contradiction, SolveError};
pub use observer::{NoOpObserver, Observer};
pub use propagator::Propagator;
pub use config::{Heuristic, SolverConfig};
pub use backtrack::BacktrackStrategy;
pub use rule::Rule;
pub use constraint::{AllDifferent, Constraint, ExactlyN, Implication, LessThan, NotEqual, Table};
pub use solver::{Solution, SolveResult, Solver};
pub use stepper::{BoardView, StepEvent, StepState, Stepper};
pub use puzzles::{MapStepSolver, StepSolver, SudokuFailure, setup_sudoku, solve_demo, solve_map_coloring, solve_sudoku};
