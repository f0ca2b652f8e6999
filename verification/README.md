# rulebound

A small constraint propagation solver (AC-3 with backtracking search) for game logic
and puzzle checking, written in Verus and verified.

- `src/bitset.rs`, `src/domain.rs`: fixed-size bit sets and variable domains.
- `src/constraint.rs`, `src/rule.rs`: the constraints (NotEqual, LessThan, Implication,
  AllDifferent, ExactlyN, Table) and their pruning, each proved to keep every
  satisfying assignment and to leave the largest domains in which it has nothing left
  to prune.
- `src/propagator.rs`: the AC-3 worklist; a successful run leaves the greatest common
  fixpoint of the constraints.
- `src/solver.rs`: assignment, propagation and search (chronological, restarts or
  none); solutions are proved to satisfy every constraint, and an unsatisfiable answer
  is proved to mean that none exists. The solver holds the built-in constraints by
  default; `Solver::<W, C>::new_custom` takes any constraint type `C` that implements
  `Constraint` (with its proofs, written in Verus), such as an enum holding the
  built-in constraints beside custom ones.
- `src/laws.rs`: properties that tie several operations together.
- `src/input.rs`, `src/puzzles.rs`, `src/stepper.rs`: the demo's logic: reading puzzle
  and map descriptions, Sudoku and map coloring set up on the solver, and a search that
  advances one step at a time and is proved to report a contradiction only when there
  is no solution.
- `app/`: the WebAssembly bindings of the demo, which write the JSON answers.
