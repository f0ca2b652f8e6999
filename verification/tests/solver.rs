use rand::rngs::SmallRng;
use rand::SeedableRng;
use rulebound::{
    AllDifferent, BacktrackStrategy, ExactlyN, Heuristic, Implication, LessThan, NotEqual,
    SolveError, SolveResult, Solver, SolverConfig, Table,
};

#[test]
fn assign_propagates() {
    // 2 vars {0,1,2}, A!=B, assign A=1 → B loses 1
    let mut solver = Solver::<1>::new(2, 3, SolverConfig::default());
    solver.add_constraint(NotEqual::new(0, 1));
    solver.assign(0, 1).unwrap();
    assert_eq!(solver.domain(0).singleton_value(), Some(1));
    assert!(!solver.domain(1).contains(1));
    assert_eq!(solver.domain(1).count(), 2);
}

#[test]
fn constraint_on_a_missing_variable_is_accepted() {
    let mut solver = Solver::<1>::new(2, 3, SolverConfig::default());
    solver.add_constraint(NotEqual::new(0, 5));
    assert_eq!(solver.num_variables(), 2);
    assert_eq!(solver.domain(0).count(), 3);
    assert_eq!(solver.domain(1).count(), 3);
}

#[test]
fn propagate_returns_solved() {
    // 2 vars, assign both → is_solved
    let mut solver = Solver::<1>::new(2, 3, SolverConfig::default());
    solver.add_constraint(NotEqual::new(0, 1));
    solver.assign(0, 0).unwrap();
    solver.assign(1, 1).unwrap();
    let solved = solver.propagate().unwrap();
    assert!(solved);
    assert!(solver.is_solved());
}

#[test]
fn same_seed_same_solution_100_times() {
    let reference = solve_with_seed(42);
    for _ in 0..100 {
        let result = solve_with_seed(42);
        assert_eq!(result.solution.values, reference.solution.values);
    }
}

fn solve_with_seed(seed: u64) -> SolveResult {
    let mut solver = Solver::<1>::new(7, 3, SolverConfig::default());
    let edges = [(0, 1), (0, 2), (1, 2), (1, 3), (2, 3), (2, 4), (2, 5), (3, 4), (4, 5)];
    for (a, b) in edges {
        solver.add_constraint(NotEqual::new(a, b));
    }
    let mut rng = SmallRng::seed_from_u64(seed);
    solver.solve(&mut rng).unwrap()
}

#[test]
fn incremental_matches_full_solve() {
    // Build incrementally
    let mut solver = Solver::<1>::new(4, 4, SolverConfig::default());
    solver.add_constraint(NotEqual::new(0, 1));
    solver.propagate().unwrap();
    solver.add_constraint(NotEqual::new(1, 2));
    solver.propagate_incremental().unwrap();
    solver.add_constraint(NotEqual::new(2, 3));
    solver.propagate_incremental().unwrap();
    solver.add_constraint(AllDifferent::new(&[0, 1, 2, 3]));
    let mut rng = SmallRng::seed_from_u64(42);
    let inc_result = solver.solve(&mut rng).unwrap();

    // Build from scratch
    let mut solver2 = Solver::<1>::new(4, 4, SolverConfig::default());
    solver2.add_constraint(NotEqual::new(0, 1));
    solver2.add_constraint(NotEqual::new(1, 2));
    solver2.add_constraint(NotEqual::new(2, 3));
    solver2.add_constraint(AllDifferent::new(&[0, 1, 2, 3]));
    let mut rng2 = SmallRng::seed_from_u64(42);
    let full_result = solver2.solve(&mut rng2).unwrap();

    // Same solution (deterministic)
    assert_eq!(inc_result.solution.values, full_result.solution.values);
}

#[test]
fn australia_map_3_colors() {
    // WA, NT, SA, Q, NSW, V, T — edges represent shared borders
    let mut solver = Solver::<1>::new(7, 3, SolverConfig::default());
    let edges = [(0, 1), (0, 2), (1, 2), (1, 3), (2, 3), (2, 4), (2, 5), (3, 4), (4, 5)];
    for (a, b) in edges {
        solver.add_constraint(NotEqual::new(a, b));
    }
    let mut rng = SmallRng::seed_from_u64(42);
    let result = solver.solve(&mut rng).unwrap();
    for (a, b) in edges {
        assert_ne!(
            result.solution.values[a], result.solution.values[b],
            "adjacent nodes {a} and {b} share color"
        );
    }
}

#[test]
fn complete_graph_k4_needs_4_colors() {
    // K4 with 3 colors should be unsolvable
    let mut solver = Solver::<1>::new(4, 3, SolverConfig::default());
    for i in 0..4 {
        for j in (i + 1)..4 {
            solver.add_constraint(NotEqual::new(i, j));
        }
    }
    let mut rng = SmallRng::seed_from_u64(42);
    assert!(solver.solve(&mut rng).is_err(), "K4 with 3 colors is unsolvable");

    // K4 with 4 colors should be solvable
    let mut solver = Solver::<1>::new(4, 4, SolverConfig::default());
    for i in 0..4 {
        for j in (i + 1)..4 {
            solver.add_constraint(NotEqual::new(i, j));
        }
    }
    let mut rng = SmallRng::seed_from_u64(42);
    let result = solver.solve(&mut rng).unwrap();
    for i in 0..4 {
        for j in (i + 1)..4 {
            assert_ne!(result.solution.values[i], result.solution.values[j]);
        }
    }
}

fn solve_n_queens(n: usize) -> SolveResult {
    // N variables (one per row), domain {0..N-1} (column positions)
    let mut solver = Solver::<1>::new(n, n, SolverConfig::default());

    // No two queens in same column
    solver.add_constraint(AllDifferent::new(&(0..n).collect::<Vec<_>>()));

    // Diagonal constraints: |col_i - col_j| != |i - j|
    // Use Table constraint for each pair
    for i in 0..n {
        for j in (i + 1)..n {
            let diff = j - i;
            let mut allowed = Vec::new();
            for ci in 0..n {
                for cj in 0..n {
                    if ci != cj && (ci as isize - cj as isize).unsigned_abs() != diff {
                        allowed.push(vec![ci, cj]);
                    }
                }
            }
            solver.add_constraint(Table::new(&[i, j], allowed));
        }
    }

    let mut rng = SmallRng::seed_from_u64(42);
    solver.solve(&mut rng).unwrap()
}

#[test]
fn four_queens() {
    let result = solve_n_queens(4);
    let cols = &result.solution.values;
    assert_eq!(cols.len(), 4);
    // Verify no conflicts
    for i in 0..4 {
        for j in (i + 1)..4 {
            assert_ne!(cols[i], cols[j], "same column");
            assert_ne!((cols[i] as isize - cols[j] as isize).unsigned_abs(), j - i, "diagonal");
        }
    }
}

#[test]
fn eight_queens() {
    let result = solve_n_queens(8);
    let cols = &result.solution.values;
    for i in 0..8 {
        for j in (i + 1)..8 {
            assert_ne!(cols[i], cols[j], "same column");
            assert_ne!((cols[i] as isize - cols[j] as isize).unsigned_abs(), j - i, "diagonal");
        }
    }
}

fn setup_sudoku() -> Solver<1> {
    let mut solver = Solver::<1>::new(81, 9, SolverConfig::default());

    // Row constraints: AllDifferent for each row
    for row in 0..9 {
        let vars: Vec<usize> = (0..9).map(|col| row * 9 + col).collect();
        solver.add_constraint(AllDifferent::new(&vars));
    }
    // Column constraints
    for col in 0..9 {
        let vars: Vec<usize> = (0..9).map(|row| row * 9 + col).collect();
        solver.add_constraint(AllDifferent::new(&vars));
    }
    // 3x3 box constraints
    for box_row in 0..3 {
        for box_col in 0..3 {
            let mut vars = Vec::new();
            for r in 0..3 {
                for c in 0..3 {
                    vars.push((box_row * 3 + r) * 9 + (box_col * 3 + c));
                }
            }
            solver.add_constraint(AllDifferent::new(&vars));
        }
    }
    solver
}

fn verify_sudoku(values: &[usize]) {
    // Each row has all 9 values
    for row in 0..9 {
        let mut seen = [false; 9];
        for col in 0..9 {
            let v = values[row * 9 + col];
            assert!(v < 9, "value out of range");
            assert!(!seen[v], "duplicate in row {row}");
            seen[v] = true;
        }
    }
    // Each column
    for col in 0..9 {
        let mut seen = [false; 9];
        for row in 0..9 {
            let v = values[row * 9 + col];
            assert!(!seen[v], "duplicate in col {col}");
            seen[v] = true;
        }
    }
    // Each box
    for br in 0..3 {
        for bc in 0..3 {
            let mut seen = [false; 9];
            for r in 0..3 {
                for c in 0..3 {
                    let v = values[(br * 3 + r) * 9 + (bc * 3 + c)];
                    assert!(!seen[v], "duplicate in box ({br},{bc})");
                    seen[v] = true;
                }
            }
        }
    }
}

#[test]
fn solve_easy_sudoku() {
    let mut solver = setup_sudoku();
    // Easy puzzle derived from a known valid Sudoku grid.
    // Values are 0-indexed (0..9 maps to 1..9 in standard notation).
    let givens: [(usize, usize); 30] = [
        (1, 2), (8, 1), (12, 0), (15, 2), (18, 0),
        (19, 8), (20, 7), (23, 1), (30, 6), (32, 0),
        (33, 3), (36, 3), (39, 7), (43, 8), (49, 1),
        (50, 3), (52, 4), (53, 5), (55, 5), (56, 0),
        (57, 4), (58, 2), (59, 6), (62, 3), (63, 1),
        (65, 6), (68, 8), (70, 2), (77, 5), (78, 0),
    ];
    for (idx, val) in givens {
        solver.assign(idx, val).unwrap();
    }
    let mut rng = SmallRng::seed_from_u64(42);
    let result = solver.solve(&mut rng).unwrap();
    verify_sudoku(&result.solution.values);
    for (idx, val) in givens {
        assert_eq!(result.solution.values[idx], val);
    }
}

#[test]
fn solve_empty_sudoku() {
    let mut solver = setup_sudoku();
    let mut rng = SmallRng::seed_from_u64(123);
    let result = solver.solve(&mut rng).unwrap();
    verify_sudoku(&result.solution.values);
}

#[test]
fn solved_domains_are_the_solution() {
    let mut solver = Solver::<1>::new(3, 3, SolverConfig::default());
    solver.add_constraint(AllDifferent::new(&[0, 1, 2]));
    let mut rng = SmallRng::seed_from_u64(7);
    let result = solver.solve(&mut rng).unwrap();
    assert!(solver.is_solved());
    for i in 0..3 {
        assert_eq!(solver.domain(i).singleton_value(), Some(result.solution.values[i]));
    }
    assert!(result.propagation_rounds >= 1);
}

#[test]
fn initial_contradiction_is_reported() {
    let mut solver = Solver::<1>::new(2, 1, SolverConfig::default());
    solver.add_constraint(NotEqual::new(0, 1));
    let mut rng = SmallRng::seed_from_u64(1);
    match solver.solve(&mut rng) {
        Err(SolveError::Contradiction(c)) => assert_eq!(c.variable, 1),
        other => panic!("unexpected: {:?}", other.map(|r| r.solution.values)),
    }
}

#[test]
fn empty_domain_outside_every_constraint_is_unsatisfiable() {
    let mut solver = Solver::<1>::new(2, 0, SolverConfig::default());
    let mut rng = SmallRng::seed_from_u64(1);
    assert_eq!(solver.solve(&mut rng).err(), Some(SolveError::Unsatisfiable));
}

#[test]
fn k4_with_3_colors_is_unsatisfiable() {
    let mut solver = Solver::<1>::new(4, 3, SolverConfig::default());
    for i in 0..4 {
        for j in (i + 1)..4 {
            solver.add_constraint(NotEqual::new(i, j));
        }
    }
    let mut rng = SmallRng::seed_from_u64(42);
    assert_eq!(solver.solve(&mut rng).err(), Some(SolveError::Unsatisfiable));
}

#[test]
fn no_backtracking_gives_up_on_a_dead_end() {
    let config = SolverConfig::new().backtrack(BacktrackStrategy::NoBacktrack);
    let mut solver = Solver::<1>::new(4, 3, config);
    for i in 0..4 {
        for j in (i + 1)..4 {
            solver.add_constraint(NotEqual::new(i, j));
        }
    }
    let mut rng = SmallRng::seed_from_u64(42);
    assert_eq!(solver.solve(&mut rng).err(), Some(SolveError::BacktrackLimitExceeded));
}

#[test]
fn restarts_find_a_solution_or_give_up() {
    let config = SolverConfig::new()
        .backtrack(BacktrackStrategy::Restart { max_restarts: 50 })
        .heuristic(Heuristic::FirstUnsolved);
    let mut solver = Solver::<1>::new(3, 3, config);
    solver.add_constraint(AllDifferent::new(&[0, 1, 2]));
    let mut rng = SmallRng::seed_from_u64(3);
    let result = solver.solve(&mut rng).unwrap();
    let mut vals = result.solution.values.clone();
    vals.sort();
    assert_eq!(vals, vec![0, 1, 2]);

    let config = SolverConfig::new().backtrack(BacktrackStrategy::Restart { max_restarts: 3 });
    let mut solver = Solver::<1>::new(4, 3, config);
    for i in 0..4 {
        for j in (i + 1)..4 {
            solver.add_constraint(NotEqual::new(i, j));
        }
    }
    let mut rng = SmallRng::seed_from_u64(42);
    let err = solver.solve(&mut rng).err();
    assert_eq!(err, Some(SolveError::BacktrackLimitExceeded));
}

#[test]
fn depth_limit_is_reported() {
    let config = SolverConfig::new().backtrack(BacktrackStrategy::Chronological { max_depth: 0 });
    let mut solver = Solver::<1>::new(3, 3, config);
    solver.add_constraint(AllDifferent::new(&[0, 1, 2]));
    let mut rng = SmallRng::seed_from_u64(3);
    assert_eq!(solver.solve(&mut rng).err(), Some(SolveError::BacktrackLimitExceeded));
}

#[test]
fn mixed_constraints_solve() {
    // x0 < x1, exactly two of x0..x3 take 2, x2 = 1 implies x3 in {0}
    let mut solver = Solver::<1>::new(4, 3, SolverConfig::default());
    solver.add_constraint(LessThan::new(0, 1));
    solver.add_constraint(ExactlyN::new(&[0, 1, 2, 3], 2, 2));
    let mut only_zero = rulebound::BitSet::<1>::empty();
    only_zero.insert(0);
    solver.add_constraint(Implication::new(2, 1, 3, only_zero));
    let mut rng = SmallRng::seed_from_u64(11);
    let result = solver.solve(&mut rng).unwrap();
    let v = &result.solution.values;
    assert!(v[0] < v[1]);
    assert_eq!(v.iter().filter(|&&x| x == 2).count(), 2);
    if v[2] == 1 {
        assert_eq!(v[3], 0);
    }
}

#[test]
fn solver_reports_its_size_and_domains() {
    let solver = Solver::<2>::new(5, 70, SolverConfig::default());
    assert_eq!(solver.num_variables(), 5);
    assert_eq!(solver.domains().len(), 5);
    assert_eq!(solver.domain(4).count(), 70);
    assert!(!solver.is_solved());
}

fn domain_lists(solver: &Solver<1>) -> Vec<Vec<usize>> {
    (0..solver.num_variables()).map(|i| solver.domain(i).to_vec()).collect()
}

#[test]
fn incremental_and_full_propagation_leave_the_same_domains() {
    let mut inc = Solver::<1>::new(3, 3, SolverConfig::default());
    inc.add_constraint(LessThan::new(0, 1));
    inc.propagate().unwrap();
    inc.add_constraint(LessThan::new(1, 2));
    let inc_solved = inc.propagate_incremental().unwrap();

    let mut full = Solver::<1>::new(3, 3, SolverConfig::default());
    full.add_constraint(LessThan::new(0, 1));
    full.add_constraint(LessThan::new(1, 2));
    let full_solved = full.propagate().unwrap();

    assert_eq!(inc_solved, full_solved);
    assert!(inc_solved);
    assert_eq!(domain_lists(&inc), domain_lists(&full));
    assert_eq!(domain_lists(&inc), vec![vec![0], vec![1], vec![2]]);
}

#[test]
fn incremental_and_full_propagation_fail_together() {
    let mut inc = Solver::<1>::new(2, 2, SolverConfig::default());
    inc.add_constraint(LessThan::new(0, 1));
    inc.propagate().unwrap();
    inc.add_constraint(LessThan::new(1, 0));
    assert!(inc.propagate_incremental().is_err());

    let mut full = Solver::<1>::new(2, 2, SolverConfig::default());
    full.add_constraint(LessThan::new(0, 1));
    full.add_constraint(LessThan::new(1, 0));
    assert!(full.propagate().is_err());
}

#[test]
fn a_draw_swaps_with_the_place_it_picks() {
    let mut values = vec![10, 20, 30, 40];
    rulebound::rng::swap_with_draw(&mut values, 3, 6);
    assert_eq!(values, vec![10, 20, 40, 30]);
    rulebound::rng::swap_with_draw(&mut values, 2, 3);
    assert_eq!(values, vec![40, 20, 10, 30]);
    rulebound::rng::swap_with_draw(&mut values, 1, 5);
    assert_eq!(values, vec![40, 20, 10, 30]);
}

#[test]
fn a_failed_descent_without_backtracking_reports_the_limit() {
    // two variables that must differ but share one value: no descent can succeed
    let config = SolverConfig::new().backtrack(BacktrackStrategy::Restart { max_restarts: 3 });
    let mut solver = Solver::<1>::new(3, 2, config);
    solver.add_constraint(NotEqual::new(0, 1));
    solver.add_constraint(NotEqual::new(1, 2));
    solver.add_constraint(NotEqual::new(0, 2));
    let mut rng = SmallRng::seed_from_u64(1);
    assert!(matches!(solver.solve(&mut rng), Err(SolveError::BacktrackLimitExceeded)));
}


#[test]
fn the_number_of_variables_stays_over_any_calls() {
    let mut solver = Solver::<1>::new(4, 3, SolverConfig::default());
    solver.add_constraint(NotEqual::new(0, 1));
    assert_eq!(solver.num_variables(), 4);
    let _ = solver.assign(0, 1);
    assert_eq!(solver.num_variables(), 4);
    let _ = solver.propagate();
    solver.add_constraint(LessThan::new(2, 3));
    let _ = solver.propagate_incremental();
    assert_eq!(solver.num_variables(), 4);
    let mut rng = SmallRng::seed_from_u64(3);
    let _ = solver.solve(&mut rng);
    assert_eq!(solver.num_variables(), 4);
    assert_eq!(solver.domains().len(), 4);
}

#[test]
fn without_backtracking_a_solution_has_no_backtracks() {
    let config = SolverConfig::new().backtrack(BacktrackStrategy::NoBacktrack);
    let mut solver = Solver::<1>::new(3, 3, config);
    solver.add_constraint(AllDifferent::new(&[0, 1, 2]));
    let mut rng = SmallRng::seed_from_u64(9);
    let result = solver.solve(&mut rng).unwrap();
    assert_eq!(result.backtracks, 0);
    assert!(result.propagation_rounds <= 1 + 3);
    let mut v = result.solution.values.clone();
    v.sort();
    assert_eq!(v, vec![0, 1, 2]);
}

#[test]
fn errors_tell_their_messages() {
    let c = rulebound::Contradiction { variable: 12 };
    assert_eq!(c.to_string(), "contradiction: variable 12 has empty domain");
    assert_eq!(SolveError::Contradiction(rulebound::Contradiction { variable: 0 }).to_string(),
        "contradiction: variable 0 has empty domain");
    assert_eq!(SolveError::Unsatisfiable.to_string(), "no solution exists");
    assert_eq!(SolveError::BacktrackLimitExceeded.to_string(), "backtrack limit exceeded");
    assert_eq!(rulebound::error::decimal(1_000_907), "1000907");
}
