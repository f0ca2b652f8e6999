use rulebound::input::{
    extract_array_for_key, extract_balanced_array, extract_first_array, extract_number, extract_seed,
    find, parse_map_config, parse_puzzle, parse_puzzle_array, parse_unsigned,
};
use rulebound::{
    solve_demo, solve_map_coloring, solve_sudoku, MapStepSolver, SolveError, StepEvent, StepSolver, SudokuFailure,
};

const EASY_GIVENS: [(usize, usize); 30] = [
    (1, 2), (8, 1), (12, 0), (15, 2), (18, 0),
    (19, 8), (20, 7), (23, 1), (30, 6), (32, 0),
    (33, 3), (36, 3), (39, 7), (43, 8), (49, 1),
    (50, 3), (52, 4), (53, 5), (55, 5), (56, 0),
    (57, 4), (58, 2), (59, 6), (62, 3), (63, 1),
    (65, 6), (68, 8), (70, 2), (77, 5), (78, 0),
];

fn easy_cells() -> Vec<u8> {
    let mut cells = vec![0u8; 81];
    for (idx, val) in EASY_GIVENS {
        cells[idx] = (val + 1) as u8;
    }
    cells
}

fn puzzle_json(cells: &[u8], seed: u64) -> String {
    let parts: Vec<String> = cells.iter().map(|c| c.to_string()).collect();
    format!("{{\"puzzle\":[{}],\"seed\":{}}}", parts.join(","), seed)
}

fn check_sudoku(values: &[usize]) {
    assert_eq!(values.len(), 81);
    for &v in values {
        assert!(v < 9);
    }
    for unit in 0..27 {
        let mut seen = [false; 9];
        for t in 0..9 {
            let cell = if unit < 9 {
                unit * 9 + t
            } else if unit < 18 {
                t * 9 + (unit - 9)
            } else {
                let b = unit - 18;
                ((b / 3) * 3 + t / 3) * 9 + (b % 3) * 3 + t % 3
            };
            assert!(!seen[values[cell]], "unit {unit} repeats a value");
            seen[values[cell]] = true;
        }
    }
}

const AUSTRALIA: &str =
    r#"{"nodes":7,"edges":[[0,1],[0,2],[1,2],[1,3],[2,3],[2,4],[3,4],[2,5],[4,5]],"colors":3,"seed":42}"#;

#[test]
fn parse_puzzle_from_raw_array() {
    let cells = parse_puzzle("[1,0,9]".as_bytes());
    assert_eq!(cells, vec![1, 0, 9]);
}

#[test]
fn parse_puzzle_from_object_array() {
    let cells = parse_puzzle(r#"{"puzzle":[1,0,9],"seed":7}"#.as_bytes());
    assert_eq!(cells, vec![1, 0, 9]);
}

#[test]
fn parse_puzzle_from_object_string_array() {
    let cells = parse_puzzle(r#"{"puzzle":"[1,0,9]","seed":7}"#.as_bytes());
    assert_eq!(cells, vec![1, 0, 9]);
}

#[test]
fn extract_seed_from_object() {
    assert_eq!(extract_seed(r#"{"puzzle":[0,0,0],"seed":1234}"#.as_bytes()), 1234);
}

#[test]
fn seed_defaults_to_42() {
    assert_eq!(extract_seed(b"{}"), 42);
    assert_eq!(extract_seed(br#"{"seed":"x"}"#), 42);
    assert_eq!(extract_seed(br#"{"seed" 5}"#), 42);
    assert_eq!(extract_seed(br#"{"seed":99999999999999999999999}"#), 42);
    assert_eq!(extract_seed(br#"{"seed":   17,}"#), 17);
}

#[test]
fn puzzle_cells_are_trimmed_and_read() {
    assert_eq!(parse_puzzle(br#" [ 1 , "2" , x, 300, +5 ] "#), vec![1, 2, 0, 0, 5]);
    assert_eq!(parse_puzzle(b"[]"), vec![0]);
    assert_eq!(parse_puzzle(b"no array here"), Vec::<u8>::new());
    assert_eq!(parse_puzzle(br#"{"puzzle":[1,2"#), Vec::<u8>::new());
    assert_eq!(parse_puzzle(br#"{"puzzle":5,"other":[3,4]}"#), vec![3, 4]);
}

#[test]
fn puzzle_array_keeps_empty_pieces() {
    let s = b"[1,,2]";
    assert_eq!(parse_puzzle_array(s, 0, s.len()), vec![1, 0, 2]);
}

#[test]
fn balanced_array_ends_after_its_closing_bracket() {
    let s = b"[[1],[2]] tail";
    assert_eq!(extract_balanced_array(s, 0), Some(9));
    assert_eq!(extract_balanced_array(s, 1), Some(4));
    assert_eq!(extract_balanced_array(b"[[1]", 0), None);
    assert_eq!(extract_balanced_array(b"x[1]", 0), None);
    assert_eq!(extract_balanced_array(b"", 0), None);
}

#[test]
fn arrays_are_found_by_key_or_first() {
    let s = br#"{"a":[0],"puzzle":[5,6]}"#;
    assert_eq!(extract_array_for_key(s, br#""puzzle""#), Some((18, 23)));
    assert_eq!(extract_first_array(s), Some((5, 8)));
    assert_eq!(extract_array_for_key(s, br#""none""#), None);
}

#[test]
fn find_gives_the_first_match_from_a_position() {
    assert_eq!(find(b"abcabc", b"bc", 0), Some(1));
    assert_eq!(find(b"abcabc", b"bc", 2), Some(4));
    assert_eq!(find(b"abcabc", b"bd", 0), None);
    assert_eq!(find(b"abc", b"", 1), Some(1));
}

#[test]
fn unsigned_numbers_are_read_with_a_limit() {
    let s = b"255 256 +7 - 12a";
    assert_eq!(parse_unsigned(s, 0, 3, 255), Some(255));
    assert_eq!(parse_unsigned(s, 4, 7, 255), None);
    assert_eq!(parse_unsigned(s, 8, 10, 255), Some(7));
    assert_eq!(parse_unsigned(s, 11, 12, 255), None);
    assert_eq!(parse_unsigned(s, 13, 16, 255), None);
    assert_eq!(parse_unsigned(s, 3, 3, 255), None);
}

#[test]
fn numbers_under_keys() {
    assert_eq!(extract_number(br#"{"nodes" :  12 }"#, br#""nodes""#), Some(12));
    assert_eq!(extract_number(br#"{"nodes":"x"}"#, br#""nodes""#), None);
    assert_eq!(extract_number(b"{}", br#""nodes""#), None);
}

#[test]
fn map_config_is_read() {
    let (nodes, colors, edges) = parse_map_config(br#"{"nodes":4,"edges":[[0,1],[1, 2] ,[2,3]],"colors":2}"#);
    assert_eq!((nodes, colors), (4, 2));
    assert_eq!(edges, vec![(0, 1), (1, 2), (2, 3)]);
}

#[test]
fn map_config_defaults_and_odd_pairs() {
    let (nodes, colors, edges) = parse_map_config(b"{}");
    assert_eq!((nodes, colors), (7, 3));
    assert!(edges.is_empty());
    let (_, _, edges) = parse_map_config(br#"{"edges":[[0, 1],[2,x,3],[4]]}"#);
    assert_eq!(edges, vec![(0, 1), (2, 3)]);
}

#[test]
fn sudoku_from_json_is_solved() {
    let cells = easy_cells();
    let result = solve_sudoku(puzzle_json(&cells, 42).as_bytes()).unwrap();
    check_sudoku(&result.solution.values);
    for (idx, val) in EASY_GIVENS {
        assert_eq!(result.solution.values[idx], val);
    }
}

#[test]
fn empty_sudoku_from_json_is_solved() {
    let result = solve_sudoku(br#"{"puzzle":[],"seed":5}"#).unwrap();
    check_sudoku(&result.solution.values);
}

#[test]
fn solve_demo_answers_as_solve_sudoku() {
    let json = puzzle_json(&easy_cells(), 7);
    let a = solve_demo(json.as_bytes()).unwrap();
    let b = solve_sudoku(json.as_bytes()).unwrap();
    check_sudoku(&a.solution.values);
    assert_eq!(a.solution.values, b.solution.values);
    let mut cells = vec![0u8; 81];
    cells[0] = 3;
    cells[9] = 3;
    assert_eq!(solve_demo(puzzle_json(&cells, 1).as_bytes()).err(), Some(SudokuFailure::Given(9)));
}

#[test]
fn contradicting_given_is_reported() {
    let mut cells = vec![0u8; 81];
    cells[0] = 5;
    cells[1] = 5;
    let r = solve_sudoku(puzzle_json(&cells, 1).as_bytes());
    assert_eq!(r.err(), Some(SudokuFailure::Given(1)));
}

#[test]
fn map_from_json_is_colored() {
    let result = solve_map_coloring(AUSTRALIA.as_bytes()).unwrap();
    let values = &result.solution.values;
    assert_eq!(values.len(), 7);
    let edges = [(0, 1), (0, 2), (1, 2), (1, 3), (2, 3), (2, 4), (3, 4), (2, 5), (4, 5)];
    for (a, b) in edges {
        assert_ne!(values[a], values[b]);
    }
    for &v in values {
        assert!(v < 3);
    }
}

#[test]
fn complete_map_with_too_few_colors_fails() {
    let r = solve_map_coloring(br#"{"nodes":4,"edges":[[0,1],[0,2],[0,3],[1,2],[1,3],[2,3]],"colors":3}"#);
    match r {
        Err(SolveError::Unsatisfiable) | Err(SolveError::Contradiction(_)) => {}
        other => panic!("expected no coloring, got {:?}", other.map(|r| r.solution.values)),
    }
}

#[test]
fn step_solver_reaches_a_solution() {
    let cells = easy_cells();
    let mut s = StepSolver::new(puzzle_json(&cells, 42).as_bytes());
    let (board, givens) = s.get_state();
    assert_eq!(givens.iter().filter(|g| **g).count(), 30);
    assert!(givens[1] && !givens[0]);
    assert_eq!(board.values.len(), 81);
    let mut solved = None;
    for _ in 0..100_000 {
        match s.step() {
            StepEvent::Solved { values } => {
                solved = Some(values);
                break;
            }
            StepEvent::Contradiction => panic!("the puzzle has a solution"),
            _ => {}
        }
    }
    let values = solved.expect("the search ends");
    check_sudoku(&values);
    for (idx, val) in EASY_GIVENS {
        assert_eq!(values[idx], val);
    }
    let (board, _) = s.get_state();
    assert!(board.solved);
    assert_eq!(board.decided, 81);
    match s.step() {
        StepEvent::Solved { values: again } => assert_eq!(again, values),
        _ => panic!("a solved search stays solved"),
    }
}

#[test]
fn map_step_solver_reaches_a_coloring() {
    let mut s = MapStepSolver::new(AUSTRALIA.as_bytes());
    let mut colors = None;
    for _ in 0..10_000 {
        match s.step() {
            StepEvent::Solved { values } => {
                colors = Some(values);
                break;
            }
            StepEvent::Contradiction => panic!("the map can be colored"),
            _ => {}
        }
    }
    let colors = colors.expect("the search ends");
    let edges = [(0, 1), (0, 2), (1, 2), (1, 3), (2, 3), (2, 4), (3, 4), (2, 5), (4, 5)];
    for (a, b) in edges {
        assert_ne!(colors[a], colors[b]);
    }
    let board = s.get_state();
    assert_eq!(board.values.len(), 7);
    assert!(board.solved);
}

#[test]
fn map_step_solver_without_colors_fails() {
    let mut s = MapStepSolver::new(br#"{"nodes":3,"edges":[[0,1],[1,2],[0,2]],"colors":2}"#);
    let mut saw_contradiction = false;
    for _ in 0..10_000 {
        match s.step() {
            StepEvent::Contradiction => {
                saw_contradiction = true;
                break;
            }
            StepEvent::Solved { .. } => panic!("a triangle needs three colors"),
            _ => {}
        }
    }
    assert!(saw_contradiction);
    assert!(matches!(s.step(), StepEvent::Contradiction));
}

#[test]
fn unicode_white_space_is_trimmed() {
    assert_eq!(parse_puzzle("[\u{a0}1\u{3000},\u{2009}2\u{85}]".as_bytes()), vec![1, 2]);
    assert_eq!(extract_seed("{\"seed\":\u{2028} 7}".as_bytes()), 7);
    let (_, _, edges) = parse_map_config("{\"edges\":[[\u{1680}0,1\u{205f}]]}".as_bytes());
    assert_eq!(edges, vec![(0, 1)]);
    assert_eq!(parse_puzzle("[\u{200b}1]".as_bytes()), vec![0]);
}

#[test]
fn first_contradicting_given_is_named_before_any_search() {
    assert_eq!(solve_sudoku(b"[1,1]").err(), Some(SudokuFailure::Given(1)));
}

#[test]
fn step_solver_with_one_blank_is_solved_at_the_first_step() {
    let grid: [u8; 81] = [
        0, 3, 4, 6, 7, 8, 9, 1, 2, 6, 7, 2, 1, 9, 5, 3, 4, 8, 1, 9, 8, 3, 4, 2, 5, 6, 7, 8, 5, 9, 7, 6, 1, 4, 2, 3,
        4, 2, 6, 8, 5, 3, 7, 9, 1, 7, 1, 3, 9, 2, 4, 8, 5, 6, 9, 6, 1, 5, 3, 7, 2, 8, 4, 2, 8, 7, 4, 1, 9, 6, 3, 5,
        3, 4, 5, 2, 8, 6, 1, 7, 9,
    ];
    let mut s = StepSolver::new(puzzle_json(&grid, 1).as_bytes());
    match s.step() {
        StepEvent::Solved { values } => {
            assert_eq!(values[0], 4);
            for i in 1..81 {
                assert_eq!(values[i] + 1, grid[i] as usize);
            }
        }
        _ => panic!("every cell is decided after propagation"),
    }
}

#[test]
fn map_step_solver_with_single_colors_is_solved_at_the_first_step() {
    let mut m = MapStepSolver::new(br#"{"nodes":2,"edges":[],"colors":1,"seed":7}"#);
    match m.step() {
        StepEvent::Solved { values } => assert_eq!(values, vec![0, 0]),
        _ => panic!("both one-color domains are decided"),
    }
}
