//! Two puzzles set up on the solver: Sudoku and map coloring.

use vstd::prelude::*;
use crate::bitset::BitSet;
use crate::backtrack::BacktrackStrategy;
use crate::config::SolverConfig;
use crate::error::SolveError;
use crate::input::{edge_ints, extract_seed, map_colors, map_edges, map_nodes, parse_map_config, parse_puzzle, puzzle_cells};
use crate::rng::seeded;
use crate::solver::{as_ints, lemma_fixing_keeps, lemma_outcome_from, narrows_keeping, run_outcome, SolveResult};
use crate::stepper::{BoardView, Frame, StepEvent, StepState, Stepper, shows, step_outcome, undecided_upto};
use crate::constraint::{AllDifferent, Constraint, NotEqual};
use crate::domain::consistent;
use crate::propagator::{fixpoint_within, is_solution, no_fixpoint};
use crate::rule::Rule;
use crate::solver::Solver;

verus! {

/// The cells of unit `k` of a Sudoku grid, numbered row by row: units 0 to 8 are the
/// rows, 9 to 17 the columns and 18 to 26 the 3x3 boxes, each box row by row.
pub open spec fn sudoku_unit(k: int) -> Seq<usize> {
    if k < 9 {
        Seq::new(9, |c: int| (k * 9 + c) as usize)
    } else if k < 18 {
        Seq::new(9, |r: int| (r * 9 + (k - 9)) as usize)
    } else {
        let b = k - 18;
        Seq::new(9, |t: int| (((b / 3) * 3 + t / 3) * 9 + (b % 3) * 3 + t % 3) as usize)
    }
}

/// The constraints of a Sudoku: in order, that the cells of each unit differ.
pub open spec fn sudoku_rules(cs: Seq<Rule<1>>) -> bool {
    &&& cs.len() == 27
    &&& forall|k: int| 0 <= k < 27 ==> (#[trigger] cs[k] matches Rule::AllDifferent(c) && c.vars() == sudoku_unit(k))
}

/// A filled Sudoku grid: 81 values from 0 to 8, different within every unit.
pub open spec fn is_sudoku(a: Seq<int>) -> bool {
    &&& a.len() == 81
    &&& forall|i: int| 0 <= i < 81 ==> 0 <= #[trigger] a[i] < 9
    &&& forall|k: int, i: int, j: int| 0 <= k < 27 && 0 <= i < j < 9
        ==> a[#[trigger] sudoku_unit(k)[i] as int] != a[#[trigger] sudoku_unit(k)[j] as int]
}

/// The cells of unit `k`.
fn unit_cells(k: usize) -> (cells: Vec<usize>)
    requires
        k < 27,
    ensures
        cells@ == sudoku_unit(k as int),
        forall|i: int| 0 <= i < cells@.len() ==> #[trigger] cells@[i] < 81,
{
    let mut cells: Vec<usize> = Vec::new();
    let mut t: usize = 0;
    while t < 9
        invariant
            k < 27,
            t <= 9,
            cells@.len() == t,
            forall|i: int| 0 <= i < t ==> #[trigger] cells@[i] == sudoku_unit(k as int)[i],
            forall|i: int| 0 <= i < t ==> #[trigger] cells@[i] < 81,
        decreases 9 - t,
    {
        let cell = if k < 9 {
            k * 9 + t
        } else if k < 18 {
            t * 9 + (k - 9)
        } else {
            let b = k - 18;
            ((b / 3) * 3 + t / 3) * 9 + (b % 3) * 3 + t % 3
        };
        cells.push(cell);
        t = t + 1;
    }
    assert(cells@ =~= sudoku_unit(k as int));
    cells
}

/// A solver for the 9x9 Sudoku: 81 cells with the values 0 to 8, and the constraints
/// that the cells of every row, column and box differ.
pub fn setup_sudoku() -> (s: Solver<1>)
    ensures
        s.wf(),
        s.scopes_fit(),
        s.doms().len() == 81,
        forall|i: int| 0 <= i < 81 ==> #[trigger] s.doms()[i] == Set::new(|v: int| 0 <= v < 9),
        sudoku_rules(s.rules()),
        s.configuration().backtrack == (BacktrackStrategy::Chronological { max_depth: 1000 }),
{
    let mut solver = Solver::<1>::new(81, 9, SolverConfig::default());
    proof {
        assert forall|i: int| 0 <= i < 81 implies #[trigger] solver.doms()[i] == Set::new(|v: int| 0 <= v < 9) by {
            assert(solver.doms()[i] =~= Set::new(|v: int| 0 <= v < 9));
        }
    }
    let ghost d0 = solver.doms();
    let mut k: usize = 0;
    while k < 27
        invariant
            k <= 27,
            solver.wf(),
            solver.scopes_fit(),
            solver.configuration().backtrack == (BacktrackStrategy::Chronological { max_depth: 1000 }),
            solver.doms() == d0,
            d0.len() == 81,
            forall|i: int| 0 <= i < 81 ==> #[trigger] d0[i] == Set::new(|v: int| 0 <= v < 9),
            solver.rules().len() == k,
            forall|j: int| 0 <= j < k ==> (#[trigger] solver.rules()[j] matches Rule::AllDifferent(c) && c.vars() == sudoku_unit(j)),
        decreases 27 - k,
    {
        let cells = unit_cells(k);
        let c = AllDifferent::new(cells.as_slice());
        let ghost before = solver.rules();
        solver.add_constraint(c);
        proof {
            assert(crate::domain::in_bounds(c.vars(), 81));
            assert forall|j: int| 0 <= j < k + 1 implies (#[trigger] solver.rules()[j] matches Rule::AllDifferent(c) && c.vars() == sudoku_unit(j)) by {
                if j < k {
                    assert(solver.rules()[j] == before[j]);
                }
            }
        }
        k = k + 1;
    }
    solver
}

/// Under the Sudoku constraints and domains, the solutions are the filled grids.
pub proof fn lemma_sudoku_solutions(cs: Seq<Rule<1>>, doms: Seq<Set<int>>, a: Seq<int>)
    requires
        sudoku_rules(cs),
        doms.len() == 81,
        forall|i: int| 0 <= i < 81 ==> #[trigger] doms[i] == Set::new(|v: int| 0 <= v < 9),
    ensures
        is_solution(cs, doms, a) <==> is_sudoku(a),
{
    if is_solution(cs, doms, a) {
        assert forall|i: int| 0 <= i < 81 implies 0 <= #[trigger] a[i] < 9 by {
            assert(doms[i].contains(a[i]));
        }
        assert forall|k: int, i: int, j: int| 0 <= k < 27 && 0 <= i < j < 9
            implies a[#[trigger] sudoku_unit(k)[i] as int] != a[#[trigger] sudoku_unit(k)[j] as int] by {
            assert(cs[k].holds(a));
            if let Rule::AllDifferent(c) = cs[k] {
                assert(c.variables@[i] == sudoku_unit(k)[i]);
                assert(c.variables@[j] == sudoku_unit(k)[j]);
            }
        }
    }
    if is_sudoku(a) {
        assert forall|i: int| 0 <= i < a.len() implies #[trigger] doms[i].contains(a[i]) by {
            assert(0 <= a[i] < 9);
        }
        assert forall|k: int| 0 <= k < cs.len() implies #[trigger] cs[k].holds(a) by {
            if let Rule::AllDifferent(c) = cs[k] {
                assert forall|i: int, j: int| 0 <= i < j < c.variables@.len()
                    implies a[#[trigger] c.variables@[i] as int] != a[#[trigger] c.variables@[j] as int] by {
                    assert(c.variables@[i] == sudoku_unit(k)[i]);
                    assert(c.variables@[j] == sudoku_unit(k)[j]);
                }
            }
        }
    }
}

/// Whether a cell holds a given: a value from 1 to 9.
pub open spec fn is_given(c: int) -> bool {
    1 <= c <= 9
}

/// The cells as integers.
pub open spec fn cell_ints(cells: Seq<u8>) -> Seq<int> {
    cells.map_values(|c: u8| c as int)
}

/// `a` gives each of the first `n` cells that holds a given that value less one.
pub open spec fn agrees_with(cells: Seq<int>, n: int, a: Seq<int>) -> bool {
    forall|j: int| 0 <= j < n && is_given(#[trigger] cells[j]) ==> a[j] == cells[j] - 1
}

/// The domains `d` with each of the first `n` cells that holds a given fixed to that
/// value less one.
pub open spec fn with_givens(d: Seq<Set<int>>, cells: Seq<int>, n: int) -> Seq<Set<int>> {
    Seq::new(d.len(), |j: int| if j < n && j < cells.len() && is_given(cells[j]) { set![cells[j] - 1] } else { d[j] })
}

/// Fix each cell that holds a given to that value less one, in order, stopping at the
/// first contradiction. On success the solutions left are the earlier ones that agree
/// with every given; a failure at cell `i` means no earlier solution agrees with the
/// givens up to `i`.
pub fn assign_givens(solver: &mut Solver<1>, cells: &[u8]) -> (r: Result<(), usize>)
    requires
        old(solver).wf(),
        old(solver).scopes_fit(),
        forall|j: int| 0 <= j < cells@.len() && is_given(#[trigger] cell_ints(cells@)[j]) ==> j < old(solver).doms().len()
            && old(solver).doms()[j].contains(cells@[j] - 1),
    ensures
        final(solver).wf(),
        final(solver).scopes_fit(),
        final(solver).rules() == old(solver).rules(),
        final(solver).configuration() == old(solver).configuration(),
        final(solver).doms().len() == old(solver).doms().len(),
        match r {
            Ok(()) => forall|a: Seq<int>| #[trigger] is_solution(old(solver).rules(), final(solver).doms(), a)
                <==> is_solution(old(solver).rules(), old(solver).doms(), a) && agrees_with(cell_ints(cells@), cells@.len() as int, a),
            Err(i) => {
                &&& i < cells@.len()
                &&& is_given(cells@[i as int] as int)
                &&& forall|a: Seq<int>| !(#[trigger] is_solution(old(solver).rules(), old(solver).doms(), a) && agrees_with(cell_ints(cells@), i + 1, a))
                &&& no_fixpoint(old(solver).rules(), with_givens(old(solver).doms(), cell_ints(cells@), i + 1))
            },
        },
        forall|j: int| 0 <= j < cells@.len() && is_given(#[trigger] cell_ints(cells@)[j])
            && (r matches Err(i) ==> j < i)
            ==> !no_fixpoint(old(solver).rules(), with_givens(old(solver).doms(), cell_ints(cells@), j + 1)),
{
    let ghost cs = solver.rules();
    let ghost d0 = solver.doms();
    proof {
        assert(with_givens(d0, cell_ints(cells@), 0) =~= d0);
    }
    let mut i: usize = 0;
    while i < cells.len()
        invariant
            solver.wf(),
            solver.scopes_fit(),
            solver.rules() == cs,
            solver.configuration() == old(solver).configuration(),
            cs == old(solver).rules(),
            d0 == old(solver).doms(),
            i <= cells@.len(),
            forall|j: int| 0 <= j < cells@.len() && is_given(#[trigger] cell_ints(cells@)[j]) ==> j < d0.len() && d0[j].contains(cells@[j] - 1),
            crate::domain::shrinks(solver.doms(), d0),
            forall|j: int| 0 <= j < i && is_given(#[trigger] cell_ints(cells@)[j]) ==> solver.doms()[j].subset_of(set![cells@[j] - 1]),
            forall|a: Seq<int>| #[trigger] is_solution(cs, d0, a) && agrees_with(cell_ints(cells@), i as int, a) ==> consistent(a, solver.doms()),
            narrows_keeping(cs, with_givens(d0, cell_ints(cells@), i as int), solver.doms()),
            forall|j: int| 0 <= j < i && is_given(#[trigger] cell_ints(cells@)[j])
                ==> !no_fixpoint(cs, with_givens(d0, cell_ints(cells@), j + 1)),
        decreases cells@.len() - i,
    {
        let val = cells[i];
        assert(cell_ints(cells@)[i as int] == val as int);
        if 1 <= val && val <= 9 {
            assert(is_given(cell_ints(cells@)[i as int]));
            let ghost cur = solver.doms();
            let ghost v = (val - 1) as usize;
            let ghost tried = cur.update(i as int, set![v as int]);
            let r = solver.assign(i, (val - 1) as usize);
            proof {
                assert(BitSet::<1>::in_range(v as int));
                assert(tried == cur.update(
                    i as int,
                    if BitSet::<1>::in_range(v as int) { set![v as int] } else { Set::<int>::empty() },
                ));
                assert forall|a: Seq<int>| #[trigger] is_solution(cs, d0, a) && agrees_with(cell_ints(cells@), i + 1, a) implies is_solution(cs, tried, a) by {
                    assert(agrees_with(cell_ints(cells@), i as int, a));
                    assert(consistent(a, cur));
                    assert(a[i as int] == v);
                    assert forall|j: int| 0 <= j < a.len() implies #[trigger] tried[j].contains(a[j]) by {
                        if j != i {
                            assert(cur[j].contains(a[j]));
                        }
                    }
                }
                let pc = cell_ints(cells@);
                lemma_fixing_keeps(cs, with_givens(d0, pc, i as int), cur, i as int, v as int, solver.doms(), r is Ok);
                assert(with_givens(d0, pc, i as int).update(i as int, set![v as int]) =~= with_givens(d0, pc, i + 1));
                if r is Ok {
                    assert(fixpoint_within(cs, solver.doms(), with_givens(d0, pc, i + 1)));
                }
            }
            match r {
                Ok(()) => {
                    proof {
                        assert forall|j: int| 0 <= j < solver.doms().len() implies #[trigger] solver.doms()[j].subset_of(d0[j]) by {
                            assert(solver.doms()[j].subset_of(tried[j]));
                            if j == i {
                                assert(d0[j].contains(v as int));
                            } else {
                                assert(tried[j] == cur[j]);
                                assert(cur[j].subset_of(d0[j]));
                            }
                            assert forall|x: int| solver.doms()[j].contains(x) implies d0[j].contains(x) by {
                                assert(tried[j].contains(x));
                            }
                        }
                        assert forall|j: int| 0 <= j < i + 1 && is_given(#[trigger] cell_ints(cells@)[j]) implies solver.doms()[j].subset_of(set![cells@[j] - 1]) by {
                            assert(solver.doms()[j].subset_of(tried[j]));
                            if j != i {
                                assert(tried[j] == cur[j]);
                            }
                        }
                    }
                },
                Err(_) => {
                    return Err(i);
                },
            }
        } else {
            proof {
                assert forall|a: Seq<int>| #[trigger] is_solution(cs, d0, a) && agrees_with(cell_ints(cells@), i + 1, a) implies consistent(a, solver.doms()) by {
                    assert(agrees_with(cell_ints(cells@), i as int, a));
                }
                assert(with_givens(d0, cell_ints(cells@), i as int) =~= with_givens(d0, cell_ints(cells@), i + 1));
            }
        }
        i = i + 1;
    }
    proof {
        assert forall|a: Seq<int>| #[trigger] is_solution(cs, solver.doms(), a)
            <==> is_solution(cs, d0, a) && agrees_with(cell_ints(cells@), cells@.len() as int, a) by {
            if is_solution(cs, solver.doms(), a) {
                assert forall|j: int| 0 <= j < a.len() implies #[trigger] d0[j].contains(a[j]) by {
                    assert(solver.doms()[j].contains(a[j]));
                    assert(solver.doms()[j].subset_of(d0[j]));
                }
                assert forall|j: int| 0 <= j < cells@.len() && is_given(#[trigger] cell_ints(cells@)[j]) implies a[j] == cell_ints(cells@)[j] - 1 by {
                    assert(solver.doms()[j].contains(a[j]));
                }
            }
        }
    }
    Ok(())
}

/// Why a Sudoku was not solved.
#[derive(Debug, Clone, Copy, PartialEq, Eq)]
pub enum SudokuFailure {
    /// The given at this cell contradicts the givens before it.
    Given(usize),
    /// The search did not find a solution.
    Search(SolveError),
}

/// No given stands beyond the 81 cells of the grid.
pub open spec fn givens_fit(cells: Seq<int>) -> bool {
    forall|j: int| 81 <= j < cells.len() ==> !is_given(#[trigger] cells[j])
}

/// Propagating the Sudoku constraints from the grid with the givens among the first
/// `n` cells fixed fails: no common fixpoint of the constraints lies within it.
pub open spec fn givens_stuck(cells: Seq<int>, n: int) -> bool {
    forall|cs: Seq<Rule<1>>| #[trigger] sudoku_rules(cs) ==> no_fixpoint(cs, givens_fixed(cells, n))
}

/// Propagation succeeds after each of the givens among the first `n` cells is fixed.
pub open spec fn givens_pass(cells: Seq<int>, n: int) -> bool {
    forall|j: int| 0 <= j < n && j < cells.len() && is_given(#[trigger] cells[j]) ==> !givens_stuck(cells, j + 1)
}

/// Any two sequences of the Sudoku constraints have the same common fixpoints.
proof fn lemma_sudoku_fixpoints(cs1: Seq<Rule<1>>, cs2: Seq<Rule<1>>, q: Seq<Set<int>>, d: Seq<Set<int>>)
    requires
        sudoku_rules(cs1),
        sudoku_rules(cs2),
    ensures
        fixpoint_within(cs1, q, d) == fixpoint_within(cs2, q, d),
{
    assert forall|k: int| 0 <= k < 27 implies #[trigger] cs1[k].scope_view() == cs2[k].scope_view()
        && cs1[k].stable(q) == cs2[k].stable(q) by {
        if let Rule::AllDifferent(c1) = cs1[k] {
            if let Rule::AllDifferent(c2) = cs2[k] {
                assert(c1.variables@ == c2.variables@);
            }
        }
    }
    if fixpoint_within(cs1, q, d) {
        assert forall|ci: int| 0 <= ci < cs2.len() implies crate::domain::nonempty_on(q, #[trigger] cs2[ci].scope_view()) && cs2[ci].stable(q) by {
            assert(cs1[ci].scope_view() == cs2[ci].scope_view());
        }
    }
    if fixpoint_within(cs2, q, d) {
        assert forall|ci: int| 0 <= ci < cs1.len() implies crate::domain::nonempty_on(q, #[trigger] cs1[ci].scope_view()) && cs1[ci].stable(q) by {
            assert(cs1[ci].scope_view() == cs2[ci].scope_view());
        }
    }
}

/// For the Sudoku constraints `cs`, propagation from the grid with the givens among the
/// first `n` cells fixed is stuck exactly when it has no common fixpoint.
proof fn lemma_stuck_iff(cs: Seq<Rule<1>>, cells: Seq<int>, n: int)
    requires
        sudoku_rules(cs),
    ensures
        givens_stuck(cells, n) == no_fixpoint(cs, givens_fixed(cells, n)),
{
    let f = givens_fixed(cells, n);
    if no_fixpoint(cs, f) {
        assert forall|cs2: Seq<Rule<1>>| #[trigger] sudoku_rules(cs2) implies no_fixpoint(cs2, f) by {
            assert forall|q: Seq<Set<int>>| !#[trigger] fixpoint_within(cs2, q, f) by {
                lemma_sudoku_fixpoints(cs, cs2, q, f);
            }
        }
    }
}

/// What solving the Sudoku whose cells are `cells` may answer: a filled grid that keeps
/// every given; the first given after whose fixing propagation fails (no filled grid
/// keeps the givens up to it); or, when every given propagates, a failed search, when no
/// filled grid keeps all the givens.
pub open spec fn sudoku_answer(cells: Seq<int>, r: Result<SolveResult, SudokuFailure>) -> bool {
    match r {
        Ok(res) => {
            &&& is_sudoku(as_ints(res.solution.values@))
            &&& agrees_with(cells, cells.len() as int, as_ints(res.solution.values@))
            &&& givens_pass(cells, cells.len() as int)
        },
        Err(SudokuFailure::Given(i)) => {
            &&& i < cells.len()
            &&& is_given(cells[i as int])
            &&& forall|a: Seq<int>| is_sudoku(a) ==> !agrees_with(cells, i + 1, a)
            &&& givens_stuck(cells, i + 1)
            &&& givens_pass(cells, i as int)
        },
        Err(SudokuFailure::Search(e)) => {
            &&& (e is Contradiction || e is Unsatisfiable)
            &&& forall|a: Seq<int>| is_sudoku(a) ==> !agrees_with(cells, cells.len() as int, a)
            &&& givens_pass(cells, cells.len() as int)
        },
    }
}

/// Solve the Sudoku whose cells `json` gives (0 for an empty cell, 1 to 9 for a given),
/// searching with a generator seeded from the seed that `json` gives. A solution is a
/// filled grid that keeps every given (values 0 to 8 stand for the digits 1 to 9); a
/// given that contradicts the earlier ones is reported with its cell; otherwise the
/// search, deep enough for 81 cells, fails only when no filled grid keeps the givens.
pub fn solve_sudoku(json: &[u8]) -> (r: Result<SolveResult, SudokuFailure>)
    requires
        givens_fit(puzzle_cells(json@)),
    ensures
        sudoku_answer(puzzle_cells(json@), r),
{
    let cells = parse_puzzle(json);
    let seed = extract_seed(json);
    let mut solver = setup_sudoku();
    let ghost cs = solver.rules();
    let ghost d0 = solver.doms();
    proof {
        assert(cell_ints(cells@) == puzzle_cells(json@));
        assert forall|j: int| 0 <= j < cells@.len() && is_given(#[trigger] cell_ints(cells@)[j])
            implies j < d0.len() && d0[j].contains(cells@[j] - 1) by {
            assert(cell_ints(cells@)[j] == cells@[j] as int);
        }
        assert forall|a: Seq<int>| #[trigger] is_solution(cs, d0, a) <==> is_sudoku(a) by {
            lemma_sudoku_solutions(cs, d0, a);
        }
    }
    let ghost pc = puzzle_cells(json@);
    let r_givens = assign_givens(&mut solver, cells.as_slice());
    proof {
        assert forall|n: int| with_givens(d0, pc, n) == givens_fixed(pc, n) by {
            assert(with_givens(d0, pc, n) =~= givens_fixed(pc, n));
        }
        assert forall|j: int| 0 <= j < pc.len() && is_given(#[trigger] pc[j]) && (r_givens matches Err(i) ==> j < i)
            implies !givens_stuck(pc, j + 1) by {
            assert(is_given(cell_ints(cells@)[j]));
            lemma_stuck_iff(cs, pc, j + 1);
        }
        if r_givens is Err {
            lemma_stuck_iff(cs, pc, r_givens->Err_0 + 1);
        }
    }
    match r_givens {
        Err(i) => {
            proof {
                assert forall|a: Seq<int>| is_sudoku(a) implies !agrees_with(puzzle_cells(json@), i + 1, a) by {
                    assert(is_solution(cs, d0, a));
                }
            }
            Err(SudokuFailure::Given(i))
        },
        Ok(()) => {
            let ghost d1 = solver.doms();
            let mut rng = seeded(seed);
            match solver.solve(&mut rng) {
                Ok(res) => {
                    proof {
                        assert(is_solution(cs, d1, as_ints(res.solution.values@)));
                    }
                    Ok(res)
                },
                Err(e) => {
                    proof {
                        if e is Contradiction || e is Unsatisfiable {
                            assert forall|a: Seq<int>| is_sudoku(a) implies !agrees_with(
                                puzzle_cells(json@), puzzle_cells(json@).len() as int, a) by {
                                assert(is_solution(cs, d0, a));
                                if agrees_with(puzzle_cells(json@), puzzle_cells(json@).len() as int, a) {
                                    assert(is_solution(cs, d1, a));
                                }
                            }
                        }
                    }
                    Err(SudokuFailure::Search(e))
                },
            }
        },
    }
}

/// The same as `solve_sudoku`, under the name the demo has always answered to.
pub fn solve_demo(json: &[u8]) -> (r: Result<SolveResult, SudokuFailure>)
    requires
        givens_fit(puzzle_cells(json@)),
    ensures
        sudoku_answer(puzzle_cells(json@), r),
{
    solve_sudoku(json)
}

/// The constraints of a map: in order, that the two ends of each edge differ.
pub open spec fn map_rules(cs: Seq<Rule<1>>, edges: Seq<(usize, usize)>) -> bool {
    &&& cs.len() == edges.len()
    &&& forall|k: int| 0 <= k < edges.len() ==> (#[trigger] cs[k] matches Rule::NotEqual(c) && c.first() == edges[k].0 && c.second() == edges[k].1)
}

/// A coloring of a map: a color for each node, below `colors` and below what a domain
/// of the solver holds, that differs at the two ends of every edge.
pub open spec fn is_coloring(nodes: int, colors: int, edges: Seq<(int, int)>, a: Seq<int>) -> bool {
    &&& a.len() == nodes
    &&& forall|i: int| 0 <= i < nodes ==> 0 <= #[trigger] a[i] < colors && BitSet::<1>::in_range(a[i])
    &&& forall|k: int| 0 <= k < edges.len() ==> a[#[trigger] edges[k].0] != a[edges[k].1]
}

/// Every edge joins nodes of the map.
pub open spec fn edges_fit(nodes: int, edges: Seq<(int, int)>) -> bool {
    forall|k: int| 0 <= k < edges.len() ==> 0 <= #[trigger] edges[k].0 < nodes && 0 <= edges[k].1 < nodes
}

/// A solver for coloring a map: a variable per node with the colors below `colors`,
/// and for each edge the constraint that its ends differ.
pub fn map_solver(nodes: usize, colors: usize, edges: &[(usize, usize)]) -> (s: Solver<1>)
    requires
        edges_fit(nodes as int, edge_ints(edges@)),
    ensures
        s.wf(),
        s.scopes_fit(),
        s.doms().len() == nodes,
        forall|i: int| 0 <= i < nodes ==> #[trigger] s.doms()[i] == Set::new(|v: int| 0 <= v < colors && BitSet::<1>::in_range(v)),
        map_rules(s.rules(), edges@),
        s.configuration().backtrack == (BacktrackStrategy::Chronological { max_depth: 1000 }),
{
    let mut solver = Solver::<1>::new(nodes, colors, SolverConfig::default());
    let ghost d0 = solver.doms();
    let mut k: usize = 0;
    while k < edges.len()
        invariant
            k <= edges@.len(),
            edges_fit(nodes as int, edge_ints(edges@)),
            solver.wf(),
            solver.scopes_fit(),
            solver.configuration().backtrack == (BacktrackStrategy::Chronological { max_depth: 1000 }),
            solver.doms() == d0,
            d0.len() == nodes,
            forall|i: int| 0 <= i < nodes ==> #[trigger] d0[i] == Set::new(|v: int| 0 <= v < colors && BitSet::<1>::in_range(v)),
            solver.rules().len() == k,
            forall|j: int| 0 <= j < k ==> (#[trigger] solver.rules()[j] matches Rule::NotEqual(c) && c.first() == edges@[j].0 && c.second() == edges@[j].1),
        decreases edges@.len() - k,
    {
        let (a, b) = edges[k];
        proof {
            assert(edge_ints(edges@)[k as int] == (a as int, b as int));
        }
        let c = NotEqual::new(a, b);
        let ghost before = solver.rules();
        solver.add_constraint(c);
        proof {
            assert(crate::domain::in_bounds(c.vars(), nodes as nat));
            assert forall|j: int| 0 <= j < k + 1 implies (#[trigger] solver.rules()[j] matches Rule::NotEqual(c) && c.first() == edges@[j].0 && c.second() == edges@[j].1) by {
                if j < k {
                    assert(solver.rules()[j] == before[j]);
                }
            }
        }
        k = k + 1;
    }
    solver
}

/// Under the map constraints and domains, the solutions are the colorings.
pub proof fn lemma_map_solutions(
    cs: Seq<Rule<1>>,
    doms: Seq<Set<int>>,
    nodes: int,
    colors: int,
    edges: Seq<(usize, usize)>,
    a: Seq<int>,
)
    requires
        map_rules(cs, edges),
        doms.len() == nodes,
        forall|i: int| 0 <= i < nodes ==> #[trigger] doms[i] == Set::new(|v: int| 0 <= v < colors && BitSet::<1>::in_range(v)),
    ensures
        is_solution(cs, doms, a) <==> is_coloring(nodes, colors, edge_ints(edges), a),
{
    let es = edge_ints(edges);
    if is_solution(cs, doms, a) {
        assert forall|i: int| 0 <= i < nodes implies 0 <= #[trigger] a[i] < colors && BitSet::<1>::in_range(a[i]) by {
            assert(doms[i].contains(a[i]));
        }
        assert forall|k: int| 0 <= k < es.len() implies a[#[trigger] es[k].0] != a[es[k].1] by {
            assert(cs[k].holds(a));
        }
    }
    if is_coloring(nodes, colors, es, a) {
        assert forall|i: int| 0 <= i < a.len() implies #[trigger] doms[i].contains(a[i]) by {
            assert(0 <= a[i] < colors && BitSet::<1>::in_range(a[i]));
        }
        assert forall|k: int| 0 <= k < cs.len() implies #[trigger] cs[k].holds(a) by {
            assert(es[k] == (edges[k].0 as int, edges[k].1 as int));
        }
    }
}

/// Color the map that `json` describes, searching with a generator seeded from the seed
/// that `json` gives. A solution is a coloring; a search that ends in a contradiction
/// or finds nothing means that there is none, and on a map of at most 1000 nodes the
/// search does not run out of depth.
pub fn solve_map_coloring(json: &[u8]) -> (r: Result<SolveResult, SolveError>)
    requires
        edges_fit(map_nodes(json@), map_edges(json@)),
    ensures
        match r {
            Ok(res) => is_coloring(map_nodes(json@), map_colors(json@), map_edges(json@), as_ints(res.solution.values@)),
            Err(e) => {
                &&& map_nodes(json@) <= 1000 ==> (e is Contradiction || e is Unsatisfiable)
                &&& (e is Contradiction || e is Unsatisfiable) ==> forall|a: Seq<int>|
                    !is_coloring(map_nodes(json@), map_colors(json@), map_edges(json@), a)
            },
        },
{
    let seed = extract_seed(json);
    let (nodes, colors, edges) = parse_map_config(json);
    let mut solver = map_solver(nodes, colors, edges.as_slice());
    let ghost cs = solver.rules();
    let ghost d0 = solver.doms();
    proof {
        assert forall|a: Seq<int>| #[trigger] is_solution(cs, d0, a) <==> is_coloring(nodes as int, colors as int, edge_ints(edges@), a) by {
            lemma_map_solutions(cs, d0, nodes as int, colors as int, edges@, a);
        }
    }
    let mut rng = seeded(seed);
    let r = solver.solve(&mut rng);
    proof {
        if r is Err {
            assert forall|a: Seq<int>| (r->Err_0 is Contradiction || r->Err_0 is Unsatisfiable) implies
                !is_coloring(map_nodes(json@), map_colors(json@), map_edges(json@), a) by {
                assert(!is_solution(cs, d0, a));
            }
        }
    }
    r
}

/// The Sudoku domains with the givens among the first `n` cells fixed: a cell that holds
/// a given has only that value less one, every other cell the values 0 to 8.
pub open spec fn givens_fixed(cells: Seq<int>, n: int) -> Seq<Set<int>> {
    Seq::new(81, |j: int| if j < n && j < cells.len() && is_given(cells[j]) {
        set![cells[j] - 1]
    } else {
        Set::new(|v: int| 0 <= v < 9)
    })
}

/// The domains of a map: for each node, the colors below `colors` that a domain holds.
pub open spec fn color_domains(nodes: int, colors: int) -> Seq<Set<int>> {
    Seq::new(nodes as nat, |i: int| Set::new(|v: int| 0 <= v < colors && BitSet::<1>::in_range(v)))
}

/// The constraints of a map with the edges as integers: in order, that the two ends of
/// each edge differ.
pub open spec fn edge_rules(cs: Seq<Rule<1>>, edges: Seq<(int, int)>) -> bool {
    &&& cs.len() == edges.len()
    &&& forall|k: int| 0 <= k < edges.len() ==> (#[trigger] cs[k] matches Rule::NotEqual(c) && c.first() == edges[k].0 && c.second() == edges[k].1)
}

/// A Sudoku searched one step at a time, for showing the search as it goes.
pub struct StepSolver {
    stepper: Stepper<1>,
    givens: Vec<bool>,
    puzzle: Ghost<Seq<int>>,
}

impl StepSolver {
    /// The search.
    pub closed spec fn search(self) -> Stepper<1> {
        self.stepper
    }

    /// Which cells hold givens.
    pub closed spec fn given_cells(self) -> Seq<bool> {
        self.givens@
    }

    /// The cells of the puzzle, as it was read.
    pub closed spec fn cells(self) -> Seq<int> {
        self.puzzle@
    }

    /// The search runs on the Sudoku constraints over 81 cells, starting from domains
    /// that every filled grid keeping the givens lies within.
    pub closed spec fn wf(self) -> bool {
        &&& self.stepper.wf()
        &&& self.stepper.doms().len() == 81
        &&& sudoku_rules(self.stepper.rules())
        &&& self.givens@.len() == 81
        &&& forall|a: Seq<int>| is_sudoku(a) && agrees_with(self.puzzle@, self.puzzle@.len() as int, a)
            ==> #[trigger] is_solution(self.stepper.rules(), self.stepper.start_doms(), a)
    }

    /// Set up the Sudoku whose cells `puzzle_json` gives, fix its givens (a given that
    /// contradicts is kept nonetheless), propagate, and get ready to step. Every filled
    /// grid that keeps the givens stays within the domains.
    pub fn new(puzzle_json: &[u8]) -> (s: Self)
        requires
            givens_fit(puzzle_cells(puzzle_json@)),
        ensures
            s.wf(),
            forall|i: int| 0 <= i < 81 ==> #[trigger] s.given_cells()[i] == (i < puzzle_cells(puzzle_json@).len()
                && is_given(puzzle_cells(puzzle_json@)[i])),
            forall|a: Seq<int>| is_sudoku(a) && agrees_with(puzzle_cells(puzzle_json@), puzzle_cells(puzzle_json@).len() as int, a)
                ==> consistent(a, s.search().doms()),
            s.search().pending() == undecided_upto(s.search().doms(), 81),
            s.search().phase() == (if s.search().pending().len() == 0 { StepState::Solved } else { StepState::Selecting }),
            s.search().frames() == Seq::<Frame>::empty(),
            s.search().current() is None,
            s.cells() == puzzle_cells(puzzle_json@),
            sudoku_rules(s.search().rules()),
            run_outcome(s.search().rules(), givens_fixed(puzzle_cells(puzzle_json@), puzzle_cells(puzzle_json@).len() as int), s.search().doms(), true)
                || run_outcome(s.search().rules(), givens_fixed(puzzle_cells(puzzle_json@), puzzle_cells(puzzle_json@).len() as int), s.search().doms(), false),
    {
        let cells = parse_puzzle(puzzle_json);
        let seed = extract_seed(puzzle_json);
        let mut solver = setup_sudoku();
        let ghost cs = solver.rules();
        let ghost d0 = solver.doms();
        let ghost pc = puzzle_cells(puzzle_json@);
        proof {
            assert(cell_ints(cells@) == pc);
            assert forall|a: Seq<int>| #[trigger] is_solution(cs, d0, a) <==> is_sudoku(a) by {
                lemma_sudoku_solutions(cs, d0, a);
            }
        }
        let mut givens: Vec<bool> = Vec::new();
        let mut k: usize = 0;
        while k < 81
            invariant
                k <= 81,
                givens@.len() == k,
                forall|j: int| 0 <= j < k ==> !#[trigger] givens@[j],
            decreases 81 - k,
        {
            givens.push(false);
            k = k + 1;
        }
        proof {
            assert(givens_fixed(pc, 0) =~= d0);
        }
        let mut i: usize = 0;
        while i < cells.len()
            invariant
                solver.wf(),
                solver.scopes_fit(),
                solver.rules() == cs,
                solver.doms().len() == 81,
                cell_ints(cells@) == pc,
                givens_fit(pc),
                forall|a: Seq<int>| #[trigger] is_solution(cs, d0, a) <==> is_sudoku(a),
                i <= cells@.len(),
                givens@.len() == 81,
                forall|j: int| 0 <= j < 81 ==> #[trigger] givens@[j] == (j < i && is_given(pc[j])),
                forall|a: Seq<int>| is_sudoku(a) && agrees_with(pc, i as int, a) ==> consistent(a, solver.doms()),
                narrows_keeping(cs, givens_fixed(pc, i as int), solver.doms()),
            decreases cells@.len() - i,
        {
            let val = cells[i];
            assert(pc[i as int] == val as int);
            if 1 <= val && val <= 9 {
                let ghost cur = solver.doms();
                let ghost v = (val - 1) as usize;
                let ghost tried = cur.update(i as int, set![v as int]);
                givens.set(i, true);
                let attempt = solver.assign(i, (val - 1) as usize);
                proof {
                    assert(tried == cur.update(
                        i as int,
                        if BitSet::<1>::in_range(v as int) { set![v as int] } else { Set::<int>::empty() },
                    ));
                    assert(i < 81);
                    lemma_fixing_keeps(cs, givens_fixed(pc, i as int), cur, i as int, v as int, solver.doms(), attempt is Ok);
                    assert(givens_fixed(pc, i as int).update(i as int, set![v as int]) =~= givens_fixed(pc, i + 1));
                    assert forall|a: Seq<int>| is_sudoku(a) && agrees_with(pc, i + 1, a) implies consistent(a, solver.doms()) by {
                        assert(agrees_with(pc, i as int, a));
                        assert(consistent(a, cur));
                        assert(a[i as int] == v);
                        assert forall|j: int| 0 <= j < a.len() implies #[trigger] tried[j].contains(a[j]) by {
                            if j != i {
                                assert(cur[j].contains(a[j]));
                            }
                        }
                        assert(is_solution(cs, d0, a));
                        assert(is_solution(cs, tried, a));
                    }
                }
            } else {
                proof {
                    assert forall|a: Seq<int>| is_sudoku(a) && agrees_with(pc, i + 1, a) implies consistent(a, solver.doms()) by {
                        assert(agrees_with(pc, i as int, a));
                    }
                    assert(givens_fixed(pc, i as int) =~= givens_fixed(pc, i + 1));
                }
            }
            i = i + 1;
        }
        let ghost d1 = solver.doms();
        let stepper = Stepper::start(solver, seed);
        proof {
            let f = givens_fixed(pc, pc.len() as int);
            if run_outcome(cs, d1, stepper.doms(), true) {
                lemma_outcome_from(cs, f, d1, stepper.doms(), true);
            } else {
                lemma_outcome_from(cs, f, d1, stepper.doms(), false);
            }
            assert forall|a: Seq<int>| is_sudoku(a) && agrees_with(pc, pc.len() as int, a) implies consistent(a, stepper.doms()) by {
                assert(consistent(a, d1));
                assert(is_solution(cs, d0, a));
                assert(is_solution(cs, d1, a));
            }
            assert forall|a: Seq<int>| is_sudoku(a) && agrees_with(pc, pc.len() as int, a)
                implies #[trigger] is_solution(stepper.rules(), stepper.start_doms(), a) by {
                assert(consistent(a, d1));
                assert(is_solution(cs, d0, a));
                assert(is_solution(cs, d1, a));
            }
        }
        StepSolver { stepper, givens, puzzle: Ghost(pc) }
    }

    /// The grid as shown, and which cells hold givens.
    pub fn get_state(&self) -> (state: (BoardView, Vec<bool>))
        requires
            self.wf(),
        ensures
            shows(state.0, self.search().doms()),
            state.1@ == self.given_cells(),
    {
        (self.stepper.view(), self.givens.clone())
    }

    /// Do one step of the search and report it.
    pub fn step(&mut self) -> (ev: StepEvent)
        requires
            old(self).wf(),
        ensures
            final(self).wf(),
            final(self).given_cells() == old(self).given_cells(),
            final(self).cells() == old(self).cells(),
            step_outcome(old(self).search(), final(self).search(), ev),
            ev is Contradiction ==> forall|a: Seq<int>|
                is_sudoku(a) ==> !agrees_with(old(self).cells(), old(self).cells().len() as int, a),
    {
        let ghost pre = *self;
        let ev = self.stepper.step();
        proof {
            if ev is Contradiction {
                assert forall|a: Seq<int>| is_sudoku(a) implies !agrees_with(pre.puzzle@, pre.puzzle@.len() as int, a) by {
                    if agrees_with(pre.puzzle@, pre.puzzle@.len() as int, a) {
                        assert(is_solution(pre.stepper.rules(), pre.stepper.start_doms(), a));
                    }
                }
            }
        }
        ev
    }
}

/// A map coloring searched one step at a time, for showing the search as it goes.
pub struct MapStepSolver {
    stepper: Stepper<1>,
    num_nodes: usize,
    map: Ghost<(int, int, Seq<(int, int)>)>,
}

impl MapStepSolver {
    /// The search.
    pub closed spec fn search(self) -> Stepper<1> {
        self.stepper
    }

    /// The map, as it was read: its numbers of nodes and of colors, and its edges.
    pub closed spec fn described(self) -> (int, int, Seq<(int, int)>) {
        self.map@
    }

    /// The search runs over one variable per node, starting from domains that every
    /// coloring of the map lies within.
    pub closed spec fn wf(self) -> bool {
        &&& self.stepper.wf()
        &&& self.stepper.doms().len() == self.num_nodes
        &&& forall|a: Seq<int>| is_coloring(self.map@.0, self.map@.1, self.map@.2, a)
            ==> #[trigger] is_solution(self.stepper.rules(), self.stepper.start_doms(), a)
    }

    /// Set up the map that `config_json` describes, propagate, and get ready to step.
    /// Every coloring of the map stays within the domains.
    pub fn new(config_json: &[u8]) -> (s: Self)
        requires
            edges_fit(map_nodes(config_json@), map_edges(config_json@)),
        ensures
            s.wf(),
            s.search().doms().len() == map_nodes(config_json@),
            forall|a: Seq<int>| is_coloring(map_nodes(config_json@), map_colors(config_json@), map_edges(config_json@), a)
                ==> consistent(a, s.search().doms()),
            s.search().pending() == undecided_upto(s.search().doms(), s.search().doms().len() as int),
            s.search().phase() == (if s.search().pending().len() == 0 { StepState::Solved } else { StepState::Selecting }),
            s.search().frames() == Seq::<Frame>::empty(),
            s.search().current() is None,
            s.described() == (map_nodes(config_json@), map_colors(config_json@), map_edges(config_json@)),
            edge_rules(s.search().rules(), map_edges(config_json@)),
            run_outcome(s.search().rules(), color_domains(map_nodes(config_json@), map_colors(config_json@)), s.search().doms(), true)
                || run_outcome(s.search().rules(), color_domains(map_nodes(config_json@), map_colors(config_json@)), s.search().doms(), false),
    {
        let seed = extract_seed(config_json);
        let (num_nodes, num_colors, edges) = parse_map_config(config_json);
        let solver = map_solver(num_nodes, num_colors, edges.as_slice());
        let ghost cs = solver.rules();
        let ghost d0 = solver.doms();
        let stepper = Stepper::start(solver, seed);
        let ghost map = (map_nodes(config_json@), map_colors(config_json@), map_edges(config_json@));
        proof {
            assert(d0 =~= color_domains(map.0, map.1));
            assert forall|k: int| 0 <= k < map.2.len() implies (#[trigger] cs[k] matches Rule::NotEqual(c) && c.first() == map.2[k].0 && c.second() == map.2[k].1) by {
                assert(map.2[k] == (edges@[k].0 as int, edges@[k].1 as int));
            }
            assert forall|a: Seq<int>| is_coloring(map.0, map.1, map.2, a) implies consistent(a, stepper.doms()) by {
                lemma_map_solutions(cs, d0, num_nodes as int, num_colors as int, edges@, a);
                assert(is_solution(cs, d0, a));
            }
            assert forall|a: Seq<int>| is_coloring(map.0, map.1, map.2, a)
                implies #[trigger] is_solution(stepper.rules(), stepper.start_doms(), a) by {
                lemma_map_solutions(cs, d0, num_nodes as int, num_colors as int, edges@, a);
                assert(is_solution(cs, d0, a));
            }
        }
        MapStepSolver { stepper, num_nodes, map: Ghost(map) }
    }

    /// The map as shown.
    pub fn get_state(&self) -> (state: BoardView)
        requires
            self.wf(),
        ensures
            shows(state, self.search().doms()),
    {
        self.stepper.view()
    }

    /// Do one step of the search and report it.
    pub fn step(&mut self) -> (ev: StepEvent)
        requires
            old(self).wf(),
        ensures
            final(self).wf(),
            final(self).described() == old(self).described(),
            step_outcome(old(self).search(), final(self).search(), ev),
            ev is Contradiction ==> forall|a: Seq<int>|
                !is_coloring(old(self).described().0, old(self).described().1, old(self).described().2, a),
    {
        let ghost pre = *self;
        let ev = self.stepper.step();
        proof {
            if ev is Contradiction {
                assert forall|a: Seq<int>| !is_coloring(pre.map@.0, pre.map@.1, pre.map@.2, a) by {
                    if is_coloring(pre.map@.0, pre.map@.1, pre.map@.2, a) {
                        assert(is_solution(pre.stepper.rules(), pre.stepper.start_doms(), a));
                    }
                }
            }
        }
        ev
    }
}

} // verus!
