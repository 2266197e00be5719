use constraint_grid::builder::Builder;
use constraint_grid::grid::Grid;
use constraint_grid::rules::{Cell, Rule};
use constraint_grid::runner::{u64_to_string, Runner};
use constraint_grid::solver::{
    combination_count, factorial, Solver, TriedGrids, UniqueSolutionType,
};
use constraint_grid::NO_VALUE;

fn group_values(grid: &Grid, cells: &[u16]) -> Vec<u8> {
    let mut v: Vec<u8> = cells.iter().map(|&i| grid.values[i as usize]).collect();
    v.sort();
    v
}

fn assert_complete_latin(grid: &Grid, size: u16) {
    let expected: Vec<u8> = (1..=size as u8).collect();
    for row in 0..size {
        let cells: Vec<u16> = (0..size).map(|c| row * size + c).collect();
        assert_eq!(group_values(grid, &cells), expected, "row {}", row);
    }
    for col in 0..size {
        let cells: Vec<u16> = (0..size).map(|r| r * size + col).collect();
        assert_eq!(group_values(grid, &cells), expected, "column {}", col);
    }
}

/// A 4-by-4 grid with 2-by-2 blocks and the default rules fills completely,
/// and every row, column and block holds each value exactly once.
#[test]
fn build_four_by_four_complete() {
    let mut builder = Builder::with_size(4).limit_milliseconds(30_000);
    let grid = builder.build().expect("a 4x4 grid should build");
    assert_eq!(grid.unsolved_cell_count, 0);
    assert_complete_latin(&grid, 4);
    let blocks: [[u16; 4]; 4] = [[0, 1, 4, 5], [2, 3, 6, 7], [8, 9, 12, 13], [10, 11, 14, 15]];
    for b in blocks.iter() {
        assert_eq!(group_values(&grid, b), vec![1, 2, 3, 4]);
    }
    assert!(grid.check_invariant());
}

/// A successfully built grid passes the full runtime consistency check.
#[test]
fn built_grid_has_no_invariant_violations() {
    let mut builder = Builder::with_size(9).limit_milliseconds(60_000);
    let grid = builder.build().expect("a 9x9 grid should build");
    assert_eq!(grid.unsolved_cell_count, 0);
    assert_complete_latin(&grid, 9);
    assert!(grid.check_invariant());
}

/// Legal `set_value` calls keep the runtime consistency check green.
#[test]
fn set_value_sequence_keeps_invariant() {
    let mut builder = Builder::with_size(4).limit_milliseconds(30_000);
    let solved = builder.build().expect("a 4x4 grid should build");
    let mut grid = solved.fork();
    grid.remove_cells(16);
    assert_eq!(grid.unsolved_cell_count, 16);
    assert!(grid.check_invariant());
    for index in 0..16u16 {
        if grid.values[index as usize] != NO_VALUE {
            continue;
        }
        let value = solved.values[index as usize];
        if grid.has_remaining_value(index, value) {
            grid.set_value(index, value);
            assert!(grid.check_invariant(), "after setting cell {}", index);
        }
    }
}

/// Incrementally maintained candidates equal a from-scratch recalculation,
/// bit for bit.
#[test]
fn incremental_candidates_match_recalculation() {
    let mut builder = Builder::with_size(4).limit_milliseconds(30_000);
    let solved = builder.build().expect("a 4x4 grid should build");
    let mut grid = solved.fork();
    grid.remove_cells(10);
    // a few incremental mutations
    for index in 0..16u16 {
        if grid.values[index as usize] == NO_VALUE {
            let value = solved.values[index as usize];
            if grid.has_remaining_value(index, value) {
                grid.set_value(index, value);
                break;
            }
        }
    }
    let mut recalculated = grid.fork();
    recalculated.recalc_remaining_values();
    for index in 0..16u16 {
        assert_eq!(
            grid.remaining_values(index),
            recalculated.remaining_values(index),
            "candidates differ at cell {}",
            index
        );
    }
    assert_eq!(grid.remaining_value_count, recalculated.remaining_value_count);
}

/// A grid solved everywhere except one cell has exactly one completion.
#[test]
fn one_missing_cell_has_unique_solution() {
    let mut builder = Builder::with_size(9).limit_milliseconds(60_000);
    let solved = builder.build().expect("a 9x9 grid should build");
    let mut grid = solved.fork();
    grid.remove_cells(1);
    assert_eq!(grid.unsolved_cell_count, 1);

    let mut classifier = Solver::new(&grid).limit_milliseconds(60_000);
    let t = classifier
        .unique_solution_type(&mut TriedGrids::new())
        .expect("classification should finish");
    assert_eq!(t, UniqueSolutionType::One);

    let mut counter = Solver::new(&grid).limit_milliseconds(60_000);
    let n = counter.count_solutions().expect("counting should finish");
    assert_eq!(n, 1);
}

/// A grid with a conflicting assignment already placed admits no completion.
#[test]
fn contradictory_grid_has_zero_solutions() {
    let mut builder = Builder::with_size(4).limit_milliseconds(30_000);
    let solved = builder.build().expect("a 4x4 grid should build");
    let mut grid = solved.fork();
    grid.remove_cells(16);
    // cells 0 and 1 share a row; force the same value into their candidates
    grid.set_value(0, 1);
    // cell 1 can no longer take 1; make a sibling grid where nothing fits
    let mut dead = solved.fork();
    dead.remove_cells(16);
    dead.set_value(0, 1);
    for v in 2..=4u8 {
        dead.clear_remaining_value(1, v);
    }
    // cell 1 now has no candidate at all: zero completions
    let mut classifier = Solver::new(&dead).limit_milliseconds(30_000);
    let t = classifier
        .unique_solution_type(&mut TriedGrids::new())
        .expect("classification should finish");
    assert_eq!(t, UniqueSolutionType::Zero);
}

/// Two related cells forced to the same single candidate: assigning the
/// first drives the second to zero candidates, the search signals the dead
/// branch, and the still-live fork stays consistent.
#[test]
fn same_single_candidate_conflict_is_signalled() {
    let mut builder = Builder::with_size(4).limit_milliseconds(30_000);
    let solved = builder.build().expect("a 4x4 grid should build");
    let mut grid = solved.fork();
    grid.remove_cells(16);
    // cells 0 and 1 share the top row and the first block
    for v in 1..=4u8 {
        if v != 3 {
            grid.clear_remaining_value(0, v);
            grid.clear_remaining_value(1, v);
        }
    }
    assert_eq!(grid.remaining_values(0), vec![3]);
    assert_eq!(grid.remaining_values(1), vec![3]);

    let live = grid.fork();
    let mut branch = grid.fork();
    let conflict = branch.set_value(0, 3);
    assert!(conflict, "the second cell must run out of candidates");
    assert_eq!(branch.remaining_values(1), Vec::<u8>::new());

    // the live fork is untouched and still consistent
    assert_eq!(live.remaining_values(0), vec![3]);
    assert_eq!(live.remaining_values(1), vec![3]);
    assert!(live.check_invariant());
}

/// Reduction returns a sub-puzzle of the solved grid whose classification,
/// done again from scratch, is still a unique solution.
#[test]
fn reduction_result_classifies_as_unique_again() {
    let mut builder = Builder::with_size(4).limit_milliseconds(30_000);
    let solved = builder.build().expect("a 4x4 grid should build");
    let mut reducer = Solver::new(&solved).limit_milliseconds(120_000);
    let reduced = match reducer.reduce_exhaustive(30_000, true, 5, 15) {
        Ok(g) => g,
        Err(m) => panic!("a 4x4 grid should reduce: {}", m),
    };
    assert!(reduced.unsolved_cell_count > 0);
    for i in 0..16usize {
        if reduced.values[i] != NO_VALUE {
            assert_eq!(reduced.values[i], solved.values[i]);
        }
    }
    let mut classifier = Solver::new(&reduced).limit_milliseconds(60_000);
    let t = classifier
        .unique_solution_type(&mut TriedGrids::new())
        .expect("classification should finish");
    assert_eq!(t, UniqueSolutionType::One);
}

/// A zero-millisecond budget fails deterministically with the timeout
/// reason, before any search work.
#[test]
fn zero_budget_times_out_deterministically() {
    let mut builder = Builder::with_size(9).limit_milliseconds(0);
    match builder.build() {
        Ok(_) => panic!("a zero budget cannot build"),
        Err(err) => assert_eq!(err, "Exceeded time limit."),
    }

    let mut quick = Builder::with_size(4).limit_milliseconds(30_000);
    let solved = quick.build().expect("a 4x4 grid should build");
    let mut grid = solved.fork();
    grid.remove_cells(8);
    let mut solver = Solver::new(&grid).limit_milliseconds(0);
    match solver.count_solutions() {
        Ok(_) => panic!("a zero budget cannot solve"),
        Err(err) => assert_eq!(err, "Exceeded time limit."),
    }
}

/// An over-constrained rule set exhausts the search space: on a 2-by-2 grid
/// the king rule relates every pair of cells, and two values cannot fill
/// four mutually related cells.
#[test]
fn over_constrained_build_reports_exhaustion() {
    let mut builder = Builder::with_size(2).limit_milliseconds(30_000).rule(Rule::King);
    match builder.build() {
        Ok(_) => panic!("four mutually related cells cannot take two values"),
        Err(err) => assert_eq!(err, "Search space exhausted with zero completions."),
    }
}

/// Descending reduction starts from the most clues and also returns the
/// first sub-puzzle with a unique completion, with a clue count drawn from
/// the requested range.
#[test]
fn descending_reduction_also_reduces() {
    let mut builder = Builder::with_size(4).limit_milliseconds(30_000);
    let solved = builder.build().expect("a 4x4 grid should build");
    let mut reducer = Solver::new(&solved).limit_milliseconds(120_000);
    let reduced = match reducer.reduce_exhaustive(30_000, false, 4, 12) {
        Ok(g) => g,
        Err(m) => panic!("a 4x4 grid should reduce descending: {}", m),
    };
    let clues = 16 - reduced.unsolved_cell_count;
    assert!((4..=12).contains(&clues), "clue count {} out of range", clues);
    for i in 0..16usize {
        if reduced.values[i] != NO_VALUE {
            assert_eq!(reduced.values[i], solved.values[i]);
        }
    }
    let mut classifier = Solver::new(&reduced).limit_milliseconds(60_000);
    let t = classifier
        .unique_solution_type(&mut TriedGrids::new())
        .expect("classification should finish");
    assert_eq!(t, UniqueSolutionType::One);
}

/// A clue range too small for a unique solution reports that no reduction
/// was found.
#[test]
fn impossible_reduction_reports_failure() {
    let mut builder = Builder::with_size(4).limit_milliseconds(30_000);
    let solved = builder.build().expect("a 4x4 grid should build");
    let mut reducer = Solver::new(&solved).limit_milliseconds(60_000);
    match reducer.reduce_exhaustive(10_000, true, 1, 2) {
        Ok(_) => panic!("one or two clues cannot pin a 4x4 grid"),
        Err(err) => assert_eq!(err, "No reduction with a unique solution was found."),
    }
}

/// The runner records one outcome and never resumes.
#[test]
fn runner_is_terminal_once_decided() {
    let mut runner = Runner::new(None);
    assert!(runner.check_continue());
    runner.success = Some(true);
    assert!(!runner.check_continue());

    let mut timed = Runner::new(Some(0));
    assert!(!timed.check_continue());
    assert_eq!(timed.failure_message_clone(), "Exceeded time limit.");
    assert!(!timed.check_continue());

    timed.mark_end();
    let report = timed.times_as_string();
    assert!(report.starts_with("time = "));
}

/// The dedup cache flags a repeated partial assignment, and stays inert
/// while disabled.
#[test]
fn tried_grids_deduplicates_attempts() {
    let mut builder = Builder::with_size(4).limit_milliseconds(30_000);
    let solved = builder.build().expect("a 4x4 grid should build");
    let mut grid = solved.fork();
    grid.remove_cells(16);

    let mut disabled = TriedGrids::new();
    assert!(disabled.register_attempt(&grid, 0, 1));
    assert!(disabled.register_attempt(&grid, 0, 1));
    assert_eq!(disabled.registered_count, 0);

    let mut cache = TriedGrids::new();
    cache.enabled = true;
    assert!(cache.register_attempt(&grid, 0, 1));
    assert!(!cache.register_attempt(&grid, 0, 1));
    assert!(cache.register_attempt(&grid, 0, 2));
    assert!(cache.register_attempt(&grid, 1, 1));
    assert_eq!(cache.registered_count, 4);
    assert_eq!(cache.found_count, 1);
}

/// The counting helpers give the exact small binomials.
#[test]
fn combination_count_small_values() {
    assert_eq!(combination_count(4, 0), 1);
    assert_eq!(combination_count(4, 1), 4);
    assert_eq!(combination_count(4, 2), 6);
    assert_eq!(combination_count(4, 3), 4);
    assert_eq!(combination_count(4, 4), 1);

    assert_eq!(combination_count(5, 0), 1);
    assert_eq!(combination_count(5, 1), 5);
    assert_eq!(combination_count(5, 2), 10);
    assert_eq!(combination_count(5, 3), 10);
    assert_eq!(combination_count(5, 4), 5);
    assert_eq!(combination_count(5, 5), 1);

    assert_eq!(factorial(0), 1);
    assert_eq!(factorial(5), 120);
}

/// Candidate bit operations are idempotent and keep the counters in step.
#[test]
fn candidate_bits_round_trip() {
    let grid = Grid::new(4, 4, 2, 2);
    let mut grid = grid;
    assert_eq!(grid.remaining_value_count, 64);
    assert!(grid.has_remaining_value(5, 3));
    assert!(grid.clear_remaining_value(5, 3));
    assert!(!grid.clear_remaining_value(5, 3));
    assert!(!grid.has_remaining_value(5, 3));
    assert_eq!(grid.remaining_value_count, 63);
    assert_eq!(grid.remaining_value_counts[5], 3);
    assert!(grid.set_remaining_value(5, 3));
    assert!(!grid.set_remaining_value(5, 3));
    assert_eq!(grid.remaining_value_count, 64);
    assert_eq!(grid.remaining_values(5), vec![1, 2, 3, 4]);
}

/// A cell at one remaining candidate reports exactly that value.
#[test]
fn one_remaining_value_is_the_single_candidate() {
    let mut grid = Grid::new(4, 4, 2, 2);
    grid.clear_remaining_value(7, 1);
    grid.clear_remaining_value(7, 2);
    grid.clear_remaining_value(7, 4);
    assert_eq!(grid.remaining_value_counts[7], 1);
    assert_eq!(grid.one_remaining_value(7), 3);
}

/// Keeping listed cells (or dropping them) builds the expected sub-puzzle.
#[test]
fn partial_grid_keeps_and_drops() {
    let mut builder = Builder::with_size(4).limit_milliseconds(30_000);
    let solved = builder.build().expect("a 4x4 grid should build");
    let keep: Vec<u16> = vec![0, 3, 12];
    let kept = solved.partial_grid_from_indexes(&keep, true);
    for i in 0..16usize {
        if keep.contains(&(i as u16)) {
            assert_eq!(kept.values[i], solved.values[i]);
        } else {
            assert_eq!(kept.values[i], NO_VALUE);
        }
    }
    assert_eq!(kept.unsolved_cell_count, 13);

    let dropped = solved.partial_grid_from_indexes(&keep, false);
    for i in 0..16usize {
        if keep.contains(&(i as u16)) {
            assert_eq!(dropped.values[i], NO_VALUE);
        } else {
            assert_eq!(dropped.values[i], solved.values[i]);
        }
    }
    assert_eq!(dropped.unsolved_cell_count, 3);
    assert_eq!(solved.solved_cell_count(), 16);
}

/// Removing more cells than are filled empties the whole grid.
#[test]
fn remove_cells_saturates_at_filled_count() {
    let mut builder = Builder::with_size(4).limit_milliseconds(30_000);
    let solved = builder.build().expect("a 4x4 grid should build");
    let mut grid = solved.fork();
    grid.remove_cells(5);
    assert_eq!(grid.unsolved_cell_count, 5);
    grid.remove_cells(100);
    assert_eq!(grid.unsolved_cell_count, 16);
}

/// The relation table of a default-rules grid lists exactly the row, column
/// and block neighbours.
#[test]
fn relation_table_of_corner_cell() {
    let mut builder = Builder::with_size(4).limit_milliseconds(30_000);
    let grid = builder.build().expect("a 4x4 grid should build");
    let mut related = grid.index_to_related_cell_indexes(0);
    related.sort();
    related.dedup();
    assert_eq!(related, vec![1, 2, 3, 4, 5, 8, 12]);
}

/// The rule predicates see distances and diagonals as documented.
#[test]
fn rule_predicates_on_cell_positions() {
    let mut builder = Builder::with_size(4).limit_milliseconds(30_000);
    let grid = builder.build().expect("a 4x4 grid should build");
    let a = Cell::new(1, 1, 1, 1);
    let b = Cell::new(6, 2, 2, 1);
    let c = Cell::new(2, 1, 2, 1);
    assert_eq!(a.row_distance(&b), 1);
    assert_eq!(a.column_distance(&b), 1);
    assert_eq!(a.row_from_end(&grid), 4);
    assert_eq!(b.column_from_end(&grid), 3);
    assert!(Rule::King.applies(&grid, &a, &b));
    assert!(Rule::Bishop.applies(&grid, &a, &b));
    assert!(!Rule::Knight.applies(&grid, &a, &b));
    assert!(Rule::Row.applies(&grid, &a, &c));
    assert!(!Rule::Column.applies(&grid, &a, &c));
    assert!(Rule::Diagonals.applies(&grid, &a, &b));
}

/// A builder restricted to the row rule alone still fills every row with
/// distinct values, and leaves columns unconstrained.
#[test]
fn custom_rule_list_row_only() {
    let mut builder = Builder::with_size(3)
        .limit_milliseconds(30_000)
        .clear_rules()
        .rule(Rule::Row);
    let grid = builder.build().expect("a row-only 3x3 grid should build");
    let expected: Vec<u8> = vec![1, 2, 3];
    for row in 0..3u16 {
        let cells: Vec<u16> = (0..3).map(|c| row * 3 + c).collect();
        assert_eq!(group_values(&grid, &cells), expected);
    }
    assert!(grid.check_invariant());
}

/// A cell limit stops the build early with a consistent partial grid.
#[test]
fn cell_limit_stops_early() {
    let mut builder = Builder::with_size(9).limit_milliseconds(60_000).cell_limit(10);
    let grid = builder.build().expect("a limited build should finish");
    assert!(grid.solved_cell_count() >= 10);
    assert!(grid.check_invariant());
}

/// A symbol alphabet with a repeated character fails the consistency check,
/// and a fitting one passes it.
#[test]
fn duplicate_symbols_fail_the_invariant() {
    let mut builder = Builder::with_size(4).limit_milliseconds(30_000);
    let grid = builder.build().expect("a 4x4 grid should build");
    assert!(grid.check_invariant());
    let shadowed = grid.symbols("1123");
    assert!(!shadowed.check_invariant());
    let short = shadowed.symbols("12");
    assert!(!short.check_invariant());
    let fine = short.symbols("abcd");
    assert!(fine.check_invariant());
}

/// Decimal rendering of counters.
#[test]
fn u64_renders_in_decimal() {
    assert_eq!(u64_to_string(0), "0");
    assert_eq!(u64_to_string(7), "7");
    assert_eq!(u64_to_string(123456), "123456");
    assert_eq!(u64_to_string(10001), "10001");
}
