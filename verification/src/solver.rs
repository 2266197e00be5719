//! The exhaustive solver: counts completions of a partial grid, classifies
//! its solution count as zero, one or many (stopping at the second solution
//! found), and reduces a solved grid to a smaller puzzle with a unique
//! solution. It searches like the builder, but deterministically: always the
//! first empty cell, always every value in order.

use vstd::prelude::*;

use crate::grid::{lemma_same_state, lemma_symmetric_same, Grid};
use crate::random::rand_below;
use crate::runner::{timeout_only, timeout_text, Runner};
use crate::NO_VALUE;
use std::collections::hash_map::DefaultHasher;
use std::collections::HashSet;
use std::hash::Hasher;
use vstd::std_specs::hash::DefaultHasherAdditionalSpecFns;

verus! {

broadcast use vstd::std_specs::hash::group_hash_axioms;

/// What a solver run is after.
#[derive(Clone, Copy, PartialEq, Eq, Structural, Debug)]
pub enum SolverTask {
    CountSolutions,
    UniqueSolutionType,
    ReduceExhaustive,
    Unknown,
}

/// How many completions a partial grid admits: none, exactly one, or more.
#[derive(Clone, Copy, PartialEq, Eq, Structural, Debug)]
pub enum UniqueSolutionType {
    Zero,
    One,
    Many,
}

/// The two equivalent ways of resolving forced cells after an assignment:
/// an immediate recursive cascade, or a repeated straight scan of the grid.
/// They are behaviorally interchangeable; this solver always sweeps.
#[derive(Clone, Copy, PartialEq, Eq, Structural, Debug)]
pub enum SolverOneRemainingStrategy {
    Recursive,
    Straight,
}

/// A full, conflict-free assignment that extends the partial grid: every
/// cell holds a value, no two related cells agree, and every cell the
/// partial grid had filled keeps its value.
pub open spec fn completes(full: Grid, partial: Grid) -> bool {
    &&& full.wf()
    &&& full.no_conflicts()
    &&& full.unsolved_cell_count == 0
    &&& full.same_shape(partial)
    &&& forall|i: int|
        0 <= i < partial.cc() && partial.values@[i] != NO_VALUE ==> full.values@[i]
            == partial.values@[i]
}

/// Whether some full, conflict-free assignment extends the partial grid.
pub open spec fn completable(partial: Grid) -> bool {
    exists|full: Grid| completes(full, partial)
}

/// A completion of one partial grid completes any grid in the same state.
proof fn lemma_completes_same(full: Grid, p1: Grid, p2: Grid)
    requires
        p1.same_state(p2),
        completes(full, p1),
    ensures
        completes(full, p2),
{
    assert forall|i: int|
        0 <= i < p2.cc() && p2.values@[i] != NO_VALUE implies full.values@[i] == p2.values@[i] by {
        assert(p1.values@[i] == p2.values@[i]);
    }
}

/// A grid the solver can work on: exact candidates, no conflicts among the
/// assigned values, and a symmetric relation table.
pub open spec fn solvable(g: Grid) -> bool {
    &&& g.wf()
    &&& g.cands_sound()
    &&& g.no_conflicts()
    &&& g.table_symmetric()
}

/// The exhaustive counting, classification and reduction search.
pub struct Solver {
    pub task: SolverTask,
    pub grid: Grid,
    pub runner: Runner,
    pub unique_solution_type: Option<UniqueSolutionType>,
    pub one_remaining_strategy: SolverOneRemainingStrategy,
    pub min_cells_so_far: u16,
    pub solution_count: usize,
    pub solution_grid: Option<Grid>,
}

impl Solver {
    /// What the solver promises of a reduced grid it hands out: a well-formed
    /// sub-puzzle of the input grid, with exact candidates.
    pub open spec fn reduced_of(g: Grid, original: Grid) -> bool {
        &&& g.wf()
        &&& g.cands_sound()
        &&& g.no_conflicts()
        &&& g.table_symmetric()
        &&& g.same_shape(original)
        &&& forall|i: int|
            0 <= i < original.cc() && g.values[i] != NO_VALUE ==> g.values[i]
                == original.values[i]
    }

    /// A solver over a copy of the given grid, with no budget yet.
    pub fn new(grid: &Grid) -> (s: Solver)
        requires
            solvable(*grid),
        ensures
            solvable(s.grid),
            s.grid.same_state(*grid),
            s.runner.success is None,
            s.runner.time_limit is None,
            s.solution_count == 0,
            s.solution_grid is None,
            timeout_only(s.runner),
            s.runner.wf(),
    {
        let g = grid.fork();
        proof {
            lemma_same_state(g, *grid);
        }
        Solver {
            task: SolverTask::Unknown,
            grid: g,
            runner: Runner::new(None),
            unique_solution_type: None,
            one_remaining_strategy: SolverOneRemainingStrategy::Straight,
            min_cells_so_far: u16::MAX,
            solution_count: 0,
            solution_grid: None,
        }
    }

    /// Sets the wall-clock budget in seconds.
    pub fn limit_seconds(self, seconds: u64) -> (s: Solver)
        ensures
            s.runner.time_limit is Some,
            s == (Solver { runner: s.runner, ..self }),
            s.runner == (Runner { time_limit: s.runner.time_limit, ..self.runner }),
    {
        let ms = if seconds > u64::MAX / 1000 {
            u64::MAX
        } else {
            seconds * 1000
        };
        let mut s = self;
        s.runner.time_limit = Some(ms);
        s
    }

    /// Sets the wall-clock budget in milliseconds.
    pub fn limit_milliseconds(self, msec: u64) -> (s: Solver)
        ensures
            s.runner.time_limit == Some(msec),
            s == (Solver { runner: s.runner, ..self }),
            s.runner == (Runner { time_limit: Some(msec), ..self.runner }),
    {
        let mut s = self;
        s.runner.time_limit = Some(msec);
        s
    }

    /// A working copy of the solver's own grid.
    pub fn clone_grid(&self) -> (g: Grid)
        ensures
            g.same_state(self.grid),
    {
        self.grid.fork()
    }

    /// A copy of the reduced grid found so far.
    pub fn clone_solution_grid(&self) -> (g: Grid)
        requires
            self.solution_grid is Some,
        ensures
            g.same_state(self.solution_grid->0),
    {
        match &self.solution_grid {
            Some(g) => g.fork(),
            None => self.grid.fork(),
        }
    }

    /// A working copy of any grid, counted as one branch fork.
    pub fn clone_grid_ref(&self, grid: &Grid) -> (g: Grid)
        ensures
            g.same_state(*grid),
    {
        grid.fork()
    }

    /// Assigns one candidate value on a branch's grid, then resolves every
    /// cell forced down to a single candidate by a repeated straight scan.
    /// Returns whether the branch survived: no cell ran out of candidates.
    #[verifier::loop_isolation(false)]
    fn set_value(&mut self, grid: &mut Grid, index: u16, value: u8) -> (r: Result<bool, String>)
        requires
            old(self).runner.wf(),
            timeout_only(old(self).runner),
            old(self).runner.success is None,
            solvable(*old(grid)),
            index < old(grid).cell_count,
            1 <= value <= old(grid).max_value,
            old(grid).values@[index as int] == NO_VALUE,
            old(grid).has_cand(index as int, value as int),
        ensures
            final(self).runner.wf(),
            timeout_only(final(self).runner),
            final(self).runner.time_limit == old(self).runner.time_limit,
            *final(self) == (Solver { runner: final(self).runner, ..*old(self) }),
            solvable(*final(grid)),
            final(grid).same_shape(*old(grid)),
            r matches Ok(b) ==> *final(self) == *old(self) && (b
                ==> final(grid).unsolved_cell_count < old(grid).unsolved_cell_count),
            r matches Ok(b) ==> (b ==> final(grid).values@[index as int] == value),
            r matches Ok(b) ==> (b ==> forall|i: int|
                0 <= i < old(grid).cc() && old(grid).values@[i] != NO_VALUE
                    ==> final(grid).values@[i] == old(grid).values@[i]),
            r matches Ok(b) ==> (b ==> forall|i: int|
                0 <= i < final(grid).cc() && final(grid).values@[i] == NO_VALUE
                    ==> #[trigger] final(grid).remaining_value_counts@[i] != 1),
            r matches Ok(b) ==> (!b ==> exists|j: int|
                0 <= j < final(grid).cc() && final(grid).values@[j] == NO_VALUE
                    && #[trigger] final(grid).cand_count(j) == 0),
            old(self).runner.time_limit is None ==> r is Ok,
            old(self).runner.time_limit == Some(0u64) ==> r is Err,
            r matches Err(m) ==> m@ == timeout_text() && final(self).runner.failed(),
    {
        if !self.runner.check_continue() {
            return Err(self.runner.failure_message_clone());
        }
        let ghost g_in = *grid;
        let conflict = grid.set_value(index, value);
        proof {
            lemma_symmetric_same(*grid, g_in);
        }
        if conflict {
            proof {
                let j = choose|j: int|
                    0 <= j < grid.cc() && grid.values@[j] == NO_VALUE && #[trigger] grid.is_related(
                        index as int,
                        j,
                    ) && grid.cand_count(j) == 0;
                assert(grid.values@[j] == NO_VALUE && grid.cand_count(j) == 0);
            }
            return Ok(false);
        }
        loop
            invariant
                *self == *old(self),
                self.runner.wf(),
                self.runner.success is None,
                solvable(*grid),
                grid.same_shape(*old(grid)),
                grid.unsolved_cell_count < old(grid).unsolved_cell_count,
                grid.values@[index as int] == value,
                forall|i: int|
                    0 <= i < old(grid).cc() && old(grid).values@[i] != NO_VALUE ==> grid.values@[i]
                        == old(grid).values@[i],
            decreases grid.unsolved_cell_count,
        {
            if !self.runner.check_continue() {
                return Err(self.runner.failure_message_clone());
            }
            match grid.first_single_candidate() {
                None => {
                    return Ok(true);
                },
                Some(idx) => {
                    let v = grid.one_remaining_value(idx);
                    let ghost pre = *grid;
                    let conflict = grid.set_value(idx, v);
                    proof {
                        lemma_symmetric_same(*grid, pre);
                    }
                    if conflict {
                        proof {
                            let j = choose|j: int|
                                0 <= j < grid.cc() && grid.values@[j] == NO_VALUE
                                    && #[trigger] grid.is_related(idx as int, j)
                                    && grid.cand_count(j) == 0;
                            assert(grid.values@[j] == NO_VALUE && grid.cand_count(j) == 0);
                        }
                        return Ok(false);
                    }
                },
            }
        }
    }

    /// The deterministic, exhaustive branch of the search: takes the first
    /// empty cell and tries every remaining candidate in order, counting each
    /// completion. While classifying uniqueness it stops at the second
    /// completion found.
    ///
    /// The dedup cache travels with the recursion so one reduction session
    /// can share it, but the search itself never consults it: a cache shared
    /// across sub-puzzles would let one sub-puzzle's attempts hide another's
    /// completions, and an undercounted classification here would be wrong,
    /// not merely slow.
    #[verifier::loop_isolation(false)]
    fn find_solutions(&mut self, grid_to_now: &Grid, tried_grids: &mut TriedGrids) -> (r: Result<
        (),
        String,
    >)
        requires
            old(self).runner.wf(),
            timeout_only(old(self).runner),
            old(self).runner.success is None,
            solvable(*grid_to_now),
            grid_to_now.unsolved_cell_count > 0,
            old(self).task == SolverTask::UniqueSolutionType ==> old(self).solution_count <= 1,
        ensures
            final(self).runner.wf(),
            timeout_only(final(self).runner),
            final(self).runner.time_limit == old(self).runner.time_limit,
            *final(self) == (Solver {
                runner: final(self).runner,
                solution_count: final(self).solution_count,
                ..*old(self)
            }),
            final(self).solution_count >= old(self).solution_count,
            old(self).task == SolverTask::UniqueSolutionType ==> final(self).solution_count <= 2
                && (final(self).runner.success is None ==> final(self).solution_count <= 1),
            final(self).solution_count > old(self).solution_count ==> completable(*grid_to_now),
            old(self).runner.time_limit is None ==> r is Ok,
            old(self).runner.time_limit == Some(0u64) ==> r is Err,
            r matches Err(m) ==> m@ == timeout_text() && final(self).runner.failed(),
            r is Ok ==> (final(self).runner.success is None || final(self).runner.success == Some(
                true,
            )),
        decreases grid_to_now.unsolved_cell_count,
    {
        if !self.runner.check_continue() {
            return Err(self.runner.failure_message_clone());
        }
        let try_cell_index = grid_to_now.first_empty_cell();
        let mut try_value: u16 = 1;
        while try_value <= grid_to_now.max_value as u16
            invariant
                1 <= try_value <= grid_to_now.max_value + 1,
                self.runner.wf(),
                timeout_only(self.runner),
                self.runner.success is None,
                self.runner.time_limit == old(self).runner.time_limit,
                *self == (Solver {
                    runner: self.runner,
                    solution_count: self.solution_count,
                    ..*old(self)
                }),
                self.solution_count >= old(self).solution_count,
                old(self).task == SolverTask::UniqueSolutionType ==> self.solution_count <= 1,
                self.solution_count > old(self).solution_count ==> completable(*grid_to_now),
            decreases grid_to_now.max_value + 1 - try_value,
        {
            let v = try_value as u8;
            if grid_to_now.has_remaining_value(try_cell_index, v) {
                let mut try_grid = grid_to_now.fork();
                proof {
                    lemma_same_state(try_grid, *grid_to_now);
                }
                let result = self.set_value(&mut try_grid, try_cell_index, v);
                match result {
                    Ok(grid_is_valid) => {
                        if grid_is_valid {
                            if try_grid.unsolved_cell_count == 0 {
                                proof {
                                    assert(completes(try_grid, *grid_to_now));
                                    assert(completable(*grid_to_now));
                                }
                                if self.solution_count != usize::MAX {
                                    self.solution_count = self.solution_count + 1;
                                }
                                match self.task {
                                    SolverTask::UniqueSolutionType => {
                                        if self.solution_count > 1 {
                                            self.runner.success = Some(true);
                                            return Ok(());
                                        }
                                    },
                                    _ => {},
                                }
                            } else {
                                let ghost count_before = self.solution_count;
                                let result = self.find_solutions(&try_grid, tried_grids);
                                proof {
                                    if self.solution_count > count_before {
                                        let full = choose|full: Grid| completes(full, try_grid);
                                        assert(completes(full, *grid_to_now));
                                        assert(completable(*grid_to_now));
                                    }
                                }
                                match result {
                                    Ok(_) => {},
                                    Err(m) => {
                                        return Err(m);
                                    },
                                }
                            }
                        }
                    },
                    Err(m) => {
                        return Err(m);
                    },
                }
                if !self.runner.check_continue() {
                    match self.runner.success {
                        Some(true) => {
                            return Ok(());
                        },
                        _ => {
                            return Err(self.runner.failure_message_clone());
                        },
                    }
                }
            }
            try_value = try_value + 1;
        }
        Ok(())
    }

    /// Counts the completions of the solver's grid, within the time budget.
    /// The count accumulates onto the solver's running total.
    pub fn count_solutions(&mut self) -> (r: Result<usize, String>)
        requires
            solvable(old(self).grid),
            old(self).grid.unsolved_cell_count > 0,
        ensures
            r matches Ok(n) ==> n == final(self).solution_count && final(self).solution_count
                >= old(self).solution_count,
            final(self).grid == old(self).grid,
            final(self).solution_grid == old(self).solution_grid,
            final(self).solution_count > old(self).solution_count ==> completable(old(self).grid),
            old(self).runner.time_limit is None ==> r is Ok,
            old(self).runner.time_limit == Some(0u64) ==> r is Err,
            r matches Err(m) ==> m@ == timeout_text(),
    {
        self.task = SolverTask::CountSolutions;
        self.runner = Runner::new(self.runner.time_limit);
        let clone_grid = self.clone_grid();
        proof {
            lemma_same_state(clone_grid, self.grid);
        }
        let mut tried_grids = TriedGrids::new();
        let result = self.find_solutions(&clone_grid, &mut tried_grids);
        proof {
            if self.solution_count > old(self).solution_count {
                let full = choose|full: Grid| completes(full, clone_grid);
                lemma_completes_same(full, clone_grid, old(self).grid);
                assert(completable(old(self).grid));
            }
        }
        match result {
            Ok(_) => {
                self.runner.mark_end();
                Ok(self.solution_count)
            },
            Err(m) => Err(m),
        }
    }

    /// Classifies how many completions the solver's grid admits: none,
    /// exactly one, or more than one, stopping at the second one found.
    pub fn unique_solution_type(&mut self, tried_grids: &mut TriedGrids) -> (r: Result<
        UniqueSolutionType,
        String,
    >)
        requires
            solvable(old(self).grid),
            old(self).grid.unsolved_cell_count > 0,
            old(self).solution_count == 0,
        ensures
            r matches Ok(t) ==> {
                &&& (t == UniqueSolutionType::Zero <==> final(self).solution_count == 0)
                &&& (t == UniqueSolutionType::One <==> final(self).solution_count == 1)
                &&& (t == UniqueSolutionType::Many <==> final(self).solution_count >= 2)
                &&& final(self).unique_solution_type == Some(t)
            },
            final(self).solution_count <= 2,
            final(self).grid == old(self).grid,
            final(self).solution_grid == old(self).solution_grid,
            r matches Ok(t) && t != UniqueSolutionType::Zero ==> completable(old(self).grid),
            old(self).runner.time_limit is None ==> r is Ok,
            old(self).runner.time_limit == Some(0u64) ==> r is Err,
            r matches Err(m) ==> m@ == timeout_text(),
    {
        self.task = SolverTask::UniqueSolutionType;
        self.runner = Runner::new(self.runner.time_limit);
        let clone_grid = self.clone_grid();
        proof {
            lemma_same_state(clone_grid, self.grid);
        }
        let result = self.find_solutions(&clone_grid, tried_grids);
        proof {
            if self.solution_count > old(self).solution_count {
                let full = choose|full: Grid| completes(full, clone_grid);
                lemma_completes_same(full, clone_grid, old(self).grid);
                assert(completable(old(self).grid));
            }
        }
        match result {
            Ok(_) => {
                self.runner.mark_end();
                let t = if self.solution_count == 0 {
                    UniqueSolutionType::Zero
                } else if self.solution_count == 1 {
                    UniqueSolutionType::One
                } else {
                    UniqueSolutionType::Many
                };
                self.unique_solution_type = Some(t);
                Ok(t)
            },
            Err(m) => Err(m),
        }
    }
}

/// The reason string handed back when no clue count in the requested range
/// yields a sub-puzzle with a unique completion.
pub open spec fn no_reduction_text() -> Seq<char> {
    "No reduction with a unique solution was found."@
}

/// A sub-puzzle of a solvable grid is itself solvable, and is what the
/// reduction search promises to return.
proof fn lemma_sub_solvable(sub: Grid, orig: Grid)
    requires
        solvable(orig),
        sub.wf(),
        sub.cands_sound(),
        sub.same_shape(orig),
        forall|i: int|
            0 <= i < orig.cc() ==> (#[trigger] sub.values[i] == NO_VALUE || sub.values[i]
                == orig.values[i]),
    ensures
        solvable(sub),
        Solver::reduced_of(sub, orig),
{
    lemma_symmetric_same(sub, orig);
    assert(forall|i: int, j: int| #[trigger] sub.is_related(i, j) == orig.is_related(i, j));
    assert forall|i: int, j: int|
        0 <= i < sub.cc() && 0 <= j < sub.cc() && #[trigger] sub.is_related(i, j) && sub.values[i]
            != NO_VALUE implies sub.values[i] != sub.values[j] by {
        assert(orig.is_related(i, j));
        assert(sub.values[i] == orig.values[i]);
        if sub.values[j] == sub.values[i] {
            assert(sub.values[j] != NO_VALUE);
            assert(sub.values[j] == orig.values[j]);
        }
    }
}

impl Solver {
    /// Removes clues from the solver's (solved) grid: for each clue count in
    /// the given range — ascending tries the fewest clues first — it samples
    /// subsets of cells to keep, classifies each sub-puzzle, and returns the
    /// first one admitting exactly one completion.
    #[verifier::loop_isolation(false)]
    pub fn reduce_exhaustive(
        &mut self,
        inner_time_limit_msec: u64,
        ascending: bool,
        solved_cells_min: u16,
        solved_cells_max: u16,
    ) -> (r: Result<Grid, String>)
        requires
            solvable(old(self).grid),
            solved_cells_min <= solved_cells_max <= old(self).grid.cell_count,
        ensures
            r matches Ok(g) ==> Solver::reduced_of(g, old(self).grid),
            r matches Ok(g) ==> completable(g),
            r matches Ok(g) ==> g.unsolved_cell_count > 0 && (if ascending {
                solved_cells_min <= g.cc() - g.unsolved_cell_count as int <= solved_cells_max
            } else {
                old(self).grid.cc() - solved_cells_max <= g.cc() - g.unsolved_cell_count as int
                    <= old(self).grid.cc() - solved_cells_min
            }),
            final(self).grid == old(self).grid,
            old(self).runner.time_limit == Some(0u64) ==> (r matches Err(m) && m@
                == timeout_text()),
            r matches Err(m) ==> m@ == timeout_text() || m@ == no_reduction_text(),
    {
        self.task = SolverTask::CountSolutions;
        self.runner = Runner::new(self.runner.time_limit);
        let mut tried_grids = TriedGrids::new();
        tried_grids.enabled = true;
        let mut i: u32 = solved_cells_min as u32;
        while i <= solved_cells_max as u32
            invariant
                solved_cells_min <= i,
                i > solved_cells_min ==> self.runner.time_limit != Some(0u64),
                self.runner.wf(),
                timeout_only(self.runner),
                self.runner.success is None,
                self.runner.time_limit == old(self).runner.time_limit,
                solvable(self.grid),
                self.grid == old(self).grid,
            decreases solved_cells_max + 1 - i,
        {
            proof {
                assert((i as u16) as u32 == i);
            }
            let solved_cell_count = if ascending {
                i as u16
            } else {
                self.grid.cell_count - (i as u16)
            };
            let result = self.reduce_exhaustive_try_number_of_cells(
                solved_cell_count,
                inner_time_limit_msec,
                ascending,
                &mut tried_grids,
            );
            match result {
                Ok(found) => {
                    if found {
                        self.runner.mark_end();
                        let g = self.clone_solution_grid();
                        proof {
                            lemma_same_state(g, self.solution_grid->0);
                            let full = choose|full: Grid| completes(full, self.solution_grid->0);
                            lemma_completes_same(full, self.solution_grid->0, g);
                            assert(completable(g));
                        }
                        return Ok(g);
                    }
                },
                Err(m) => {
                    return Err(m);
                },
            }
            i = i + 1;
        }
        proof {
            assert(self.runner.time_limit != Some(0u64));
        }
        let m = "No reduction with a unique solution was found.".to_owned();
        proof {
            reveal_strlit("No reduction with a unique solution was found.");
        }
        Err(m)
    }

    /// Tries every sampled way of keeping exactly `solved_cell_count` clues.
    /// Returns whether a sub-puzzle with a unique completion was found and
    /// stored.
    #[verifier::loop_isolation(false)]
    fn reduce_exhaustive_try_number_of_cells(
        &mut self,
        solved_cell_count: u16,
        inner_time_limit_msec: u64,
        ascending: bool,
        tried_grids: &mut TriedGrids,
    ) -> (r: Result<bool, String>)
        requires
            solvable(old(self).grid),
            old(self).runner.wf(),
            timeout_only(old(self).runner),
            old(self).runner.success is None,
            solved_cell_count <= old(self).grid.cell_count,
        ensures
            final(self).runner.wf(),
            timeout_only(final(self).runner),
            final(self).runner.time_limit == old(self).runner.time_limit,
            final(self).grid == old(self).grid,
            r matches Ok(found) ==> {
                &&& (found ==> final(self).solution_grid is Some && Solver::reduced_of(
                    (final(self).solution_grid->0),
                    old(self).grid,
                ) && (final(self).solution_grid->0).unsolved_cell_count > 0 && old(
                    self,
                ).grid.cc() - (final(self).solution_grid->0).unsolved_cell_count as int
                    == solved_cell_count && completable((final(self).solution_grid->0)))
                &&& (!found ==> final(self).runner.success is None && final(self).solution_grid
                    == old(self).solution_grid)
            },
            old(self).runner.time_limit == Some(0u64) ==> r is Err,
            r matches Err(m) ==> m@ == timeout_text(),
    {
        let combination_limit: usize = 10000;
        let keep = solved_cell_count < self.grid.cell_count / 2;
        if !self.runner.check_continue() {
            return Err(self.runner.failure_message_clone());
        }
        let combination_size = if keep {
            solved_cell_count
        } else {
            self.grid.cell_count - solved_cell_count
        };
        let effective = self.effective_combination_limit(
            combination_limit,
            combination_size as usize,
        );
        let mut index_combinations = self.index_combinations(combination_size as usize, effective);
        while index_combinations.len() > 0
            invariant
                self.runner.wf(),
                timeout_only(self.runner),
                self.runner.success is None,
                self.runner.time_limit == old(self).runner.time_limit,
                self.runner.time_limit != Some(0u64),
                solvable(self.grid),
                self.grid == old(self).grid,
                self.solution_grid == old(self).solution_grid,
            decreases index_combinations.len(),
        {
            let r = rand_below(index_combinations.len());
            let one_combination = index_combinations.remove(r);
            let try_grid = self.grid.partial_grid_from_indexes(one_combination.as_slice(), keep);
            proof {
                lemma_sub_solvable(try_grid, self.grid);
            }
            if try_grid.unsolved_cell_count > 0 {
                let solved = try_grid.solved_cell_count();
                let mut inner_solver = Solver::new(&try_grid).limit_milliseconds(
                    inner_time_limit_msec,
                );
                let ghost inner_grid = inner_solver.grid;
                proof {
                    lemma_same_state(inner_solver.grid, try_grid);
                }
                let result = inner_solver.unique_solution_type(tried_grids);
                match result {
                    Ok(t) => {
                        if t == UniqueSolutionType::One && solved == solved_cell_count {
                            proof {
                                let full = choose|full: Grid| completes(full, inner_grid);
                                lemma_completes_same(full, inner_grid, try_grid);
                                assert(completable(try_grid));
                            }
                            self.solution_grid = Some(try_grid);
                            self.runner.success = Some(true);
                            return Ok(true);
                        }
                    },
                    Err(m) => {
                        return Err(m);
                    },
                }
            }
            if !self.runner.check_continue() {
                return Err(self.runner.failure_message_clone());
            }
        }
        Ok(false)
    }

    /// The sampling cap actually used for one combination size: the
    /// configured cap, unless fewer combinations exist below it.
    #[verifier::loop_isolation(false)]
    fn effective_combination_limit(
        &self,
        combination_limit: usize,
        solved_cell_count: usize,
    ) -> (r: usize)
        ensures
            r <= combination_limit || r == 1,
    {
        let cell_count = self.grid.cell_count as usize;
        let mut possible: usize = 1;
        let mut i: usize = 0;
        while i < solved_cell_count
            invariant
                possible <= combination_limit || possible == 1,
            decreases solved_cell_count - i,
        {
            if i <= cell_count {
                possible = combination_count(cell_count, i);
            }
            if combination_limit < possible {
                return combination_limit;
            }
            i = i + 1;
        }
        possible
    }

    /// Samples `effective_combination_limit` subsets of cell indices, each
    /// holding `solved_cell_count` distinct cells. Subsets are drawn
    /// independently, so the same subset can come up twice: rejecting
    /// repeats would take an unbounded retry loop whose termination is only
    /// probabilistic, which cannot be verified.
    #[verifier::loop_isolation(false)]
    fn index_combinations(
        &self,
        solved_cell_count: usize,
        effective_combination_limit: usize,
    ) -> (v: Vec<Vec<u16>>)
        requires
            self.grid.wf(),
            solved_cell_count <= self.grid.cell_count,
        ensures
            v@.len() == effective_combination_limit,
            forall|q: int|
                0 <= q < v@.len() ==> (#[trigger] v@[q])@.len() == solved_cell_count && (forall|
                    p1: int,
                    p2: int,
                |
                    0 <= p1 < p2 < v@[q]@.len() ==> v@[q]@[p1] < v@[q]@[p2]) && (forall|p: int|
                    0 <= p < v@[q]@.len() ==> #[trigger] v@[q]@[p] < self.grid.cell_count),
    {
        let mut v: Vec<Vec<u16>> = Vec::new();
        let mut left = effective_combination_limit;
        while left > 0
            invariant
                v@.len() + left == effective_combination_limit,
                forall|q: int|
                    0 <= q < v@.len() ==> (#[trigger] v@[q])@.len() == solved_cell_count && (forall|
                        p1: int,
                        p2: int,
                    |
                        0 <= p1 < p2 < v@[q]@.len() ==> v@[q]@[p1] < v@[q]@[p2]) && (forall|p: int|
                        0 <= p < v@[q]@.len() ==> #[trigger] v@[q]@[p] < self.grid.cell_count),
            decreases left,
        {
            let one_combination = self.sample_combination(solved_cell_count);
            v.push(one_combination);
            left = left - 1;
        }
        v
    }

    /// Draws one subset of `size` distinct cell indices, ascending.
    #[verifier::loop_isolation(false)]
    fn sample_combination(&self, size: usize) -> (c: Vec<u16>)
        requires
            self.grid.wf(),
            size <= self.grid.cell_count,
        ensures
            c@.len() == size,
            forall|p1: int, p2: int| 0 <= p1 < p2 < c@.len() ==> c@[p1] < c@[p2],
            forall|p: int| 0 <= p < c@.len() ==> #[trigger] c@[p] < self.grid.cell_count,
    {
        let cc = self.grid.cell_count;
        let mut avail: Vec<u16> = Vec::new();
        let mut i: u16 = 0;
        while i < cc
            invariant
                i <= cc,
                avail@.len() == i as int,
                forall|p: int| 0 <= p < avail@.len() ==> #[trigger] avail@[p] == p,
            decreases cc - i,
        {
            avail.push(i);
            i = i + 1;
        }
        let mut c: Vec<u16> = Vec::new();
        let mut t: usize = 0;
        while t < size
            invariant
                t <= size,
                c@.len() == t as int,
                avail@.len() == cc as int - t as int,
                forall|p1: int, p2: int|
                    0 <= p1 < p2 < avail@.len() ==> avail@[p1] < avail@[p2],
                forall|p: int| 0 <= p < avail@.len() ==> #[trigger] avail@[p] < cc,
                forall|p1: int, p2: int| 0 <= p1 < p2 < c@.len() ==> c@[p1] < c@[p2],
                forall|p: int| 0 <= p < c@.len() ==> #[trigger] c@[p] < cc,
                forall|p1: int, p2: int|
                    0 <= p1 < c@.len() && 0 <= p2 < avail@.len() ==> c@[p1] != avail@[p2],
            decreases size - t,
        {
            let r = rand_below(avail.len());
            let ghost old_avail = avail@;
            let x = avail.remove(r);
            let ghost old_c = c@;
            insert_sorted(&mut c, x);
            proof {
                assert forall|p1: int, p2: int|
                    0 <= p1 < p2 < avail@.len() implies avail@[p1] < avail@[p2] by {
                    if p1 < r as int {
                        assert(avail@[p1] == old_avail[p1]);
                    } else {
                        assert(avail@[p1] == old_avail[p1 + 1]);
                    }
                    if p2 < r as int {
                        assert(avail@[p2] == old_avail[p2]);
                    } else {
                        assert(avail@[p2] == old_avail[p2 + 1]);
                    }
                }
                assert forall|p1: int, p2: int|
                    0 <= p1 < c@.len() && 0 <= p2 < avail@.len() implies c@[p1] != avail@[p2] by {
                    let y = avail@[p2];
                    if p2 < r as int {
                        assert(y == old_avail[p2]);
                    } else {
                        assert(y == old_avail[p2 + 1]);
                    }
                    assert(c@[p1] == x || old_c.contains(c@[p1]));
                    if c@[p1] == x {
                        assert(y != x);
                    } else {
                        let p0 = choose|p0: int| 0 <= p0 < old_c.len() && old_c[p0] == c@[p1];
                    }
                }
            }
            t = t + 1;
        }
        c
    }
}

/// Inserts a value a strictly ascending list does not yet hold, keeping the
/// order.
#[verifier::loop_isolation(false)]
fn insert_sorted(v: &mut Vec<u16>, x: u16)
    requires
        forall|p1: int, p2: int| 0 <= p1 < p2 < old(v)@.len() ==> old(v)@[p1] < old(v)@[p2],
        !old(v)@.contains(x),
    ensures
        final(v)@.len() == old(v)@.len() + 1,
        forall|p1: int, p2: int| 0 <= p1 < p2 < final(v)@.len() ==> final(v)@[p1] < final(v)@[p2],
        forall|p: int|
            0 <= p < final(v)@.len() ==> #[trigger] final(v)@[p] == x || old(v)@.contains(
                final(v)@[p],
            ),
{
    let mut pos: usize = 0;
    while pos < v.len() && v[pos] < x
        invariant
            pos <= v@.len(),
            forall|p: int| 0 <= p < pos ==> #[trigger] v@[p] < x,
        decreases v@.len() - pos,
    {
        pos = pos + 1;
    }
    proof {
        assert forall|p: int| pos <= p < v@.len() implies #[trigger] v@[p] > x by {
            if p > pos as int {
                assert(v@[pos as int] < v@[p]);
            }
            assert(v@[p] != x);
        }
    }
    let ghost before = v@;
    v.insert(pos, x);
    proof {
        assert(v@ =~= before.insert(pos as int, x));
        assert forall|p1: int, p2: int| 0 <= p1 < p2 < v@.len() implies v@[p1] < v@[p2] by {
            assert(v@[p1] == if p1 < pos as int {
                before[p1]
            } else if p1 == pos as int {
                x
            } else {
                before[p1 - 1]
            });
            assert(v@[p2] == if p2 < pos as int {
                before[p2]
            } else if p2 == pos as int {
                x
            } else {
                before[p2 - 1]
            });
        }
        assert forall|p: int| 0 <= p < v@.len() implies #[trigger] v@[p] == x || before.contains(
            v@[p],
        ) by {
            if p != pos as int {
                if p < pos as int {
                    assert(v@[p] == before[p]);
                } else {
                    assert(v@[p] == before[p - 1]);
                }
            }
        }
    }
}

/// The factorial, saturating at the largest machine value.
#[verifier::loop_isolation(false)]
pub fn factorial(n: usize) -> (r: usize)
    ensures
        r == spec_factorial(n as int) || (r == usize::MAX && spec_factorial(n as int)
            > usize::MAX),
        r >= 1,
{
    let mut f: usize = 1;
    let mut i: usize = 1;
    while i < n
        invariant
            1 <= i,
            i <= n || i == 1,
            f == spec_factorial(i as int) || (f == usize::MAX && spec_factorial(i as int)
                > usize::MAX),
            f >= 1,
        decreases n - i,
    {
        i = i + 1;
        let ghost pre = f as int;
        f = saturating_mul(f, i);
        proof {
            assert(spec_factorial(i as int) == spec_factorial(i - 1) * i);
            if pre == usize::MAX && spec_factorial(i - 1) > usize::MAX {
                assert(spec_factorial(i - 1) * i > usize::MAX) by (nonlinear_arith)
                    requires
                        spec_factorial(i - 1) > usize::MAX,
                        i >= 1,
                ;
                assert(pre * i > usize::MAX) by (nonlinear_arith)
                    requires
                        pre == usize::MAX as int,
                        i >= 2,
                ;
            }
            assert(f >= 1) by (nonlinear_arith)
                requires
                    f as int == pre * i || f == usize::MAX,
                    pre >= 1,
                    i >= 1,
                    f == usize::MAX || f as int == pre * i,
            ;
        }
    }
    f
}

/// The number of ways to choose `chosen_count` items from `set_size`,
/// computed as the falling product over the factorial; both steps
/// saturate at the largest machine value.
#[verifier::loop_isolation(false)]
pub fn combination_count(set_size: usize, chosen_count: usize) -> (r: usize)
    requires
        chosen_count <= set_size,
    ensures
        spec_prod_range(set_size - chosen_count + 1, set_size as int) <= usize::MAX
            && spec_factorial(chosen_count as int) <= usize::MAX && chosen_count >= 1
            && chosen_count < set_size ==> r == spec_prod_range(
            set_size - chosen_count + 1,
            set_size as int,
        ) / spec_factorial(chosen_count as int),
        chosen_count == 0 || chosen_count == set_size ==> r == 1,
{
    if chosen_count == 0 {
        return 1;
    }
    if set_size == chosen_count {
        return 1;
    }
    let lo = set_size - chosen_count + 1;
    let mut f: usize = 1;
    let mut i: usize = lo - 1;
    while i < set_size
        invariant
            lo - 1 <= i <= set_size,
            lo >= 1,
            f == spec_prod_range(lo as int, i as int) || (f == usize::MAX && spec_prod_range(
                lo as int,
                i as int,
            ) > usize::MAX),
            f >= 1,
        decreases set_size - i,
    {
        i = i + 1;
        let ghost pre = f as int;
        f = saturating_mul(f, i);
        proof {
            assert(spec_prod_range(lo as int, i as int) == spec_prod_range(lo as int, i - 1) * i);
            if pre == usize::MAX && spec_prod_range(lo as int, i - 1) > usize::MAX {
                assert(spec_prod_range(lo as int, i - 1) * i > usize::MAX) by (nonlinear_arith)
                    requires
                        spec_prod_range(lo as int, i - 1) > usize::MAX,
                        i >= 1,
                ;
                assert(pre * i > usize::MAX || i == 1) by (nonlinear_arith)
                    requires
                        pre == usize::MAX as int,
                        i >= 1,
                ;
            }
            assert(f >= 1) by (nonlinear_arith)
                requires
                    f as int == pre * i || f == usize::MAX,
                    pre >= 1,
                    i >= 1,
            ;
        }
    }
    let d = factorial(chosen_count);
    f / d
}

/// The product of the integers from `a` through `b`.
pub open spec fn spec_prod_range(a: int, b: int) -> int
    decreases b + 1 - a,
{
    if b < a {
        1
    } else {
        spec_prod_range(a, b - 1) * b
    }
}

/// The factorial of `n`.
pub open spec fn spec_factorial(n: int) -> int
    decreases n,
{
    if n <= 1 {
        1
    } else {
        spec_factorial(n - 1) * n
    }
}

/// Multiplies, saturating at the largest machine value.
fn saturating_mul(a: usize, b: usize) -> (r: usize)
    ensures
        r == a * b || (r == usize::MAX && a * b > usize::MAX),
{
    match a.checked_mul(b) {
        Some(r) => r,
        None => usize::MAX,
    }
}

/// A content-hash cache of attempted partial assignments, owned by one
/// logical run and passed by reference through the recursion. The counting
/// search leaves it switched off (see `find_solutions` for why); it stands
/// ready for searches that only need any one completion.
pub struct TriedGrids {
    pub enabled: bool,
    pub registered_count: usize,
    pub found_count: usize,
    pub hashes: HashSet<u64>,
}

/// The hash recorded for one full value array.
pub open spec fn grid_hash(values: Seq<u8>) -> u64 {
    DefaultHasher::spec_finish(seq![values])
}

impl TriedGrids {
    /// An empty, disabled cache.
    pub fn new() -> (t: TriedGrids)
        ensures
            !t.enabled,
            t.registered_count == 0,
            t.found_count == 0,
            t.hashes@ == Set::<u64>::empty(),
    {
        TriedGrids { enabled: false, registered_count: 0, found_count: 0, hashes: HashSet::new() }
    }

    /// Registers the partial assignment that `grid` would become once
    /// `try_value` goes into the cell at `try_cell_index`. Returns whether
    /// that assignment was not seen before — hash collisions can make two
    /// different assignments count as the same one.
    pub fn register_attempt(
        &mut self,
        grid: &Grid,
        try_cell_index: u16,
        try_value: u8,
    ) -> (is_new: bool)
        requires
            grid.wf(),
            try_cell_index < grid.cell_count,
            grid.values@[try_cell_index as int] == NO_VALUE,
            1 <= try_value <= grid.max_value,
        ensures
            !old(self).enabled ==> is_new && *final(self) == *old(self),
            old(self).enabled ==> {
                let h = grid_hash(grid.values@.update(try_cell_index as int, try_value));
                &&& is_new == !old(self).hashes@.contains(h)
                &&& final(self).hashes@ == old(self).hashes@.insert(h)
                &&& final(self).enabled
                &&& final(self).registered_count == (if old(self).registered_count == usize::MAX {
                    usize::MAX as int
                } else {
                    old(self).registered_count + 1
                })
                &&& final(self).found_count == (if is_new || old(self).found_count == usize::MAX {
                    old(self).found_count as int
                } else {
                    old(self).found_count + 1
                })
            },
    {
        if !self.enabled {
            return true;
        }
        if self.registered_count != usize::MAX {
            self.registered_count = self.registered_count + 1;
        }
        let mut try_values = crate::grid::clone_u8s(&grid.values);
        try_values[try_cell_index as usize] = try_value;
        proof {
            assert(try_values@ =~= grid.values@.update(try_cell_index as int, try_value));
        }
        let hash = hash_values(&try_values);
        let is_new = if self.hashes.contains(&hash) {
            if self.found_count != usize::MAX {
                self.found_count = self.found_count + 1;
            }
            false
        } else {
            self.hashes.insert(hash);
            true
        };
        is_new
    }
}

/// The hash of a value array: the standard hasher, fed the bytes once.
fn hash_values(values: &Vec<u8>) -> (h: u64)
    ensures
        h == grid_hash(values@),
{
    let mut hasher = DefaultHasher::new();
    hasher.write(values.as_slice());
    hasher.finish()
}

} // verus!
