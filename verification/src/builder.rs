//! The randomized depth-first generator. It precomputes the relation table
//! from the active rule list, then fills the grid cell by cell, always
//! choosing a cell with the fewest remaining candidates (ties broken at
//! random) and backtracking on contradiction. Every branch owns a forked
//! grid; a shared runner carries the time budget and the first outcome.

use vstd::prelude::*;

use crate::grid::{lemma_same_state, Grid};
use crate::random::rand_below;
use crate::rules::{rule_holds, Cell, Rule};
use crate::runner::{timeout_only, timeout_text, Runner};
use crate::counting::{count_eq, count_true, lemma_count_eq_at, lemma_count_eq_pos,
    lemma_count_true_pos};
use crate::{gen_char_array, NO_VALUE, SYMBOLS_EXTENDED, SYMBOLS_STANDARD};

verus! {

/// The cell position handed to the rules for the zero-based cell index `i`.
pub open spec fn cell_at(i: int, width: int, bw: int, bh: int, bcc: int) -> Cell {
    Cell {
        index: (i + 1) as u16,
        row: (i / width + 1) as i8,
        column: (i % width + 1) as i8,
        block: ((i / width) / bh * bcc + (i % width) / bw + 1) as i8,
    }
}

/// Whether any rule of the list relates the two distinct cells.
pub open spec fn rules_relate(rules: Seq<Rule>, g: Grid, i: int, j: int) -> bool {
    i != j && exists|q: int|
        0 <= q < rules.len() && rule_holds(
            #[trigger] rules[q],
            g.width as int,
            cell_at(i, g.width as int, g.block_width as int, g.block_height as int, g.block_col_count as int),
            cell_at(j, g.width as int, g.block_width as int, g.block_height as int, g.block_col_count as int),
        )
}

/// How many of the first `n` cells the rules relate to cell `i`.
pub open spec fn rel_count(rules: Seq<Rule>, g: Grid, i: int, n: int) -> nat
    decreases n,
{
    if n <= 0 {
        0
    } else {
        rel_count(rules, g, i, n - 1) + if rules_relate(rules, g, i, n - 1) {
            1nat
        } else {
            0nat
        }
    }
}

proof fn lemma_rel_count_le(rules: Seq<Rule>, g: Grid, i: int, n: int)
    requires
        0 <= n,
    ensures
        rel_count(rules, g, i, n) <= n,
    decreases n,
{
    if n > 0 {
        lemma_rel_count_le(rules, g, i, n - 1);
    }
}

/// Dividing a number below a product by the factor stays below the cofactor.
proof fn lemma_div_lt(a: int, b: int, c: int)
    requires
        0 <= a,
        a < b * c,
        0 < c,
    ensures
        0 <= a / c < b,
{
    vstd::arithmetic::div_mod::lemma_fundamental_div_mod(a, c);
    vstd::arithmetic::div_mod::lemma_mod_bound(a, c);
    assert(a == c * (a / c) + a % c);
    assert(0 <= a / c) by (nonlinear_arith)
        requires
            a == c * (a / c) + a % c,
            0 <= a,
            0 <= a % c,
            a % c < c,
    ;
    if a / c >= b {
        assert(c * b <= c * (a / c)) by (nonlinear_arith)
            requires
                b <= a / c,
                0 < c,
        ;
        assert(b * c == c * b) by (nonlinear_arith);
        assert(false);
    }
}

/// A shape is buildable once both block-count quotients sit below bounds
/// whose product stays within range.
proof fn lemma_buildable(w: int, h: int, bw: int, bh: int, q1: int, q2: int)
    requires
        0 < bw <= w <= 127,
        0 < bh <= h <= 127,
        bw * bh <= 127,
        (w + bw - 1) / bw <= q1,
        (h + bh - 1) / bh <= q2,
        0 <= q1,
        0 <= q2,
        q1 * q2 <= 127,
    ensures
        buildable(w, h, bw, bh),
{
    vstd::arithmetic::div_mod::lemma_div_pos_is_pos(w + bw - 1, bw);
    vstd::arithmetic::div_mod::lemma_div_pos_is_pos(h + bh - 1, bh);
    assert(((w + bw - 1) / bw) * ((h + bh - 1) / bh) <= q1 * q2) by (nonlinear_arith)
        requires
            0 <= (w + bw - 1) / bw <= q1,
            0 <= (h + bh - 1) / bh <= q2,
    ;
}

/// Rounding a quotient up and multiplying back never loses ground.
proof fn lemma_ceil_mul_ge(h: int, bh: int)
    requires
        0 <= h,
        0 < bh,
    ensures
        ((h + bh - 1) / bh) * bh >= h,
{
    let t = h + bh - 1;
    vstd::arithmetic::div_mod::lemma_fundamental_div_mod(t, bh);
    vstd::arithmetic::div_mod::lemma_mod_bound(t, bh);
    assert((t / bh) * bh == bh * (t / bh)) by (nonlinear_arith);
}

/// Which cells the rules relate depends only on the grid's shape fields.
proof fn lemma_rules_relate_same(rules: Seq<Rule>, g1: Grid, g2: Grid, i: int, j: int)
    requires
        g1.width == g2.width,
        g1.block_width == g2.block_width,
        g1.block_height == g2.block_height,
        g1.block_col_count == g2.block_col_count,
    ensures
        rules_relate(rules, g1, i, j) == rules_relate(rules, g2, i, j),
{
    if rules_relate(rules, g1, i, j) {
        let q = choose|q: int|
            0 <= q < rules.len() && rule_holds(
                #[trigger] rules[q],
                g1.width as int,
                cell_at(
                    i,
                    g1.width as int,
                    g1.block_width as int,
                    g1.block_height as int,
                    g1.block_col_count as int,
                ),
                cell_at(
                    j,
                    g1.width as int,
                    g1.block_width as int,
                    g1.block_height as int,
                    g1.block_col_count as int,
                ),
            );
        assert(rule_holds(
            rules[q],
            g2.width as int,
            cell_at(
                i,
                g2.width as int,
                g2.block_width as int,
                g2.block_height as int,
                g2.block_col_count as int,
            ),
            cell_at(
                j,
                g2.width as int,
                g2.block_width as int,
                g2.block_height as int,
                g2.block_col_count as int,
            ),
        ));
    }
    if rules_relate(rules, g2, i, j) {
        let q = choose|q: int|
            0 <= q < rules.len() && rule_holds(
                #[trigger] rules[q],
                g2.width as int,
                cell_at(
                    i,
                    g2.width as int,
                    g2.block_width as int,
                    g2.block_height as int,
                    g2.block_col_count as int,
                ),
                cell_at(
                    j,
                    g2.width as int,
                    g2.block_width as int,
                    g2.block_height as int,
                    g2.block_col_count as int,
                ),
            );
        assert(rule_holds(
            rules[q],
            g1.width as int,
            cell_at(
                i,
                g1.width as int,
                g1.block_width as int,
                g1.block_height as int,
                g1.block_col_count as int,
            ),
            cell_at(
                j,
                g1.width as int,
                g1.block_width as int,
                g1.block_height as int,
                g1.block_col_count as int,
            ),
        ));
    }
}

/// A grid as the search hands it around: exact candidates, no conflicts, a
/// symmetric relation table, and every empty cell still open.
pub open spec fn searchable(g: Grid) -> bool {
    &&& g.wf()
    &&& g.cands_sound()
    &&& g.no_conflicts()
    &&& g.table_symmetric()
    &&& g.viable()
}

/// Rows already emitted into the relation table keep their characterization
/// when further entries are appended.
proof fn lemma_prev_rows(
    cur: Seq<u16>,
    prev: Seq<u16>,
    rules: Seq<Rule>,
    g0: Grid,
    i: int,
    mr: int,
    cc: u16,
)
    requires
        prev.len() >= i * mr,
        cur.len() >= prev.len(),
        0 <= mr,
        0 <= i,
        forall|p: int| 0 <= p < prev.len() ==> #[trigger] cur[p] == prev[p],
        forall|i2: int, k: int|
            0 <= i2 < i && 0 <= k < mr ==> {
                let s = #[trigger] prev[i2 * mr + k];
                s < cc && (s == i2 || rules_relate(rules, g0, i2, s as int))
            },
        forall|i2: int, j2: int|
            0 <= i2 < i && 0 <= j2 < cc as int && rules_relate(rules, g0, i2, j2) ==> exists|k: int|
                0 <= k < mr && #[trigger] prev[i2 * mr + k] == j2,
    ensures
        forall|i2: int, k: int|
            0 <= i2 < i && 0 <= k < mr ==> {
                let s = #[trigger] cur[i2 * mr + k];
                s < cc && (s == i2 || rules_relate(rules, g0, i2, s as int))
            },
        forall|i2: int, j2: int|
            0 <= i2 < i && 0 <= j2 < cc as int && rules_relate(rules, g0, i2, j2) ==> exists|k: int|
                0 <= k < mr && #[trigger] cur[i2 * mr + k] == j2,
{
    assert forall|i2: int, k: int| 0 <= i2 < i && 0 <= k < mr implies {
        let s = #[trigger] cur[i2 * mr + k];
        s < cc && (s == i2 || rules_relate(rules, g0, i2, s as int))
    } by {
        assert(0 <= i2 * mr + k && i2 * mr + k < i * mr) by (nonlinear_arith)
            requires
                0 <= i2,
                i2 < i,
                0 <= k,
                k < mr,
        ;
        assert(cur[i2 * mr + k] == prev[i2 * mr + k]);
        assert({
            let s = prev[i2 * mr + k];
            s < cc && (s == i2 || rules_relate(rules, g0, i2, s as int))
        });
    }
    assert forall|i2: int, j2: int|
        0 <= i2 < i && 0 <= j2 < cc as int && rules_relate(rules, g0, i2, j2) implies exists|
        k: int,
    | 0 <= k < mr && #[trigger] cur[i2 * mr + k] == j2 by {
        let k = choose|k: int| 0 <= k < mr && #[trigger] prev[i2 * mr + k] == j2;
        assert(0 <= i2 * mr + k && i2 * mr + k < i * mr) by (nonlinear_arith)
            requires
                0 <= i2,
                i2 < i,
                0 <= k,
                k < mr,
        ;
        assert(cur[i2 * mr + k] == j2);
    }
}

/// The block shape used for a square grid of the given side: three by three
/// for the ordinary nine-a-side puzzle, and the nearest practical rectangle
/// otherwise.
pub open spec fn standard_block_shape(size: int) -> (u8, u8) {
    if size <= 3 {
        (1u8, 1u8)
    } else if size <= 5 {
        (2u8, 2u8)
    } else if size <= 7 {
        (3u8, 2u8)
    } else if size == 8 {
        (4u8, 2u8)
    } else if size == 9 {
        (3u8, 3u8)
    } else if size <= 11 {
        (5u8, 2u8)
    } else if size <= 14 {
        (4u8, 3u8)
    } else if size == 15 {
        (5u8, 3u8)
    } else if size <= 17 {
        (4u8, 4u8)
    } else if size <= 19 {
        (6u8, 3u8)
    } else if size == 20 {
        (5u8, 4u8)
    } else if size <= 23 {
        (7u8, 3u8)
    } else if size == 24 {
        (6u8, 4u8)
    } else if size <= 27 {
        (5u8, 5u8)
    } else if size <= 29 {
        (7u8, 4u8)
    } else if size <= 31 {
        (6u8, 5u8)
    } else if size <= 34 {
        (8u8, 4u8)
    } else if size == 35 {
        (7u8, 5u8)
    } else {
        (6u8, 6u8)
    }
}

/// A grid shape the builder can set up: positive block dimensions inside the
/// grid, and coordinates small enough for the rules' cell positions.
pub open spec fn buildable(width: int, height: int, bw: int, bh: int) -> bool {
    &&& 0 < bw <= width <= 127
    &&& 0 < bh <= height <= 127
    &&& ((width + bw - 1) / bw) * ((height + bh - 1) / bh) <= 127
    &&& bw * bh <= 127
}

/// Configures and runs the randomized generator.
pub struct Builder {
    pub width: u8,
    pub height: u8,
    pub block_width: u8,
    pub block_height: u8,
    pub max_tried_grid_count: Option<usize>,
    pub symbols: Vec<char>,
    pub time_limit: Option<u64>,
    pub cell_limit: Option<u16>,
    pub related_cell_predicates: Vec<Rule>,
}

impl Builder {
    pub open spec fn valid_shape(self) -> bool {
        buildable(
            self.width as int,
            self.height as int,
            self.block_width as int,
            self.block_height as int,
        )
    }

    /// The grid's relation table realizes exactly the builder's rule list:
    /// two distinct cells are related if and only if some active rule holds
    /// of their positions.
    pub open spec fn rules_table(self, g: Grid) -> bool {
        forall|i: int, j: int|
            0 <= i < g.cc() && 0 <= j < g.cc() ==> (#[trigger] g.is_related(i, j) == rules_relate(
                self.related_cell_predicates@,
                g,
                i,
                j,
            ))
    }

    /// A finished grid as this builder promises one: exact candidates, no
    /// conflicts, a symmetric relation table, and either every cell filled or
    /// the configured cell limit reached.
    pub open spec fn build_done(self, g: Grid) -> bool {
        &&& g.wf()
        &&& g.cands_sound()
        &&& g.no_conflicts()
        &&& g.table_symmetric()
        &&& match self.cell_limit {
            None => g.unsolved_cell_count == 0,
            Some(limit) => g.unsolved_cell_count == 0 || g.cc() - g.unsolved_cell_count as int
                >= limit,
        }
    }

    /// A square grid of the given side, with the usual block shape for it
    /// and the default rules.
    #[verifier::rlimit(50)]
    pub fn with_size(size: u8) -> (b: Builder)
        requires
            1 <= size <= 36,
        ensures
            b.valid_shape(),
            b.width == size,
            b.height == size,
            b.block_width == standard_block_shape(size as int).0,
            b.block_height == standard_block_shape(size as int).1,
            b.related_cell_predicates@ == seq![Rule::Row, Rule::Column, Rule::Block],
            b.symbols@.len() == 0,
            b.max_tried_grid_count is None,
            b.time_limit is None,
            b.cell_limit is None,
    {
        let (block_width, block_height): (u8, u8) = match size {
            1 | 2 | 3 => (1, 1),
            4 | 5 => (2, 2),
            6 | 7 => (3, 2),
            8 => (4, 2),
            9 => (3, 3),
            10 | 11 => (5, 2),
            12 | 13 | 14 => (4, 3),
            15 => (5, 3),
            16 | 17 => (4, 4),
            18 | 19 => (6, 3),
            20 => (5, 4),
            21 | 22 | 23 => (7, 3),
            24 => (6, 4),
            25 | 26 | 27 => (5, 5),
            28 | 29 => (7, 4),
            30 | 31 => (6, 5),
            32 | 33 | 34 => (8, 4),
            35 => (7, 5),
            _ => (6, 6),
        };
        proof {
            assert(size + block_width - 1 < 12 * block_width);
            assert(size + block_height - 1 < 12 * block_height);
            lemma_div_lt(size as int + block_width - 1, 12, block_width as int);
            lemma_div_lt(size as int + block_height - 1, 12, block_height as int);
            lemma_buildable(
                size as int,
                size as int,
                block_width as int,
                block_height as int,
                11,
                11,
            );
        }
        Builder::new(size, size, block_width, block_height)
    }

    /// A square grid of square blocks with the given side.
    pub fn with_block_size(block_size: u8) -> (b: Builder)
        requires
            1 <= block_size,
            block_size * block_size <= 127,
        ensures
            b.valid_shape(),
            b.width == block_size * block_size,
            b.height == b.width,
    {
        Builder::with_block(block_size, block_size)
    }

    /// A square grid whose side is the block area, as in ordinary puzzles.
    pub fn with_block(block_width: u8, block_height: u8) -> (b: Builder)
        requires
            1 <= block_width,
            1 <= block_height,
            block_width * block_height <= 127,
        ensures
            b.valid_shape(),
            b.width == block_width * block_height,
            b.height == b.width,
    {
        let grid_width = block_width * block_height;
        let grid_height = grid_width;
        proof {
            let w = grid_width as int;
            let bw = block_width as int;
            let bh = block_height as int;
            assert((w + bw - 1) / bw == bh && (w + bh - 1) / bh == bw) by (nonlinear_arith)
                requires
                    w == bw * bh,
                    1 <= bw,
                    1 <= bh,
            ;
            assert(bh * bw == bw * bh) by (nonlinear_arith);
            assert(bw <= w && bh <= w) by (nonlinear_arith)
                requires
                    w == bw * bh,
                    1 <= bw,
                    1 <= bh,
            ;
        }
        Builder::new(grid_width, grid_height, block_width, block_height)
    }

    /// A builder for the given shape, with the default rules: row, column and
    /// block.
    pub fn new(width: u8, height: u8, block_width: u8, block_height: u8) -> (b: Builder)
        requires
            buildable(width as int, height as int, block_width as int, block_height as int),
        ensures
            b.valid_shape(),
            b.width == width,
            b.height == height,
            b.block_width == block_width,
            b.block_height == block_height,
            b.time_limit is None,
            b.cell_limit is None,
            b.max_tried_grid_count is None,
            b.symbols@.len() == 0,
            b.related_cell_predicates@ == seq![Rule::Row, Rule::Column, Rule::Block],
    {
        let mut related_cell_predicates: Vec<Rule> = Vec::new();
        related_cell_predicates.push(Rule::Row);
        related_cell_predicates.push(Rule::Column);
        related_cell_predicates.push(Rule::Block);
        proof {
            assert(related_cell_predicates@ =~= seq![Rule::Row, Rule::Column, Rule::Block]);
        }
        Builder {
            width,
            height,
            block_width,
            block_height,
            max_tried_grid_count: None,
            symbols: Vec::new(),
            time_limit: None,
            cell_limit: None,
            related_cell_predicates,
        }
    }

    /// Caps how many attempted partial assignments a dedup cache may hold.
    /// The generator itself keeps no such cache — skipping repeated partial
    /// assignments is a memory-for-time heuristic its search does not need
    /// for correctness — so the setting is carried for callers that manage
    /// their own cache around the build.
    pub fn max_tried_grid_count(self, max_tried_grid_count: usize) -> (b: Builder)
        ensures
            b == (Builder { max_tried_grid_count: Some(max_tried_grid_count), ..self }),
    {
        Builder { max_tried_grid_count: Some(max_tried_grid_count), ..self }
    }

    /// Chooses the symbol alphabet for the built grid.
    pub fn symbols(self, symbols: &str) -> (b: Builder)
        ensures
            b.symbols@ == symbols@,
            b == (Builder { symbols: b.symbols, ..self }),
    {
        let mut b = self;
        b.symbols = gen_char_array(symbols);
        b
    }

    /// Sets the wall-clock budget in seconds.
    pub fn limit_seconds(self, seconds: u64) -> (b: Builder)
        ensures
            b.time_limit is Some,
            b == (Builder { time_limit: b.time_limit, ..self }),
    {
        let ms = if seconds > u64::MAX / 1000 {
            u64::MAX
        } else {
            seconds * 1000
        };
        Builder { time_limit: Some(ms), ..self }
    }

    /// Sets the wall-clock budget in milliseconds.
    pub fn limit_milliseconds(self, msec: u64) -> (b: Builder)
        ensures
            b == (Builder { time_limit: Some(msec), ..self }),
    {
        Builder { time_limit: Some(msec), ..self }
    }

    /// Stops the build once this many cells are filled.
    pub fn cell_limit(self, cell_limit: u16) -> (b: Builder)
        ensures
            b == (Builder { cell_limit: Some(cell_limit), ..self }),
    {
        Builder { cell_limit: Some(cell_limit), ..self }
    }

    /// Drops every rule, for a caller that assembles its own list.
    pub fn clear_rules(self) -> (b: Builder)
        ensures
            b.related_cell_predicates@.len() == 0,
            b == (Builder { related_cell_predicates: b.related_cell_predicates, ..self }),
    {
        let mut b = self;
        b.related_cell_predicates = Vec::new();
        b
    }

    /// Adds one rule to the active list.
    pub fn rule(self, rule: Rule) -> (b: Builder)
        ensures
            b.related_cell_predicates@ == self.related_cell_predicates@.push(rule),
            b == (Builder { related_cell_predicates: b.related_cell_predicates, ..self }),
    {
        let mut b = self;
        b.related_cell_predicates.push(rule);
        b
    }

    /// The rule-level cell position of the cell at `index`.
    fn index_to_cell(grid: &Grid, index: u16) -> (c: Cell)
        requires
            grid.wf(),
            buildable(
                grid.width as int,
                grid.height as int,
                grid.block_width as int,
                grid.block_height as int,
            ),
            index < grid.cell_count,
        ensures
            c == cell_at(
                index as int,
                grid.width as int,
                grid.block_width as int,
                grid.block_height as int,
                grid.block_col_count as int,
            ),
            1 <= c.row <= grid.height,
            1 <= c.column <= grid.width,
            c.index > 0,
            c.block > 0,
    {
        let row = index / (grid.width as u16);
        let col = index % (grid.width as u16);
        proof {
            assert(index < grid.height as int * grid.width as int) by (nonlinear_arith)
                requires
                    index < grid.cell_count,
                    grid.cell_count == grid.width as int * grid.height as int,
            ;
            lemma_div_lt(index as int, grid.height as int, grid.width as int);
            vstd::arithmetic::div_mod::lemma_mod_bound(index as int, grid.width as int);
            lemma_ceil_mul_ge(grid.height as int, grid.block_height as int);
            assert(grid.block_row_count as int * grid.block_height as int >= grid.height)
                by (nonlinear_arith)
                requires
                    grid.block_row_count == (grid.height + grid.block_height - 1) / (
                    grid.block_height as int),
                    ((grid.height + grid.block_height - 1) / (grid.block_height as int))
                        * grid.block_height as int >= grid.height,
            ;
            lemma_ceil_mul_ge(grid.width as int, grid.block_width as int);
            assert(grid.block_col_count as int * grid.block_width as int >= grid.width)
                by (nonlinear_arith)
                requires
                    grid.block_col_count == (grid.width + grid.block_width - 1) / (
                    grid.block_width as int),
                    ((grid.width + grid.block_width - 1) / (grid.block_width as int))
                        * grid.block_width as int >= grid.width,
            ;
            lemma_div_lt(row as int, grid.block_row_count as int, grid.block_height as int);
            lemma_div_lt(col as int, grid.block_col_count as int, grid.block_width as int);
            assert(((row as int / (grid.block_height as int)) * (grid.block_col_count as int) + (
            col as int / (grid.block_width as int))) < (grid.block_row_count as int) * (
            grid.block_col_count as int)) by (nonlinear_arith)
                requires
                    0 <= (row as int / (grid.block_height as int)),
                    (row as int / (grid.block_height as int)) < grid.block_row_count as int,
                    0 <= (col as int / (grid.block_width as int)),
                    (col as int / (grid.block_width as int)) < grid.block_col_count as int,
            ;
            assert((grid.block_row_count as int) * (grid.block_col_count as int) == (
            grid.block_col_count as int) * (grid.block_row_count as int)) by (nonlinear_arith);
        }
        let block = (row / grid.block_height as u16) * grid.block_col_count as u16 + col
            / grid.block_width as u16;
        Cell::new(index + 1, (row + 1) as i8, (col + 1) as i8, (block + 1) as i8)
    }

    /// Whether any active rule relates the two distinct cells.
    #[verifier::loop_isolation(false)]
    fn cells_related(&self, grid: &Grid, c1: &Cell, c2: &Cell) -> (r: bool)
        requires
            grid.width <= 127,
            c1.row > 0,
            c1.column > 0,
            c2.row > 0,
            c2.column > 0,
            1 <= c1.column <= grid.width,
            1 <= c2.column <= grid.width,
        ensures
            r == exists|q: int|
                0 <= q < self.related_cell_predicates@.len() && rule_holds(
                    #[trigger] self.related_cell_predicates@[q],
                    grid.width as int,
                    *c1,
                    *c2,
                ),
    {
        let n = self.related_cell_predicates.len();
        let mut q: usize = 0;
        while q < n
            invariant
                q <= n,
                forall|p: int|
                    0 <= p < q ==> !rule_holds(
                        #[trigger] self.related_cell_predicates@[p],
                        grid.width as int,
                        *c1,
                        *c2,
                    ),
            decreases n - q,
        {
            if self.related_cell_predicates[q].applies(grid, c1, c2) {
                return true;
            }
            q = q + 1;
        }
        false
    }

    /// Computes the relation table: for each cell, the indices of every
    /// distinct other cell some active rule relates it to, padded with the
    /// cell's own index up to the widest such list. The table is symmetric
    /// because every rule is.
    #[verifier::loop_isolation(false)]
    fn set_up_related_cells(&self, grid: &mut Grid)
        requires
            old(grid).wf(),
            old(grid).cands_sound(),
            buildable(
                old(grid).width as int,
                old(grid).height as int,
                old(grid).block_width as int,
                old(grid).block_height as int,
            ),
            forall|i: int| 0 <= i < old(grid).cc() ==> old(grid).values[i] == NO_VALUE,
        ensures
            final(grid).wf(),
            final(grid).cands_sound(),
            final(grid).table_symmetric(),
            final(grid).viable() == old(grid).viable(),
            final(grid).values@ == old(grid).values@,
            final(grid).bits() == old(grid).bits(),
            final(grid).unsolved_cell_count == old(grid).unsolved_cell_count,
            final(grid).symbols@ == old(grid).symbols@,
            final(grid).width == old(grid).width,
            final(grid).height == old(grid).height,
            final(grid).block_width == old(grid).block_width,
            final(grid).block_height == old(grid).block_height,
            final(grid).cell_count == old(grid).cell_count,
            final(grid).max_value == old(grid).max_value,
            forall|i: int, j: int|
                0 <= i < final(grid).cc() && 0 <= j < final(grid).cc()
                    ==> (#[trigger] final(grid).is_related(i, j) == rules_relate(
                    self.related_cell_predicates@,
                    *old(grid),
                    i,
                    j,
                )),
            forall|i: int|
                0 <= i < final(grid).cc() ==> rel_count(
                    self.related_cell_predicates@,
                    *old(grid),
                    i,
                    final(grid).cc(),
                ) <= final(grid).mrcc(),
            final(grid).max_related_cell_count == 0 || exists|i: int|
                0 <= i < final(grid).cc() && rel_count(
                    self.related_cell_predicates@,
                    *old(grid),
                    i,
                    final(grid).cc(),
                ) == final(grid).mrcc(),
    {
        let ghost g0 = *grid;
        let ghost rules = self.related_cell_predicates@;
        let cc = grid.cell_count;

        // first pass: how many cells each cell is related to, and the maximum
        let mut counts: Vec<u16> = Vec::new();
        let mut mrcc: u16 = 0;
        let mut i: u16 = 0;
        while i < cc
            invariant
                i <= cc,
                counts@.len() == i as int,
                forall|i2: int|
                    0 <= i2 < i ==> #[trigger] counts@[i2] as nat == rel_count(
                        rules,
                        g0,
                        i2,
                        cc as int,
                    ),
                forall|i2: int| 0 <= i2 < i ==> #[trigger] counts@[i2] <= mrcc,
                mrcc == 0 || exists|p: int| 0 <= p < i && #[trigger] counts@[p] == mrcc,
            decreases cc - i,
        {
            let ci = Builder::index_to_cell(grid, i);
            let mut cnt: u16 = 0;
            let mut j: u16 = 0;
            while j < cc
                invariant
                    j <= cc,
                    cnt as nat == rel_count(rules, g0, i as int, j as int),
                    cnt <= j,
                decreases cc - j,
            {
                if j != i {
                    let cj = Builder::index_to_cell(grid, j);
                    if self.cells_related(grid, &ci, &cj) {
                        cnt = cnt + 1;
                    }
                }
                j = j + 1;
            }
            let ghost pre_counts = counts@;
            let ghost old_mrcc = mrcc;
            if cnt > mrcc {
                mrcc = cnt;
            }
            counts.push(cnt);
            proof {
                if mrcc != 0 {
                    if mrcc == cnt {
                        assert(counts@[i as int] == mrcc);
                    } else {
                        let p = choose|p: int| 0 <= p < i && #[trigger] pre_counts[p] == old_mrcc;
                        assert(counts@[p] == mrcc);
                    }
                }
            }
            i = i + 1;
        }
        let ghost final_counts = counts@;
        let ghost final_mrcc = mrcc;

        // second pass: emit each cell's related indices, padded to `mrcc`
        // slots with the cell's own index
        proof {
            assert(cc as int * mrcc as int <= 65535 * 65535) by (nonlinear_arith)
                requires
                    cc <= 65535,
                    mrcc <= 65535,
            ;
        }
        let mut table: Vec<u16> = Vec::new();
        let mut i: u16 = 0;
        while i < cc
            invariant
                i <= cc,
                table@.len() == i as int * mrcc as int,
                forall|i2: int, k: int|
                    0 <= i2 < i && 0 <= k < mrcc ==> {
                        let s = #[trigger] table@[i2 * mrcc as int + k];
                        s < cc && (s == i2 || rules_relate(rules, g0, i2, s as int))
                    },
                forall|i2: int, j2: int|
                    0 <= i2 < i && 0 <= j2 < cc as int && rules_relate(rules, g0, i2, j2)
                        ==> exists|k: int|
                        0 <= k < mrcc && #[trigger] table@[i2 * mrcc as int + k] == j2,
            decreases cc - i,
        {
            let ghost row_start = table@.len() as int;
            proof {
                assert(row_start == i as int * mrcc as int);
                assert(row_start + mrcc as int <= cc as int * mrcc as int) by (nonlinear_arith)
                    requires
                        row_start == i as int * mrcc as int,
                        (i as int) < cc as int,
                        0 <= mrcc as int,
                ;
            }
            let ci = Builder::index_to_cell(grid, i);
            let mut pushed: u16 = 0;
            let mut j: u16 = 0;
            while j < cc
                invariant
                    j <= cc,
                    pushed as nat == rel_count(rules, g0, i as int, j as int),
                    pushed <= j,
                    table@.len() == row_start + pushed as int,
                    forall|k: int|
                        0 <= k < pushed ==> {
                            let s = #[trigger] table@[row_start + k];
                            s < cc && s != i && rules_relate(rules, g0, i as int, s as int)
                        },
                    forall|j2: int|
                        0 <= j2 < j && rules_relate(rules, g0, i as int, j2) ==> exists|k: int|
                            0 <= k < pushed && #[trigger] table@[row_start + k] == j2,
                    forall|i2: int, k: int|
                        0 <= i2 < i && 0 <= k < mrcc ==> {
                            let s = #[trigger] table@[i2 * mrcc as int + k];
                            s < cc && (s == i2 || rules_relate(rules, g0, i2, s as int))
                        },
                    forall|i2: int, j2: int|
                        0 <= i2 < i && 0 <= j2 < cc as int && rules_relate(rules, g0, i2, j2)
                            ==> exists|k: int|
                            0 <= k < mrcc && #[trigger] table@[i2 * mrcc as int + k] == j2,
                decreases cc - j,
            {
                let ghost pre_table = table@;
                if j != i {
                    let cj = Builder::index_to_cell(grid, j);
                    if self.cells_related(grid, &ci, &cj) {
                        table.push(j);
                        pushed = pushed + 1;
                        proof {
                            assert forall|j2: int|
                                0 <= j2 < j + 1 && rules_relate(rules, g0, i as int, j2) implies exists|
                                k: int,
                            |
                                0 <= k < pushed && #[trigger] table@[row_start + k] == j2 by {
                                if j2 < j as int {
                                    let k = choose|k: int|
                                        0 <= k < pushed - 1 && #[trigger] pre_table[row_start + k]
                                            == j2;
                                    assert(pre_table[row_start + k] == j2);
                                    assert(table@[row_start + k] == pre_table[row_start + k]);
                                    assert(table@[row_start + k] == j2);
                                } else {
                                    assert(j2 == j as int);
                                    assert(table@[row_start + pushed - 1] == j2);
                                }
                            }
                        }
                    }
                }
                proof {
                    lemma_prev_rows(table@, pre_table, rules, g0, i as int, mrcc as int, cc);
                }
                j = j + 1;
            }
            proof {
                lemma_rel_count_le(rules, g0, i as int, cc as int);
                assert(counts@[i as int] as nat == rel_count(rules, g0, i as int, cc as int));
                assert(pushed <= mrcc);
            }
            // padding: the cell's own index, which relates it to nothing
            while pushed < mrcc
                invariant
                    pushed <= mrcc,
                    table@.len() == row_start + pushed as int,
                    forall|k: int|
                        0 <= k < pushed ==> {
                            let s = #[trigger] table@[row_start + k];
                            s < cc && (s == i || rules_relate(rules, g0, i as int, s as int))
                        },
                    forall|j2: int|
                        0 <= j2 < cc as int && rules_relate(rules, g0, i as int, j2)
                            ==> exists|k: int|
                            0 <= k < pushed && #[trigger] table@[row_start + k] == j2,
                    forall|i2: int, k: int|
                        0 <= i2 < i && 0 <= k < mrcc ==> {
                            let s = #[trigger] table@[i2 * mrcc as int + k];
                            s < cc && (s == i2 || rules_relate(rules, g0, i2, s as int))
                        },
                    forall|i2: int, j2: int|
                        0 <= i2 < i && 0 <= j2 < cc as int && rules_relate(rules, g0, i2, j2)
                            ==> exists|k: int|
                            0 <= k < mrcc && #[trigger] table@[i2 * mrcc as int + k] == j2,
                decreases mrcc - pushed,
            {
                let ghost pre_table = table@;
                table.push(i);
                pushed = pushed + 1;
                proof {
                    assert forall|j2: int|
                        0 <= j2 < cc as int && rules_relate(rules, g0, i as int, j2) implies exists|
                        k: int,
                    |
                        0 <= k < pushed && #[trigger] table@[row_start + k] == j2 by {
                        let k = choose|k: int|
                            0 <= k < pushed - 1 && #[trigger] pre_table[row_start + k] == j2;
                        assert(table@[row_start + k] == j2);
                    }
                    lemma_prev_rows(table@, pre_table, rules, g0, i as int, mrcc as int, cc);
                }
            }
            proof {
                assert((i as int + 1) * mrcc as int == i as int * mrcc as int + mrcc as int)
                    by (nonlinear_arith);
            }
            i = i + 1;
        }

        let ghost new_table = table@;
        grid.related_cell_indexes = table;
        grid.max_related_cell_count = mrcc;
        proof {
            let gf = *grid;
            let ccint = g0.cc();
            let mr = mrcc as int;
            assert forall|i2: int| #[trigger] gf.cand_count(i2) == g0.cand_count(i2) by {
                assert(gf.cand_slice(i2) =~= g0.cand_slice(i2));
            }
            crate::grid::lemma_total_same(gf, g0, ccint);
            // the slot width is exactly the largest related-cell count
            assert forall|i2: int| 0 <= i2 < ccint implies rel_count(rules, g0, i2, ccint)
                <= gf.mrcc() by {
                assert(final_counts[i2] as nat == rel_count(rules, g0, i2, cc as int));
                assert(final_counts[i2] <= final_mrcc);
            }
            if gf.max_related_cell_count != 0 {
                let p = choose|p: int| 0 <= p < cc as int && #[trigger] final_counts[p]
                    == final_mrcc;
                assert(rel_count(rules, g0, p, ccint) == gf.mrcc());
            }
            assert forall|p: int| 0 <= p < new_table.len() implies #[trigger] new_table[p]
                < cc by {
                vstd::arithmetic::div_mod::lemma_fundamental_div_mod(p, mr);
                vstd::arithmetic::div_mod::lemma_mod_bound(p, mr);
                let i2 = p / mr;
                let k = p % mr;
                lemma_div_lt(p, ccint, mr);
                assert(new_table[i2 * mr + k] < cc && (new_table[i2 * mr + k] == i2
                    || rules_relate(rules, g0, i2, new_table[i2 * mr + k] as int)));
            }

            // the table characterizes the rule relation exactly
            assert forall|i2: int, j2: int| 0 <= i2 < ccint && 0 <= j2 < ccint implies (
            #[trigger] gf.is_related(i2, j2) == rules_relate(rules, g0, i2, j2)) by {
                if gf.is_related(i2, j2) {
                    let k = choose|k: int|
                        0 <= k < mr && #[trigger] new_table[i2 * mr + k] == j2;
                    assert(new_table[i2 * mr + k] < cc && (new_table[i2 * mr + k] == i2
                        || rules_relate(rules, g0, i2, new_table[i2 * mr + k] as int)));
                }
                if rules_relate(rules, g0, i2, j2) {
                    let k = choose|k: int|
                        0 <= k < mr && #[trigger] new_table[i2 * mr + k] == j2;
                    assert(gf.is_related(i2, j2));
                }
            }

            // symmetry of the relation, from the symmetry of each rule
            assert forall|i2: int, j2: int|
                0 <= i2 < ccint && 0 <= j2 < ccint && #[trigger] gf.is_related(i2, j2) implies gf.is_related(
                j2,
                i2,
            ) by {
                assert(rules_relate(rules, g0, i2, j2));
                let q = choose|q: int|
                    0 <= q < rules.len() && rule_holds(
                        #[trigger] rules[q],
                        g0.width as int,
                        cell_at(
                            i2,
                            g0.width as int,
                            g0.block_width as int,
                            g0.block_height as int,
                            g0.block_col_count as int,
                        ),
                        cell_at(
                            j2,
                            g0.width as int,
                            g0.block_width as int,
                            g0.block_height as int,
                            g0.block_col_count as int,
                        ),
                    );
                crate::rules::lemma_rule_symmetric(
                    rules[q],
                    g0.width as int,
                    cell_at(
                        i2,
                        g0.width as int,
                        g0.block_width as int,
                        g0.block_height as int,
                        g0.block_col_count as int,
                    ),
                    cell_at(
                        j2,
                        g0.width as int,
                        g0.block_width as int,
                        g0.block_height as int,
                        g0.block_col_count as int,
                    ),
                );
                assert(rules_relate(rules, g0, j2, i2));
            }

            // the bitset is still exact: every cell is empty, so every value
            // stays allowed whatever the relation table says
            assert forall|i2: int, v: int|
                0 <= i2 < ccint && 1 <= v <= gf.mv() implies #[trigger] gf.cand_ok(i2, v) by {
                assert(g0.cand_ok(i2, v));
                assert(g0.value_allowed(i2, v)) by {
                    assert(g0.values[i2] == NO_VALUE);
                }
                assert(g0.has_cand(i2, v));
                assert(gf.value_allowed(i2, v)) by {
                    assert forall|j2: int|
                        0 <= j2 < gf.cc() && #[trigger] gf.is_related(i2, j2) implies gf.values[j2]
                        != v by {
                        assert(gf.values[j2] == NO_VALUE && v >= 1);
                    }
                }
            }
            assert(gf.viable() == g0.viable()) by {
                if g0.viable() {
                    assert forall|i2: int|
                        0 <= i2 < gf.cc() && gf.values[i2] == NO_VALUE implies #[trigger] gf.cand_count(
                        i2,
                    ) >= 1 by {
                        assert(g0.cand_count(i2) >= 1);
                    }
                }
                if gf.viable() {
                    assert forall|i2: int|
                        0 <= i2 < g0.cc() && g0.values[i2] == NO_VALUE implies #[trigger] g0.cand_count(
                        i2,
                    ) >= 1 by {
                        assert(gf.cand_count(i2) >= 1);
                    }
                }
            }
        }
    }

    /// A cell to try next: an empty cell with the fewest remaining
    /// candidates, ties broken uniformly at random.
    #[verifier::loop_isolation(false)]
    fn choose_try_cell_index(grid: &Grid) -> (idx: u16)
        requires
            grid.wf(),
            grid.cands_sound(),
            grid.viable(),
            grid.unsolved_cell_count > 0,
        ensures
            idx < grid.cell_count,
            grid.values@[idx as int] == NO_VALUE,
            grid.remaining_value_counts@[idx as int] >= 1,
            forall|p: int|
                0 <= p < grid.cc() && #[trigger] grid.remaining_value_counts@[p] >= 1
                    ==> grid.remaining_value_counts@[idx as int]
                    <= grid.remaining_value_counts@[p],
    {
        let cc = grid.cell_count;
        let ghost counts = grid.remaining_value_counts@;

        // the smallest positive candidate count
        let mut min: u8 = 0;
        let mut i: u16 = 0;
        while i < cc
            invariant
                i <= cc,
                min == 0 ==> forall|p: int|
                    0 <= p < i ==> #[trigger] grid.remaining_value_counts@[p] == 0,
                min > 0 ==> exists|p: int|
                    0 <= p < i && #[trigger] grid.remaining_value_counts@[p] == min,
                min > 0 ==> forall|p: int|
                    0 <= p < i ==> #[trigger] grid.remaining_value_counts@[p] == 0
                        || grid.remaining_value_counts@[p] >= min,
            decreases cc - i,
        {
            let c = grid.remaining_value_counts[i as usize];
            if c > 0 && (min == 0 || c < min) {
                min = c;
                proof {
                    assert(grid.remaining_value_counts@[i as int] == min);
                }
            }
            i = i + 1;
        }
        proof {
            lemma_count_eq_pos(grid.values@, NO_VALUE, grid.cc());
            let e = choose|e: int| 0 <= e < grid.cc() && grid.values@[e] == NO_VALUE;
            assert(grid.cand_count(e) >= 1);
            assert(grid.remaining_value_counts@[e] as nat == grid.cand_count(e));
            assert(min > 0);
        }

        // how many cells achieve the minimum
        let mut found: u16 = 0;
        let mut i: u16 = 0;
        while i < cc
            invariant
                i <= cc,
                found as nat == count_eq(counts, min, i as int),
                found <= i,
            decreases cc - i,
        {
            proof {
                crate::counting::lemma_count_eq_le(counts, min, i as int);
            }
            if grid.remaining_value_counts[i as usize] == min {
                found = found + 1;
            }
            i = i + 1;
        }
        proof {
            let p = choose|p: int|
                0 <= p < cc as int && #[trigger] grid.remaining_value_counts@[p] == min;
            lemma_count_eq_at(counts, min, cc as int, p);
        }

        // pick one of them uniformly at random
        let r = rand_below(found as usize) as u16;
        let mut seen: u16 = 0;
        let mut i: u16 = 0;
        while i < cc
            invariant
                i <= cc,
                seen as nat == count_eq(counts, min, i as int),
                seen <= r,
                r < found,
                found as nat == count_eq(counts, min, cc as int),
                min >= 1,
            decreases cc - i,
        {
            if grid.remaining_value_counts[i as usize] == min {
                if seen == r {
                    proof {
                        crate::grid::lemma_has_cand_slice(*grid, i as int, 1);
                        let s = grid.cand_slice(i as int);
                        assert(count_true(s) >= 1);
                        lemma_count_true_pos(s);
                        let b = choose|b: int| 0 <= b < s.len() && s[b];
                        crate::grid::lemma_has_cand_slice(*grid, i as int, b + 1);
                        assert(grid.has_cand(i as int, b + 1));
                        assert(grid.cand_ok(i as int, b + 1));
                        assert(grid.values@[i as int] == NO_VALUE);
                    }
                    return i;
                }
                seen = seen + 1;
            }
            i = i + 1;
        }
        proof {
            assert(false);
        }
        0
    }

    /// Whether the configured cell limit is reached.
    fn reached_limit(&self, grid: &Grid) -> (r: bool)
        requires
            grid.wf(),
        ensures
            r == match self.cell_limit {
                Some(limit) => grid.cc() - grid.unsolved_cell_count as int >= limit,
                None => false,
            },
    {
        match self.cell_limit {
            Some(limit) => grid.solved_cell_count() >= limit,
            None => false,
        }
    }

    /// Assigns one candidate value to one cell of a branch's grid and runs
    /// the forced-cell propagation. Records success on completion (or on
    /// reaching the cell limit); returns whether the branch is still open and
    /// incomplete, so that the caller may search deeper.
    #[verifier::loop_isolation(false)]
    fn try_set_value(
        &self,
        runner: &mut Runner,
        grid: &mut Grid,
        index: u16,
        value: u8,
        out: &mut Option<Grid>,
    ) -> (go: bool)
        requires
            old(runner).wf(),
            timeout_only(*old(runner)),
            searchable(*old(grid)),
            index < old(grid).cell_count,
            1 <= value <= old(grid).max_value,
            old(grid).values@[index as int] == NO_VALUE,
            old(grid).has_cand(index as int, value as int),
            ((*old(out)) is Some) == (old(runner).success == Some(true)),
            (*old(out)) is Some ==> self.build_done((*old(out))->0) && ((*old(out))->0).same_shape(
                *old(grid),
            ),
        ensures
            final(runner).wf(),
            timeout_only(*final(runner)),
            final(runner).time_limit == old(runner).time_limit,
            ((*final(out)) is Some) == (final(runner).success == Some(true)),
            (*final(out)) is Some ==> self.build_done((*final(out))->0)
                && ((*final(out))->0).same_shape(*old(grid)),
            old(runner).success == Some(true) ==> *final(out) == *old(out),
            old(runner).failed() ==> !go && *final(runner) == *old(runner)
                && *final(out) == *old(out),
            old(runner).time_limit is None && !old(runner).failed() ==> !final(runner).failed(),
            go ==> searchable(*final(grid)) && final(grid).unsolved_cell_count
                < old(grid).unsolved_cell_count && final(grid).unsolved_cell_count > 0
                && final(grid).same_shape(*old(grid)),
            go ==> final(grid).values@[index as int] == value,
            go ==> forall|i: int|
                0 <= i < old(grid).cc() && old(grid).values@[i] != NO_VALUE
                    ==> final(grid).values@[i] == old(grid).values@[i],
            go ==> forall|i: int|
                0 <= i < final(grid).cc() && final(grid).values@[i] == NO_VALUE
                    ==> #[trigger] final(grid).remaining_value_counts@[i] != 1,
            !go ==> final(runner).failed() || final(runner).success == Some(true) || (exists|j: int|
                0 <= j < final(grid).cc() && final(grid).values@[j] == NO_VALUE
                    && #[trigger] final(grid).cand_count(j) == 0),
            old(runner).success is None && old(runner).time_limit == Some(0u64) ==> !go
                && *final(out) == *old(out),
    {
        if !runner.check_continue() {
            return false;
        }
        let ghost g_in = *grid;
        let conflict = grid.set_value(index, value);
        proof {
            crate::grid::lemma_symmetric_same(*grid, g_in);
        }
        if conflict {
            proof {
                let j = choose|j: int|
                    0 <= j < grid.cc() && grid.values@[j] == NO_VALUE && #[trigger] grid.is_related(
                        index as int,
                        j,
                    ) && grid.cand_count(j) == 0;
                assert(grid.values@[j] == NO_VALUE && grid.cand_count(j) == 0);
            }
            return false;
        }
        if grid.unsolved_cell_count == 0 || self.reached_limit(grid) {
            runner.success = Some(true);
            let done = grid.fork();
            proof {
                lemma_same_state(done, *grid);
            }
            *out = Some(done);
            return false;
        }
        loop
            invariant
                runner.wf(),
                timeout_only(*runner),
                runner.time_limit == old(runner).time_limit,
                searchable(*grid),
                grid.same_shape(*old(grid)),
                grid.unsolved_cell_count > 0,
                grid.unsolved_cell_count < old(grid).unsolved_cell_count,
                grid.values@[index as int] == value,
                forall|i: int|
                    0 <= i < old(grid).cc() && old(grid).values@[i] != NO_VALUE ==> grid.values@[i]
                        == old(grid).values@[i],
                (*out is Some) == (runner.success == Some(true)),
                *out is Some ==> self.build_done((*out)->0) && ((*out)->0).same_shape(*old(grid)),
                runner.success is None,
            decreases grid.unsolved_cell_count,
        {
            if !runner.check_continue() {
                return false;
            }
            match grid.first_single_candidate() {
                None => {
                    return true;
                },
                Some(idx) => {
                    let v = grid.one_remaining_value(idx);
                    let ghost g_pre = *grid;
                    let conflict = grid.set_value(idx, v);
                    proof {
                        crate::grid::lemma_symmetric_same(*grid, g_pre);
                    }
                    if conflict {
                        proof {
                            let j = choose|j: int|
                                0 <= j < grid.cc() && grid.values@[j] == NO_VALUE
                                    && #[trigger] grid.is_related(idx as int, j)
                                    && grid.cand_count(j) == 0;
                            assert(grid.values@[j] == NO_VALUE && grid.cand_count(j) == 0);
                        }
                        return false;
                    }
                    if grid.unsolved_cell_count == 0 || self.reached_limit(grid) {
                        runner.success = Some(true);
                        let done = grid.fork();
                        proof {
                            lemma_same_state(done, *grid);
                        }
                        *out = Some(done);
                        return false;
                    }
                },
            }
        }
    }

    /// One step of the depth-first search: pick a cell with the fewest
    /// candidates, try each of its values on a forked grid, and recurse while
    /// the shared runner allows it.
    #[verifier::loop_isolation(false)]
    fn build_next_cell(&self, runner: &mut Runner, grid_to_now: &Grid, out: &mut Option<Grid>)
        requires
            old(runner).wf(),
            timeout_only(*old(runner)),
            searchable(*grid_to_now),
            grid_to_now.unsolved_cell_count > 0,
            ((*old(out)) is Some) == (old(runner).success == Some(true)),
            (*old(out)) is Some ==> self.build_done((*old(out))->0)
                && ((*old(out))->0).same_shape(*grid_to_now),
        ensures
            final(runner).wf(),
            timeout_only(*final(runner)),
            final(runner).time_limit == old(runner).time_limit,
            ((*final(out)) is Some) == (final(runner).success == Some(true)),
            (*final(out)) is Some ==> self.build_done((*final(out))->0)
                && ((*final(out))->0).same_shape(*grid_to_now),
            old(runner).success == Some(true) ==> *final(out) == *old(out),
            old(runner).failed() ==> *final(runner) == *old(runner) && *final(out) == *old(out),
            old(runner).time_limit is None && !old(runner).failed() ==> !final(runner).failed(),
            old(runner).success is None && old(runner).time_limit == Some(0u64) ==> *final(out)
                == *old(out) && final(runner).failed(),
        decreases grid_to_now.unsolved_cell_count,
    {
        if !runner.check_continue() {
            return;
        }
        let try_cell_index = Builder::choose_try_cell_index(grid_to_now);
        let try_values = grid_to_now.remaining_values(try_cell_index);
        let n = try_values.len();
        let mut q: usize = 0;
        while q < n
            invariant
                runner.wf(),
                timeout_only(*runner),
                runner.time_limit == old(runner).time_limit,
                old(runner).time_limit is None && !old(runner).failed() ==> !runner.failed(),
                (*out is Some) == (runner.success == Some(true)),
                *out is Some ==> self.build_done((*out)->0) && ((*out)->0).same_shape(
                    *grid_to_now,
                ),
                n == try_values@.len(),
                forall|p: int|
                    0 <= p < n ==> 1 <= #[trigger] try_values@[p] <= grid_to_now.max_value
                        && grid_to_now.has_cand(try_cell_index as int, try_values@[p] as int),
            decreases n - q,
        {
            if !runner.check_continue() {
                return;
            }
            let v = try_values[q];
            let mut try_grid = grid_to_now.fork();
            proof {
                lemma_same_state(try_grid, *grid_to_now);
            }
            let go = self.try_set_value(runner, &mut try_grid, try_cell_index, v, out);
            if go {
                self.build_next_cell(runner, &try_grid, out);
            }
            q = q + 1;
        }
    }

    /// Runs the generator: computes the relation table, then searches until a
    /// grid is complete (or reaches the cell limit), the time budget runs
    /// out, or the whole space is exhausted. A zero budget fails with the
    /// timeout reason before any search work.
    pub fn build(&mut self) -> (r: Result<Grid, String>)
        requires
            old(self).valid_shape(),
        ensures
            r matches Ok(g) ==> old(self).build_done(g) && old(self).rules_table(g) && (
            g.symbols_ok() ==> g.invariant_holds()),
            r matches Ok(g) ==> g.width == old(self).width && g.height == old(self).height
                && g.block_width == old(self).block_width && g.block_height == old(
                self,
            ).block_height && g.symbols@ == final(self).symbols@,
            old(self).symbols@.len() > 0 ==> final(self).symbols@ == old(self).symbols@,
            old(self).time_limit == Some(0u64) ==> (r matches Err(m) && m@ == timeout_text()),
            old(self).time_limit is None ==> (r matches Err(m) ==> m@ == exhausted_text()),
            r matches Err(m) ==> m@ == timeout_text() || m@ == exhausted_text(),
    {
        let mut grid = Grid::new(self.width, self.height, self.block_width, self.block_height);
        let ghost g_fresh = grid;
        self.set_up_related_cells(&mut grid);
        let ghost g_tabled = grid;
        if self.symbols.len() == 0 {
            self.symbols = gen_char_array(
                if grid.max_value <= 9 {
                    SYMBOLS_STANDARD
                } else {
                    SYMBOLS_EXTENDED
                },
            );
        }
        grid.set_symbols(&self.symbols);

        proof {
            assert(grid.cell_count >= 1) by (nonlinear_arith)
                requires
                    grid.cell_count == grid.width as int * grid.height as int,
                    grid.width >= 1,
                    grid.height >= 1,
            ;
        }
        let mut runner = Runner::new(self.time_limit);
        let mut out: Option<Grid> = None;
        self.build_next_cell(&mut runner, &grid, &mut out);
        runner.mark_end();
        match out {
            Some(g) => {
                proof {
                    if g.symbols_ok() {
                        crate::grid::lemma_invariant_from_sound(g);
                    }
                    let rules = self.related_cell_predicates@;
                    assert forall|i: int, j: int|
                        0 <= i < g.cc() && 0 <= j < g.cc() implies (#[trigger] g.is_related(i, j)
                        == rules_relate(rules, g, i, j)) by {
                        assert(g.is_related(i, j) == grid.is_related(i, j));
                        assert(g_tabled.is_related(i, j) == rules_relate(rules, g_fresh, i, j));
                        assert(grid.is_related(i, j) == g_tabled.is_related(i, j));
                        lemma_rules_relate_same(rules, g_fresh, g, i, j);
                    }
                }
                Ok(g)
            },
            None => {
                proof {
                    assert(runner.success != Some(true));
                    if runner.success is Some {
                        let b = runner.success->0;
                        assert(runner.success == Some(b));
                        assert(b != true);
                        assert(runner.failed());
                        assert(runner.failure_message is Some);
                        assert((runner.failure_message->0)@ == timeout_text());
                    }
                }
                if runner.success.is_some() {
                    Err(runner.failure_message_clone())
                } else {
                    let m = "Search space exhausted with zero completions.".to_owned();
                    proof {
                        reveal_strlit("Search space exhausted with zero completions.");
                    }
                    Err(m)
                }
            },
        }
    }
}

/// The reason string recorded when the search space is used up without a
/// completion.
pub open spec fn exhausted_text() -> Seq<char> {
    "Search space exhausted with zero completions."@
}

} // verus!
