//! Adjacency rules. A rule is a predicate over two cell positions; the rule
//! list is closed and static, evaluated once while the relation table is set
//! up, never during search. Every rule is symmetric in its two cells, which
//! is what makes the relation table symmetric.

use vstd::prelude::*;

use crate::grid::Grid;

verus! {

/// One cell position as the rules see it: one-based row, column and block
/// coordinates next to the zero-based cell index plus one.
pub struct Cell {
    pub index: u16,
    pub row: i8,
    pub column: i8,
    pub block: i8,
}

/// The absolute difference of two coordinates.
pub open spec fn dist(a: int, b: int) -> int {
    if a >= b {
        a - b
    } else {
        b - a
    }
}

impl Cell {
    pub fn new(index: u16, row: i8, column: i8, block: i8) -> (c: Cell)
        requires
            index > 0,
            row > 0,
            column > 0,
            block > 0,
        ensures
            c == (Cell { index, row, column, block }),
    {
        Cell { index, row, column, block }
    }

    /// How many rows apart the two cells lie.
    pub fn row_distance(&self, other: &Cell) -> (d: i8)
        requires
            self.row > 0,
            other.row > 0,
        ensures
            d == dist(self.row as int, other.row as int),
    {
        if self.row >= other.row {
            self.row - other.row
        } else {
            other.row - self.row
        }
    }

    /// How many columns apart the two cells lie.
    pub fn column_distance(&self, other: &Cell) -> (d: i8)
        requires
            self.column > 0,
            other.column > 0,
        ensures
            d == dist(self.column as int, other.column as int),
    {
        if self.column >= other.column {
            self.column - other.column
        } else {
            other.column - self.column
        }
    }

    /// The one-based row counted from the bottom edge.
    pub fn row_from_end(&self, grid: &Grid) -> (r: i8)
        requires
            grid.height <= 127,
            1 <= self.row <= grid.height,
        ensures
            r == grid.height - self.row + 1,
    {
        (grid.height as i8 - self.row) + 1
    }

    /// The one-based column counted from the right edge.
    pub fn column_from_end(&self, grid: &Grid) -> (c: i8)
        requires
            grid.width <= 127,
            1 <= self.column <= grid.width,
        ensures
            c == grid.width - self.column + 1,
    {
        (grid.width as i8 - self.column) + 1
    }
}

/// The adjacency rules the engine knows. Two cells satisfying any rule of the
/// active list may never hold the same value.
#[derive(Clone, Copy, PartialEq, Eq, Structural, Debug)]
pub enum Rule {
    /// The cells share a row.
    Row,
    /// The cells share a column.
    Column,
    /// The cells share a block.
    Block,
    /// The cells lie a king's move apart.
    King,
    /// The cells lie a knight's move apart.
    Knight,
    /// The cells share a diagonal.
    Bishop,
    /// The cells share a diagonal and lie at most two steps apart.
    BishopTwo,
    /// Both cells lie on the main diagonal, or both on the anti-diagonal.
    Diagonals,
}

/// What one rule says of two cell positions, on a grid `width` cells wide.
pub open spec fn rule_holds(rule: Rule, width: int, c1: Cell, c2: Cell) -> bool {
    match rule {
        Rule::Row => c1.row == c2.row,
        Rule::Column => c1.column == c2.column,
        Rule::Block => c1.block == c2.block,
        Rule::King => dist(c1.row as int, c2.row as int) <= 1 && dist(
            c1.column as int,
            c2.column as int,
        ) <= 1,
        Rule::Knight => (dist(c1.row as int, c2.row as int) == 2 && dist(
            c1.column as int,
            c2.column as int,
        ) == 1) || (dist(c1.row as int, c2.row as int) == 1 && dist(
            c1.column as int,
            c2.column as int,
        ) == 2),
        Rule::Bishop => dist(c1.row as int, c2.row as int) == dist(
            c1.column as int,
            c2.column as int,
        ),
        Rule::BishopTwo => dist(c1.row as int, c2.row as int) == dist(
            c1.column as int,
            c2.column as int,
        ) && dist(c1.row as int, c2.row as int) <= 2,
        Rule::Diagonals => (c1.row == c1.column && c2.row == c2.column) || (c1.row == width
            - c1.column + 1 && c2.row == width - c2.column + 1),
    }
}

/// Every rule treats its two cells alike.
pub proof fn lemma_rule_symmetric(rule: Rule, width: int, c1: Cell, c2: Cell)
    ensures
        rule_holds(rule, width, c1, c2) == rule_holds(rule, width, c2, c1),
{
}

impl Rule {
    /// Evaluates the rule on two cell positions of the given grid.
    pub fn applies(&self, grid: &Grid, c1: &Cell, c2: &Cell) -> (r: bool)
        requires
            grid.width <= 127,
            c1.row > 0,
            c1.column > 0,
            c2.row > 0,
            c2.column > 0,
            1 <= c1.column <= grid.width,
            1 <= c2.column <= grid.width,
        ensures
            r == rule_holds(*self, grid.width as int, *c1, *c2),
    {
        match self {
            Rule::Row => c1.row == c2.row,
            Rule::Column => c1.column == c2.column,
            Rule::Block => c1.block == c2.block,
            Rule::King => c1.row_distance(c2) <= 1 && c1.column_distance(c2) <= 1,
            Rule::Knight => {
                let rd = c1.row_distance(c2);
                let cd = c1.column_distance(c2);
                (rd == 2 && cd == 1) || (rd == 1 && cd == 2)
            },
            Rule::Bishop => c1.row_distance(c2) == c1.column_distance(c2),
            Rule::BishopTwo => {
                let rd = c1.row_distance(c2);
                let cd = c1.column_distance(c2);
                rd == cd && rd <= 2
            },
            Rule::Diagonals => (c1.row == c1.column && c2.row == c2.column) || (c1.row
                == c1.column_from_end(grid) && c2.row == c2.column_from_end(grid)),
        }
    }
}

} // verus!
