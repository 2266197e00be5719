//! A small text layout helper: a grid of cells, each empty, a text, or a
//! nested grid, with derived column widths and row heights. It backs grid
//! displays; nothing of the constraint engine depends on it.

use vstd::prelude::*;
use vstd::string::StrSliceExecFns;

verus! {

/// One layout cell: nothing, a piece of text, or a whole nested grid.
pub enum TextGridCell {
    Empty,
    Text { text: String },
    Grid { grid: TextGrid },
}

/// A rectangular arrangement of cells with row and column padding.
pub struct TextGrid {
    pub row_padding: usize,
    pub col_padding: usize,
    pub rows: Vec<TextGridRow>,
    pub col_count: usize,
}

/// One row of cells.
pub struct TextGridRow {
    pub cells: Vec<TextGridCell>,
}

/// How many newline characters a text holds.
pub open spec fn count_newlines(s: Seq<char>) -> int
    decreases s.len(),
{
    if s.len() == 0 {
        0
    } else {
        count_newlines(s.drop_last()) + if s.last() == '\n' {
            1int
        } else {
            0int
        }
    }
}

/// Whether a cell can be measured: every nested grid is nonempty and its
/// sizes fit the machine.
pub open spec fn cell_renderable(c: TextGridCell) -> bool
    decreases c, 3int, 0int,
{
    match c {
        TextGridCell::Empty => true,
        TextGridCell::Text { text } => text@.len() < usize::MAX,
        TextGridCell::Grid { grid } => grid_renderable(grid),
    }
}

/// Whether a grid can be measured: at least one row and column, sizes within
/// machine range, and every held cell measurable in turn.
pub open spec fn grid_renderable(g: TextGrid) -> bool
    decreases g, 4int, 0int,
{
    &&& g.col_count >= 1
    &&& g.rows@.len() >= 1
    &&& spec_grid_width(g) <= usize::MAX
    &&& spec_grid_height(g) <= usize::MAX
    &&& forall|r: int, c: int|
        0 <= r < g.rows@.len() && 0 <= c < g.rows@[r].cells@.len() ==> cell_renderable(
            #[trigger] g.rows@[r].cells@[c],
        )
}

/// Whether every cell of a row can be measured.
pub open spec fn row_renderable(r: TextGridRow) -> bool {
    forall|c: int| 0 <= c < r.cells@.len() ==> cell_renderable(#[trigger] r.cells@[c])
}

/// The display width of one cell, in characters.
pub open spec fn spec_cell_width(c: TextGridCell) -> int
    decreases c, 3int, 0int,
{
    match c {
        TextGridCell::Empty => 1,
        TextGridCell::Text { text } => text@.len() as int,
        TextGridCell::Grid { grid } => spec_grid_width(grid),
    }
}

/// The display height of one cell, in lines.
pub open spec fn spec_cell_height(c: TextGridCell) -> int
    decreases c, 3int, 0int,
{
    match c {
        TextGridCell::Empty => 1,
        TextGridCell::Text { text } => 1 + count_newlines(text@),
        TextGridCell::Grid { grid } => spec_grid_height(grid),
    }
}

/// The width of one column slot in one row: the width of its cell, or one
/// where the row is too short.
pub open spec fn spec_row_col_width(r: TextGridRow, col: int) -> int
    decreases r, 0int, 0int,
{
    if 0 <= col < r.cells@.len() {
        spec_cell_width(r.cells@[col])
    } else {
        1
    }
}

/// The height of one row: its tallest cell, or one for an empty row.
pub open spec fn spec_row_height(r: TextGridRow, upto: int) -> int
    decreases r, 0int, upto,
{
    if upto <= 0 {
        1
    } else if 0 < upto <= r.cells@.len() {
        let rest = spec_row_height(r, upto - 1);
        let h = spec_cell_height(r.cells@[upto - 1]);
        if h > rest {
            h
        } else {
            rest
        }
    } else {
        spec_row_height(r, upto - 1)
    }
}

/// The width of one column of the grid: its widest cell among the first
/// `upto` rows, or one with no rows.
pub open spec fn spec_col_width(g: TextGrid, col: int, upto: int) -> int
    decreases g, 0int, upto,
{
    if upto <= 0 {
        1
    } else if 0 < upto <= g.rows@.len() {
        let rest = spec_col_width(g, col, upto - 1);
        let w = spec_row_col_width(g.rows@[upto - 1], col);
        if w > rest {
            w
        } else {
            rest
        }
    } else {
        spec_col_width(g, col, upto - 1)
    }
}

/// The total content and padding width of the first `cols` columns.
pub open spec fn spec_width_upto(g: TextGrid, cols: int) -> int
    decreases g, 1int, cols,
{
    if cols <= 0 {
        0
    } else {
        spec_width_upto(g, cols - 1) + spec_col_width(g, cols - 1, g.rows@.len() as int)
    }
}

/// The display width of the whole grid: column contents plus padding.
pub open spec fn spec_grid_width(g: TextGrid) -> int
    decreases g, 2int, 0int,
{
    spec_width_upto(g, g.col_count as int) + g.col_padding * (g.col_count - 1)
}

/// The total content height of the first `rows` rows.
pub open spec fn spec_height_upto(g: TextGrid, rows: int) -> int
    decreases g, 1int, rows,
{
    if rows <= 0 {
        0
    } else if rows <= g.rows@.len() {
        spec_height_upto(g, rows - 1) + spec_row_height(
            g.rows@[rows - 1],
            g.rows@[rows - 1].cells@.len() as int,
        )
    } else {
        spec_height_upto(g, rows - 1)
    }
}

/// The display height of the whole grid: row contents plus padding.
pub open spec fn spec_grid_height(g: TextGrid) -> int
    decreases g, 2int, 0int,
{
    spec_height_upto(g, g.rows@.len() as int) + g.row_padding * (g.rows@.len() - 1)
}

impl TextGridCell {
    /// The display width of this cell, in characters.
    pub fn width(&self) -> (w: usize)
        requires
            cell_renderable(*self),
        ensures
            w == spec_cell_width(*self),
        decreases *self, 0int, 0int,
    {
        match self {
            TextGridCell::Empty => 1,
            TextGridCell::Text { text } => text.as_str().unicode_len(),
            TextGridCell::Grid { grid } => grid.width(),
        }
    }

    /// The display height of this cell, in lines.
    #[verifier::loop_isolation(false)]
    pub fn height(&self) -> (h: usize)
        requires
            cell_renderable(*self),
        ensures
            h == spec_cell_height(*self),
        decreases *self, 0int, 0int,
    {
        match self {
            TextGridCell::Empty => 1,
            TextGridCell::Text { text } => {
                let mut lines: usize = 1;
                let ghost tv = text@;
                let s = text.as_str();
                for c in it: s.chars()
                    invariant
                        it.seq() == tv,
                        tv.len() < usize::MAX,
                        lines == 1 + count_newlines(tv.take(it.index() as int)),
                        lines <= 1 + it.index(),
                        it.index() <= tv.len(),
                    decreases tv.len() - it.index(),
                {
                    proof {
                        assert(tv.take(it.index() + 1).drop_last() =~= tv.take(it.index() as int));
                    }
                    if c == '\n' {
                        lines = lines + 1;
                    }
                }
                proof {
                    assert(tv.take(tv.len() as int) =~= tv);
                }
                lines
            },
            TextGridCell::Grid { grid } => grid.height(),
        }
    }
}

impl TextGridRow {
    /// A row of `col_count` empty cells.
    #[verifier::loop_isolation(false)]
    pub fn new(col_count: usize) -> (r: TextGridRow)
        ensures
            r.cells@.len() == col_count,
            forall|q: int| 0 <= q < col_count ==> r.cells@[q] is Empty,
    {
        let mut cells: Vec<TextGridCell> = Vec::new();
        let mut i: usize = 0;
        while i < col_count
            invariant
                i <= col_count,
                cells@.len() == i,
                forall|q: int| 0 <= q < i ==> cells@[q] is Empty,
            decreases col_count - i,
        {
            cells.push(TextGridCell::Empty);
            i = i + 1;
        }
        TextGridRow { cells }
    }

    /// Pads the row with empty cells up to `col_count` entries.
    #[verifier::loop_isolation(false)]
    pub fn set_col_count(&mut self, col_count: usize)
        requires
            col_count >= old(self).cells@.len(),
        ensures
            final(self).cells@.len() == col_count,
            forall|q: int|
                0 <= q < old(self).cells@.len() ==> final(self).cells@[q] == old(self).cells@[q],
            forall|q: int|
                old(self).cells@.len() <= q < col_count ==> final(self).cells@[q] is Empty,
    {
        let ghost base = self.cells@;
        while self.cells.len() < col_count
            invariant
                self.cells@.len() >= base.len(),
                self.cells@.len() <= col_count,
                forall|q: int| 0 <= q < base.len() ==> self.cells@[q] == base[q],
                forall|q: int| base.len() <= q < self.cells@.len() ==> self.cells@[q] is Empty,
            decreases col_count - self.cells@.len(),
        {
            self.cells.push(TextGridCell::Empty);
        }
    }

    /// Replaces the cell in one column slot.
    pub fn set_cell(&mut self, col_index: usize, cell: TextGridCell)
        requires
            col_index < old(self).cells@.len(),
        ensures
            final(self).cells@ == old(self).cells@.update(col_index as int, cell),
    {
        self.cells[col_index] = cell;
    }

    /// The display width of one column slot of this row.
    pub fn col_width(&self, col_index: usize) -> (w: usize)
        requires
            row_renderable(*self),
        ensures
            w == spec_row_col_width(*self, col_index as int),
        decreases *self, 0int, 0int,
    {
        if col_index < self.cells.len() {
            self.cells[col_index].width()
        } else {
            1
        }
    }

    /// The display height of this row: its tallest cell.
    #[verifier::loop_isolation(false)]
    pub fn height(&self) -> (h: usize)
        requires
            row_renderable(*self),
        ensures
            h == spec_row_height(*self, self.cells@.len() as int),
        decreases *self, 0int, 0int,
    {
        let mut h: usize = 1;
        let mut i: usize = 0;
        while i < self.cells.len()
            invariant
                i <= self.cells@.len(),
                h == spec_row_height(*self, i as int),
                h >= 1,
            decreases self.cells@.len() - i,
        {
            let ch = self.cells[i].height();
            proof {
                assert(ch == spec_cell_height(self.cells@[i as int]));
            }
            if ch > h {
                h = ch;
            }
            i = i + 1;
        }
        h
    }
}

impl TextGrid {
    /// An empty grid with the given paddings.
    pub fn new(row_padding: usize, col_padding: usize) -> (g: TextGrid)
        ensures
            g.row_padding == row_padding,
            g.col_padding == col_padding,
            g.rows@.len() == 0,
            g.col_count == 0,
    {
        TextGrid { row_padding, col_padding, rows: Vec::new(), col_count: 0 }
    }

    /// How many rows the grid holds.
    pub fn row_count(&self) -> (n: usize)
        ensures
            n == self.rows@.len(),
    {
        self.rows.len()
    }

    /// Every row holds at least `col_count` cells.
    pub open spec fn rows_wide_enough(self) -> bool {
        forall|r: int|
            0 <= r < self.rows@.len() ==> (#[trigger] self.rows@[r]).cells@.len() >= self.col_count
    }

    /// Puts a cell at the given position, growing the grid as needed: every
    /// row gains slots up to the new column, and missing rows are added.
    #[verifier::loop_isolation(false)]
    pub fn set_cell(&mut self, row_index: usize, col_index: usize, cell: TextGridCell)
        requires
            old(self).rows_wide_enough(),
            col_index < usize::MAX,
            row_index < usize::MAX,
        ensures
            final(self).rows_wide_enough(),
            final(self).rows@.len() > row_index,
            final(self).rows@.len() >= old(self).rows@.len(),
            final(self).col_count >= col_index + 1,
            final(self).col_count >= old(self).col_count,
            final(self).rows@[row_index as int].cells@[col_index as int] == cell,
            forall|r: int, c: int|
                0 <= r < old(self).rows@.len() && 0 <= c < old(self).rows@[r].cells@.len() && !(r
                    == row_index as int && c == col_index as int)
                    ==> #[trigger] final(self).rows@[r].cells@[c] == old(self).rows@[r].cells@[c],
            final(self).row_padding == old(self).row_padding,
            final(self).col_padding == old(self).col_padding,
    {
        let row_col_count = if col_index + 1 > self.col_count {
            col_index + 1
        } else {
            self.col_count
        };
        self.col_count = row_col_count;
        let mut r: usize = 0;
        while r < self.rows.len()
            invariant
                r <= self.rows@.len(),
                self.rows@.len() == old(self).rows@.len(),
                forall|q: int|
                    0 <= q < r ==> (#[trigger] self.rows@[q]).cells@.len() >= row_col_count,
                forall|q: int|
                    r <= q < self.rows@.len() ==> (#[trigger] self.rows@[q]).cells@.len() >= old(
                        self,
                    ).col_count,
                forall|q: int, c: int|
                    0 <= q < self.rows@.len() && 0 <= c < old(self).rows@[q].cells@.len()
                        ==> #[trigger] self.rows@[q].cells@[c] == old(self).rows@[q].cells@[c],
                forall|q: int|
                    0 <= q < self.rows@.len() ==> (#[trigger] self.rows@[q]).cells@.len() >= old(
                        self,
                    ).rows@[q].cells@.len(),
                self.col_count == row_col_count,
                self.col_padding == old(self).col_padding,
                self.row_padding == old(self).row_padding,
            decreases self.rows@.len() - r,
        {
            let current = self.rows[r].cells.len();
            if current < row_col_count {
                let row = &mut self.rows[r];
                row.set_col_count(row_col_count);
            }
            r = r + 1;
        }
        while self.rows.len() < row_index + 1
            invariant
                self.rows@.len() >= old(self).rows@.len(),
                forall|q: int|
                    0 <= q < self.rows@.len() ==> (#[trigger] self.rows@[q]).cells@.len()
                        >= row_col_count,
                forall|q: int, c: int|
                    0 <= q < old(self).rows@.len() && 0 <= c < old(self).rows@[q].cells@.len()
                        ==> #[trigger] self.rows@[q].cells@[c] == old(self).rows@[q].cells@[c],
                forall|q: int|
                    0 <= q < old(self).rows@.len() ==> (#[trigger] self.rows@[q]).cells@.len()
                        >= old(self).rows@[q].cells@.len(),
                self.col_count == row_col_count,
                self.col_padding == old(self).col_padding,
                self.row_padding == old(self).row_padding,
            decreases row_index + 1 - self.rows@.len(),
        {
            let row = TextGridRow::new(row_col_count);
            self.rows.push(row);
        }
        let ghost padded = *self;
        let row = &mut self.rows[row_index];
        proof {
            assert(col_index < row.cells@.len());
        }
        row.set_cell(col_index, cell);
        proof {
            assert forall|r: int, c: int|
                0 <= r < old(self).rows@.len() && 0 <= c < old(self).rows@[r].cells@.len() && !(r
                    == row_index as int && c == col_index as int) implies #[trigger] self.rows@[r].cells@[c]
                == old(self).rows@[r].cells@[c] by {
                if r == row_index as int {
                    assert(self.rows@[r].cells@[c] == padded.rows@[r].cells@[c]);
                } else {
                    assert(self.rows@[r] == padded.rows@[r]);
                }
                assert(padded.rows@[r].cells@[c] == old(self).rows@[r].cells@[c]);
            }
        }
    }

    /// Puts copies of one cell over a whole rectangle of positions.
    #[verifier::loop_isolation(false)]
    pub fn set_cells(
        &mut self,
        from_row_index: usize,
        to_row_index: usize,
        from_col_index: usize,
        to_col_index: usize,
        cell: &TextGridCell,
    )
        requires
            old(self).rows_wide_enough(),
            from_row_index <= to_row_index < usize::MAX,
            from_col_index <= to_col_index < usize::MAX,
        ensures
            final(self).rows_wide_enough(),
            final(self).rows@.len() > to_row_index,
            final(self).col_count >= to_col_index + 1,
            final(self).row_padding == old(self).row_padding,
            final(self).col_padding == old(self).col_padding,
    {
        let mut row_index = from_row_index;
        while row_index <= to_row_index
            invariant
                self.rows_wide_enough(),
                self.row_padding == old(self).row_padding,
                self.col_padding == old(self).col_padding,
                from_row_index <= row_index,
                row_index > from_row_index ==> self.rows@.len() >= row_index && self.col_count
                    >= to_col_index + 1,
            decreases to_row_index + 1 - row_index,
        {
            let mut col_index = from_col_index;
            while col_index <= to_col_index
                invariant
                    self.rows_wide_enough(),
                    self.row_padding == old(self).row_padding,
                    self.col_padding == old(self).col_padding,
                    from_col_index <= col_index,
                    col_index > from_col_index ==> self.rows@.len() > row_index && self.col_count
                        >= col_index,
                    row_index > from_row_index ==> self.rows@.len() >= row_index && self.col_count
                        >= to_col_index + 1,
                decreases to_col_index + 1 - col_index,
            {
                self.set_cell(row_index, col_index, clone_cell(cell));
                col_index = col_index + 1;
            }
            row_index = row_index + 1;
        }
    }

    /// The display width of one column: its widest cell.
    #[verifier::loop_isolation(false)]
    pub fn col_width(&self, col_index: usize) -> (w: usize)
        requires
            forall|r: int| 0 <= r < self.rows@.len() ==> row_renderable(#[trigger] self.rows@[r]),
        ensures
            w == spec_col_width(*self, col_index as int, self.rows@.len() as int),
        decreases *self, 0int, 0int,
    {
        let mut w: usize = 1;
        let mut r: usize = 0;
        while r < self.rows.len()
            invariant
                r <= self.rows@.len(),
                w == spec_col_width(*self, col_index as int, r as int),
                w >= 1,
            decreases self.rows@.len() - r,
        {
            let rw = self.rows[r].col_width(col_index);
            if rw > w {
                w = rw;
            }
            r = r + 1;
        }
        w
    }

    /// The display height of one row.
    pub fn row_height(&self, row_index: usize) -> (h: usize)
        requires
            row_index < self.rows@.len(),
            row_renderable(self.rows@[row_index as int]),
        ensures
            h == spec_row_height(
                self.rows@[row_index as int],
                self.rows@[row_index as int].cells@.len() as int,
            ),
        decreases *self, 0int, 0int,
    {
        self.rows[row_index].height()
    }

    /// The display width of the whole grid, contents plus column padding.
    #[verifier::loop_isolation(false)]
    pub fn width(&self) -> (w: usize)
        requires
            grid_renderable(*self),
        ensures
            w == spec_grid_width(*self),
        decreases *self, 1int, 0int,
    {
        let mut content: usize = 0;
        let mut col: usize = 0;
        proof {
            lemma_width_upto_bounds(*self, self.col_count as int);
        }
        while col < self.col_count
            invariant
                col <= self.col_count,
                content == spec_width_upto(*self, col as int),
            decreases self.col_count - col,
        {
            proof {
                lemma_width_upto_bounds(*self, self.col_count as int);
                lemma_width_upto_step(*self, col as int, self.col_count as int);
            }
            let cw = self.col_width(col);
            content = content + cw;
            col = col + 1;
        }
        content + self.col_padding * (self.col_count - 1)
    }

    /// The display height of the whole grid, contents plus row padding.
    #[verifier::loop_isolation(false)]
    pub fn height(&self) -> (h: usize)
        requires
            grid_renderable(*self),
        ensures
            h == spec_grid_height(*self),
        decreases *self, 1int, 0int,
    {
        let mut content: usize = 0;
        let mut r: usize = 0;
        while r < self.rows.len()
            invariant
                r <= self.rows@.len(),
                content == spec_height_upto(*self, r as int),
            decreases self.rows@.len() - r,
        {
            proof {
                lemma_height_upto_bounds(*self, self.rows@.len() as int);
                lemma_height_upto_step(*self, r as int, self.rows@.len() as int);
            }
            let rh = self.row_height(r);
            content = content + rh;
            r = r + 1;
        }
        content + self.row_padding * (self.rows.len() - 1)
    }
}

/// A full copy of one cell, nested grids included.
pub fn clone_cell(c: &TextGridCell) -> (r: TextGridCell)
    ensures
        spec_cell_width(r) == spec_cell_width(*c),
        spec_cell_height(r) == spec_cell_height(*c),
    decreases *c,
{
    match c {
        TextGridCell::Empty => TextGridCell::Empty,
        TextGridCell::Text { text } => TextGridCell::Text {
            text: crate::runner::clone_string(text),
        },
        TextGridCell::Grid { grid } => TextGridCell::Grid { grid: clone_grid_layout(grid) },
    }
}

/// A full copy of one layout grid.
#[verifier::loop_isolation(false)]
pub fn clone_grid_layout(g: &TextGrid) -> (r: TextGrid)
    ensures
        spec_grid_width(r) == spec_grid_width(*g),
        spec_grid_height(r) == spec_grid_height(*g),
    decreases *g,
{
    let mut rows: Vec<TextGridRow> = Vec::new();
    let n = g.rows.len();
    let mut i: usize = 0;
    while i < n
        invariant
            i <= g.rows@.len(),
            n == g.rows@.len(),
            rows@.len() == i,
            forall|q: int|
                0 <= q < i ==> (forall|col: int|
                    spec_row_col_width(#[trigger] rows@[q], col) == spec_row_col_width(
                        g.rows@[q],
                        col,
                    )) && rows@[q].cells@.len() == g.rows@[q].cells@.len() && spec_row_height(
                    rows@[q],
                    rows@[q].cells@.len() as int,
                ) == spec_row_height(g.rows@[q], g.rows@[q].cells@.len() as int),
        decreases g.rows@.len() - i,
    {
        let row = clone_row(&g.rows[i]);
        rows.push(row);
        i = i + 1;
    }
    let r = TextGrid { row_padding: g.row_padding, col_padding: g.col_padding, rows, col_count: g.col_count };
    proof {
        lemma_same_layout(r, *g);
    }
    r
}

/// A full copy of one row.
#[verifier::loop_isolation(false)]
pub fn clone_row(row: &TextGridRow) -> (r: TextGridRow)
    ensures
        r.cells@.len() == row.cells@.len(),
        forall|col: int| spec_row_col_width(r, col) == spec_row_col_width(*row, col),
        spec_row_height(r, r.cells@.len() as int) == spec_row_height(
            *row,
            row.cells@.len() as int,
        ),
    decreases *row,
{
    let mut cells: Vec<TextGridCell> = Vec::new();
    let n = row.cells.len();
    let mut i: usize = 0;
    while i < n
        invariant
            i <= row.cells@.len(),
            n == row.cells@.len(),
            cells@.len() == i,
            forall|q: int|
                0 <= q < i ==> spec_cell_width(#[trigger] cells@[q]) == spec_cell_width(
                    row.cells@[q],
                ) && spec_cell_height(cells@[q]) == spec_cell_height(row.cells@[q]),
        decreases row.cells@.len() - i,
    {
        let cell = clone_cell(&row.cells[i]);
        cells.push(cell);
        i = i + 1;
    }
    let r = TextGridRow { cells };
    proof {
        assert forall|col: int| spec_row_col_width(r, col) == spec_row_col_width(*row, col) by {}
        lemma_row_height_same(r, *row, r.cells@.len() as int);
    }
    r
}

/// Rows whose cells agree in height agree in row height.
proof fn lemma_row_height_same(r1: TextGridRow, r2: TextGridRow, upto: int)
    requires
        r1.cells@.len() == r2.cells@.len(),
        forall|q: int|
            0 <= q < r1.cells@.len() ==> spec_cell_height(#[trigger] r1.cells@[q])
                == spec_cell_height(r2.cells@[q]),
    ensures
        spec_row_height(r1, upto) == spec_row_height(r2, upto),
    decreases upto,
{
    if upto > 0 {
        lemma_row_height_same(r1, r2, upto - 1);
    }
}

/// Grids whose rows agree in widths and heights agree in overall size.
proof fn lemma_same_layout(g1: TextGrid, g2: TextGrid)
    requires
        g1.rows@.len() == g2.rows@.len(),
        g1.col_count == g2.col_count,
        g1.col_padding == g2.col_padding,
        g1.row_padding == g2.row_padding,
        forall|q: int|
            0 <= q < g1.rows@.len() ==> (forall|col: int|
                spec_row_col_width(#[trigger] g1.rows@[q], col) == spec_row_col_width(
                    g2.rows@[q],
                    col,
                )) && (#[trigger] g1.rows@[q]).cells@.len() == g2.rows@[q].cells@.len()
                && spec_row_height(g1.rows@[q], g1.rows@[q].cells@.len() as int) == spec_row_height(
                g2.rows@[q],
                g2.rows@[q].cells@.len() as int,
            ),
    ensures
        spec_grid_width(g1) == spec_grid_width(g2),
        spec_grid_height(g1) == spec_grid_height(g2),
{
    lemma_col_widths_same(g1, g2, g1.col_count as int);
    lemma_heights_same(g1, g2, g1.rows@.len() as int);
}

proof fn lemma_col_widths_same(g1: TextGrid, g2: TextGrid, cols: int)
    requires
        g1.rows@.len() == g2.rows@.len(),
        forall|q: int|
            0 <= q < g1.rows@.len() ==> (forall|col: int|
                spec_row_col_width(#[trigger] g1.rows@[q], col) == spec_row_col_width(
                    g2.rows@[q],
                    col,
                )),
    ensures
        spec_width_upto(g1, cols) == spec_width_upto(g2, cols),
    decreases cols,
{
    if cols > 0 {
        lemma_col_widths_same(g1, g2, cols - 1);
        lemma_one_col_same(g1, g2, cols - 1, g1.rows@.len() as int);
    }
}

proof fn lemma_one_col_same(g1: TextGrid, g2: TextGrid, col: int, upto: int)
    requires
        g1.rows@.len() == g2.rows@.len(),
        forall|q: int|
            0 <= q < g1.rows@.len() ==> (forall|c: int|
                spec_row_col_width(#[trigger] g1.rows@[q], c) == spec_row_col_width(
                    g2.rows@[q],
                    c,
                )),
    ensures
        spec_col_width(g1, col, upto) == spec_col_width(g2, col, upto),
    decreases upto,
{
    if upto > 0 {
        lemma_one_col_same(g1, g2, col, upto - 1);
        if upto <= g1.rows@.len() {
            assert(spec_row_col_width(g1.rows@[upto - 1], col) == spec_row_col_width(
                g2.rows@[upto - 1],
                col,
            ));
        }
    }
}

proof fn lemma_heights_same(g1: TextGrid, g2: TextGrid, rows: int)
    requires
        g1.rows@.len() == g2.rows@.len(),
        forall|q: int|
            0 <= q < g1.rows@.len() ==> (#[trigger] g1.rows@[q]).cells@.len()
                == g2.rows@[q].cells@.len() && spec_row_height(
                g1.rows@[q],
                g1.rows@[q].cells@.len() as int,
            ) == spec_row_height(g2.rows@[q], g2.rows@[q].cells@.len() as int),
    ensures
        spec_height_upto(g1, rows) == spec_height_upto(g2, rows),
    decreases rows,
{
    if rows > 0 {
        lemma_heights_same(g1, g2, rows - 1);
        if rows <= g1.rows@.len() {
            assert(g1.rows@[rows - 1].cells@.len() == g2.rows@[rows - 1].cells@.len());
            assert(spec_row_height(g1.rows@[rows - 1], g1.rows@[rows - 1].cells@.len() as int)
                == spec_row_height(g2.rows@[rows - 1], g2.rows@[rows - 1].cells@.len() as int));
        }
    }
}

/// Column widths are at least one, so the summed width grows monotonically.
proof fn lemma_width_upto_bounds(g: TextGrid, cols: int)
    ensures
        forall|c: int| 0 <= c <= cols ==> #[trigger] spec_width_upto(g, c) >= 0,
    decreases cols + 1,
{
    if cols >= 0 {
        lemma_width_upto_bounds(g, cols - 1);
        if cols >= 1 {
            lemma_col_width_pos(g, cols - 1, g.rows@.len() as int);
        }
        assert forall|c: int| 0 <= c <= cols implies #[trigger] spec_width_upto(g, c) >= 0 by {
            if c == cols && cols >= 1 {
                assert(spec_width_upto(g, cols - 1) >= 0);
                assert(spec_col_width(g, cols - 1, g.rows@.len() as int) >= 1);
            }
        }
    }
}

/// One column is at least one character wide.
proof fn lemma_col_width_pos(g: TextGrid, col: int, upto: int)
    ensures
        spec_col_width(g, col, upto) >= 1,
    decreases upto,
{
    if upto > 0 {
        lemma_col_width_pos(g, col, upto - 1);
    }
}

/// Partial width sums below the total stay within machine range.
proof fn lemma_width_upto_step(g: TextGrid, col: int, cols: int)
    requires
        0 <= col < cols,
    ensures
        spec_width_upto(g, col) + spec_col_width(g, col, g.rows@.len() as int) == spec_width_upto(
            g,
            col + 1,
        ),
        spec_width_upto(g, col + 1) <= spec_width_upto(g, cols),
    decreases cols,
{
    if col + 1 < cols {
        lemma_width_upto_step(g, col, cols - 1);
        lemma_col_width_pos(g, cols - 1, g.rows@.len() as int);
    }
}

/// Partial height sums below the total stay within machine range.
proof fn lemma_height_upto_step(g: TextGrid, row: int, rows: int)
    requires
        0 <= row < rows,
        rows <= g.rows@.len(),
    ensures
        spec_height_upto(g, row) + spec_row_height(
            g.rows@[row],
            g.rows@[row].cells@.len() as int,
        ) == spec_height_upto(g, row + 1),
        spec_height_upto(g, row + 1) <= spec_height_upto(g, rows),
    decreases rows,
{
    if row + 1 < rows {
        lemma_height_upto_step(g, row, rows - 1);
        lemma_row_height_pos(g.rows@[rows - 1], g.rows@[rows - 1].cells@.len() as int);
    }
}

/// Row heights are at least one, so the summed height grows monotonically.
proof fn lemma_height_upto_bounds(g: TextGrid, rows: int)
    ensures
        forall|r: int| 0 <= r <= rows ==> #[trigger] spec_height_upto(g, r) >= 0,
    decreases rows + 1,
{
    if rows >= 0 {
        lemma_height_upto_bounds(g, rows - 1);
        if rows >= 1 {
            lemma_row_height_pos(g.rows@[rows - 1], g.rows@[rows - 1].cells@.len() as int);
        }
        assert forall|r: int| 0 <= r <= rows implies #[trigger] spec_height_upto(g, r) >= 0 by {
            if r == rows && rows >= 1 {
                assert(spec_height_upto(g, rows - 1) >= 0);
            }
        }
    }
}

/// One row is at least one line tall.
proof fn lemma_row_height_pos(r: TextGridRow, upto: int)
    ensures
        spec_row_height(r, upto) >= 1,
    decreases upto,
{
    if upto > 0 {
        lemma_row_height_pos(r, upto - 1);
    }
}

} // verus!
