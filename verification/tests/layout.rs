use constraint_grid::controller::BuildController;
use constraint_grid::gen_char_array;
use constraint_grid::text_grid::{TextGrid, TextGridCell, TextGridRow};
use constraint_grid::{SYMBOLS_EXTENDED, SYMBOLS_STANDARD};

#[test]
fn char_array_from_alphabet() {
    assert_eq!(gen_char_array("123"), vec!['1', '2', '3']);
    assert_eq!(gen_char_array("").len(), 0);
    assert_eq!(gen_char_array(SYMBOLS_STANDARD).len(), 9);
    assert_eq!(gen_char_array(SYMBOLS_EXTENDED).len(), 36);
}

#[test]
fn cell_sizes() {
    let empty = TextGridCell::Empty;
    assert_eq!(empty.width(), 1);
    assert_eq!(empty.height(), 1);

    let text = TextGridCell::Text { text: String::from("abcd") };
    assert_eq!(text.width(), 4);
    assert_eq!(text.height(), 1);

    let tall = TextGridCell::Text { text: String::from("ab\ncdef\ng") };
    assert_eq!(tall.height(), 3);
}

#[test]
fn row_sizes() {
    let mut row = TextGridRow::new(2);
    assert_eq!(row.col_width(0), 1);
    row.set_cell(0, TextGridCell::Text { text: String::from("wide") });
    row.set_cell(1, TextGridCell::Text { text: String::from("x\ny") });
    assert_eq!(row.col_width(0), 4);
    // the width of a text cell counts every character, newlines included
    assert_eq!(row.col_width(1), 3);
    assert_eq!(row.col_width(9), 1);
    assert_eq!(row.height(), 2);
}

#[test]
fn grid_grows_and_measures() {
    let mut grid = TextGrid::new(1, 2);
    grid.set_cell(0, 0, TextGridCell::Text { text: String::from("abc") });
    grid.set_cell(1, 1, TextGridCell::Text { text: String::from("de\nf") });
    assert_eq!(grid.row_count(), 2);
    assert_eq!(grid.col_width(0), 3);
    assert_eq!(grid.col_width(1), 4);
    // contents 3 + 4 plus one column gap of 2
    assert_eq!(grid.width(), 9);
    // row heights 1 + 2 plus one row gap of 1
    assert_eq!(grid.height(), 4);
}

#[test]
fn grid_fills_rectangles() {
    let mut grid = TextGrid::new(0, 0);
    let cell = TextGridCell::Text { text: String::from("#") };
    grid.set_cells(0, 2, 0, 3, &cell);
    assert_eq!(grid.row_count(), 3);
    assert_eq!(grid.width(), 4);
    assert_eq!(grid.height(), 3);
}

#[test]
fn nested_grid_cell() {
    let mut inner = TextGrid::new(0, 1);
    inner.set_cell(0, 0, TextGridCell::Text { text: String::from("ab") });
    inner.set_cell(0, 1, TextGridCell::Text { text: String::from("c") });
    let nested = TextGridCell::Grid { grid: inner };
    // contents 2 + 1 plus one column gap of 1
    assert_eq!(nested.width(), 4);
    assert_eq!(nested.height(), 1);
}

#[test]
fn controller_counts_events() {
    let mut controller = BuildController::new(Some(7), None);
    assert!(controller.continue_build);
    controller.log_event("attempt");
    controller.log_event("attempt");
    controller.log_event("backtrack");
    assert_eq!(controller.event_counts.len(), 2);
    assert_eq!(controller.event_counts[0].0, "attempt");
    assert_eq!(controller.event_counts[0].1, 2);
    assert_eq!(controller.event_counts[1].0, "backtrack");
    assert_eq!(controller.event_counts[1].1, 1);
    assert!(controller.continue_build);

    controller.log_filled_cell_count(12);
    controller.log_filled_cell_count(15);
    assert_eq!(controller.filled_cell_counts, vec![12, 15]);

    controller.log_done();
    assert!(controller.time.is_some());
    assert_eq!(controller.max_tried_grid_count, Some(7));
}
