//! Rows and columns of the text.

use alteria_core::layout::{line_at_row, row_col};
#[test]
fn row_col_at_start() {
    assert_eq!(row_col("abc", 0), (0, 0));
}

#[test]
fn row_col_within_first_line() {
    assert_eq!(row_col("abc", 2), (0, 2));
}

#[test]
fn row_col_after_a_newline() {
    // "ab\ncd": offset 4 -> row 1, col 1 (the 'd').
    assert_eq!(row_col("ab\ncd", 4), (1, 1));
}

#[test]
fn row_col_on_the_trailing_empty_line() {
    // "a\n": offset 2 (end) -> the phantom empty line at row 1, col 0.
    assert_eq!(row_col("a\n", 2), (1, 0));
}

#[test]
fn row_col_at_line_end_before_break() {
    // "ab\ncd": offset 2 is the '\n' position -> still row 0, col 2.
    assert_eq!(row_col("ab\ncd", 2), (0, 2));
}

#[test]
fn line_at_row_returns_start_offset_and_line_text() {
    assert_eq!(line_at_row("ab\ncd\nef", 0), (0, "ab"));
    assert_eq!(line_at_row("ab\ncd\nef", 1), (3, "cd"));
    assert_eq!(line_at_row("ab\ncd\nef", 2), (6, "ef"));
    assert_eq!(line_at_row("ab\n", 1), (3, ""));
}
