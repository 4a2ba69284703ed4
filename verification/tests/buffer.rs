//! The text buffer.

use alteria_core::buffer::Buffer;
use alteria_core::selection::{Selection, SelectionGoal};

#[test]
fn from_str_holds_the_text() {
    let buf = Buffer::from_str("abc");
    assert_eq!(buf.len(), 3);
    assert_eq!(buf.text(), "abc");
}

#[test]
fn from_str_starts_with_a_bare_cursor_at_zero() {
    let buf = Buffer::from_str("abc");
    assert_eq!(buf.selection.selections.len(), 1);
    let primary = buf.primary_resolved();
    assert!(primary.is_empty());
    assert_eq!(primary.head(), 0);
}

#[test]
fn empty_buffer_has_zero_bytes_and_a_cursor_at_zero() {
    let buf = Buffer::from_str("");
    assert!(buf.is_empty());
    let p = buf.primary_resolved();
    assert!(p.is_empty() && p.head() == 0);
}

#[test]
fn crlf_is_normalized_on_load() {
    // A5: `\r\n` and lone `\r` collapse to `\n` so the rope holds only `\n`.
    let buf = Buffer::from_str("a\r\nb\rc");
    assert_eq!(buf.text(), "a\nb\nc");
}

#[test]
fn anchors_survive_an_edit_elsewhere() {
    // A cursor at offset 5 rides an insertion made before it: the stored
    // anchor resolves to the shifted offset without any manual mapping.
    let mut buf = Buffer::from_str("abcdef");
    buf.set_cursor(5);
    buf.edit(vec![(0..0, "XY".to_string())]);
    assert_eq!(buf.text(), "XYabcdef");
    assert_eq!(buf.primary_resolved().head(), 7); // 5 + 2 inserted
}

#[test]
fn edit_undo_redo_round_trips_text() {
    let mut buf = Buffer::from_str("abc");
    let tx = buf.edit(vec![(0..0, "X".to_string())]);
    assert!(tx.is_some());
    assert_eq!(buf.text(), "Xabc");
    assert!(buf.undo().is_some());
    assert_eq!(buf.text(), "abc");
    assert!(buf.redo().is_some());
    assert_eq!(buf.text(), "Xabc");
}

#[test]
fn a_primary_id_that_names_no_selection_falls_to_the_first() {
    let mut b = Buffer::from_str("abcdef");
    let cursor = |id: usize, at: usize| Selection {
        id,
        start: at,
        end: at,
        reversed: false,
        goal: SelectionGoal::Unset,
    };
    b.set_selections(vec![cursor(4, 5), cursor(3, 1)], usize::MAX);
    assert_eq!(b.primary_id(), 3);
    assert_eq!(b.primary_resolved().head(), 1);
}

#[test]
fn selections_follow_the_text_through_undo_and_redo() {
    let mut buf = Buffer::from_str("abc");
    buf.edit(vec![(0..0, "X".to_string())]).expect("an edit");
    buf.set_cursor(1);
    assert!(buf.undo().is_some());
    assert_eq!(buf.text(), "abc");
    assert_eq!(buf.primary_resolved().head(), 0);

    let mut buf = Buffer::from_str("hello world");
    buf.set_cursor(10);
    buf.edit(vec![(0..6, String::new())]).expect("an edit");
    assert_eq!(buf.text(), "world");
    assert_eq!(buf.primary_resolved().head(), 4);
    assert!(buf.undo().is_some());
    assert_eq!(buf.text(), "hello world");
    assert_eq!(buf.primary_resolved().head(), 10);
    assert!(buf.redo().is_some());
    assert_eq!(buf.text(), "world");
    assert_eq!(buf.primary_resolved().head(), 4);
}
