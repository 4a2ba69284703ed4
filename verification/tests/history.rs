//! The shared undo/redo timeline.

use alteria_core::buffer::Buffer;
use alteria_core::history::History;
use alteria_core::selection::{Selection, SelectionGoal};

/// Drive an edit the way the executor does: snapshot the selection, apply
/// the edit, move the caret, then record the (before, after) pair.
fn typed(buf: &mut Buffer, history: &mut History, range: std::ops::Range<usize>, s: &str) {
    let before = buf.selection.clone();
    let caret = range.start + s.len();
    let tx = buf.edit(vec![(range, s.to_string())]);
    buf.set_cursor(caret);
    let after = buf.selection.clone();
    history.record_edit(tx.expect("edit produced a transaction"), before, after);
}

/// Drive a selection-only step (an expansion): record (before, after) with
/// no text change.
fn expanded(buf: &mut Buffer, history: &mut History, start: usize, end: usize) {
    let before = buf.selection.clone();
    buf.set_selections(
        vec![Selection {
            id: buf.primary_id(),
            start,
            end,
            reversed: false,
            goal: SelectionGoal::Unset,
        }],
        buf.primary_id(),
    );
    let after = buf.selection.clone();
    history.record_selection(before, after);
}

#[test]
fn undo_at_root_is_a_safe_noop() {
    let mut h = History::new();
    let mut buf = Buffer::from_str("abc");
    assert!(!h.undo(&mut buf));
    assert_eq!(buf.text(), "abc");
    assert!(!h.redo(&mut buf));
}

#[test]
fn undo_reverts_an_insert_and_restores_selection() {
    let mut buf = Buffer::from_str("abc");
    let mut h = History::new();
    typed(&mut buf, &mut h, 0..0, "X");
    assert_eq!(buf.text(), "Xabc");
    assert_eq!(buf.primary_resolved().head(), 1);

    assert!(h.undo(&mut buf));
    assert_eq!(buf.text(), "abc");
    assert_eq!(buf.primary_resolved().head(), 0);
}

#[test]
fn redo_reapplies_text_and_selection() {
    let mut buf = Buffer::from_str("abc");
    let mut h = History::new();
    typed(&mut buf, &mut h, 0..0, "X");
    h.undo(&mut buf);
    assert_eq!(buf.text(), "abc");

    assert!(h.redo(&mut buf));
    assert_eq!(buf.text(), "Xabc");
    assert_eq!(buf.primary_resolved().head(), 1);
    // Nothing left to redo.
    assert!(!h.redo(&mut buf));
}

#[test]
fn multiple_edits_undo_and_redo_in_order() {
    let mut buf = Buffer::from_str("ab");
    let mut h = History::new();
    typed(&mut buf, &mut h, 0..0, "X"); // "Xab"
    typed(&mut buf, &mut h, 3..3, "Y"); // "XabY"
    assert_eq!(buf.text(), "XabY");

    assert!(h.undo(&mut buf));
    assert_eq!(buf.text(), "Xab");
    assert!(h.undo(&mut buf));
    assert_eq!(buf.text(), "ab");
    assert!(!h.undo(&mut buf)); // root

    assert!(h.redo(&mut buf));
    assert_eq!(buf.text(), "Xab");
    assert!(h.redo(&mut buf));
    assert_eq!(buf.text(), "XabY");
}

#[test]
fn expansion_step_undo_restores_selection_without_changing_text() {
    let mut buf = Buffer::from_str("hello");
    let mut h = History::new();
    buf.set_cursor(2);
    expanded(&mut buf, &mut h, 0, 5); // "select" the whole word, text untouched
    assert_eq!(
        (buf.primary_resolved().min(), buf.primary_resolved().max()),
        (0, 5)
    );

    assert!(h.undo(&mut buf));
    assert_eq!(buf.text(), "hello"); // text untouched
    assert_eq!(buf.primary_resolved().head(), 2); // selection reverted

    assert!(h.redo(&mut buf));
    assert_eq!(
        (buf.primary_resolved().min(), buf.primary_resolved().max()),
        (0, 5)
    );
}

#[test]
fn edits_and_expansions_share_one_timeline() {
    // expand (selection-only) then type over it: undo walks back through both.
    let mut buf = Buffer::from_str("foo");
    let mut h = History::new();
    expanded(&mut buf, &mut h, 0, 3); // select "foo"
    typed(&mut buf, &mut h, 0..3, "x"); // replace -> "x"
    assert_eq!(buf.text(), "x");

    assert!(h.undo(&mut buf)); // undo the edit: text back, expanded span restored
    assert_eq!(buf.text(), "foo");
    assert_eq!(
        (buf.primary_resolved().min(), buf.primary_resolved().max()),
        (0, 3)
    );

    assert!(h.undo(&mut buf)); // undo the expansion: selection collapses
    assert_eq!(buf.text(), "foo");
    assert_eq!(buf.primary_resolved().head(), 0);

    assert!(!h.undo(&mut buf)); // root
}
