//! What copy writes to the clipboard, how paste splits it, and what cut
//! deletes.

use alteria_core::action::Action;
use alteria_core::buffer::Buffer;
use alteria_core::clipboard::{clipboard_pieces, copy_payload};
use alteria_core::executor::apply;
use alteria_core::history::History;
use alteria_core::selection::{Selection, SelectionGoal};

fn sel(id: usize, start: usize, end: usize) -> Selection<usize> {
    Selection {
        id,
        start,
        end,
        reversed: false,
        goal: SelectionGoal::Unset,
    }
}

fn buffer(text: &str, sels: Vec<Selection<usize>>) -> Buffer {
    let mut b = Buffer::from_str(text);
    b.set_selections(sels, 0);
    b
}

#[test]
fn copy_joins_selection_texts_and_records_their_lengths() {
    let b = buffer("héllo world", vec![sel(0, 0, 3), sel(1, 7, 12)]);
    let (text, lengths, whole) = copy_payload(&b);
    assert_eq!(text, "hé\nworld");
    assert_eq!(lengths, vec![3, 5]);
    assert_eq!(whole, vec![false, false]);
}

#[test]
fn copy_of_a_bare_cursor_takes_its_whole_line() {
    // A cursor inside "cd" on the middle line copies "cd\n"; one on the last
    // line (no line break) copies just "ef".
    let b = buffer("ab\ncd\nef", vec![sel(0, 4, 4), sel(1, 7, 7)]);
    let (text, lengths, whole) = copy_payload(&b);
    assert_eq!(text, "cd\n\nef");
    assert_eq!(lengths, vec![3, 2]);
    assert_eq!(whole, vec![true, true]);
}

#[test]
fn paste_pieces_come_back_as_copied() {
    let b = buffer("héllo world", vec![sel(0, 0, 3), sel(1, 7, 12)]);
    let (text, lengths, _) = copy_payload(&b);
    assert_eq!(clipboard_pieces(&text, Some(lengths)), vec!["hé".to_string(), "world".to_string()]);
}

#[test]
fn paste_without_fitting_lengths_hands_out_the_whole_text() {
    let whole = vec!["a\ncd".to_string()];
    assert_eq!(clipboard_pieces("a\ncd", None), whole);
    assert_eq!(clipboard_pieces("a\ncd", Some(vec![])), whole);
    // Past the end.
    assert_eq!(clipboard_pieces("a\ncd", Some(vec![1, 3])), whole);
    // Splitting "é" in the middle.
    assert_eq!(clipboard_pieces("é", Some(vec![1])), vec!["é".to_string()]);
    // The pieces need not cover the whole text.
    assert_eq!(clipboard_pieces("a\ncd", Some(vec![1])), vec!["a".to_string()]);
    assert_eq!(
        clipboard_pieces("a\ncd", Some(vec![1, 2])),
        vec!["a".to_string(), "cd".to_string()]
    );
}

#[test]
fn cut_of_a_bare_cursor_deletes_its_line_and_undo_brings_it_back() {
    let mut b = buffer("ab\ncd\nef", vec![sel(0, 4, 4)]);
    let mut h = History::new();
    apply(Action::Cut, &mut b, &mut h);
    assert_eq!(b.text(), "ab\nef");
    assert_eq!(b.primary_resolved().head(), 3);
    apply(Action::Undo, &mut b, &mut h);
    assert_eq!(b.text(), "ab\ncd\nef");
    assert_eq!(b.primary_resolved().head(), 4);
}

#[test]
fn cut_deletes_spans_and_lines_at_every_cursor() {
    let mut b = buffer("ab\ncd\nef", vec![sel(0, 0, 1), sel(1, 7, 7)]);
    let mut h = History::new();
    apply(Action::Cut, &mut b, &mut h);
    assert_eq!(b.text(), "b\ncd\n");
}

#[test]
fn cut_in_an_empty_buffer_does_nothing() {
    let mut b = Buffer::from_str("");
    let mut h = History::new();
    apply(Action::Cut, &mut b, &mut h);
    assert_eq!(b.text(), "");
    assert!(h.undo_stack.is_empty());
}
