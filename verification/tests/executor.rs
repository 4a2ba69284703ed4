//! The executor's actions, applied to a buffer and a history.

use alteria_core::action::Motion::{BlankLine, Char, LineEdge, MatchingBracket, WordStart};
use alteria_core::action::{Action, Direction, Expansion, Motion};
use alteria_core::buffer::Buffer;
use alteria_core::executor::apply;
use alteria_core::history::History;
use alteria_core::selection::{Selection, SelectionGoal};

// ---- builders / accessors (offset-space views of the new model) -----

fn at(text: &str, head: usize) -> Buffer {
    let mut b = Buffer::from_str(text);
    b.set_cursor(head);
    b
}
fn span(text: &str, anchor: usize, head: usize) -> Buffer {
    let mut b = Buffer::from_str(text);
    let (start, end, reversed) = if head >= anchor {
        (anchor, head, false)
    } else {
        (head, anchor, true)
    };
    let id = b.primary_id();
    b.set_selections(
        vec![Selection {
            id,
            start,
            end,
            reversed,
            goal: SelectionGoal::Unset,
        }],
        id,
    );
    b
}
fn cursors(text: &str, heads: &[usize]) -> Buffer {
    let mut b = Buffer::from_str(text);
    let sels: Vec<Selection<usize>> = heads
        .iter()
        .enumerate()
        .map(|(i, &h)| Selection::cursor(i, h))
        .collect();
    b.set_selections(sels, 0);
    b
}
/// Heads of every selection, in stored (position-sorted) order.
fn heads(b: &Buffer) -> Vec<usize> {
    b.resolved().iter().map(|s| s.head()).collect()
}
/// The primary head.
fn head(b: &Buffer) -> usize {
    b.primary_resolved().head()
}
/// The primary span as `(min, max)`.
fn span_of(b: &Buffer) -> (usize, usize) {
    let p = b.primary_resolved();
    (p.min(), p.max())
}
/// The number of live selections.
fn count(b: &Buffer) -> usize {
    b.selection.selections.len()
}
fn mv(motion: Motion, extend: bool, count: usize) -> Action {
    Action::Move {
        motion,
        extend,
        count,
    }
}
fn run(buffer: &mut Buffer, action: Action) {
    let mut h = History::new();
    apply(action, buffer, &mut h);
}

// ---- edits ----------------------------------------------------------

#[test]
fn insert_char_inserts_and_advances_collapsed() {
    let mut b = at("abc", 0);
    run(&mut b, Action::InsertChar('X'));
    assert_eq!(b.text(), "Xabc");
    assert_eq!(head(&b), 1);
    assert!(b.primary_resolved().is_empty());
}

#[test]
fn insert_char_appends_at_end() {
    let mut b = at("abc", 3);
    run(&mut b, Action::InsertChar('Z'));
    assert_eq!(b.text(), "abcZ");
    assert_eq!(head(&b), 4);
}

#[test]
fn insert_multibyte_char_advances_by_byte_len() {
    let mut b = at("ab", 1);
    run(&mut b, Action::InsertChar('é')); // 2 bytes
    assert_eq!(b.text(), "aéb");
    assert_eq!(head(&b), 3);
}

#[test]
fn insert_newline() {
    let mut b = at("ab", 1);
    run(&mut b, Action::InsertNewline);
    assert_eq!(b.text(), "a\nb");
    assert_eq!(head(&b), 2);
}

#[test]
fn delete_backward_removes_prev_char() {
    let mut b = at("abc", 2);
    run(&mut b, Action::DeleteBackward);
    assert_eq!(b.text(), "ac");
    assert_eq!(head(&b), 1);
}

#[test]
fn delete_backward_at_start_is_noop() {
    let mut b = at("abc", 0);
    run(&mut b, Action::DeleteBackward);
    assert_eq!(b.text(), "abc");
    assert_eq!(head(&b), 0);
}

#[test]
fn delete_backward_multibyte() {
    let mut b = at("aéb", 3); // cursor after 'é' (a=0, é=1..3)
    run(&mut b, Action::DeleteBackward);
    assert_eq!(b.text(), "ab");
    assert_eq!(head(&b), 1);
}

#[test]
fn delete_forward_removes_next_char() {
    let mut b = at("abc", 1);
    run(&mut b, Action::DeleteForward);
    assert_eq!(b.text(), "ac");
    assert_eq!(head(&b), 1);
}

#[test]
fn delete_forward_at_end_is_noop() {
    let mut b = at("abc", 3);
    run(&mut b, Action::DeleteForward);
    assert_eq!(b.text(), "abc");
    assert_eq!(head(&b), 3);
}

#[test]
fn delete_forward_multibyte() {
    let mut b = at("aéb", 1); // cursor before 'é' (é=1..3)
    run(&mut b, Action::DeleteForward);
    assert_eq!(b.text(), "ab");
    assert_eq!(head(&b), 1);
}

#[test]
fn backspace_over_a_span_deletes_the_selection() {
    let mut b = span("abcde", 1, 4); // "bcd" selected
    run(&mut b, Action::DeleteBackward);
    assert_eq!(b.text(), "ae");
    assert_eq!(head(&b), 1);
    assert!(b.primary_resolved().is_empty());
}

#[test]
fn backspace_over_a_backward_span_deletes_the_selection() {
    let mut b = span("abcde", 4, 1); // same span, head left of anchor
    run(&mut b, Action::DeleteBackward);
    assert_eq!(b.text(), "ae");
    assert_eq!(head(&b), 1);
}

#[test]
fn delete_forward_over_a_span_deletes_the_selection() {
    let mut b = span("abcde", 1, 4);
    run(&mut b, Action::DeleteForward);
    assert_eq!(b.text(), "ae");
    assert_eq!(head(&b), 1);
    assert!(b.primary_resolved().is_empty());
}

#[test]
fn backspace_over_multiple_spans_deletes_each() {
    // "abcdef": spans "ab" [0,2) and "ef" [4,6) -> "cd".
    let mut b = Buffer::from_str("abcdef");
    b.set_selections(
        vec![
            Selection {
                id: 0,
                start: 0,
                end: 2,
                reversed: false,
                goal: SelectionGoal::Unset,
            },
            Selection {
                id: 1,
                start: 4,
                end: 6,
                reversed: false,
                goal: SelectionGoal::Unset,
            },
        ],
        0,
    );
    run(&mut b, Action::DeleteBackward);
    assert_eq!(b.text(), "cd");
    assert_eq!(heads(&b), vec![0, 2]);
}

#[test]
fn typing_over_a_forward_span_replaces_it() {
    let mut b = span("abc", 0, 3);
    run(&mut b, Action::InsertChar('X'));
    assert_eq!(b.text(), "X");
    assert_eq!(head(&b), 1);
}

#[test]
fn typing_over_a_backward_span_replaces_it() {
    // Orientation must not matter: "bcd" selected backward still replaces,
    // and the caret lands past the inserted text.
    let mut b = span("abcde", 4, 1); // anchor=4, head=1 -> span [1,4) = "bcd"
    run(&mut b, Action::InsertChar('X'));
    assert_eq!(b.text(), "aXe");
    assert_eq!(head(&b), 2); // min(1)+len("X")
}

#[test]
fn newline_over_a_span_replaces_it() {
    let mut b = span("abc", 0, 3);
    run(&mut b, Action::InsertNewline);
    assert_eq!(b.text(), "\n");
    assert_eq!(head(&b), 1);
}

#[test]
fn typing_over_multiple_spans_replaces_each() {
    // "ab cd": select "ab" [0,2) and "cd" [3,5); typing 'X' replaces both.
    let mut b = Buffer::from_str("ab cd");
    b.set_selections(
        vec![
            Selection {
                id: 0,
                start: 0,
                end: 2,
                reversed: false,
                goal: SelectionGoal::Unset,
            },
            Selection {
                id: 1,
                start: 3,
                end: 5,
                reversed: false,
                goal: SelectionGoal::Unset,
            },
        ],
        0,
    );
    run(&mut b, Action::InsertChar('X'));
    assert_eq!(b.text(), "X X");
    assert_eq!(heads(&b), vec![1, 3]);
}

// ---- external text injection (paste / IME): InsertText / InsertTexts -

#[test]
fn insert_text_at_a_bare_cursor_inserts_and_advances() {
    let mut b = at("ab", 1);
    run(&mut b, Action::InsertText("XY".to_string()));
    assert_eq!(b.text(), "aXYb");
    assert_eq!(head(&b), 3);
}

#[test]
fn insert_text_over_a_span_replaces_it() {
    let mut b = span("abc", 0, 3);
    run(&mut b, Action::InsertText("XY".to_string()));
    assert_eq!(b.text(), "XY");
    assert_eq!(head(&b), 2);
}

#[test]
fn insert_text_inserts_at_every_cursor() {
    let mut b = cursors("abcde", &[1, 3]);
    run(&mut b, Action::InsertText("XY".to_string()));
    assert_eq!(b.text(), "aXYbcXYde");
    assert_eq!(heads(&b), vec![3, 7]);
}

#[test]
fn insert_empty_text_over_a_span_deletes_it() {
    // Exactly the delete cut relies on (Zed `cut_common` -> `insert("")`).
    let mut b = span("abcde", 1, 4); // "bcd" selected
    run(&mut b, Action::InsertText(String::new()));
    assert_eq!(b.text(), "ae");
    assert_eq!(head(&b), 1);
    assert!(b.primary_resolved().is_empty());
}

#[test]
fn insert_texts_distributes_one_slice_per_cursor() {
    let mut b = cursors("ab", &[0, 1]);
    run(
        &mut b,
        Action::InsertTexts(vec!["X".to_string(), "Y".to_string()]),
    );
    assert_eq!(b.text(), "XaYb");
    assert_eq!(heads(&b), vec![1, 3]);
}

#[test]
fn insert_texts_count_mismatch_inserts_whole_at_each() {
    // 1 slice, 2 cursors: Zed `do_paste`'s mismatch branch pastes the whole
    // clipboard string at every cursor.
    let mut b = cursors("ab", &[0, 1]);
    run(&mut b, Action::InsertTexts(vec!["P".to_string()]));
    assert_eq!(b.text(), "PaPb");
    assert_eq!(heads(&b), vec![1, 3]);
}

#[test]
fn insert_texts_count_mismatch_joins_slices_with_newline() {
    // More slices than cursors: the "whole" text is the slices joined by '\n'
    // (Zed's clipboard string), inserted at the single cursor.
    let mut b = at("xy", 1);
    run(
        &mut b,
        Action::InsertTexts(vec!["a".to_string(), "b".to_string()]),
    );
    assert_eq!(b.text(), "xa\nby");
    assert_eq!(head(&b), 4); // past "a\nb"
}

// ---- char motions ---------------------------------------------------

#[test]
fn char_left_and_right() {
    let mut b = at("abc", 1);
    run(&mut b, mv(Char(Direction::Right), false, 1));
    assert_eq!(head(&b), 2);
    run(&mut b, mv(Char(Direction::Left), false, 1));
    assert_eq!(head(&b), 1);
}

#[test]
fn char_left_clamps_at_start() {
    let mut b = at("abc", 0);
    run(&mut b, mv(Char(Direction::Left), false, 1));
    assert_eq!(head(&b), 0);
}

#[test]
fn char_right_clamps_at_end() {
    let mut b = at("abc", 3);
    run(&mut b, mv(Char(Direction::Right), false, 1));
    assert_eq!(head(&b), 3);
}

#[test]
fn char_motion_over_multibyte() {
    let mut b = at("aé", 0);
    run(&mut b, mv(Char(Direction::Right), false, 1)); // past 'a'
    assert_eq!(head(&b), 1);
    run(&mut b, mv(Char(Direction::Right), false, 1)); // past 'é' (2 bytes)
    assert_eq!(head(&b), 3);
}

#[test]
fn char_right_crosses_a_full_grapheme_cluster() {
    let s = "e\u{0301}";
    let mut b = at(s, 0);
    run(&mut b, mv(Char(Direction::Right), false, 1));
    assert_eq!(head(&b), s.len()); // past the cluster
}

#[test]
fn char_right_does_not_split_a_flag_emoji() {
    let s = "🇺🇸";
    let mut b = at(s, 0);
    run(&mut b, mv(Char(Direction::Right), false, 1));
    assert_eq!(head(&b), s.len());
}

#[test]
fn backspace_deletes_the_whole_previous_grapheme() {
    let s = "e\u{0301}";
    let mut b = at(s, s.len());
    run(&mut b, Action::DeleteBackward);
    assert_eq!(b.text(), "");
    assert_eq!(head(&b), 0);
}

// ---- vertical motion ------------------------------------------------

#[test]
fn vertical_down_then_up_keeps_column() {
    let mut b = at("abc\ndef", 1);
    run(&mut b, mv(Char(Direction::Down), false, 1));
    assert_eq!(head(&b), 5); // line1 col1
    run(&mut b, mv(Char(Direction::Up), false, 1));
    assert_eq!(head(&b), 1); // back to line0 col1
}

#[test]
fn vertical_goal_column_clamps_then_restores() {
    // "abcd\nef\nghij": the middle line "ef" is shorter; the goal column
    // survives it so the third line restores column 3.
    let mut b = at("abcd\nef\nghij", 3); // line0 col3
    run(&mut b, mv(Char(Direction::Down), false, 1));
    assert_eq!(head(&b), 7); // clamped to the end of "ef" (col 2)
    run(&mut b, mv(Char(Direction::Down), false, 1));
    assert_eq!(head(&b), 11); // col 3 restored on "ghij", not stuck at col 2
}

#[test]
fn vertical_noop_past_first_and_last_line() {
    let mut b = at("abc", 1);
    run(&mut b, mv(Char(Direction::Up), false, 1));
    assert_eq!(head(&b), 1);
    run(&mut b, mv(Char(Direction::Down), false, 1));
    assert_eq!(head(&b), 1);
}

// ---- word motion (E = next-word-start, Q = previous-word-start) -----

#[test]
fn word_right_lands_on_next_word_start() {
    let mut b = at("foo bar", 0);
    run(&mut b, mv(WordStart(Direction::Right), false, 1));
    assert_eq!(head(&b), 4); // start of "bar"
}

#[test]
fn word_left_to_prev_word_start() {
    let mut b = at("foo bar", 7);
    run(&mut b, mv(WordStart(Direction::Left), false, 1));
    assert_eq!(head(&b), 4); // start of "bar"
}

#[test]
fn word_right_from_mid_word_reaches_next_word_start() {
    let mut b = at("foo bar baz", 1); // inside "foo"
    run(&mut b, mv(WordStart(Direction::Right), false, 1));
    assert_eq!(head(&b), 4); // start of "bar"
}

#[test]
fn word_right_stops_at_a_word_punctuation_boundary() {
    let mut b = at("foo.bar", 0);
    run(&mut b, mv(WordStart(Direction::Right), false, 1));
    assert_eq!(head(&b), 3); // the '.'
    run(&mut b, mv(WordStart(Direction::Right), false, 1));
    assert_eq!(head(&b), 4); // start of "bar"
}

#[test]
fn word_right_stops_at_an_open_bracket() {
    let mut b = at("foo(bar)", 0);
    run(&mut b, mv(WordStart(Direction::Right), false, 1));
    assert_eq!(head(&b), 3); // before '('
}

#[test]
fn word_right_skips_leading_whitespace_to_next_word_start() {
    let mut b = at(" foo", 0);
    run(&mut b, mv(WordStart(Direction::Right), false, 1));
    assert_eq!(head(&b), 1); // start of "foo"
}

#[test]
fn word_left_skips_trailing_punctuation() {
    let mut b = at("bar.", 4);
    run(&mut b, mv(WordStart(Direction::Left), false, 1));
    assert_eq!(head(&b), 0); // start of "bar"
}

// ---- line edges -----------------------------------------------------

#[test]
fn line_edges() {
    let mut b = at("abc\ndef", 6); // on 'f', line1
    run(&mut b, mv(LineEdge(Direction::Left), false, 1));
    assert_eq!(head(&b), 4); // line1 start
    run(&mut b, mv(LineEdge(Direction::Right), false, 1));
    assert_eq!(head(&b), 7); // after 'f' (line/EOF end)
}

#[test]
fn line_end_stops_before_newline() {
    let mut b = at("abc\ndef", 0); // line0
    run(&mut b, mv(LineEdge(Direction::Right), false, 1));
    assert_eq!(head(&b), 3); // before the '\n'
}

#[test]
fn page_move_uses_supplied_visible_row_count() {
    let mut b = at("a\nb\nc\nd", 0);
    run(
        &mut b,
        Action::MovePage {
            direction: Direction::Down,
            extend: false,
            rows: 2,
        },
    );
    assert_eq!(head(&b), 4); // line 2, col 0
}

#[test]
fn shift_page_move_extends() {
    let mut b = at("a\nb\nc\nd", 0);
    run(
        &mut b,
        Action::MovePage {
            direction: Direction::Down,
            extend: true,
            rows: 2,
        },
    );
    assert_eq!(span_of(&b), (0, 4));
}

// ---- blank-line leaps ----------------------------------------------

#[test]
fn blank_line_down_and_up() {
    let mut b = at("aa\n\nbb", 0);
    run(&mut b, mv(BlankLine(Direction::Down), false, 1));
    assert_eq!(head(&b), 3); // the blank line
    let mut b2 = at("aa\n\nbb", 4); // line2
    run(&mut b2, mv(BlankLine(Direction::Up), false, 1));
    assert_eq!(head(&b2), 3);
}

#[test]
fn blank_line_noop_when_none() {
    let mut b = at("abc", 1);
    run(&mut b, mv(BlankLine(Direction::Up), false, 1));
    assert_eq!(head(&b), 1);
    run(&mut b, mv(BlankLine(Direction::Down), false, 1));
    assert_eq!(head(&b), 1);
}

#[test]
fn blank_line_down_ignores_the_phantom_trailing_line() {
    let mut b = at("abc\ndef\n", 0);
    run(&mut b, mv(BlankLine(Direction::Down), false, 1));
    assert_eq!(head(&b), 0); // no real blank line below -> no-op
}

#[test]
fn blank_line_down_still_finds_a_real_trailing_blank_line() {
    let mut b = at("abc\n\n", 0);
    run(&mut b, mv(BlankLine(Direction::Down), false, 1));
    assert_eq!(head(&b), 4); // start of the blank line
}

// ---- matching bracket ----------------------------------------------

#[test]
fn matching_bracket_jumps_both_ways() {
    let mut b = at("(a)", 0);
    run(&mut b, mv(MatchingBracket, false, 1));
    assert_eq!(head(&b), 2); // the ')'
    run(&mut b, mv(MatchingBracket, false, 1));
    assert_eq!(head(&b), 0); // back to '('
}

#[test]
fn matching_bracket_is_nesting_aware() {
    let mut b = at("((a))", 0);
    run(&mut b, mv(MatchingBracket, false, 1));
    assert_eq!(head(&b), 4); // outer ')'
}

#[test]
fn matching_bracket_across_lines() {
    let mut b = at("(\n)", 0);
    run(&mut b, mv(MatchingBracket, false, 1));
    assert_eq!(head(&b), 2);
}

#[test]
fn matching_bracket_noop_off_bracket() {
    let mut b = at("abc", 1);
    run(&mut b, mv(MatchingBracket, false, 1));
    assert_eq!(head(&b), 1);
}

#[test]
fn matching_bracket_ignores_repeat_count() {
    let mut b = at("()", 0);
    run(&mut b, mv(MatchingBracket, false, 2));
    assert_eq!(head(&b), 1); // partner, not back to the start
    let mut b3 = at("()", 0);
    run(&mut b3, mv(MatchingBracket, false, 3));
    assert_eq!(head(&b3), 1);
}

#[test]
fn matching_bracket_from_inside_a_pair() {
    let mut b = at("(abc)", 2);
    run(&mut b, mv(MatchingBracket, false, 1));
    assert_eq!(head(&b), 4); // jumps to the enclosing pair's ')'
    run(&mut b, mv(MatchingBracket, false, 1));
    assert_eq!(head(&b), 0); // and from the ')' back to the '('
}

// ---- extend / count / collapse -------------------------------------

#[test]
fn extend_keeps_anchor_moves_head() {
    let mut b = at("abcde", 0);
    run(&mut b, mv(Char(Direction::Right), true, 1));
    assert_eq!(span_of(&b), (0, 1));
    run(&mut b, mv(Char(Direction::Right), true, 1));
    assert_eq!(span_of(&b), (0, 2));
    assert!(!b.primary_resolved().reversed);
}

#[test]
fn count_moves_n_times() {
    let mut b = at("abcde", 0);
    run(&mut b, mv(Char(Direction::Right), false, 3));
    assert_eq!(head(&b), 3);
}

#[test]
fn collapse_drops_span_to_head() {
    let mut b = span("abcde", 1, 4);
    run(&mut b, Action::CollapseSelection);
    assert_eq!(head(&b), 4);
    assert!(b.primary_resolved().is_empty());
}

#[test]
fn select_all_selects_the_whole_buffer() {
    let mut b = at("abc\ndef", 4);
    run(&mut b, Action::SelectAll);
    assert_eq!(span_of(&b), (0, b.len()));
    assert!(!b.primary_resolved().reversed);
}

// ---- undo / redo through the executor and history ------------------

#[test]
fn undo_reverts_an_edit() {
    let mut b = at("abc", 0);
    let mut h = History::new();
    apply(Action::InsertChar('X'), &mut b, &mut h);
    assert_eq!(b.text(), "Xabc");
    apply(Action::Undo, &mut b, &mut h);
    assert_eq!(b.text(), "abc");
    assert_eq!(head(&b), 0);
}

#[test]
fn redo_reapplies_an_undone_edit() {
    let mut b = at("abc", 0);
    let mut h = History::new();
    apply(Action::InsertChar('X'), &mut b, &mut h);
    apply(Action::Undo, &mut b, &mut h);
    assert_eq!(b.text(), "abc");
    assert!(h.redo(&mut b)); // redo is an engine capability (KEYMAP: not yet bound)
    assert_eq!(b.text(), "Xabc");
    assert_eq!(head(&b), 1);
}

#[test]
fn redo_action_reapplies_an_undone_edit() {
    // The bound verb: Action::Redo flows through the executor like Action::Undo.
    let mut b = at("abc", 0);
    let mut h = History::new();
    apply(Action::InsertChar('X'), &mut b, &mut h);
    apply(Action::Undo, &mut b, &mut h);
    assert_eq!(b.text(), "abc");
    apply(Action::Redo, &mut b, &mut h);
    assert_eq!(b.text(), "Xabc"); // text restored
    assert_eq!(head(&b), 1); // and the after-selection
}

#[test]
fn redo_action_at_top_of_stack_is_a_noop() {
    let mut b = at("abc", 0);
    let mut h = History::new();
    apply(Action::Redo, &mut b, &mut h); // nothing was undone
    assert_eq!(b.text(), "abc");
    assert_eq!(head(&b), 0);
}

// ---- multicursor ----------------------------------------------------

#[test]
fn two_cursors_insert_at_both() {
    let mut b = cursors("abcde", &[1, 3]);
    run(&mut b, Action::InsertChar('X'));
    assert_eq!(b.text(), "aXbcXde");
    assert_eq!(heads(&b), vec![2, 5]);
}

#[test]
fn motion_moves_every_cursor() {
    let mut b = cursors("abcde", &[0, 2]);
    run(&mut b, mv(Char(Direction::Right), false, 1));
    assert_eq!(heads(&b), vec![1, 3]);
}

#[test]
fn edit_that_makes_cursors_coincide_merges_them() {
    let mut b = cursors("abc", &[1, 2]);
    run(&mut b, Action::DeleteBackward);
    assert_eq!(b.text(), "c");
    assert_eq!(count(&b), 1);
    assert_eq!(head(&b), 0);
}

#[test]
fn esc_collapses_multicursor_to_the_primary() {
    let mut b = Buffer::from_str("abcde");
    b.set_selections(
        vec![
            Selection {
                id: 0,
                start: 1,
                end: 2,
                reversed: false,
                goal: SelectionGoal::Unset,
            },
            Selection {
                id: 1,
                start: 3,
                end: 4,
                reversed: false,
                goal: SelectionGoal::Unset,
            },
        ],
        1,
    );
    run(&mut b, Action::CollapseSelection);
    assert_eq!(count(&b), 1);
    assert_eq!(head(&b), 4); // primary head
}

#[test]
fn spawn_cursor_down_adds_a_cursor_below_at_same_column() {
    let mut b = at("abc\ndef", 1); // line0, col1
    run(&mut b, Action::SpawnCursor(Direction::Down));
    let mut hs = heads(&b);
    hs.sort_unstable();
    assert_eq!(hs, vec![1, 5]); // line1 col1 = byte 5
}

#[test]
fn spawn_cursor_up_adds_a_cursor_above() {
    let mut b = at("abc\ndef", 5); // line1, col1
    run(&mut b, Action::SpawnCursor(Direction::Up));
    let mut hs = heads(&b);
    hs.sort_unstable();
    assert_eq!(hs, vec![1, 5]);
}

#[test]
fn spawn_cursor_noop_at_buffer_edge() {
    let mut b = at("abc", 1); // only one line
    run(&mut b, Action::SpawnCursor(Direction::Up));
    assert_eq!(count(&b), 1);
}

// ---- find -----------------------------------------------------------

#[test]
fn find_moves_to_occurrence_then_repeats_both_ways() {
    let mut b = at("a x b x c", 0);
    let mut h = History::new();
    apply(Action::FindChar { ch: 'x' }, &mut b, &mut h);
    assert_eq!(head(&b), 2);
    apply(
        Action::FindRepeat {
            ch: 'x',
            forward: true,
        },
        &mut b,
        &mut h,
    );
    assert_eq!(head(&b), 6);
    apply(
        Action::FindRepeat {
            ch: 'x',
            forward: false,
        },
        &mut b,
        &mut h,
    );
    assert_eq!(head(&b), 2);
}

#[test]
fn find_no_match_is_a_noop() {
    let mut b = at("abc", 0);
    let mut h = History::new();
    apply(Action::FindChar { ch: 'z' }, &mut b, &mut h);
    assert_eq!(head(&b), 0);
}

#[test]
fn find_moves_every_cursor_and_keeps_the_multicursor() {
    let mut b = cursors("axbx", &[0, 2]);
    let mut h = History::new();
    apply(Action::FindChar { ch: 'x' }, &mut b, &mut h);
    assert_eq!(count(&b), 2);
    assert_eq!(heads(&b), vec![1, 3]);
}

#[test]
fn find_with_no_match_for_one_cursor_leaves_that_cursor_put() {
    let mut b = cursors("ax\ncd", &[0, 3]);
    let mut h = History::new();
    apply(Action::FindChar { ch: 'x' }, &mut b, &mut h);
    assert_eq!(heads(&b), vec![1, 3]);
}

// ---- expansion (wired through the executor, undoable) ---------------

#[test]
fn expand_updates_primary_and_is_undoable() {
    let mut b = at("a aa b", 2); // cursor in "aa"
    let mut h = History::new();

    apply(Action::Expand(Expansion::Enclosing), &mut b, &mut h);
    assert_eq!(span_of(&b), (2, 4)); // "aa"
    apply(Action::Expand(Expansion::Enclosing), &mut b, &mut h);
    assert_eq!(span_of(&b), (2, 6)); // "aa b"

    // Ctrl+Z steps back through the expansion levels; text never changed.
    apply(Action::Undo, &mut b, &mut h);
    assert_eq!(span_of(&b), (2, 4));
    apply(Action::Undo, &mut b, &mut h);
    assert_eq!(head(&b), 2);
    assert!(b.primary_resolved().is_empty());
    assert_eq!(b.text(), "a aa b");
}

#[test]
fn expand_at_outermost_does_not_commit_history() {
    let mut b = at("abc", 1);
    let mut h = History::new();
    apply(Action::Expand(Expansion::Enclosing), &mut b, &mut h); // word "abc"
    apply(Action::Expand(Expansion::Enclosing), &mut b, &mut h); // outermost: no-op
    assert!(h.undo(&mut b)); // undoes the word selection
    assert!(!h.undo(&mut b)); // root: nothing more
}

#[test]
fn expand_outermost_backward_selection_is_a_strict_noop() {
    // A right-to-left whole-word selection must be a true no-op at the
    // outermost level: no history entry and no orientation flip.
    let mut b = Buffer::from_str("abc");
    let id = b.primary_id();
    b.set_selections(
        vec![Selection {
            id,
            start: 0,
            end: 3,
            reversed: true, // head at 0 (extended leftward)
            goal: SelectionGoal::Unset,
        }],
        id,
    );
    let mut h = History::new();
    apply(Action::Expand(Expansion::Enclosing), &mut b, &mut h);
    assert_eq!(span_of(&b), (0, 3));
    assert!(b.primary_resolved().reversed); // orientation unchanged
    assert!(!h.undo(&mut b)); // nothing committed: at the root
}

#[test]
fn expand_normalizes_overlap_with_a_sibling_cursor() {
    // Two cursors; expanding the primary into a word swallows the sibling.
    let mut b = Buffer::from_str("a aa b");
    b.set_selections(vec![Selection::cursor(0, 2), Selection::cursor(1, 3)], 0);
    let mut h = History::new();
    apply(Action::Expand(Expansion::Enclosing), &mut b, &mut h);
    assert_eq!(count(&b), 1);
    assert_eq!(span_of(&b), (2, 4)); // "aa"
}

// ---- empty buffer ---------------------------------------------------

#[test]
fn empty_buffer_motions_never_panic() {
    for motion in [
        Char(Direction::Left),
        Char(Direction::Right),
        Char(Direction::Up),
        Char(Direction::Down),
        WordStart(Direction::Right),
        WordStart(Direction::Left),
        LineEdge(Direction::Left),
        LineEdge(Direction::Right),
        BlankLine(Direction::Up),
        BlankLine(Direction::Down),
        MatchingBracket,
    ] {
        let mut b = at("", 0);
        run(&mut b, mv(motion, false, 1));
        assert_eq!(head(&b), 0);
    }
}
