//! Properties of the engine checked on concrete values.

use alteria_core::action::{Action, Direction, Expansion, Motion};
use alteria_core::buffer::Buffer;
use alteria_core::executor::{apply, move_head};
use alteria_core::highlight::{highlight, spans_from_captures, Highlight, Lang};
use alteria_core::history::History;
use alteria_core::input::{InputEvent, Key, Modifiers};
use alteria_core::keymap::Keymap;
use alteria_core::layout::row_col;
use alteria_core::resolver::{FindState, Resolver};
use alteria_core::selection::{normalize, Selection, SelectionGoal};
use alteria_core::text::is_utf8_char_boundary;
use alteria_core::transaction::{Assoc, ChangeSet, Op};

fn span(id: usize, start: usize, end: usize) -> Selection<usize> {
    Selection {
        id,
        start,
        end,
        reversed: false,
        goal: SelectionGoal::Unset,
    }
}

#[test]
fn normalized_selections_are_sorted_and_disjoint() {
    let mut v = vec![span(0, 7, 9), span(1, 1, 3), span(2, 2, 5), span(3, 9, 9), span(4, 5, 5)];
    normalize(&mut v, 2);
    for w in v.windows(2) {
        assert!(w[0].start < w[1].start);
        assert!(w[0].end <= w[1].start);
    }
    assert_eq!(v.iter().map(|s| (s.start, s.end)).collect::<Vec<_>>(), vec![(1, 5), (5, 5), (7, 9), (9, 9)]);
}

#[test]
fn undo_of_every_step_returns_to_the_start() {
    let mut b = Buffer::from_str("one two\nthree");
    let mut h = History::new();
    let steps = vec![
        Action::InsertChar('x'),
        Action::Expand(Expansion::Enclosing),
        Action::InsertText("yz".to_string()),
        Action::Move {
            motion: Motion::Char(Direction::Down),
            extend: false,
            count: 1,
        },
        Action::DeleteBackward,
        Action::SpawnCursor(Direction::Up),
        Action::InsertNewline,
    ];
    for a in steps {
        apply(a, &mut b, &mut h);
    }
    assert_ne!(b.text(), "one two\nthree");
    while h.undo(&mut b) {}
    assert_eq!(b.text(), "one two\nthree");
    assert_eq!(b.primary_resolved().head(), 0);
}

#[test]
fn undo_after_redo_takes_the_edit_back_again() {
    let mut b = Buffer::from_str("abc");
    b.set_cursor(1);
    let mut h = History::new();
    apply(Action::InsertChar('Q'), &mut b, &mut h);
    apply(Action::Undo, &mut b, &mut h);
    apply(Action::Redo, &mut b, &mut h);
    assert_eq!(b.text(), "aQbc");
    apply(Action::Undo, &mut b, &mut h);
    assert_eq!(b.text(), "abc");
    assert_eq!(b.primary_resolved().head(), 1);
}

#[test]
fn a_new_edit_drops_the_redo_branch() {
    let mut b = Buffer::from_str("abc");
    let mut h = History::new();
    apply(Action::InsertChar('X'), &mut b, &mut h);
    apply(Action::Undo, &mut b, &mut h);
    apply(Action::InsertChar('Y'), &mut b, &mut h);
    assert!(!h.redo(&mut b));
    assert_eq!(b.text(), "Yabc");
}

#[test]
fn motions_leave_text_and_history_alone() {
    let mut b = Buffer::from_str("ab (cd)\n\nef");
    let mut h = History::new();
    apply(Action::InsertChar('z'), &mut b, &mut h);
    let undo_len = h.undo_stack.len();
    for m in [
        Motion::WordStart(Direction::Right),
        Motion::MatchingBracket,
        Motion::BlankLine(Direction::Down),
        Motion::LineEdge(Direction::Right),
    ] {
        apply(
            Action::Move {
                motion: m,
                extend: true,
                count: 3,
            },
            &mut b,
            &mut h,
        );
    }
    assert_eq!(b.text(), "zab (cd)\n\nef");
    assert_eq!(h.undo_stack.len(), undo_len);
}

#[test]
fn no_mode_gets_stuck_after_release() {
    let km = Keymap::default_alteria();
    let alt = Modifiers {
        alt: true,
        ctrl: false,
        shift: false,
        super_key: false,
    };
    let mut r = Resolver::new();
    r.resolve(InputEvent::ModifiersChanged { mods: alt }, &km);
    r.resolve(
        InputEvent::KeyDown {
            key: Key::Char('7'),
            mods: alt,
            repeat: false,
        },
        &km,
    );
    r.resolve(
        InputEvent::KeyDown {
            key: Key::Char('f'),
            mods: alt,
            repeat: false,
        },
        &km,
    );
    assert_eq!(r.find_state(), FindState::Pending);
    // A bare key with no modifier types, whatever the state was.
    assert_eq!(
        r.resolve(
            InputEvent::KeyDown {
                key: Key::Char('q'),
                mods: Modifiers::none(),
                repeat: false,
            },
            &km,
        ),
        Some(Action::InsertChar('q'))
    );
    assert_eq!(r.pending_count(), 0);
    assert_eq!(r.find_state(), FindState::Inactive);
}

#[test]
fn from_changes_consumes_the_whole_document() {
    let cs = ChangeSet::from_changes(10, &[(1, 3, "ab".to_string()), (3, 3, "c".to_string()), (7, 9, String::new())]);
    let consumed: usize = cs
        .ops
        .iter()
        .map(|op| match op {
            Op::Retain(n) | Op::Delete(n) => *n,
            Op::Insert(_) => 0,
        })
        .sum();
    assert_eq!(consumed, 10);
    assert_eq!(cs.len_after(), 9);
}

#[test]
fn highlight_spans_are_sorted_and_disjoint() {
    let text = "fn main() { let x = 1; }";
    let spans = highlight(text, Lang::Rust);
    assert!(!spans.is_empty());
    for s in &spans {
        assert!(s.range.start < s.range.end && s.range.end <= text.len());
    }
    for w in spans.windows(2) {
        assert!(w[0].range.end <= w[1].range.start);
    }
}

#[test]
fn innermost_capture_wins_and_contiguous_spans_merge() {
    // An outer capture 0..10 (@1), an inner one 2..4 (@2), and a
    // neighbour 10..12 with the outer's capture.
    let spans = spans_from_captures(12, vec![(2, 4, 2), (0, 10, 1), (10, 12, 1)]);
    assert_eq!(
        spans,
        vec![
            Highlight { range: 0..2, capture: 1 },
            Highlight { range: 2..4, capture: 2 },
            Highlight { range: 4..12, capture: 1 },
        ]
    );
}

#[test]
fn row_col_counts_bytes_of_multibyte_chars() {
    // "é" is two bytes, so the 'x' after it sits at byte column 2.
    assert_eq!(row_col("a\néx", 4), (1, 2));
}

#[test]
fn utf8_continuation_bytes_are_not_boundaries() {
    assert!(is_utf8_char_boundary(b'a'));
    assert!(is_utf8_char_boundary(0xc3));
    assert!(!is_utf8_char_boundary(0xa9));
}

#[test]
fn vertical_goal_is_kept_in_bytes_across_multibyte_lines() {
    // Column 2 (bytes) on "ab"; the line below starts with a two-byte char, so
    // byte column 2 is right after it.
    let mut b = Buffer::from_str("ab\néz");
    b.set_cursor(2);
    let mut h = History::new();
    apply(
        Action::Move {
            motion: Motion::Char(Direction::Down),
            extend: false,
            count: 1,
        },
        &mut b,
        &mut h,
    );
    assert_eq!(b.primary_resolved().head(), 5);
}

#[test]
fn matching_bracket_jumps_back_to_where_it_started() {
    use_move_head_twice("f(a[b]{c}) x", &[1, 3, 5, 6, 8, 9]);
    use_move_head_twice("((()", &[0, 1, 2, 3]);
}

fn use_move_head_twice(text: &str, heads: &[usize]) {
    let t: Vec<char> = text.chars().collect();
    for &h in heads {
        let p = move_head(&t, h, Motion::MatchingBracket, 3);
        let back = move_head(&t, p, Motion::MatchingBracket, 2);
        assert_eq!(back, h, "from {} via {}", h, p);
    }
}

#[test]
fn inverse_restores_text_even_when_retains_split_a_char() {
    let pre = ropey::Rope::from_str("aé");
    let cs = ChangeSet {
        ops: vec![Op::Retain(2), Op::Retain(1), Op::Insert("x".to_string())],
        len_before: 3,
    };
    let mut post = pre.clone();
    assert!(cs.apply(&mut post));
    assert_eq!(post.to_string(), "aéx");
    let inverse = cs.invert(&pre);
    assert_eq!(inverse.len_before, 4);
    assert_eq!(inverse.ops, vec![Op::Retain(3), Op::Delete(1)]);
    assert!(inverse.apply(&mut post));
    assert_eq!(post.to_string(), "aé");
}

#[test]
fn commands_do_the_same_for_either_letter_case() {
    let km = Keymap::default_alteria();
    let layers = [
        Modifiers { alt: true, ctrl: false, shift: false, super_key: false },
        Modifiers { alt: true, ctrl: false, shift: true, super_key: false },
        Modifiers { alt: false, ctrl: true, shift: false, super_key: false },
        Modifiers { alt: true, ctrl: true, shift: false, super_key: false },
    ];
    for mods in layers {
        for c in 'a'..='z' {
            let mut lower = Resolver::new();
            let mut upper = Resolver::new();
            let down = |ch: char| InputEvent::KeyDown { key: Key::Char(ch), mods, repeat: false };
            let a = lower.resolve(down(c), &km);
            let b = upper.resolve(down(c.to_ascii_uppercase()), &km);
            assert_eq!(a, b, "{c:?} under {mods:?}");
            assert_eq!(lower.pending_count(), upper.pending_count());
            assert_eq!(lower.find_state(), upper.find_state());
        }
    }
}

#[test]
fn from_changes_applies_exactly_its_changes() {
    // "héllo wörld": é and ö are two bytes each.
    let text = "héllo wörld";
    let changes = vec![
        (0, 0, "<".to_string()),     // insert at the start
        (1, 3, "E".to_string()),     // replace "é"
        (6, 7, String::new()),       // delete the space
        (13, 13, ">".to_string()),   // insert at the end
    ];
    let cs = ChangeSet::from_changes(text.len(), &changes);
    let mut rope = ropey::Rope::from_str(text);
    assert!(cs.apply(&mut rope));
    assert_eq!(rope.to_string(), "<hEllowörld>");
    assert_eq!(cs.len_after(), "<hEllowörld>".len());
}

#[test]
fn an_identity_changeset_leaves_the_text_and_its_length() {
    let cs = ChangeSet {
        ops: vec![Op::Retain(1), Op::Insert(String::new()), Op::Retain(3)],
        len_before: 4,
    };
    assert!(cs.is_identity());
    assert_eq!(cs.len_after(), 4);
    let mut rope = ropey::Rope::from_str("aéb");
    assert!(cs.apply(&mut rope));
    assert_eq!(rope.to_string(), "aéb");
}

#[test]
fn every_byte_gets_its_innermost_capture() {
    let len = 20;
    let caps = vec![
        (0, 20, 1),  // the whole text
        (2, 9, 2),   // nested in it
        (4, 6, 3),   // nested deeper
        (4, 6, 4),   // same range, reported later: wins
        (8, 14, 5),  // overlaps the end of (2, 9)
        (16, 16, 6), // empty
    ];
    let spans = spans_from_captures(len, caps.clone());
    let mut sorted = caps.clone();
    sorted.sort_by_key(|&(start, end, _)| (start, std::cmp::Reverse(end)));
    for b in 0..len {
        let want = sorted
            .iter()
            .rev()
            .find(|&&(start, end, _)| start <= b && b < end)
            .map(|&(_, _, c)| c);
        let got = spans.iter().find(|s| s.range.start <= b && b < s.range.end).map(|s| s.capture);
        assert_eq!(got, want, "byte {b}");
    }
}

#[test]
fn mapping_positions_keeps_their_order() {
    let cs = ChangeSet::from_changes(10, &[(2, 4, "XYZ".to_string()), (6, 6, "Q".to_string()), (8, 10, String::new())]);
    for p in 0..=10 {
        for q in p..=10 {
            for assoc in [Assoc::Before, Assoc::After] {
                assert!(cs.map_pos(p, assoc) <= cs.map_pos(q, assoc));
                assert!(cs.map_pos(q, assoc) <= cs.len_after());
            }
        }
        assert!(cs.map_pos(p, Assoc::Before) <= cs.map_pos(p, Assoc::After));
    }
}

#[test]
fn from_changes_leaves_no_empty_or_mergeable_ops() {
    let cs = ChangeSet::from_changes(
        6,
        &[(0, 0, String::new()), (1, 2, String::new()), (2, 3, String::new()), (3, 3, "a".to_string()), (3, 3, "b".to_string())],
    );
    assert_eq!(cs.ops, vec![Op::Retain(1), Op::Delete(2), Op::Insert("ab".to_string()), Op::Retain(3)]);
    // 6 bytes, less the 2 deleted, plus the 2 inserted.
    assert_eq!(cs.len_after(), 6);
}

#[test]
fn two_allocated_ids_are_fresh_and_consecutive() {
    let mut b = Buffer::from_str("ab\ncd");
    let ids: Vec<usize> = b.resolved().iter().map(|s| s.id).collect();
    let a = b.alloc_id();
    let c = b.alloc_id();
    assert_eq!(c, a + 1);
    assert!(!ids.contains(&a) && !ids.contains(&c));
}

#[test]
fn normalizing_keeps_every_span_and_the_primary() {
    let mut old = vec![span(0, 7, 9), span(1, 1, 3), span(2, 2, 5), span(3, 12, 12), span(4, 5, 5)];
    old[0].reversed = true;
    old[0].goal = SelectionGoal::Column(4);
    old[1].goal = SelectionGoal::Column(2);
    let mut v = old.clone();
    let p = normalize(&mut v, 1);
    assert!(!v.is_empty() && v.len() <= old.len());
    for s in &old {
        assert!(v.iter().any(|n| n.start <= s.start && s.end <= n.end));
    }
    for n in &v {
        assert!(old.iter().any(|s| s.id == n.id && n.start <= s.start && s.end <= n.end));
        let kept = old.iter().any(|s| s == n);
        assert!(kept || (!n.reversed && n.goal == SelectionGoal::Unset));
    }
    // The reversed span with a goal absorbed nothing and is kept as it was.
    assert!(v.contains(&old[0]));
    // The primary names the merged span that contains its old span.
    let prim = v.iter().find(|n| n.id == p).expect("the primary survives");
    assert!(prim.start <= 1 && 3 <= prim.end);
    assert_eq!((prim.start, prim.end, prim.reversed, prim.goal), (1, 5, false, SelectionGoal::Unset));
}

#[test]
fn undo_reverts_each_edit_and_redo_puts_it_back() {
    let edits = vec![
        Action::InsertChar('x'),
        Action::InsertNewline,
        Action::InsertText("yz".to_string()),
        Action::InsertTexts(vec!["p".to_string(), "q".to_string()]),
        Action::DeleteBackward,
        Action::DeleteForward,
        Action::Cut,
    ];
    for a in edits {
        let mut b = Buffer::from_str("one two\nthree four");
        b.set_selections(vec![span(0, 2, 2), span(1, 9, 12)], 0);
        let mut h = History::new();
        let (t0, r0) = (b.text(), b.resolved());
        apply(a, &mut b, &mut h);
        let (t1, r1) = (b.text(), b.resolved());
        assert_ne!(t1, t0);
        apply(Action::Undo, &mut b, &mut h);
        assert_eq!((b.text(), b.resolved()), (t0, r0));
        apply(Action::Redo, &mut b, &mut h);
        assert_eq!((b.text(), b.resolved()), (t1, r1));
    }
}

#[test]
fn recording_an_edit_drops_redo_and_undo_steps_back_over_it() {
    let mut b = Buffer::from_str("abc");
    let mut h = History::new();
    apply(Action::InsertChar('X'), &mut b, &mut h);
    apply(Action::Undo, &mut b, &mut h);
    let before = b.selection.clone();
    let tx = b.edit(vec![(3..3, "!".to_string())]).expect("an edit");
    b.set_cursor(4);
    let after = b.selection.clone();
    h.record_edit(tx, before, after);
    assert!(!h.redo(&mut b));
    assert_eq!(b.text(), "abc!");
    assert_eq!(b.primary_resolved().head(), 4);
    assert!(h.undo(&mut b));
    assert_eq!(b.text(), "abc");
    assert_eq!(b.primary_resolved().head(), 0);
}

#[test]
fn touching_highlight_spans_carry_different_captures() {
    for text in ["fn main() { let x = 1; }", "", "struct A { b: u8 } // é\nimpl A {}", "\"ab\" 'c' 12 /* x */"] {
        let spans = highlight(text, Lang::Rust);
        for s in &spans {
            assert!(s.range.start < s.range.end && s.range.end <= text.len());
        }
        for w in spans.windows(2) {
            assert!(w[0].range.end <= w[1].range.start);
            if w[0].range.end == w[1].range.start {
                assert_ne!(w[0].capture, w[1].capture);
            }
        }
    }
}

#[test]
fn merged_spans_are_hulls_and_ids_stay_distinct() {
    let old = vec![span(0, 4, 6), span(1, 0, 2), span(2, 5, 9), span(3, 1, 3), span(4, 12, 14)];
    let mut v = old.clone();
    let p = normalize(&mut v, 2);
    assert_eq!(v.iter().map(|s| (s.start, s.end)).collect::<Vec<_>>(), vec![(0, 3), (4, 9), (12, 14)]);
    for n in &v {
        assert!(old.iter().any(|s| s.start == n.start && n.start <= s.start && s.end <= n.end));
        assert!(old.iter().any(|s| s.end == n.end && n.start <= s.start && s.end <= n.end));
    }
    for (i, a) in v.iter().enumerate() {
        for b in &v[i + 1..] {
            assert_ne!(a.id, b.id);
        }
    }
    assert_eq!(v.iter().filter(|n| n.id == p).count(), 1);
    assert!(v.contains(&old[4]));
}
