//! The executor: applies one [`Action`] to the [`Buffer`] (and [`History`]).
//!
//! An action reads the selections as char indices, does its math there, then
//! re-anchors; motions only move the selection and are not recorded in
//! history. Horizontal motion steps by **grapheme cluster**, vertical motion
//! keeps a **goal column** (in UTF-8 bytes) across short lines, and word motion
//! uses the three-class [`char_kind`](crate::char_kind) model. Every motion
//! clamps at the buffer edges.
//!
//! Multicursor: one edit builds a single sorted, non-overlapping edit list
//! over every selection, applies it once as one transaction, then re-places
//! each caret and merges overlaps — so one keystroke edits all cursors
//! atomically.

use vstd::prelude::*;

use crate::action::{Action, Direction, Expansion, Motion};
use crate::buffer::{anchor_all, chars_refused, next_tx_id, Buffer, TransactionId};
use crate::history::{consistent, lemma_recorded_consistent, lemma_undo_reverts_step, recorded_step, redo_step, undo_step, History, Step};
use crate::selection::{
    cursor_spec, lemma_find_id_range, lemma_normalize_bounds, normalize, normalize_primary, normalize_spec, normalized_seq,
    with_head, Selection, Selections,
};
use crate::text::{apply_edits, edited_len, edits_view, edits_wf, lemma_new_end_mono, new_end, prev_to};
use crate::expand::{expand, expand_spec};
use crate::find::{find_on_line, find_on_line_spec};
use crate::char_kind::{word_left, word_left_spec, word_right, word_right_spec};
use crate::clipboard::{copy_span, copy_span_of};
use crate::expand::{
    close_of, close_scan, enclosing_open, enclosing_open_spec, is_close, is_open, lemma_enclosing_open,
    lemma_matching_close, matching_close, matching_close_spec,
};
use crate::selection::SelectionGoal;
use crate::text::{
    byte_len, byte_offset, byte_offset_of, char_index_at_byte, char_is_whitespace, clip_byte, content_end,
    content_end_of, grapheme_left, grapheme_left_of, grapheme_right, grapheme_right_of, is_white_space,
    lemma_byte_offset_full, lemma_byte_offset_mono, lemma_clip_byte, lemma_line_end, lemma_line_end_same, lemma_line_start,
    line_end, line_end_of, line_start, line_start_of,
};

verus! {

/// What applying `action` does to the history and buffer `(h0, b0)`, giving
/// `(h1, b1)`.
pub open spec fn applied(action: Action, h0: History, b0: Buffer, h1: History, b1: Buffer) -> bool {
    let t = b0.chars@;
    let sels = b0.index_sels();
    let pid = b0.selection.primary_id;
    match action {
        Action::InsertChar(c) => typed(h0, b0, h1, b1, seq![c]),
        Action::InsertNewline => typed(h0, b0, h1, b1, seq!['\n']),
        Action::DeleteBackward => deleted(h0, b0, h1, b1, back_intervals(t, sels)),
        Action::DeleteForward => deleted(h0, b0, h1, b1, forward_intervals(t, sels)),
        Action::CollapseSelection => selections_moved(
            h0,
            b0,
            h1,
            b1,
            seq![cursor_spec(pid, b0.primary_index_sel().head_spec())],
            pid,
        ),
        Action::Move { motion, extend, count } => selections_moved(
            h0,
            b0,
            h1,
            b1,
            moved_sels(t, sels, motion, extend, count),
            pid,
        ),
        Action::MovePage { direction, extend, rows } => if rows > 0 && (direction == Direction::Up || direction
            == Direction::Down) {
            selections_moved(h0, b0, h1, b1, moved_sels(t, sels, Motion::Char(direction), extend, rows), pid)
        } else {
            unchanged(h0, b0, h1, b1)
        },
        Action::SpawnCursor(dir) => spawned(b0, b1, dir) && h1.undo_stack@ == h0.undo_stack@ && h1.redo_stack@
            == h0.redo_stack@,
        Action::SelectAll => selections_moved(
            h0,
            b0,
            h1,
            b1,
            seq![Selection { id: pid, start: 0, end: b0.chars.len(), reversed: false, goal: SelectionGoal::Unset }],
            pid,
        ),
        Action::Copy => unchanged(h0, b0, h1, b1),
        Action::Paste => unchanged(h0, b0, h1, b1),
        Action::Cut => deleted(h0, b0, h1, b1, cut_intervals(t, sels)),
        Action::Expand(kind) => expanded(h0, b0, h1, b1, kind),
        Action::FindChar { ch } => selections_moved(h0, b0, h1, b1, found_sels(t, sels, ch, true), pid),
        Action::FindRepeat { ch, forward } => selections_moved(h0, b0, h1, b1, found_sels(t, sels, ch, forward), pid),
        Action::Undo => undo_step(h0, b0, h1, b1, h0.undo_stack.len() > 0),
        Action::Redo => redo_step(h0, b0, h1, b1, h0.redo_stack.len() > 0),
        Action::InsertText(text) => typed(h0, b0, h1, b1, text@),
        Action::InsertTexts(texts) => pasted(h0, b0, h1, b1, texts@),
    }
}

/// Apply one action to the buffer, recording text edits and expansions in
/// `history`. The buffer stays valid and the history stays in lockstep with it.
pub fn apply(action: Action, buffer: &mut Buffer, history: &mut History)
    requires
        old(buffer).wf(),
        consistent(*old(history), *old(buffer)),
    ensures
        final(buffer).wf(),
        consistent(*final(history), *final(buffer)),
        applied(action, *old(history), *old(buffer), *final(history), *final(buffer)),
{
    match action {
        Action::InsertChar(c) => {
            let mut v: Vec<char> = Vec::new();
            v.push(c);
            proof {
                assert(v@ =~= seq![c]);
            }
            insert_text(buffer, history, &v);
        },
        Action::InsertNewline => {
            let mut v: Vec<char> = Vec::new();
            v.push('\n');
            proof {
                assert(v@ =~= seq!['\n']);
            }
            insert_text(buffer, history, &v);
        },
        Action::DeleteBackward => delete_backward(buffer, history),
        Action::DeleteForward => delete_forward(buffer, history),
        Action::CollapseSelection => collapse(buffer),
        Action::Move { motion, extend, count } => move_all(buffer, motion, extend, count),
        Action::MovePage { direction, extend, rows } => move_page(buffer, direction, extend, rows),
        Action::SpawnCursor(dir) => spawn_cursor(buffer, dir),
        Action::SelectAll => select_all(buffer),
        Action::Copy | Action::Paste => {},
        Action::Cut => cut(buffer, history),
        Action::Expand(kind) => expand_primary(buffer, history, kind),
        Action::FindChar { ch } => find_move(buffer, ch, true),
        Action::FindRepeat { ch, forward } => find_move(buffer, ch, forward),
        Action::Undo => {
            history.undo(buffer);
        },
        Action::Redo => {
            history.redo(buffer);
        },
        Action::InsertText(text) => {
            let v = crate::text::str_to_chars(text.as_str());
            insert_text(buffer, history, &v);
        },
        Action::InsertTexts(texts) => insert_texts(buffer, history, texts),
    }
}

// ---------------------------------------------------------------------------
// Mapping a caret through an edit list.
// ---------------------------------------------------------------------------

/// Where old char index `p` lands after the edits, scanning from edit `k`,
/// associating to the right: past the text inserted at `p` (also by edits
/// that start where an earlier one ends), and inside a replaced range at the
/// end of its replacement.
pub open spec fn shift_from(es: Seq<(int, int, Seq<char>)>, p: int, k: int) -> int
    decreases es.len() - k,
{
    let base_old = prev_to(es, k);
    let base_new = new_end(es, k - 1);
    if k < 0 || k >= es.len() {
        base_new + (p - base_old)
    } else if p < es[k].0 {
        base_new + (p - base_old)
    } else if p >= es[k].1 {
        shift_from(es, p, k + 1)
    } else {
        new_end(es, k)
    }
}

/// Where old char index `p` lands after the edits (right-associating).
pub open spec fn shift_index(es: Seq<(int, int, Seq<char>)>, p: int) -> int {
    shift_from(es, p, 0)
}

/// A shifted caret stays between the boundary it scans from and the edited
/// text's end.
pub proof fn lemma_shift_from(es: Seq<(int, int, Seq<char>)>, len: int, p: int, k: int)
    requires
        edits_wf(es, len),
        0 <= k <= es.len(),
        prev_to(es, k) <= p <= len,
    ensures
        new_end(es, k - 1) <= shift_from(es, p, k) <= edited_len(es, len),
    decreases es.len() - k,
{
    let n = es.len() as int;
    lemma_new_end_mono(es, len, k - 1, n - 1);
    if k < n {
        lemma_new_end_mono(es, len, k, n - 1);
        if p < es[k].0 {
        } else if p >= es[k].1 {
            lemma_shift_from(es, len, p, k + 1);
            lemma_new_end_mono(es, len, k - 1, k);
        }
        if n > 0 {
            assert(es[n - 1].1 <= len);
            if k < n - 1 {
                assert(es[k].1 <= es[n - 1].0);
            }
        }
    }
}

/// Map an old char index through a sorted, non-overlapping edit list,
/// associating to the right.
fn map_offset(es: &Vec<(usize, usize, Vec<char>)>, len: usize, p: usize) -> (r: usize)
    requires
        edits_wf(edits_view(es@), len as int),
        p <= len,
        edited_len(edits_view(es@), len as int) <= usize::MAX,
    ensures
        r == shift_index(edits_view(es@), p as int),
        r <= edited_len(edits_view(es@), len as int),
{
    let ghost ev = edits_view(es@);
    let n = es.len();
    let mut base_old: usize = 0;
    let mut base_new: usize = 0;
    let mut k: usize = 0;
    proof {
        lemma_shift_from(ev, len as int, p as int, 0);
    }
    while k < n
        invariant
            n == es.len(),
            ev == edits_view(es@),
            ev.len() == n,
            edits_wf(ev, len as int),
            p <= len,
            edited_len(ev, len as int) <= usize::MAX,
            k <= n,
            base_old == prev_to(ev, k as int),
            base_new == new_end(ev, k as int - 1),
            base_old <= p,
            shift_from(ev, p as int, k as int) == shift_from(ev, p as int, 0),
        decreases n - k,
    {
        let f = es[k].0;
        let to = es[k].1;
        proof {
            assert(ev[k as int] == (f as int, to as int, es@[k as int].2@));
            if k > 0 {
                assert(ev[k as int - 1].1 <= ev[k as int].0);
            }
            lemma_new_end_mono(ev, len as int, k as int, n as int - 1);
            lemma_new_end_mono(ev, len as int, k as int - 1, k as int);
            assert(ev[n as int - 1].1 <= len);
            if k < n - 1 {
                assert(ev[k as int].1 <= ev[n as int - 1].0);
            }
            lemma_shift_from(ev, len as int, p as int, k as int);
        }
        let end_k = base_new + (f - base_old) + es[k].2.len();
        if p < f {
            return base_new + (p - base_old);
        } else if p < to {
            return end_k;
        }
        base_old = to;
        base_new = end_k;
        k = k + 1;
    }
    proof {
        if n > 0 {
            assert(ev[n as int - 1].1 <= len);
        }
    }
    base_new + (p - base_old)
}

// ---------------------------------------------------------------------------
// Motions — functions of the text, char index in / char index out, clamped.
// ---------------------------------------------------------------------------

/// The byte column of char index `i` on its line.
pub open spec fn col_bytes(t: Seq<char>, i: int) -> int {
    byte_offset(t, i) - byte_offset(t, line_start(t, i))
}

/// A byte column as a goal (saturating at the largest goal).
pub open spec fn to_goal(c: int) -> u32 {
    if c > u32::MAX {
        u32::MAX
    } else {
        c as u32
    }
}

/// One row up/down keeping the goal column: land at `min(goal, target line
/// length)` (in bytes, clipped leftward onto a char), and carry the un-clamped
/// goal so a later longer line restores the column. The goal is seeded from the
/// current column when absent. At the first/last line the head and goal stay.
pub open spec fn vertical_goal_spec(t: Seq<char>, head: int, goal: Option<u32>, up: bool) -> (int, Option<u32>) {
    let ls = line_start(t, head);
    let le = line_end(t, head);
    if (up && ls == 0) || (!up && le >= t.len()) {
        (head, goal)
    } else {
        let tl = if up { ls - 1 } else { le + 1 };
        let tls = line_start(t, tl);
        let tce = content_end(t, tl);
        let g = match goal {
            Some(g) => g,
            None => to_goal(col_bytes(t, head)),
        };
        let width = byte_offset(t, tce) - byte_offset(t, tls);
        let col = if g < width { g as int } else { width };
        (clip_byte(t, byte_offset(t, tls) + col), Some(g))
    }
}

/// Vertical motion `n` times, threading the goal; stops at the first/last line.
pub open spec fn vertical_run_spec(t: Seq<char>, head: int, goal: Option<u32>, n: nat, up: bool) -> (int, Option<u32>)
    decreases n,
{
    if n == 0 {
        (head, goal)
    } else {
        let (next, ng) = vertical_goal_spec(t, head, goal, up);
        if next == head {
            (head, goal)
        } else {
            vertical_run_spec(t, next, ng, (n - 1) as nat, up)
        }
    }
}

/// The line (by its start) after the line starting at `ls`; past the end when
/// there is none.
pub open spec fn next_line(t: Seq<char>, ls: int) -> int {
    let le = line_end(t, ls);
    if le < t.len() {
        le + 1
    } else {
        t.len() + 1int
    }
}

/// A line start the user can land on: not past the text, and not the phantom
/// empty line after a trailing newline.
pub open spec fn navigable(t: Seq<char>, ls: int) -> bool {
    ls < t.len() || ls == 0
}

/// The line starting at `ls` is empty or all whitespace.
pub open spec fn is_blank_line(t: Seq<char>, ls: int) -> bool {
    forall|k: int| ls <= k < line_end(t, ls) ==> is_white_space(#[trigger] t[k])
}

/// Skip upward over lines whose blankness is `blank`, from the line at `ls`.
pub open spec fn skip_up(t: Seq<char>, ls: int, blank: bool) -> int
    decreases ls,
{
    if 0 < ls <= t.len() && is_blank_line(t, ls) == blank {
        proof {
            lemma_line_start(t, ls - 1);
        }
        skip_up(t, line_start(t, ls - 1), blank)
    } else {
        ls
    }
}

/// Skip downward over navigable lines whose blankness is `blank`.
pub open spec fn skip_down(t: Seq<char>, ls: int, blank: bool) -> int
    decreases t.len() + 1 - ls,
{
    if 0 <= ls <= t.len() && navigable(t, ls) && is_blank_line(t, ls) == blank {
        proof {
            lemma_line_end(t, ls);
        }
        skip_down(t, next_line(t, ls), blank)
    } else {
        ls
    }
}

/// `[` / `]`: the start of the previous/next blank line past the current
/// paragraph; the head stays when there is none.
pub open spec fn blank_line_spec(t: Seq<char>, head: int, up: bool) -> int {
    let cur = line_start(t, head);
    if up {
        let j = skip_up(t, skip_up(t, cur, true), false);
        if is_blank_line(t, j) {
            j
        } else {
            head
        }
    } else {
        let j = skip_down(t, skip_down(t, cur, true), false);
        if 0 <= j <= t.len() && navigable(t, j) {
            j
        } else {
            head
        }
    }
}

/// Scanning left from `i` (exclusive) with `depth` unmatched closers `cc`:
/// where the opener `oc` closed at the scan start opens.
pub open spec fn open_for_scan(t: Seq<char>, i: int, depth: int, oc: char, cc: char) -> Option<int>
    decreases i,
{
    if i <= 0 || i > t.len() {
        None
    } else if t[i - 1] == cc {
        open_for_scan(t, i - 1, depth + 1, oc, cc)
    } else if t[i - 1] == oc {
        if depth - 1 == 0 {
            Some(i - 1)
        } else {
            open_for_scan(t, i - 1, depth - 1, oc, cc)
        }
    } else {
        open_for_scan(t, i - 1, depth, oc, cc)
    }
}

/// The opener of a closing bracket.
pub open spec fn open_of(c: char) -> char {
    if c == ')' {
        '('
    } else if c == ']' {
        '['
    } else {
        '{'
    }
}

/// The matching open for the closing bracket at `close`.
pub open spec fn open_for_spec(t: Seq<char>, close: int) -> Option<int> {
    if 0 <= close < t.len() && is_close(t[close]) {
        open_for_scan(t, close + 1, 0, open_of(t[close]), t[close])
    } else {
        None
    }
}

/// `R`: from a bracket to its partner; from inside a pair (not on a
/// delimiter) to the enclosing pair's close. `None` with no bracket to act on.
pub open spec fn matching_bracket_spec(t: Seq<char>, head: int) -> Option<int> {
    if 0 <= head < t.len() && is_open(t[head]) {
        matching_close_spec(t, head)
    } else if 0 <= head < t.len() && is_close(t[head]) {
        open_for_spec(t, head)
    } else {
        match enclosing_open_spec(t, head) {
            Some(op) => matching_close_spec(t, op),
            None => None,
        }
    }
}

/// One application of `motion` to `head`.
pub open spec fn step_spec(t: Seq<char>, head: int, motion: Motion) -> int {
    match motion {
        Motion::Char(Direction::Left) => grapheme_left(t, head),
        Motion::Char(Direction::Right) => grapheme_right(t, head),
        Motion::Char(Direction::Up) => vertical_goal_spec(t, head, None, true).0,
        Motion::Char(Direction::Down) => vertical_goal_spec(t, head, None, false).0,
        Motion::WordStart(Direction::Right) => word_right_spec(t, head),
        Motion::WordStart(Direction::Left) => word_left_spec(t, head),
        Motion::LineEdge(Direction::Left) => line_start(t, head),
        Motion::LineEdge(Direction::Right) => content_end(t, head),
        Motion::BlankLine(Direction::Up) => blank_line_spec(t, head, true),
        Motion::BlankLine(Direction::Down) => blank_line_spec(t, head, false),
        Motion::MatchingBracket => match matching_bracket_spec(t, head) {
            Some(p) => p,
            None => head,
        },
        // The keymap never produces these direction/motion combinations.
        _ => head,
    }
}

/// `motion` applied up to `n` times, stopping once it makes no progress.
pub open spec fn move_run(t: Seq<char>, head: int, motion: Motion, n: nat) -> int
    decreases n,
{
    if n == 0 {
        head
    } else {
        let next = step_spec(t, head, motion);
        if next == head {
            head
        } else {
            move_run(t, next, motion, (n - 1) as nat)
        }
    }
}

/// `motion` applied `count` times (at least once); a matching-bracket jump
/// always runs exactly once, since repeating it would oscillate.
pub open spec fn move_head_spec(t: Seq<char>, head: int, motion: Motion, count: usize) -> int {
    let reps: nat = if motion == Motion::MatchingBracket {
        1
    } else if count >= 1 {
        count as nat
    } else {
        1
    };
    move_run(t, head, motion, reps)
}

/// A motion's new head and goal: vertical motion keeps the goal column; every
/// other motion clears it.
pub open spec fn move_range_head_spec(t: Seq<char>, head: int, goal: SelectionGoal, motion: Motion, count: usize) -> (
    int,
    SelectionGoal,
) {
    match motion {
        Motion::Char(Direction::Up) => {
            let n: nat = if count >= 1 { count as nat } else { 1 };
            let (h, g) = vertical_run_spec(t, head, crate::selection::goal_column(goal), n, true);
            (h, crate::selection::goal_from_column(g))
        },
        Motion::Char(Direction::Down) => {
            let n: nat = if count >= 1 { count as nat } else { 1 };
            let (h, g) = vertical_run_spec(t, head, crate::selection::goal_column(goal), n, false);
            (h, crate::selection::goal_from_column(g))
        },
        _ => (move_head_spec(t, head, motion, count), SelectionGoal::Unset),
    }
}

proof fn lemma_vertical_goal(t: Seq<char>, head: int, goal: Option<u32>, up: bool)
    requires
        0 <= head <= t.len(),
    ensures
        0 <= vertical_goal_spec(t, head, goal, up).0 <= t.len(),
{
    lemma_line_start(t, head);
    lemma_line_end(t, head);
    let ls = line_start(t, head);
    let le = line_end(t, head);
    if !((up && ls == 0) || (!up && le >= t.len())) {
        let tl = if up { ls - 1 } else { le + 1 };
        lemma_line_start(t, tl);
        lemma_line_end(t, tl);
        let tls = line_start(t, tl);
        let tce = content_end(t, tl);
        lemma_byte_offset_mono(t, tls, tce);
        let g = match goal {
            Some(g) => g,
            None => to_goal(col_bytes(t, head)),
        };
        let width = byte_offset(t, tce) - byte_offset(t, tls);
        let col = if g < width { g as int } else { width };
        lemma_clip_byte(t, byte_offset(t, tls) + col);
    }
}

proof fn lemma_vertical_run(t: Seq<char>, head: int, goal: Option<u32>, n: nat, up: bool)
    requires
        0 <= head <= t.len(),
    ensures
        0 <= vertical_run_spec(t, head, goal, n, up).0 <= t.len(),
    decreases n,
{
    if n > 0 {
        lemma_vertical_goal(t, head, goal, up);
        let (next, ng) = vertical_goal_spec(t, head, goal, up);
        lemma_vertical_run(t, next, ng, (n - 1) as nat, up);
    }
}

/// One row up/down keeping the goal column.
fn vertical_goal(t: &Vec<char>, head: usize, goal: Option<u32>, up: bool) -> (r: (usize, Option<u32>))
    requires
        head <= t.len(),
        byte_len(t@) <= usize::MAX,
    ensures
        (r.0 as int, r.1) == vertical_goal_spec(t@, head as int, goal, up),
        r.0 <= t.len(),
{
    proof {
        lemma_vertical_goal(t@, head as int, goal, up);
        lemma_line_start(t@, head as int);
        lemma_line_end(t@, head as int);
        lemma_byte_offset_full(t@);
    }
    let ls = line_start_of(t, head);
    let le = line_end_of(t, head);
    if (up && ls == 0) || (!up && le >= t.len()) {
        return (head, goal);
    }
    let tl = if up { ls - 1 } else { le + 1 };
    proof {
        lemma_line_start(t@, tl as int);
        lemma_line_end(t@, tl as int);
        lemma_byte_offset_mono(t@, line_start(t@, tl as int), content_end(t@, tl as int));
        lemma_byte_offset_mono(t@, line_start(t@, head as int), head as int);
        lemma_byte_offset_mono(t@, content_end(t@, tl as int), t.len() as int);
        lemma_byte_offset_mono(t@, head as int, t.len() as int);
    }
    let tls = line_start_of(t, tl);
    let tce = content_end_of(t, tl);
    let g = match goal {
        Some(g) => g,
        None => {
            let c = byte_offset_of(t, head) - byte_offset_of(t, ls);
            if c > 0xffff_ffffusize {
                0xffff_ffffu32
            } else {
                c as u32
            }
        },
    };
    let base = byte_offset_of(t, tls);
    let width = byte_offset_of(t, tce) - base;
    let col = if (g as usize) < width { g as usize } else { width };
    (char_index_at_byte(t, base + col), Some(g))
}

/// Run vertical motion `count` times (at least once), threading the goal.
fn vertical_run(t: &Vec<char>, head: usize, goal: Option<u32>, count: usize, up: bool) -> (r: (usize, Option<u32>))
    requires
        head <= t.len(),
        byte_len(t@) <= usize::MAX,
    ensures
        (r.0 as int, r.1) == vertical_run_spec(t@, head as int, goal, if count >= 1 { count as nat } else { 1 }, up),
        r.0 <= t.len(),
{
    let reps: usize = if count >= 1 { count } else { 1 };
    let ghost n0: nat = reps as nat;
    let mut h = head;
    let mut g = goal;
    let mut i: usize = 0;
    while i < reps
        invariant
            i <= reps,
            n0 == reps,
            n0 == (if count >= 1 { count as nat } else { 1 }),
            h <= t.len(),
            byte_len(t@) <= usize::MAX,
            vertical_run_spec(t@, h as int, g, (reps - i) as nat, up) == vertical_run_spec(
                t@,
                head as int,
                goal,
                n0,
                up,
            ),
        decreases reps - i,
    {
        let (next, ng) = vertical_goal(t, h, g, up);
        if next == h {
            return (h, g);
        }
        h = next;
        g = ng;
        i = i + 1;
    }
    (h, g)
}

/// The line starting at `ls` is empty or all whitespace.
fn is_blank(t: &Vec<char>, ls: usize) -> (r: bool)
    requires
        ls <= t.len(),
    ensures
        r == is_blank_line(t@, ls as int),
{
    let le = line_end_of(t, ls);
    proof {
        lemma_line_end(t@, ls as int);
    }
    let mut k = ls;
    while k < le
        invariant
            ls <= k <= le <= t.len(),
            le == line_end(t@, ls as int),
            forall|m: int| ls <= m < k ==> is_white_space(#[trigger] t@[m]),
        decreases le - k,
    {
        if !char_is_whitespace(t[k]) {
            return false;
        }
        k = k + 1;
    }
    true
}

/// `[` / `]`: leap to the previous/next blank line.
fn blank_line(t: &Vec<char>, head: usize, up: bool) -> (r: usize)
    requires
        head <= t.len(),
    ensures
        r == blank_line_spec(t@, head as int, up),
        r <= t.len(),
{
    proof {
        lemma_line_start(t@, head as int);
    }
    let cur = line_start_of(t, head);
    if up {
        let mut j = cur;
        while j > 0 && is_blank(t, j)
            invariant
                j <= t.len(),
                skip_up(t@, j as int, true) == skip_up(t@, cur as int, true),
            decreases j,
        {
            proof {
                lemma_line_start(t@, j - 1);
            }
            j = line_start_of(t, j - 1);
        }
        let ghost j1 = j;
        while j > 0 && !is_blank(t, j)
            invariant
                j <= t.len(),
                skip_up(t@, j as int, false) == skip_up(t@, j1 as int, false),
            decreases j,
        {
            proof {
                lemma_line_start(t@, j - 1);
            }
            j = line_start_of(t, j - 1);
        }
        if is_blank(t, j) {
            j
        } else {
            head
        }
    } else {
        // `past` stands for the position after the last line.
        let n = t.len();
        let mut j = cur;
        let mut past = false;
        while !past && (j < n || j == 0) && is_blank(t, j)
            invariant
                n == t.len(),
                j <= n,
                skip_down(t@, if past { n + 1 } else { j as int }, true) == skip_down(t@, cur as int, true),
            decreases n + 1 - (if past { n + 1 } else { j as int }),
        {
            proof {
                lemma_line_end(t@, j as int);
            }
            let le = line_end_of(t, j);
            if le < n {
                j = le + 1;
            } else {
                past = true;
            }
        }
        let ghost j1 = if past { n + 1 } else { j as int };
        while !past && (j < n || j == 0) && !is_blank(t, j)
            invariant
                n == t.len(),
                j <= n,
                skip_down(t@, if past { n + 1 } else { j as int }, false) == skip_down(t@, j1, false),
            decreases n + 1 - (if past { n + 1 } else { j as int }),
        {
            proof {
                lemma_line_end(t@, j as int);
            }
            let le = line_end_of(t, j);
            if le < n {
                j = le + 1;
            } else {
                past = true;
            }
        }
        if !past && (j < n || j == 0) {
            j
        } else {
            head
        }
    }
}

proof fn lemma_open_for_scan(t: Seq<char>, i: int, depth: int, oc: char, cc: char)
    requires
        0 <= i <= t.len(),
    ensures
        open_for_scan(t, i, depth, oc, cc) matches Some(op) ==> 0 <= op < i,
    decreases i,
{
    if i > 0 {
        lemma_open_for_scan(t, i - 1, depth + 1, oc, cc);
        lemma_open_for_scan(t, i - 1, depth - 1, oc, cc);
        lemma_open_for_scan(t, i - 1, depth, oc, cc);
    }
}

/// A bracket partner lies inside the text.
proof fn lemma_matching_bracket(t: Seq<char>, head: int)
    requires
        0 <= head <= t.len(),
    ensures
        matching_bracket_spec(t, head) matches Some(p) ==> 0 <= p < t.len(),
{
    lemma_matching_close(t, head);
    lemma_enclosing_open(t, head);
    if 0 <= head < t.len() && is_close(t[head]) {
        lemma_open_for_scan(t, head + 1, 0, open_of(t[head]), t[head]);
    }
    match enclosing_open_spec(t, head) {
        Some(op) => lemma_matching_close(t, op),
        None => {},
    }
}

/// How far `c` moves the nesting depth of `oc`/`cc` pairs: up one for an
/// opener, down one for a closer.
pub open spec fn bracket_delta(c: char, oc: char, cc: char) -> int {
    if c == oc {
        1
    } else if c == cc {
        -1
    } else {
        0
    }
}

/// Openers minus closers in `t[a..b)`.
pub open spec fn bracket_balance(t: Seq<char>, a: int, b: int, oc: char, cc: char) -> int
    decreases b - a,
{
    if b <= a {
        0
    } else {
        bracket_balance(t, a, b - 1, oc, cc) + bracket_delta(t[b - 1], oc, cc)
    }
}

proof fn lemma_balance_split(t: Seq<char>, a: int, m: int, b: int, oc: char, cc: char)
    requires
        a <= m <= b,
    ensures
        bracket_balance(t, a, b, oc, cc) == bracket_balance(t, a, m, oc, cc) + bracket_balance(t, m, b, oc, cc),
    decreases b - m,
{
    if m < b {
        lemma_balance_split(t, a, m, b - 1, oc, cc);
    }
}

/// What a forward scan that returns `c` has seen: `c` closes the scan's
/// depth, which stays positive before it.
proof fn lemma_close_scan_found(t: Seq<char>, i: int, d: int, oc: char, cc: char)
    requires
        0 <= i,
        0 <= d,
        oc != cc,
        d >= 1 || (i < t.len() && t[i] == oc),
    ensures
        close_scan(t, i, d, oc, cc) matches Some(c) ==> {
            &&& i <= c < t.len()
            &&& t[c] == cc
            &&& d + bracket_balance(t, i, c + 1, oc, cc) == 0
            &&& forall|j: int| i < j <= c ==> d + #[trigger] bracket_balance(t, i, j, oc, cc) >= 1
        },
    decreases t.len() - i,
{
    if 0 <= i < t.len() {
        let nd = d + bracket_delta(t[i], oc, cc);
        if !(t[i] == cc && d - 1 == 0) {
            lemma_close_scan_found(t, i + 1, nd, oc, cc);
        }
        match close_scan(t, i, d, oc, cc) {
            Some(c) => {
                assert(bracket_balance(t, i, i, oc, cc) == 0);
                assert(bracket_balance(t, i, i + 1, oc, cc) == bracket_delta(t[i], oc, cc));
                lemma_balance_split(t, i, i + 1, c + 1, oc, cc);
                assert forall|j: int| i < j <= c implies d + #[trigger] bracket_balance(t, i, j, oc, cc) >= 1 by {
                    lemma_balance_split(t, i, i + 1, j, oc, cc);
                }
            },
            None => {},
        }
    }
}

/// A backward scan from `i` finds the opener at `lo` when the depth after
/// every char strictly between stays positive and reaches zero at `lo`.
proof fn lemma_open_for_scan_finds(t: Seq<char>, lo: int, i: int, d: int, oc: char, cc: char)
    requires
        0 <= lo < i <= t.len(),
        t[lo] == oc,
        oc != cc,
        d - bracket_balance(t, lo, i, oc, cc) == 0,
        forall|k: int| lo < k < i ==> d - #[trigger] bracket_balance(t, k, i, oc, cc) >= 1,
    ensures
        open_for_scan(t, i, d, oc, cc) == Some(lo),
    decreases i - lo,
{
    let c = t[i - 1];
    let nd = d - bracket_delta(c, oc, cc);
    if i - 1 > lo {
        assert(d - bracket_balance(t, i - 1, i, oc, cc) >= 1);
        assert(bracket_balance(t, i - 1, i - 1, oc, cc) == 0);
        assert forall|k: int| lo < k < i - 1 implies nd - #[trigger] bracket_balance(t, k, i - 1, oc, cc) >= 1 by {
            assert(d - bracket_balance(t, k, i, oc, cc) >= 1);
        }
        lemma_open_for_scan_finds(t, lo, i - 1, nd, oc, cc);
    } else {
        assert(bracket_balance(t, lo, lo, oc, cc) == 0);
    }
}

/// What a backward scan that returns `o` has seen: `o` opens the scan's
/// depth, which stays positive after it.
proof fn lemma_open_for_scan_found(t: Seq<char>, i: int, d: int, oc: char, cc: char)
    requires
        i <= t.len(),
        0 <= d,
        oc != cc,
        d >= 1 || (0 < i && t[i - 1] == cc),
    ensures
        open_for_scan(t, i, d, oc, cc) matches Some(o) ==> {
            &&& 0 <= o < i
            &&& t[o] == oc
            &&& d - bracket_balance(t, o, i, oc, cc) == 0
            &&& forall|k: int| o < k < i ==> d - #[trigger] bracket_balance(t, k, i, oc, cc) >= 1
        },
    decreases i,
{
    if 0 < i {
        let c = t[i - 1];
        let nd = d - bracket_delta(c, oc, cc);
        if !(c == oc && d - 1 == 0) && c != cc {
            lemma_open_for_scan_found(t, i - 1, nd, oc, cc);
        } else if c == cc {
            lemma_open_for_scan_found(t, i - 1, nd, oc, cc);
        }
        match open_for_scan(t, i, d, oc, cc) {
            Some(o) => {
                assert(bracket_balance(t, i - 1, i - 1, oc, cc) == 0);
                assert forall|k: int| o < k < i implies d - #[trigger] bracket_balance(t, k, i, oc, cc) >= 1 by {
                    if k < i - 1 {
                        assert(nd - bracket_balance(t, k, i - 1, oc, cc) >= 1);
                    }
                }
            },
            None => {},
        }
    }
}

/// A forward scan from `i` finds the closer at `c` when the depth after every
/// char before it stays positive and reaches zero at `c`.
proof fn lemma_close_scan_finds(t: Seq<char>, i: int, c: int, d: int, oc: char, cc: char)
    requires
        0 <= i <= c < t.len(),
        t[c] == cc,
        oc != cc,
        d + bracket_balance(t, i, c + 1, oc, cc) == 0,
        forall|j: int| i <= j < c ==> d + #[trigger] bracket_balance(t, i, j + 1, oc, cc) >= 1,
    ensures
        close_scan(t, i, d, oc, cc) == Some(c),
    decreases c - i,
{
    let nd = d + bracket_delta(t[i], oc, cc);
    assert(bracket_balance(t, i, i, oc, cc) == 0);
    if i < c {
        assert(d + bracket_balance(t, i, i + 1, oc, cc) >= 1);
        lemma_balance_split(t, i, i + 1, c + 1, oc, cc);
        assert forall|j: int| i + 1 <= j < c implies nd + #[trigger] bracket_balance(t, i + 1, j + 1, oc, cc) >= 1 by {
            lemma_balance_split(t, i, i + 1, j + 1, oc, cc);
            assert(d + bracket_balance(t, i, j + 1, oc, cc) >= 1);
        }
        lemma_close_scan_finds(t, i + 1, c, nd, oc, cc);
    }
}

/// Two jumps return to `head` when the first lands on `p` and the jump from
/// `p` leads back (or neither moves).
proof fn lemma_jump_back(t: Seq<char>, head: int, p: int, n: usize, m: usize)
    requires
        step_spec(t, head, Motion::MatchingBracket) == p,
        step_spec(t, p, Motion::MatchingBracket) == head,
    ensures
        move_head_spec(t, move_head_spec(t, head, Motion::MatchingBracket, n), Motion::MatchingBracket, m) == head,
{
    assert(move_run(t, p, Motion::MatchingBracket, 0) == p);
    assert(move_run(t, head, Motion::MatchingBracket, 0) == head);
    assert(move_head_spec(t, head, Motion::MatchingBracket, n) == move_run(t, head, Motion::MatchingBracket, 1));
    assert(move_head_spec(t, p, Motion::MatchingBracket, m) == move_run(t, p, Motion::MatchingBracket, 1));
}

/// The matching-bracket jump is an involution: from a bracket that has a
/// partner, jumping twice lands back on it (a bracket without one stays put),
/// whatever the repeat counts.
pub proof fn lemma_matching_bracket_involution(t: Seq<char>, head: int, n: usize, m: usize)
    requires
        0 <= head < t.len(),
        is_open(t[head]) || is_close(t[head]),
    ensures
        move_head_spec(t, move_head_spec(t, head, Motion::MatchingBracket, n), Motion::MatchingBracket, m) == head,
{
    let c0 = t[head];
    if is_open(c0) {
        let cc = close_of(c0);
        match matching_close_spec(t, head) {
            Some(c) => {
                lemma_close_scan_found(t, head, 0, c0, cc);
                assert(is_close(t[c]));
                assert(open_of(t[c]) == c0);
                assert forall|k: int| head < k < c + 1 implies 0 - #[trigger] bracket_balance(t, k, c + 1, c0, cc) >= 1 by {
                    lemma_balance_split(t, head, k, c + 1, c0, cc);
                    assert(0 + bracket_balance(t, head, k, c0, cc) >= 1);
                }
                lemma_open_for_scan_finds(t, head, c + 1, 0, c0, cc);
                assert(matching_bracket_spec(t, c) == Some(head));
                lemma_jump_back(t, head, c, n, m);
            },
            None => {
                lemma_jump_back(t, head, head, n, m);
            },
        }
    } else {
        let oc = open_of(c0);
        match open_for_spec(t, head) {
            Some(o) => {
                lemma_open_for_scan_found(t, head + 1, 0, oc, c0);
                assert(is_open(t[o]));
                assert(close_of(t[o]) == c0);
                assert forall|j: int| o <= j < head implies 0 + #[trigger] bracket_balance(t, o, j + 1, oc, c0) >= 1 by {
                    lemma_balance_split(t, o, j + 1, head + 1, oc, c0);
                    assert(0 - bracket_balance(t, j + 1, head + 1, oc, c0) >= 1);
                }
                lemma_close_scan_finds(t, o, head, 0, oc, c0);
                assert(matching_bracket_spec(t, o) == Some(head));
                lemma_jump_back(t, head, o, n, m);
            },
            None => {
                lemma_jump_back(t, head, head, n, m);
            },
        }
    }
}

/// The matching open for the closing bracket at `close` (else `None`).
fn open_for(t: &Vec<char>, close: usize) -> (r: Option<usize>)
    requires
        close <= t.len(),
    ensures
        match r {
            Some(op) => open_for_spec(t@, close as int) == Some(op as int),
            None => open_for_spec(t@, close as int) is None,
        },
{
    if close >= t.len() {
        return None;
    }
    let cc = t[close];
    let oc = if cc == ')' {
        '('
    } else if cc == ']' {
        '['
    } else if cc == '}' {
        '{'
    } else {
        return None;
    };
    // Scan left from (and including) the closing bracket.
    let mut depth: usize = 0;
    let mut i = close + 1;
    while i > 0
        invariant
            i <= close + 1 <= t.len(),
            depth <= close + 1 - i,
            i == close + 1 || depth >= 1,
            cc == t@[close as int],
            is_close(cc),
            oc == open_of(cc),
            open_for_scan(t@, i as int, depth as int, oc, cc) == open_for_spec(t@, close as int),
        decreases i,
    {
        let c = t[i - 1];
        if c == cc {
            depth = depth + 1;
        } else if c == oc {
            if depth == 1 {
                return Some(i - 1);
            }
            depth = depth - 1;
        }
        i = i - 1;
    }
    None
}

/// `R`: jump from a bracket at `head` to its partner; from inside a pair (not
/// on a delimiter) to the enclosing pair's close. Nesting-aware, across lines.
fn matching_bracket(t: &Vec<char>, head: usize) -> (r: Option<usize>)
    requires
        head <= t.len(),
    ensures
        match r {
            Some(p) => matching_bracket_spec(t@, head as int) == Some(p as int) && p < t.len(),
            None => matching_bracket_spec(t@, head as int) is None,
        },
{
    proof {
        lemma_matching_bracket(t@, head as int);
    }
    if head < t.len() {
        let here = t[head];
        if here == '(' || here == '[' || here == '{' {
            return matching_close(t, head);
        }
        if here == ')' || here == ']' || here == '}' {
            return open_for(t, head);
        }
    }
    // Not on a delimiter: jump to the close of the pair that encloses `head`.
    proof {
        lemma_enclosing_open(t@, head as int);
    }
    match enclosing_open(t, head) {
        Some(op) => matching_close(t, op),
        None => None,
    }
}

/// One step of `motion` from `head`.
fn step(t: &Vec<char>, head: usize, motion: Motion) -> (r: usize)
    requires
        head <= t.len(),
        byte_len(t@) <= usize::MAX,
    ensures
        r == step_spec(t@, head as int, motion),
        r <= t.len(),
{
    proof {
        lemma_line_start(t@, head as int);
        lemma_line_end(t@, head as int);
    }
    match motion {
        Motion::Char(Direction::Left) => grapheme_left_of(t, head),
        Motion::Char(Direction::Right) => grapheme_right_of(t, head),
        Motion::Char(Direction::Up) => vertical_goal(t, head, None, true).0,
        Motion::Char(Direction::Down) => vertical_goal(t, head, None, false).0,
        Motion::WordStart(Direction::Right) => word_right(t, head),
        Motion::WordStart(Direction::Left) => word_left(t, head),
        Motion::LineEdge(Direction::Left) => line_start_of(t, head),
        Motion::LineEdge(Direction::Right) => content_end_of(t, head),
        Motion::BlankLine(Direction::Up) => blank_line(t, head, true),
        Motion::BlankLine(Direction::Down) => blank_line(t, head, false),
        Motion::MatchingBracket => match matching_bracket(t, head) {
            Some(p) => p,
            None => head,
        },
        // The keymap never produces these direction/motion combinations.
        _ => head,
    }
}

/// Apply `motion` to a head `count` times, stopping early once it stops
/// making progress (clamped at an edge).
pub fn move_head(text: &Vec<char>, head: usize, motion: Motion, count: usize) -> (r: usize)
    requires
        head <= text.len(),
        byte_len(text@) <= usize::MAX,
    ensures
        r == move_head_spec(text@, head as int, motion, count),
        r <= text.len(),
{
    // `MatchingBracket` is an involution (jump to the partner); a repeat count
    // would just oscillate between the two ends, so it always runs exactly once.
    let reps: usize = if motion == Motion::MatchingBracket {
        1
    } else if count >= 1 {
        count
    } else {
        1
    };
    let ghost n0: nat = reps as nat;
    let mut h = head;
    let mut i: usize = 0;
    while i < reps
        invariant
            i <= reps,
            n0 == reps,
            h <= text.len(),
            byte_len(text@) <= usize::MAX,
            move_run(text@, h as int, motion, (reps - i) as nat) == move_head_spec(text@, head as int, motion, count),
        decreases reps - i,
    {
        let next = step(text, h, motion);
        if next == h {
            return h;
        }
        h = next;
        i = i + 1;
    }
    h
}

/// A motion's new head and the goal to carry forward: vertical motion keeps
/// the goal column; every other motion clears it.
fn move_range_head(text: &Vec<char>, head: usize, goal: SelectionGoal, motion: Motion, count: usize) -> (r: (
    usize,
    SelectionGoal,
))
    requires
        head <= text.len(),
        byte_len(text@) <= usize::MAX,
    ensures
        (r.0 as int, r.1) == move_range_head_spec(text@, head as int, goal, motion, count),
        r.0 <= text.len(),
{
    match motion {
        Motion::Char(Direction::Up) => {
            let (h, g) = vertical_run(text, head, goal.column(), count, true);
            (h, SelectionGoal::from_column(g))
        },
        Motion::Char(Direction::Down) => {
            let (h, g) = vertical_run(text, head, goal.column(), count, false);
            (h, SelectionGoal::from_column(g))
        },
        _ => (move_head(text, head, motion, count), SelectionGoal::Unset),
    }
}

// ---------------------------------------------------------------------------
// Edits — every text change is one transaction, recorded in history.
// ---------------------------------------------------------------------------

/// The carets an edit places: each target `(id, old index)` becomes a bare
/// cursor at the index mapped through the edits (left where it was when the
/// edit was refused and the text did not change).
pub open spec fn placed_cursors(es: Seq<(int, int, Seq<char>)>, targets: Seq<(usize, usize)>, refused: bool) -> Seq<
    Selection<usize>,
> {
    targets.map_values(
        |tg: (usize, usize)| cursor_spec(tg.0, if refused { tg.1 } else { shift_index(es, tg.1 as int) as usize }),
    )
}

/// `(h1, b1)` is `(h0, b0)` after applying the char edit list `es` as one
/// transaction and placing a caret for every target, re-merged with primary
/// `pid`. When the buffer refuses the edit the text and both histories stay;
/// otherwise the step is recorded and the redo branches are cleared.
pub open spec fn edit_applied(
    h0: History,
    b0: Buffer,
    h1: History,
    b1: Buffer,
    es: Seq<(int, int, Seq<char>)>,
    targets: Seq<(usize, usize)>,
    pid: usize,
) -> bool {
    let refused = chars_refused(b0.chars@, es);
    let cursors = placed_cursors(es, targets, refused);
    &&& b1.selection.selections@ == anchor_all(normalize_spec(cursors, pid))
    &&& b1.selection.primary_id == normalize_primary(cursors, pid)
    &&& refused ==> {
        &&& b1.chars@ == b0.chars@
        &&& b1.undo_stack@ == b0.undo_stack@
        &&& b1.redo_stack@ == b0.redo_stack@
        &&& b1.next_transaction == b0.next_transaction
        &&& h1.undo_stack@ == h0.undo_stack@
        &&& h1.redo_stack@ == h0.redo_stack@
    }
    &&& !refused ==> {
        &&& b1.chars@ == apply_edits(b0.chars@, es)
        &&& recorded_step(h0, b0, h1, b1)
        &&& h1.undo_stack@.last().step == Step::Edit(TransactionId(b0.next_transaction))
        &&& h1.redo_stack.len() == 0
        &&& b1.redo_stack.len() == 0
        &&& b1.next_transaction == next_tx_id(b0.next_transaction)
    }
}

/// Nothing at all changes.
pub open spec fn unchanged(h0: History, b0: Buffer, h1: History, b1: Buffer) -> bool {
    &&& b1.only_selection_changed(&b0)
    &&& b1.selection.same_as(&b0.selection)
    &&& h1.undo_stack@ == h0.undo_stack@
    &&& h1.redo_stack@ == h0.redo_stack@
}

/// Only the selection set changes: it becomes `sels` re-merged with primary
/// `pid`; the text and both histories stay.
pub open spec fn selections_moved(h0: History, b0: Buffer, h1: History, b1: Buffer, sels: Seq<Selection<usize>>, pid: usize) -> bool {
    &&& b1.selections_set(&b0, sels, pid)
    &&& h1.undo_stack@ == h0.undo_stack@
    &&& h1.redo_stack@ == h0.redo_stack@
}

/// The selections of a valid buffer as char indices are in bounds, ordered,
/// and non-overlapping, with ids that can be handed on.
pub(crate) proof fn lemma_index_sels(b: Buffer)
    requires
        b.wf(),
    ensures
        b.index_sels().len() == b.selection.selections.len() > 0,
        forall|i: int|
            0 <= i < b.index_sels().len() ==> (#[trigger] b.index_sels()[i]).start <= b.index_sels()[i].end
                <= b.chars.len() && b.index_sels()[i].id < usize::MAX,
        forall|i: int, j: int|
            0 <= i < j < b.index_sels().len() ==> (#[trigger] b.index_sels()[i]).end <= (#[trigger] b.index_sels()[j]).start,
{
    let s = b.selection.selections@;
    assert forall|i: int| 0 <= i < b.index_sels().len() implies (#[trigger] b.index_sels()[i]).start
        <= b.index_sels()[i].end <= b.chars.len() && b.index_sels()[i].id < usize::MAX by {
        assert(s[i].id < b.selection.next_id);
    }
}

/// Apply `edits` (sorted, non-overlapping char edits of the current text) as
/// one undoable transaction, then place a bare cursor for every target
/// `(id, old index)` at its mapped index and merge overlaps. Targets map
/// right-associatively, so a caret lands past inserted text and at a
/// deletion's new left edge.
fn apply_edit(
    buffer: &mut Buffer,
    history: &mut History,
    primary_id: usize,
    edits: Vec<(usize, usize, Vec<char>)>,
    targets: Vec<(usize, usize)>,
)
    requires
        old(buffer).wf(),
        consistent(*old(history), *old(buffer)),
        edits_wf(edits_view(edits@), old(buffer).chars.len() as int),
        targets.len() > 0,
        primary_id < usize::MAX,
        forall|i: int|
            0 <= i < targets.len() ==> (#[trigger] targets@[i]).1 <= old(buffer).chars.len() && targets@[i].0 < usize::MAX,
    ensures
        final(buffer).wf(),
        consistent(*final(history), *final(buffer)),
        edit_applied(*old(history), *old(buffer), *final(history), *final(buffer), edits_view(edits@), targets@, primary_id),
{
    let ghost b0 = *buffer;
    let ghost h0 = *history;
    let ghost es = edits_view(edits@);
    let before = buffer.selection.copy();
    let len = buffer.chars.len();
    let tx = buffer.edit_chars(&edits);
    let refused = tx.is_none();
    let ghost target = placed_cursors(es, targets@, refused);
    let n = targets.len();
    let mut placed: Vec<Selection<usize>> = Vec::new();
    let mut i: usize = 0;
    while i < n
        invariant
            n == targets.len(),
            i <= n,
            len == b0.chars.len(),
            es == edits_view(edits@),
            edits_wf(es, len as int),
            refused == chars_refused(b0.chars@, es),
            refused ==> buffer.chars@ == b0.chars@,
            !refused ==> buffer.chars@.len() == edited_len(es, len as int),
            buffer.chars.len() <= usize::MAX,
            target == placed_cursors(es, targets@, refused),
            forall|i: int|
                0 <= i < targets.len() ==> (#[trigger] targets@[i]).1 <= len && targets@[i].0 < usize::MAX,
            placed@ == target.take(i as int),
            forall|k: int| 0 <= k < i ==> (#[trigger] placed@[k]).start <= buffer.chars.len(),
        decreases n - i,
    {
        let (id, p) = targets[i];
        let q = if refused {
            p
        } else {
            map_offset(&edits, len, p)
        };
        placed.push(Selection::cursor(id, q));
        proof {
            assert(placed@ =~= target.take(i as int + 1));
        }
        i = i + 1;
    }
    proof {
        assert(target.take(n as int) =~= target);
        assert forall|k: int| 0 <= k < placed.len() implies (#[trigger] placed@[k]).start <= placed@[k].end
            <= buffer.chars.len() && placed@[k].id < usize::MAX by {
            assert(placed@[k] == target[k]);
        }
    }
    buffer.set_selections_chars(placed, primary_id);
    match tx {
        Some(id) => {
            let after = buffer.selection.copy();
            history.record_edit(id, before, after);
            proof {
                let b1 = *buffer;
                assert(b1.undo_stack@.drop_last() =~= b0.undo_stack@);
                assert(history.undo_stack@.drop_last() =~= h0.undo_stack@);
                lemma_recorded_consistent(h0, b0, *history, b1);
            }
        },
        None => {},
    }
}

/// The edit every selection gets when `s` is typed: its span replaced by `s`.
pub open spec fn replace_edits(sels: Seq<Selection<usize>>, s: Seq<char>) -> Seq<(int, int, Seq<char>)> {
    sels.map_values(|x: Selection<usize>| (x.start as int, x.end as int, s))
}

/// Each selection's caret follows its span end (past inserted text).
pub open spec fn end_targets(sels: Seq<Selection<usize>>) -> Seq<(usize, usize)> {
    sels.map_values(|x: Selection<usize>| (x.id, x.end))
}

/// Each selection's caret follows its span start (a deletion's left edge).
pub open spec fn start_targets(sels: Seq<Selection<usize>>) -> Seq<(usize, usize)> {
    sels.map_values(|x: Selection<usize>| (x.id, x.start))
}

/// Typing `s`: every selection's span is replaced by `s` and its caret lands
/// just past the inserted text.
pub open spec fn typed(h0: History, b0: Buffer, h1: History, b1: Buffer, s: Seq<char>) -> bool {
    edit_applied(
        h0,
        b0,
        h1,
        b1,
        replace_edits(b0.index_sels(), s),
        end_targets(b0.index_sels()),
        b0.selection.primary_id,
    )
}

/// Typing inserts `s` at every bare cursor and **replaces** every selected
/// span. Each resulting cursor lands just past the inserted text, regardless of
/// the selection's orientation.
fn insert_text(buffer: &mut Buffer, history: &mut History, s: &Vec<char>)
    requires
        old(buffer).wf(),
        consistent(*old(history), *old(buffer)),
    ensures
        final(buffer).wf(),
        consistent(*final(history), *final(buffer)),
        typed(*old(history), *old(buffer), *final(history), *final(buffer), s@),
{
    proof {
        lemma_index_sels(*buffer);
    }
    let pid = buffer.primary_id();
    let sels = buffer.resolved_chars();
    let ghost es = replace_edits(sels@, s@);
    let ghost tg = end_targets(sels@);
    let n = sels.len();
    let mut edits: Vec<(usize, usize, Vec<char>)> = Vec::new();
    let mut targets: Vec<(usize, usize)> = Vec::new();
    let mut i: usize = 0;
    while i < n
        invariant
            n == sels.len(),
            i <= n,
            es == replace_edits(sels@, s@),
            tg == end_targets(sels@),
            edits_view(edits@) == es.take(i as int),
            edits.len() == i,
            targets@ == tg.take(i as int),
        decreases n - i,
    {
        let x = sels[i];
        let ins = s.clone();
        proof {
            assert(ins@ =~= s@);
        }
        edits.push((x.start, x.end, ins));
        targets.push((x.id, x.end));
        proof {
            assert(edits_view(edits@)[i as int] == es[i as int]);
            assert(edits_view(edits@) =~= es.take(i as int + 1));
            assert(targets@ =~= tg.take(i as int + 1));
        }
        i = i + 1;
    }
    proof {
        assert(es.take(n as int) =~= es);
        assert(tg.take(n as int) =~= tg);
        assert(edits_wf(es, buffer.chars.len() as int));
    }
    apply_edit(buffer, history, pid, edits, targets);
}

/// `texts` joined by `'\n'` (the whole clipboard string of per-cursor slices).
pub open spec fn join_lines(texts: Seq<String>) -> Seq<char>
    decreases texts.len(),
{
    if texts.len() == 0 {
        Seq::empty()
    } else if texts.len() == 1 {
        texts[0]@
    } else {
        join_lines(texts.drop_last()) + seq!['\n'] + texts.last()@
    }
}

/// One edit per selection: the `i`-th span replaced by `texts[i]`.
pub open spec fn zip_edits(sels: Seq<Selection<usize>>, texts: Seq<String>) -> Seq<(int, int, Seq<char>)> {
    Seq::new(sels.len(), |i: int| (sels[i].start as int, sels[i].end as int, texts[i]@))
}

/// Pasting one string per cursor: when the counts match, the `i`-th cursor
/// gets `texts[i]`; otherwise the `\n`-joined text goes at every cursor.
pub open spec fn pasted(h0: History, b0: Buffer, h1: History, b1: Buffer, texts: Seq<String>) -> bool {
    if texts.len() != b0.selection.selections.len() {
        typed(h0, b0, h1, b1, join_lines(texts))
    } else {
        edit_applied(
            h0,
            b0,
            h1,
            b1,
            zip_edits(b0.index_sels(), texts),
            end_targets(b0.index_sels()),
            b0.selection.primary_id,
        )
    }
}

/// Inject one string per cursor — multicursor paste distribution.
fn insert_texts(buffer: &mut Buffer, history: &mut History, texts: Vec<String>)
    requires
        old(buffer).wf(),
        consistent(*old(history), *old(buffer)),
    ensures
        final(buffer).wf(),
        consistent(*final(history), *final(buffer)),
        pasted(*old(history), *old(buffer), *final(history), *final(buffer), texts@),
{
    proof {
        lemma_index_sels(*buffer);
    }
    let sels = buffer.resolved_chars();
    if texts.len() != sels.len() {
        let joined = join_texts(&texts);
        insert_text(buffer, history, &joined);
        return;
    }
    let pid = buffer.primary_id();
    let ghost es = zip_edits(sels@, texts@);
    let ghost tg = end_targets(sels@);
    let n = sels.len();
    let mut edits: Vec<(usize, usize, Vec<char>)> = Vec::new();
    let mut targets: Vec<(usize, usize)> = Vec::new();
    let mut i: usize = 0;
    while i < n
        invariant
            n == sels.len(),
            n == texts.len(),
            i <= n,
            es == zip_edits(sels@, texts@),
            tg == end_targets(sels@),
            edits_view(edits@) == es.take(i as int),
            edits.len() == i,
            targets@ == tg.take(i as int),
        decreases n - i,
    {
        let x = sels[i];
        let ins = crate::text::str_to_chars(texts[i].as_str());
        edits.push((x.start, x.end, ins));
        targets.push((x.id, x.end));
        proof {
            assert(edits_view(edits@)[i as int] == es[i as int]);
            assert(edits_view(edits@) =~= es.take(i as int + 1));
            assert(targets@ =~= tg.take(i as int + 1));
        }
        i = i + 1;
    }
    proof {
        assert(es.take(n as int) =~= es);
        assert(tg.take(n as int) =~= tg);
        assert(edits_wf(es, buffer.chars.len() as int));
    }
    apply_edit(buffer, history, pid, edits, targets);
}

/// `texts` joined by `'\n'`.
fn join_texts(texts: &Vec<String>) -> (r: Vec<char>)
    ensures
        r@ == join_lines(texts@),
{
    let mut out: Vec<char> = Vec::new();
    let n = texts.len();
    let mut i: usize = 0;
    while i < n
        invariant
            n == texts.len(),
            i <= n,
            out@ == join_lines(texts@.take(i as int)),
        decreases n - i,
    {
        if i > 0 {
            out.push('\n');
        }
        let part = crate::text::str_to_chars(texts[i].as_str());
        let m = part.len();
        let ghost before = out@;
        let mut j: usize = 0;
        while j < m
            invariant
                m == part.len(),
                j <= m,
                out@ == before + part@.take(j as int),
            decreases m - j,
        {
            out.push(part[j]);
            proof {
                assert(part@.take(j as int + 1) =~= part@.take(j as int).push(part@[j as int]));
            }
            j = j + 1;
        }
        proof {
            assert(part@.take(m as int) =~= part@);
            let tk = texts@.take(i as int + 1);
            assert(tk.drop_last() =~= texts@.take(i as int));
            assert(tk.last() == texts@[i as int]);
            if i == 0 {
                assert(out@ =~= join_lines(tk));
            } else {
                assert(out@ =~= join_lines(tk));
            }
        }
        i = i + 1;
    }
    proof {
        assert(texts@.take(n as int) =~= texts@);
    }
    out
}

/// A deletion interval as a span (normalized like selections).
pub open spec fn iv(a: usize, b: usize) -> Selection<usize> {
    Selection { id: 0, start: a, end: b, reversed: false, goal: SelectionGoal::Unset }
}

/// `Backspace`'s deletion intervals, in selection order: a span is deleted
/// whole; a bare cursor deletes the grapheme before it (none at the start).
pub open spec fn back_intervals(t: Seq<char>, sels: Seq<Selection<usize>>) -> Seq<Selection<usize>>
    decreases sels.len(),
{
    if sels.len() == 0 {
        Seq::empty()
    } else {
        let x = sels.last();
        let rest = back_intervals(t, sels.drop_last());
        if x.start != x.end {
            rest.push(iv(x.start, x.end))
        } else if x.end == 0 {
            rest
        } else {
            rest.push(iv(grapheme_left(t, x.end as int) as usize, x.end))
        }
    }
}

/// `Delete`'s deletion intervals, in selection order: a span is deleted
/// whole; a bare cursor deletes the grapheme after it (none at the end).
pub open spec fn forward_intervals(t: Seq<char>, sels: Seq<Selection<usize>>) -> Seq<Selection<usize>>
    decreases sels.len(),
{
    if sels.len() == 0 {
        Seq::empty()
    } else {
        let x = sels.last();
        let rest = forward_intervals(t, sels.drop_last());
        if x.start != x.end {
            rest.push(iv(x.start, x.end))
        } else if grapheme_right(t, x.end as int) == x.end {
            rest
        } else {
            rest.push(iv(x.end, grapheme_right(t, x.end as int) as usize))
        }
    }
}

/// `Ctrl+X`'s deletion intervals, in selection order: what each selection
/// copies (a span whole; a bare cursor its whole line, line break included),
/// leaving out empty ones.
pub open spec fn cut_intervals(t: Seq<char>, sels: Seq<Selection<usize>>) -> Seq<Selection<usize>>
    decreases sels.len(),
{
    if sels.len() == 0 {
        Seq::empty()
    } else {
        let rest = cut_intervals(t, sels.drop_last());
        let span = copy_span(t, sels.last());
        if span.0 < span.1 {
            rest.push(iv(span.0 as usize, span.1 as usize))
        } else {
            rest
        }
    }
}

/// Deleting merged intervals: each replaced by nothing.
pub open spec fn delete_edits(ivs: Seq<Selection<usize>>) -> Seq<(int, int, Seq<char>)> {
    ivs.map_values(|x: Selection<usize>| (x.start as int, x.end as int, Seq::<char>::empty()))
}

/// Deleting the intervals `ivs` (sorted and merged first; nothing happens when
/// there are none), each caret landing at its selection's start.
pub open spec fn deleted(h0: History, b0: Buffer, h1: History, b1: Buffer, ivs: Seq<Selection<usize>>) -> bool {
    if ivs.len() == 0 {
        unchanged(h0, b0, h1, b1)
    } else {
        edit_applied(
            h0,
            b0,
            h1,
            b1,
            delete_edits(normalize_spec(ivs, 0)),
            start_targets(b0.index_sels()),
            b0.selection.primary_id,
        )
    }
}

/// Delete the merged `intervals`, each caret landing at its selection's start.
fn delete_intervals(buffer: &mut Buffer, history: &mut History, intervals: Vec<Selection<usize>>)
    requires
        old(buffer).wf(),
        consistent(*old(history), *old(buffer)),
        intervals.len() > 0,
        forall|i: int| 0 <= i < intervals.len() ==> (#[trigger] intervals@[i]).start <= intervals@[i].end <= old(buffer).chars.len()
            && intervals@[i].id == 0,
    ensures
        final(buffer).wf(),
        consistent(*final(history), *final(buffer)),
        edit_applied(
            *old(history),
            *old(buffer),
            *final(history),
            *final(buffer),
            delete_edits(normalize_spec(intervals@, 0)),
            start_targets(old(buffer).index_sels()),
            old(buffer).selection.primary_id,
        ),
{
    proof {
        lemma_index_sels(*buffer);
        lemma_normalize_bounds(intervals@, 0, 1, buffer.chars.len() as int);
    }
    let ghost ivs0 = intervals@;
    let mut merged = intervals;
    normalize(&mut merged, 0);
    let ghost es = delete_edits(merged@);
    let n = merged.len();
    let mut edits: Vec<(usize, usize, Vec<char>)> = Vec::new();
    let mut i: usize = 0;
    while i < n
        invariant
            n == merged.len(),
            i <= n,
            es == delete_edits(merged@),
            edits_view(edits@) == es.take(i as int),
            edits.len() == i,
        decreases n - i,
    {
        edits.push((merged[i].start, merged[i].end, Vec::new()));
        proof {
            assert(edits_view(edits@)[i as int] == es[i as int]);
            assert(edits_view(edits@) =~= es.take(i as int + 1));
        }
        i = i + 1;
    }
    proof {
        assert(es.take(n as int) =~= es);
        assert(merged@ == normalize_spec(ivs0, 0));
        assert(normalized_seq(merged@));
        assert(edits_wf(es, buffer.chars.len() as int));
    }
    let pid = buffer.primary_id();
    let sels = buffer.resolved_chars();
    let ghost tg = start_targets(sels@);
    let m = sels.len();
    let mut targets: Vec<(usize, usize)> = Vec::new();
    let mut j: usize = 0;
    while j < m
        invariant
            m == sels.len(),
            j <= m,
            tg == start_targets(sels@),
            targets@ == tg.take(j as int),
        decreases m - j,
    {
        targets.push((sels[j].id, sels[j].start));
        proof {
            assert(targets@ =~= tg.take(j as int + 1));
        }
        j = j + 1;
    }
    proof {
        assert(tg.take(m as int) =~= tg);
    }
    apply_edit(buffer, history, pid, edits, targets);
}

/// `Backspace`: a non-empty selection is deleted whole; a bare cursor deletes
/// the grapheme cluster before its head (a cursor at the buffer start
/// contributes nothing). If nothing can be deleted it is a no-op.
fn delete_backward(buffer: &mut Buffer, history: &mut History)
    requires
        old(buffer).wf(),
        consistent(*old(history), *old(buffer)),
    ensures
        final(buffer).wf(),
        consistent(*final(history), *final(buffer)),
        deleted(*old(history), *old(buffer), *final(history), *final(buffer), back_intervals(old(buffer).chars@, old(buffer).index_sels())),
{
    proof {
        lemma_index_sels(*buffer);
        lemma_byte_offset_full(buffer.chars@);
    }
    let sels = buffer.resolved_chars();
    let ghost t = buffer.chars@;
    let n = sels.len();
    let mut intervals: Vec<Selection<usize>> = Vec::new();
    let mut i: usize = 0;
    while i < n
        invariant
            n == sels.len(),
            i <= n,
            t == buffer.chars@,
            buffer.wf(),
            forall|k: int| 0 <= k < n ==> (#[trigger] sels@[k]).start <= sels@[k].end <= t.len(),
            intervals@ == back_intervals(t, sels@.take(i as int)),
            forall|k: int| 0 <= k < intervals.len() ==> (#[trigger] intervals@[k]).start <= intervals@[k].end <= t.len()
                && intervals@[k].id == 0,
        decreases n - i,
    {
        let x = sels[i];
        proof {
            assert(sels@.take(i as int + 1).drop_last() =~= sels@.take(i as int));
            assert(sels@.take(i as int + 1).last() == x);
        }
        if x.start != x.end {
            intervals.push(Selection { id: 0, start: x.start, end: x.end, reversed: false, goal: SelectionGoal::Unset });
        } else if x.end != 0 {
            let from = grapheme_left_of(&buffer.chars, x.end);
            intervals.push(Selection { id: 0, start: from, end: x.end, reversed: false, goal: SelectionGoal::Unset });
        }
        i = i + 1;
    }
    proof {
        assert(sels@.take(n as int) =~= sels@);
    }
    if intervals.len() == 0 {
        return;
    }
    delete_intervals(buffer, history, intervals);
}

/// `Ctrl+X`: delete what each selection copies — a non-empty selection whole,
/// a bare cursor its whole line with its line break — so that together with
/// the frontend's copy it cuts. If nothing can be deleted it is a no-op.
fn cut(buffer: &mut Buffer, history: &mut History)
    requires
        old(buffer).wf(),
        consistent(*old(history), *old(buffer)),
    ensures
        final(buffer).wf(),
        consistent(*final(history), *final(buffer)),
        deleted(*old(history), *old(buffer), *final(history), *final(buffer), cut_intervals(old(buffer).chars@, old(buffer).index_sels())),
{
    proof {
        lemma_index_sels(*buffer);
    }
    let sels = buffer.resolved_chars();
    let ghost t = buffer.chars@;
    let n = sels.len();
    let mut intervals: Vec<Selection<usize>> = Vec::new();
    let mut i: usize = 0;
    while i < n
        invariant
            n == sels.len(),
            i <= n,
            t == buffer.chars@,
            forall|k: int| 0 <= k < n ==> (#[trigger] sels@[k]).start <= sels@[k].end <= t.len(),
            intervals@ == cut_intervals(t, sels@.take(i as int)),
            forall|k: int| 0 <= k < intervals.len() ==> (#[trigger] intervals@[k]).start <= intervals@[k].end <= t.len()
                && intervals@[k].id == 0,
        decreases n - i,
    {
        let x = sels[i];
        proof {
            assert(sels@.take(i as int + 1).drop_last() =~= sels@.take(i as int));
            assert(sels@.take(i as int + 1).last() == x);
        }
        let (a, b) = copy_span_of(&buffer.chars, &x);
        if a < b {
            intervals.push(Selection { id: 0, start: a, end: b, reversed: false, goal: SelectionGoal::Unset });
        }
        i = i + 1;
    }
    proof {
        assert(sels@.take(n as int) =~= sels@);
    }
    if intervals.len() == 0 {
        return;
    }
    delete_intervals(buffer, history, intervals);
}

/// `Delete`: a non-empty selection is deleted whole; a bare cursor deletes the
/// grapheme cluster after its head (a cursor at the buffer end contributes
/// nothing).
fn delete_forward(buffer: &mut Buffer, history: &mut History)
    requires
        old(buffer).wf(),
        consistent(*old(history), *old(buffer)),
    ensures
        final(buffer).wf(),
        consistent(*final(history), *final(buffer)),
        deleted(*old(history), *old(buffer), *final(history), *final(buffer), forward_intervals(old(buffer).chars@, old(buffer).index_sels())),
{
    proof {
        lemma_index_sels(*buffer);
        lemma_byte_offset_full(buffer.chars@);
    }
    let sels = buffer.resolved_chars();
    let ghost t = buffer.chars@;
    let n = sels.len();
    let mut intervals: Vec<Selection<usize>> = Vec::new();
    let mut i: usize = 0;
    while i < n
        invariant
            n == sels.len(),
            i <= n,
            t == buffer.chars@,
            buffer.wf(),
            forall|k: int| 0 <= k < n ==> (#[trigger] sels@[k]).start <= sels@[k].end <= t.len(),
            intervals@ == forward_intervals(t, sels@.take(i as int)),
            forall|k: int| 0 <= k < intervals.len() ==> (#[trigger] intervals@[k]).start <= intervals@[k].end <= t.len()
                && intervals@[k].id == 0,
        decreases n - i,
    {
        let x = sels[i];
        proof {
            assert(sels@.take(i as int + 1).drop_last() =~= sels@.take(i as int));
            assert(sels@.take(i as int + 1).last() == x);
        }
        if x.start != x.end {
            intervals.push(Selection { id: 0, start: x.start, end: x.end, reversed: false, goal: SelectionGoal::Unset });
        } else {
            let to = grapheme_right_of(&buffer.chars, x.end);
            if to != x.end {
                intervals.push(Selection { id: 0, start: x.end, end: to, reversed: false, goal: SelectionGoal::Unset });
            }
        }
        i = i + 1;
    }
    proof {
        assert(sels@.take(n as int) =~= sels@);
    }
    if intervals.len() == 0 {
        return;
    }
    delete_intervals(buffer, history, intervals);
}

// ---------------------------------------------------------------------------
// Selection-only actions.
// ---------------------------------------------------------------------------

/// `Esc`: collapse to a single bare cursor at the primary's head, dropping any
/// secondary cursors.
fn collapse(buffer: &mut Buffer)
    requires
        old(buffer).wf(),
    ensures
        final(buffer).wf(),
        final(buffer).selections_set(
            old(buffer),
            seq![cursor_spec(old(buffer).selection.primary_id, old(buffer).primary_index_sel().head_spec())],
            old(buffer).selection.primary_id,
        ),
{
    proof {
        lemma_find_id_range(buffer.selection.selections@, buffer.selection.primary_id, 0);
    }
    let p = buffer.primary_chars();
    let head = p.head();
    let id = buffer.primary_id();
    let mut v: Vec<Selection<usize>> = Vec::new();
    v.push(Selection::cursor(id, head));
    proof {
        assert(v@ =~= seq![cursor_spec(id, head)]);
    }
    buffer.set_selections_chars(v, id);
}

/// Select the entire document.
fn select_all(buffer: &mut Buffer)
    requires
        old(buffer).wf(),
    ensures
        final(buffer).wf(),
        final(buffer).selections_set(
            old(buffer),
            seq![Selection { id: old(buffer).selection.primary_id, start: 0, end: old(buffer).chars.len(), reversed: false, goal: SelectionGoal::Unset }],
            old(buffer).selection.primary_id,
        ),
{
    let id = buffer.primary_id();
    let mut v: Vec<Selection<usize>> = Vec::new();
    v.push(Selection { id, start: 0, end: buffer.chars.len(), reversed: false, goal: SelectionGoal::Unset });
    buffer.set_selections_chars(v, id);
}

/// One selection after `motion`: extending keeps its tail and moves its head;
/// otherwise it collapses to a bare cursor at the new head.
pub open spec fn moved_sel(t: Seq<char>, x: Selection<usize>, motion: Motion, extend: bool, count: usize) -> Selection<usize> {
    let (h, g) = move_range_head_spec(t, x.head_spec() as int, x.goal, motion, count);
    if extend {
        with_head(x, h as usize, g)
    } else {
        Selection { id: x.id, start: h as usize, end: h as usize, reversed: false, goal: g }
    }
}

/// Every selection after `motion`.
pub open spec fn moved_sels(t: Seq<char>, sels: Seq<Selection<usize>>, motion: Motion, extend: bool, count: usize) -> Seq<
    Selection<usize>,
> {
    sels.map_values(|x: Selection<usize>| moved_sel(t, x, motion, extend, count))
}

/// Move every selection's head `count` times, extending or collapsing, then
/// merge any selections that now coincide.
fn move_all(buffer: &mut Buffer, motion: Motion, extend: bool, count: usize)
    requires
        old(buffer).wf(),
    ensures
        final(buffer).wf(),
        final(buffer).selections_set(
            old(buffer),
            moved_sels(old(buffer).chars@, old(buffer).index_sels(), motion, extend, count),
            old(buffer).selection.primary_id,
        ),
{
    proof {
        lemma_index_sels(*buffer);
        lemma_byte_offset_full(buffer.chars@);
    }
    let pid = buffer.primary_id();
    let sels = buffer.resolved_chars();
    let ghost target = moved_sels(buffer.chars@, sels@, motion, extend, count);
    let n = sels.len();
    let mut v: Vec<Selection<usize>> = Vec::new();
    let mut i: usize = 0;
    while i < n
        invariant
            n == sels.len(),
            i <= n,
            buffer.wf(),
            forall|k: int| 0 <= k < n ==> (#[trigger] sels@[k]).start <= sels@[k].end <= buffer.chars.len() && sels@[k].id
                < usize::MAX,
            target == moved_sels(buffer.chars@, sels@, motion, extend, count),
            v@ == target.take(i as int),
            forall|k: int| 0 <= k < i ==> (#[trigger] v@[k]).start <= v@[k].end <= buffer.chars.len() && v@[k].id < usize::MAX,
        decreases n - i,
    {
        let x = sels[i];
        let (h, g) = move_range_head(&buffer.chars, x.head(), x.goal, motion, count);
        let y = if extend {
            let mut y = x;
            y.set_head(h, g);
            y
        } else {
            Selection { id: x.id, start: h, end: h, reversed: false, goal: g }
        };
        v.push(y);
        proof {
            assert(v@ =~= target.take(i as int + 1));
        }
        i = i + 1;
    }
    proof {
        assert(target.take(n as int) =~= target);
    }
    buffer.set_selections_chars(v, pid);
}

/// `PageUp`/`PageDown`: `rows` lines up or down (a no-op for zero rows or a
/// horizontal direction).
fn move_page(buffer: &mut Buffer, direction: Direction, extend: bool, rows: usize)
    requires
        old(buffer).wf(),
    ensures
        final(buffer).wf(),
        rows > 0 && (direction == Direction::Up || direction == Direction::Down) ==> final(buffer).selections_set(
            old(buffer),
            moved_sels(old(buffer).chars@, old(buffer).index_sels(), Motion::Char(direction), extend, rows),
            old(buffer).selection.primary_id,
        ),
        !(rows > 0 && (direction == Direction::Up || direction == Direction::Down)) ==> final(buffer).only_selection_changed(
            old(buffer),
        ) && final(buffer).selection.same_as(&old(buffer).selection),
{
    if rows == 0 {
        return;
    }
    match direction {
        Direction::Up | Direction::Down => {
            move_all(buffer, Motion::Char(direction), extend, rows);
        },
        Direction::Left | Direction::Right => {},
    }
}

/// The selections with the primary's span replaced by `[lo, hi)` (forward, no
/// goal); unchanged when no selection carries the primary id.
pub open spec fn expanded_sels(sels: Seq<Selection<usize>>, pid: usize, lo: usize, hi: usize) -> Seq<Selection<usize>> {
    match crate::selection::find_id(sels, pid, 0) {
        Some(i) => sels.update(i, Selection { id: pid, start: lo, end: hi, reversed: false, goal: SelectionGoal::Unset }),
        None => sels,
    }
}

/// `I`/`U`/`O`/`P`: the primary's span one level out, a step recorded in the
/// history; nothing at the outermost level.
pub open spec fn expanded(h0: History, b0: Buffer, h1: History, b1: Buffer, kind: Expansion) -> bool {
    let p = b0.primary_index_sel();
    let (lo, hi) = expand_spec(b0.chars@, p.start as int, p.end as int, kind);
    if lo == p.start && hi == p.end {
        unchanged(h0, b0, h1, b1)
    } else {
        &&& b1.selections_set(&b0, expanded_sels(b0.index_sels(), b0.selection.primary_id, lo as usize, hi as usize), b0.selection.primary_id)
        &&& recorded_step(h0, b0, h1, b1)
        &&& h1.undo_stack@.last().step == Step::SelectionOnly
        &&& h1.redo_stack.len() == 0
    }
}

/// `I`/`U`/`O`/`P`: expand the primary selection one level and record a
/// selection-only history entry so `Ctrl+Z` steps back through expansions too.
/// The outermost level is a no-op (no history entry); a wider primary may
/// swallow a sibling.
fn expand_primary(buffer: &mut Buffer, history: &mut History, kind: Expansion)
    requires
        old(buffer).wf(),
        consistent(*old(history), *old(buffer)),
    ensures
        final(buffer).wf(),
        consistent(*final(history), *final(buffer)),
        expanded(*old(history), *old(buffer), *final(history), *final(buffer), kind),
{
    proof {
        lemma_index_sels(*buffer);
        lemma_find_id_range(buffer.selection.selections@, buffer.selection.primary_id, 0);
    }
    let ghost b0 = *buffer;
    let ghost h0 = *history;
    let p = buffer.primary_chars();
    let (nlo, nhi) = expand(&buffer.chars, p.start, p.end, kind);
    // Compare by span, not orientation: a backward primary at the outermost
    // level is still a no-op (no orientation flip, no history entry).
    if nlo == p.start && nhi == p.end {
        return;
    }
    let before = buffer.selection.copy();
    let pid = buffer.primary_id();
    let mut sels = buffer.resolved_chars();
    let ghost s0 = sels@;
    let n = sels.len();
    let mut i: usize = 0;
    while i < n && sels[i].id != pid
        invariant
            n == sels.len(),
            sels@ == s0,
            i <= n,
            crate::selection::find_id(s0, pid, i as int) == crate::selection::find_id(s0, pid, 0),
        decreases n - i,
    {
        i = i + 1;
    }
    if i < n {
        sels.set(i, Selection { id: pid, start: nlo, end: nhi, reversed: false, goal: SelectionGoal::Unset });
    }
    proof {
        assert(sels@ == expanded_sels(s0, pid, nlo, nhi));
        assert forall|k: int| 0 <= k < sels.len() implies (#[trigger] sels@[k]).start <= sels@[k].end <= buffer.chars.len()
            && sels@[k].id < usize::MAX by {
            if k != i {
                assert(sels@[k] == s0[k]);
            }
        }
    }
    buffer.set_selections_chars(sels, pid);
    let after = buffer.selection.copy();
    history.record_selection(before, after);
    proof {
        assert(history.undo_stack@.drop_last() =~= h0.undo_stack@);
        lemma_recorded_consistent(h0, b0, *history, *buffer);
    }
}

/// `Alt+F` find: each selection whose line holds `ch` past its head (ahead or
/// behind) becomes a bare cursor on that occurrence; the others stay put.
pub open spec fn found_sel(t: Seq<char>, x: Selection<usize>, ch: char, forward: bool) -> Selection<usize> {
    match find_on_line_spec(t, x.head_spec() as int, ch, forward) {
        Some(k) => cursor_spec(x.id, k as usize),
        None => x,
    }
}

/// Every selection after a find.
pub open spec fn found_sels(t: Seq<char>, sels: Seq<Selection<usize>>, ch: char, forward: bool) -> Seq<Selection<usize>> {
    sels.map_values(|x: Selection<usize>| found_sel(t, x, ch, forward))
}

/// `Alt+F` find: move every cursor's head to the next/previous occurrence of
/// `ch` on its own line, collapsing each match to a bare cursor. A cursor with
/// no match on its line stays put. Find is a motion: not recorded in history.
fn find_move(buffer: &mut Buffer, ch: char, forward: bool)
    requires
        old(buffer).wf(),
    ensures
        final(buffer).wf(),
        final(buffer).selections_set(
            old(buffer),
            found_sels(old(buffer).chars@, old(buffer).index_sels(), ch, forward),
            old(buffer).selection.primary_id,
        ),
{
    proof {
        lemma_index_sels(*buffer);
    }
    let pid = buffer.primary_id();
    let sels = buffer.resolved_chars();
    let ghost target = found_sels(buffer.chars@, sels@, ch, forward);
    let n = sels.len();
    let mut v: Vec<Selection<usize>> = Vec::new();
    let mut i: usize = 0;
    while i < n
        invariant
            n == sels.len(),
            i <= n,
            buffer.wf(),
            forall|k: int| 0 <= k < n ==> (#[trigger] sels@[k]).start <= sels@[k].end <= buffer.chars.len() && sels@[k].id
                < usize::MAX,
            target == found_sels(buffer.chars@, sels@, ch, forward),
            v@ == target.take(i as int),
            forall|k: int| 0 <= k < i ==> (#[trigger] v@[k]).start <= v@[k].end <= buffer.chars.len() && v@[k].id < usize::MAX,
        decreases n - i,
    {
        let x = sels[i];
        let y = match find_on_line(&buffer.chars, x.head(), ch, forward) {
            Some(k) => Selection::cursor(x.id, k),
            None => x,
        };
        v.push(y);
        proof {
            assert(v@ =~= target.take(i as int + 1));
        }
        i = i + 1;
    }
    proof {
        assert(target.take(n as int) =~= target);
    }
    buffer.set_selections_chars(v, pid);
}

/// Spawning a cursor: a bare cursor one line above (`Up`) or below (any other
/// direction) the primary head at the same column becomes the new primary; a
/// no-op when there is no line that way (or no id left to hand out).
pub open spec fn spawned(b0: Buffer, b1: Buffer, dir: Direction) -> bool {
    let head = b0.primary_index_sel().head_spec();
    let nh = vertical_goal_spec(b0.chars@, head as int, None, dir == Direction::Up).0;
    if nh == head || b0.selection.next_id >= usize::MAX {
        b1.only_selection_changed(&b0) && b1.selection.same_as(&b0.selection)
    } else {
        let id = b0.selection.next_id;
        // The new cursor's id is handed out first, so the set grows from the
        // next id after it.
        let handed = Buffer { selection: Selections { next_id: (id + 1) as usize, ..b0.selection }, ..b0 };
        b1.selections_set(&handed, b0.index_sels().push(cursor_spec(id, nh as usize)), id)
    }
}

/// Add a bare cursor one line above/below the primary at the same column and
/// make it the new primary, so repeated spawns build a column.
fn spawn_cursor(buffer: &mut Buffer, dir: Direction)
    requires
        old(buffer).wf(),
    ensures
        final(buffer).wf(),
        spawned(*old(buffer), *final(buffer), dir),
{
    proof {
        lemma_index_sels(*buffer);
        lemma_find_id_range(buffer.selection.selections@, buffer.selection.primary_id, 0);
        lemma_byte_offset_full(buffer.chars@);
    }
    let p = buffer.primary_chars();
    let head = p.head();
    let up = dir == Direction::Up;
    let (nh, _) = vertical_goal(&buffer.chars, head, None, up);
    if nh == head || !buffer.selection.can_alloc_id() {
        return;
    }
    let new_id = buffer.alloc_id();
    let mut sels = buffer.resolved_chars();
    let ghost s0 = sels@;
    sels.push(Selection::cursor(new_id, nh));
    proof {
        assert forall|k: int| 0 <= k < sels.len() implies (#[trigger] sels@[k]).start <= sels@[k].end <= buffer.chars.len()
            && sels@[k].id < usize::MAX by {
            if k < s0.len() {
                assert(sels@[k] == s0[k]);
            }
        }
    }
    buffer.set_selections_chars(sels, new_id);
}

/// An action that edits the text at every selection.
pub open spec fn is_text_edit(action: Action) -> bool {
    match action {
        Action::InsertChar(_) | Action::InsertNewline | Action::InsertText(_) | Action::InsertTexts(_)
        | Action::DeleteBackward | Action::DeleteForward | Action::Cut => true,
        _ => false,
    }
}

/// An edit that changed the text is undone by the next `Undo`: the text and
/// the selection return to what they were before it, and so does the undo
/// history; a `Redo` right after puts back the edited text and the selection
/// the edit left.
pub proof fn lemma_undo_reverts_edit(
    action: Action,
    h0: History,
    b0: Buffer,
    h1: History,
    b1: Buffer,
    h2: History,
    b2: Buffer,
    h3: History,
    b3: Buffer,
)
    requires
        is_text_edit(action),
        applied(action, h0, b0, h1, b1),
        b1.chars@ != b0.chars@,
        applied(Action::Undo, h1, b1, h2, b2),
        applied(Action::Redo, h2, b2, h3, b3),
    ensures
        b2.chars@ == b0.chars@,
        b2.selection.same_as(&b0.selection),
        h2.undo_stack@ == h0.undo_stack@,
        b3.chars@ == b1.chars@,
        b3.selection.same_as(&b1.selection),
        h3.undo_stack@ == h1.undo_stack@,
{
    assert(recorded_step(h0, b0, h1, b1));
    lemma_undo_reverts_step(h0, b0, h1, b1, h2, b2, true);
    let e = h1.undo_stack@.last();
    assert(h2.redo_stack@.last() == e);
    assert(h2.redo_stack.len() > 0);
    assert(h1.undo_stack@.drop_last().push(e) =~= h1.undo_stack@);
    match e.step {
        Step::Edit(_) => {
            assert(b2.redo_stack@.last() == b1.undo_stack@.last());
        },
        Step::SelectionOnly => {},
    }
}

/// `x` starts a line of `t`.
pub open spec fn is_line_start(t: Seq<char>, x: int) -> bool {
    x == 0 || (0 < x <= t.len() && t[x - 1] == '\n')
}

proof fn lemma_skip_down_props(t: Seq<char>, ls: int, blank: bool)
    requires
        is_line_start(t, ls) || ls == t.len() + 1,
    ensures
        skip_down(t, ls, blank) >= ls,
        skip_down(t, ls, blank) == t.len() + 1 || (is_line_start(t, skip_down(t, ls, blank)) && skip_down(
            t,
            ls,
            blank,
        ) <= t.len()),
        skip_down(t, ls, blank) == ls || skip_down(t, ls, blank) > line_end(t, ls),
        skip_down(t, ls, blank) <= t.len() && navigable(t, skip_down(t, ls, blank)) ==> is_blank_line(
            t,
            skip_down(t, ls, blank),
        ) != blank,
    decreases t.len() + 1 - ls,
{
    if 0 <= ls <= t.len() && navigable(t, ls) && is_blank_line(t, ls) == blank {
        lemma_line_end(t, ls);
        let nx = next_line(t, ls);
        lemma_skip_down_props(t, nx, blank);
        if nx <= t.len() {
            lemma_line_end(t, nx);
        }
    }
}

proof fn lemma_skip_down_first(t: Seq<char>, ls: int, blank: bool, b: int)
    requires
        is_line_start(t, ls),
        is_line_start(t, b),
        0 <= ls <= b < t.len(),
        is_blank_line(t, b) != blank,
    ensures
        skip_down(t, ls, blank) <= b,
    decreases b - ls,
{
    if is_blank_line(t, ls) == blank {
        lemma_line_end(t, ls);
        let le = line_end(t, ls);
        assert(ls < b);
        if b - 1 < le {
            assert(t[b - 1] != '\n');
        }
        assert(le < t.len());
        lemma_skip_down_first(t, le + 1, blank, b);
    }
}

/// `]` goes down to the next blank line past the paragraph: it lands on a
/// blank line that starts below the caret's line, or leaves the caret where it
/// is; and whenever a non-blank line (the caret's own or one below it) has a
/// blank line below it, `]` moves down and lands no further than that blank
/// line.
pub proof fn lemma_blank_line_down(t: Seq<char>, head: int)
    requires
        0 <= head <= t.len(),
    ensures
        blank_line_spec(t, head, false) == head || {
            let r = blank_line_spec(t, head, false);
            &&& line_end(t, head) < r < t.len()
            &&& t[r - 1] == '\n'
            &&& is_blank_line(t, r)
        },
        forall|a: int, b: int|
            #![trigger is_line_start(t, a), is_line_start(t, b)]
            line_start(t, head) <= a < b < t.len() && is_line_start(t, a) && is_line_start(t, b) && !is_blank_line(t, a)
                && is_blank_line(t, b) ==> line_end(t, head) < blank_line_spec(t, head, false) <= b,
{
    lemma_line_start(t, head);
    lemma_line_end(t, head);
    let cur = line_start(t, head);
    lemma_line_end_same(t, cur, head);
    assert(is_line_start(t, cur));
    lemma_skip_down_props(t, cur, true);
    let a0 = skip_down(t, cur, true);
    lemma_skip_down_props(t, a0, false);
    let j = skip_down(t, a0, false);
    if a0 <= t.len() {
        lemma_line_end(t, a0);
    }
    if j <= t.len() && navigable(t, j) {
        if a0 == cur {
            assert(j != a0);
        }
    }
    assert forall|a: int, b: int|
        #![trigger is_line_start(t, a), is_line_start(t, b)]
        line_start(t, head) <= a < b < t.len() && is_line_start(t, a) && is_line_start(t, b) && !is_blank_line(t, a)
            && is_blank_line(t, b) implies line_end(t, head) < blank_line_spec(t, head, false) <= b by {
        lemma_skip_down_first(t, cur, true, a);
        lemma_skip_down_first(t, a0, false, b);
    }
}

proof fn lemma_skip_up_props(t: Seq<char>, ls: int, blank: bool)
    requires
        is_line_start(t, ls),
    ensures
        0 <= skip_up(t, ls, blank) <= ls,
        is_line_start(t, skip_up(t, ls, blank)),
        skip_up(t, ls, blank) == 0 || is_blank_line(t, skip_up(t, ls, blank)) != blank,
    decreases ls,
{
    if 0 < ls <= t.len() && is_blank_line(t, ls) == blank {
        lemma_line_start(t, ls - 1);
        lemma_skip_up_props(t, line_start(t, ls - 1), blank);
    }
}

proof fn lemma_skip_up_first(t: Seq<char>, ls: int, blank: bool, b: int)
    requires
        is_line_start(t, ls),
        is_line_start(t, b),
        0 <= b <= ls <= t.len(),
        is_blank_line(t, b) != blank,
    ensures
        b <= skip_up(t, ls, blank),
    decreases ls,
{
    if 0 < ls && is_blank_line(t, ls) == blank {
        lemma_line_start(t, ls - 1);
        let p = line_start(t, ls - 1);
        if p < b {
            assert(t[b - 1] == '\n');
        }
        lemma_skip_up_first(t, p, blank, b);
    }
}

/// `[` goes up to the previous blank line past the paragraph: it lands on a
/// blank line that starts at or above the caret's line (above it unless that
/// is the first line), or leaves the caret where it is; and whenever a
/// non-blank line (the caret's own or one above it) has a blank line above
/// it, `[` moves up, landing on or below that blank line.
pub proof fn lemma_blank_line_up(t: Seq<char>, head: int)
    requires
        0 <= head <= t.len(),
    ensures
        blank_line_spec(t, head, true) == head || {
            let r = blank_line_spec(t, head, true);
            &&& 0 <= r <= line_start(t, head)
            &&& r < line_start(t, head) || r == 0
            &&& is_line_start(t, r)
            &&& is_blank_line(t, r)
        },
        forall|a: int, b: int|
            #![trigger is_line_start(t, a), is_line_start(t, b)]
            0 <= b < a <= line_start(t, head) && is_line_start(t, a) && is_line_start(t, b) && !is_blank_line(t, a)
                && is_blank_line(t, b) ==> b <= blank_line_spec(t, head, true) < line_start(t, head),
{
    lemma_line_start(t, head);
    let cur = line_start(t, head);
    assert(is_line_start(t, cur));
    lemma_skip_up_props(t, cur, true);
    let a0 = skip_up(t, cur, true);
    lemma_skip_up_props(t, a0, false);
    assert forall|a: int, b: int|
        #![trigger is_line_start(t, a), is_line_start(t, b)]
        0 <= b < a <= line_start(t, head) && is_line_start(t, a) && is_line_start(t, b) && !is_blank_line(t, a)
            && is_blank_line(t, b) implies b <= blank_line_spec(t, head, true) < line_start(t, head) by {
        lemma_skip_up_first(t, cur, true, a);
        lemma_skip_up_first(t, a0, false, b);
        assert(a0 > 0);
    }
}

} // verus!
