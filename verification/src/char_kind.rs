//! The three-class character model and the word-boundary scans built on it,
//! so motion and expansion share one definition of "what a word is".
//!
//! A word char is alphanumeric or `_`; whitespace is `char::is_whitespace`;
//! everything else (including `-`) is punctuation.

use vstd::prelude::*;

use crate::text::{char_is_alphanumeric, char_is_whitespace, is_white_space, spec_is_alphanumeric};

verus! {

/// A character's lexical class, used to locate word boundaries.
#[derive(Clone, Copy, PartialEq, Eq, Debug, Structural)]
pub enum CharKind {
    Whitespace,
    Punctuation,
    Word,
}

/// The class of `c`.
pub open spec fn kind_of(c: char) -> CharKind {
    if spec_is_alphanumeric(c) || c == '_' {
        CharKind::Word
    } else if is_white_space(c) {
        CharKind::Whitespace
    } else {
        CharKind::Punctuation
    }
}

/// Classify `c`.
pub fn char_kind(c: char) -> (r: CharKind)
    ensures
        r == kind_of(c),
{
    if char_is_alphanumeric(c) || c == '_' {
        CharKind::Word
    } else if char_is_whitespace(c) {
        CharKind::Whitespace
    } else {
        CharKind::Punctuation
    }
}

/// `E` stops between `l` and `r` where a new word or punctuation run starts,
/// or before a line break.
pub open spec fn word_start_right(l: char, r: char) -> bool {
    (kind_of(l) != kind_of(r) && kind_of(r) != CharKind::Whitespace) || r == '\n'
}

/// `Q` stops between `l` and `r` where a new word or punctuation run starts,
/// or after a line break.
pub open spec fn word_start_left(l: char, r: char) -> bool {
    (kind_of(l) != kind_of(r) && kind_of(r) != CharKind::Whitespace) || l == '\n'
}

/// The first gap at or after `p` (between `t[p - 1]` and `t[p]`) where `E`
/// stops, or the text end.
pub open spec fn scan_word_right(t: Seq<char>, p: int) -> int
    decreases t.len() - p,
{
    if p >= t.len() {
        t.len() as int
    } else if word_start_right(t[p - 1], t[p]) {
        p
    } else {
        scan_word_right(t, p + 1)
    }
}

/// The last gap at or before `g` (between `t[g - 1]` and `t[g]`) where `Q`
/// stops, or the text start.
pub open spec fn scan_word_left(t: Seq<char>, g: int) -> int
    decreases g,
{
    if g <= 0 {
        0
    } else if word_start_left(t[g - 1], t[g]) {
        g
    } else {
        scan_word_left(t, g - 1)
    }
}

/// `E`: the start of the next word (or punctuation run) after `head`,
/// stopping at a line break; the text end when there is none.
pub open spec fn word_right_spec(t: Seq<char>, head: int) -> int {
    if head >= t.len() {
        head
    } else {
        scan_word_right(t, head + 1)
    }
}

/// `Q`: the start of the previous word (or punctuation run) before `head`,
/// stopping after a line break; the text start when there is none. The first
/// step passes over trailing punctuation, so `bar.|` goes to `|bar.`.
pub open spec fn word_left_spec(t: Seq<char>, head: int) -> int {
    if head <= 1 {
        0
    } else {
        let g = head - 1;
        let l = t[g - 1];
        let r = t[g];
        let skip = kind_of(r) == CharKind::Punctuation && kind_of(l) != CharKind::Punctuation && l != '\n';
        if !skip && word_start_left(l, r) {
            g
        } else {
            scan_word_left(t, g - 1)
        }
    }
}

/// Scan forward from char index `from` to the first boundary. `is_boundary`
/// is asked about each adjacent pair `(left, right)` past `from` in turn, and
/// the scan stops at the index between the first pair it accepts; the text
/// end when it accepts none.
pub fn find_boundary(text: &Vec<char>, from: usize, is_boundary: impl Fn(char, char) -> bool) -> (r: usize)
    requires
        from <= text.len(),
        forall|left: char, right: char| is_boundary.requires((left, right)),
    ensures
        from <= r <= text.len(),
        forall|k: int| from < k < r ==> is_boundary.ensures((text@[k - 1], #[trigger] text@[k]), false),
        r == text.len() || (from < r && is_boundary.ensures((text@[r - 1], text@[r as int]), true)),
{
    if from >= text.len() {
        return from;
    }
    let mut p = from + 1;
    while p < text.len()
        invariant
            from < p <= text.len(),
            forall|left: char, right: char| is_boundary.requires((left, right)),
            forall|k: int| from < k < p ==> is_boundary.ensures((text@[k - 1], #[trigger] text@[k]), false),
        decreases text.len() - p,
    {
        if is_boundary(text[p - 1], text[p]) {
            return p;
        }
        p = p + 1;
    }
    p
}

/// Scan backward from char index `from` to the first preceding boundary.
/// `is_boundary` sees each pair in document order as `(left, right)`, the
/// pairs nearest `from` first, and the scan stops at the index between the
/// first pair it accepts; the text start when it accepts none.
pub fn find_preceding_boundary(text: &Vec<char>, from: usize, is_boundary: impl Fn(char, char) -> bool) -> (r: usize)
    requires
        from <= text.len(),
        forall|left: char, right: char| is_boundary.requires((left, right)),
    ensures
        r <= from,
        forall|k: int| r < k < from ==> is_boundary.ensures((text@[k - 1], #[trigger] text@[k]), false),
        r == 0 || (r < from && is_boundary.ensures((text@[r - 1], text@[r as int]), true)),
{
    if from == 0 {
        return 0;
    }
    let mut p = from - 1;
    while p > 0
        invariant
            p < from <= text.len(),
            forall|left: char, right: char| is_boundary.requires((left, right)),
            forall|k: int| p < k < from ==> is_boundary.ensures((text@[k - 1], #[trigger] text@[k]), false),
        decreases p,
    {
        if is_boundary(text[p - 1], text[p]) {
            return p;
        }
        p = p - 1;
    }
    0
}

/// Whether `E` stops between `left` and `right`.
fn stops_right(left: char, right: char) -> (b: bool)
    ensures
        b == word_start_right(left, right),
{
    let kl = char_kind(left);
    let kr = char_kind(right);
    (kl != kr && kr != CharKind::Whitespace) || right == '\n'
}

/// Whether `Q` stops between `left` and `right` (past its first gap).
fn stops_left(left: char, right: char) -> (b: bool)
    ensures
        b == word_start_left(left, right),
{
    let kl = char_kind(left);
    let kr = char_kind(right);
    (kl != kr && kr != CharKind::Whitespace) || left == '\n'
}

proof fn lemma_scan_word_right_first(t: Seq<char>, p: int, r: int)
    requires
        1 <= p <= r <= t.len(),
        forall|k: int| p <= k < r ==> !word_start_right(t[k - 1], #[trigger] t[k]),
        r == t.len() || word_start_right(t[r - 1], t[r]),
    ensures
        scan_word_right(t, p) == r,
    decreases r - p,
{
    if p < r {
        assert(!word_start_right(t[p - 1], t[p]));
        lemma_scan_word_right_first(t, p + 1, r);
    }
}

proof fn lemma_scan_word_left_first(t: Seq<char>, q: int, r: int)
    requires
        0 <= r,
        q < t.len(),
        r <= q || r == 0,
        forall|k: int| r < k <= q ==> !word_start_left(t[k - 1], #[trigger] t[k]),
        r == 0 || word_start_left(t[r - 1], t[r]),
    ensures
        scan_word_left(t, q) == r,
    decreases q - r,
{
    if q > 0 && !word_start_left(t[q - 1], t[q]) {
        lemma_scan_word_left_first(t, q - 1, r);
    } else if q > 0 {
        if r < q {
            assert(!word_start_left(t[q - 1], t[q]));
        }
    }
}

/// `E`: the start of the next word after char index `head`.
pub fn word_right(t: &Vec<char>, head: usize) -> (r: usize)
    requires
        head <= t.len(),
    ensures
        r == word_right_spec(t@, head as int),
        head <= r <= t.len(),
{
    let r = find_boundary(t, head, stops_right);
    proof {
        if head < t.len() {
            lemma_scan_word_right_first(t@, head as int + 1, r as int);
        }
    }
    r
}

/// `Q`: the start of the previous word before char index `head`. The first
/// gap is judged on its own, so trailing punctuation is stepped over; the
/// rest is an ordinary backward scan.
pub fn word_left(t: &Vec<char>, head: usize) -> (r: usize)
    requires
        head <= t.len(),
    ensures
        r == word_left_spec(t@, head as int),
        r <= head,
{
    if head <= 1 {
        return 0;
    }
    let g = head - 1;
    let l = t[g - 1];
    let r = t[g];
    let kl = char_kind(l);
    let kr = char_kind(r);
    let skip = kr == CharKind::Punctuation && kl != CharKind::Punctuation && l != '\n';
    if !skip && ((kl != kr && kr != CharKind::Whitespace) || l == '\n') {
        return g;
    }
    let p = find_preceding_boundary(t, g, stops_left);
    proof {
        lemma_scan_word_left_first(t@, g - 1, p as int);
    }
    p
}

proof fn lemma_scan_right_stops_at_break(t: Seq<char>, p: int, j: int)
    requires
        1 <= p <= j < t.len(),
        t[j] == '\n',
    ensures
        p <= scan_word_right(t, p) <= j,
    decreases t.len() - p,
{
    if !word_start_right(t[p - 1], t[p]) {
        lemma_scan_right_stops_at_break(t, p + 1, j);
    }
}

proof fn lemma_scan_left_stops_at_break(t: Seq<char>, g: int, j: int)
    requires
        0 <= j,
        j + 1 <= g < t.len(),
        t[j] == '\n',
    ensures
        j + 1 <= scan_word_left(t, g) <= g,
    decreases g,
{
    if !word_start_left(t[g - 1], t[g]) {
        lemma_scan_left_stops_at_break(t, g - 1, j);
    }
}

/// Word motion never crosses a line break: `E` from `head` stops at or before
/// the first `'\n'` after it (and moves right, unless at the text end), and
/// `Q` from `head` stops at or after the start of its line, unless `head`
/// already starts a line.
pub proof fn lemma_word_motion_stops_at_line_breaks(t: Seq<char>, head: int)
    requires
        0 <= head <= t.len(),
    ensures
        head < t.len() ==> head < word_right_spec(t, head) <= t.len(),
        forall|j: int| head < j < t.len() && #[trigger] t[j] == '\n' ==> word_right_spec(t, head) <= j,
        word_left_spec(t, head) <= head,
        forall|j: int| 0 <= j && j + 1 < head && #[trigger] t[j] == '\n' ==> j + 1 <= word_left_spec(t, head),
{
    if head < t.len() {
        lemma_scan_word_right_bounds(t, head + 1);
    }
    assert forall|j: int| head < j < t.len() && #[trigger] t[j] == '\n' implies word_right_spec(t, head) <= j by {
        lemma_scan_right_stops_at_break(t, head + 1, j);
    }
    if head > 1 {
        lemma_scan_word_left_bounds(t, head - 2);
    }
    assert forall|j: int| 0 <= j && j + 1 < head && #[trigger] t[j] == '\n' implies j + 1 <= word_left_spec(t, head) by {
        let g = head - 1;
        if j + 1 < g {
            lemma_scan_left_stops_at_break(t, g - 1, j);
        }
    }
}

proof fn lemma_scan_word_right_bounds(t: Seq<char>, p: int)
    requires
        1 <= p,
    ensures
        p <= scan_word_right(t, p) || (p > t.len() && scan_word_right(t, p) == t.len()),
        scan_word_right(t, p) <= t.len() || scan_word_right(t, p) == p,
        p <= t.len() ==> p <= scan_word_right(t, p) <= t.len(),
    decreases t.len() - p,
{
    if p < t.len() && !word_start_right(t[p - 1], t[p]) {
        lemma_scan_word_right_bounds(t, p + 1);
    }
}

proof fn lemma_scan_word_left_bounds(t: Seq<char>, g: int)
    ensures
        g >= 0 ==> 0 <= scan_word_left(t, g) <= g,
    decreases if g < 0 { 0 } else { g },
{
    if g > 0 && !word_start_left(t[g - 1], t[g]) {
        lemma_scan_word_left_bounds(t, g - 1);
    }
}

/// Gap `g` (between `t[g - 1]` and `t[g]`) is where `E` stops: a line break
/// follows, or a word or punctuation run starts there.
pub open spec fn e_stop(t: Seq<char>, g: int) -> bool {
    t[g] == '\n' || (kind_of(t[g]) != CharKind::Whitespace && kind_of(t[g - 1]) != kind_of(t[g]))
}

proof fn lemma_scan_right_first_stop(t: Seq<char>, p: int)
    requires
        1 <= p <= t.len(),
    ensures
        p <= scan_word_right(t, p) <= t.len(),
        scan_word_right(t, p) == t.len() || e_stop(t, scan_word_right(t, p)),
        forall|g: int| p <= g < scan_word_right(t, p) ==> !#[trigger] e_stop(t, g),
    decreases t.len() - p,
{
    if p < t.len() && !word_start_right(t[p - 1], t[p]) {
        lemma_scan_right_first_stop(t, p + 1);
    }
}

/// `E` lands on the first stop after the caret: the first gap past `head`
/// where a line break follows or a new word or punctuation run starts (the
/// text end when there is none).
pub proof fn lemma_word_right_first_stop(t: Seq<char>, head: int)
    requires
        0 <= head < t.len(),
    ensures
        head < word_right_spec(t, head) <= t.len(),
        word_right_spec(t, head) == t.len() || e_stop(t, word_right_spec(t, head)),
        forall|g: int| head < g < word_right_spec(t, head) ==> !#[trigger] e_stop(t, g),
{
    lemma_scan_right_first_stop(t, head + 1);
}

} // verus!
