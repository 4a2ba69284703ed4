//! Selection expansion: `I` / `U` / `O` / `P`.
//!
//! Each function returns the next expanded span one level out. The levels are
//! delimiter-matched: words and the bracket pairs `()` `[]` `{}`
//! (nesting-aware, matched across lines).
//!
//! - `I` ([`Expansion::Enclosing`]): word, then grow by one word toward the
//!   **end**, then the enclosing bracket pair (with delimiters), climbing out.
//! - `U` ([`Expansion::EnclosingLeft`]): like `I` but grows toward the
//!   **start** (`a aa b`, cursor in `aa`: `I` → `aa` → `aa b`; `U` → `aa` →
//!   `a aa`).
//! - `O` ([`Expansion::BracketContent`]): the content inside the nearest pair,
//!   then the parent pair's content, … — never the delimiters.
//! - `P` ([`Expansion::BracketAlternating`]): content, then that pair with its
//!   delimiters, then the parent's content, then the parent pair, … out.
//!
//! Positions are char indices into the document.

use vstd::prelude::*;

use crate::action::Expansion;
use crate::char_kind::{char_kind, kind_of, CharKind};

verus! {

/// A word character (the shared three-class model's `Word`).
pub open spec fn is_word(c: char) -> bool {
    kind_of(c) == CharKind::Word
}

/// An opening bracket.
pub open spec fn is_open(c: char) -> bool {
    c == '(' || c == '[' || c == '{'
}

/// A closing bracket.
pub open spec fn is_close(c: char) -> bool {
    c == ')' || c == ']' || c == '}'
}

/// The closing bracket that matches an opening one.
pub open spec fn close_of(c: char) -> char {
    if c == '(' {
        ')'
    } else if c == '[' {
        ']'
    } else {
        '}'
    }
}

/// The start of the run of word chars that ends at `i`.
pub open spec fn word_run_start(t: Seq<char>, i: int) -> int
    decreases i,
{
    if i > 0 && i <= t.len() && is_word(t[i - 1]) {
        word_run_start(t, i - 1)
    } else {
        i
    }
}

/// The end of the run of word chars that starts at `i`.
pub open spec fn word_run_end(t: Seq<char>, i: int) -> int
    decreases t.len() - i,
{
    if 0 <= i < t.len() && is_word(t[i]) {
        word_run_end(t, i + 1)
    } else {
        i
    }
}

/// The maximal word run touching `lo` (the char at `lo`, or the one just
/// before it).
pub open spec fn word_span_spec(t: Seq<char>, lo: int) -> Option<(int, int)> {
    let center = if lo < t.len() && is_word(t[lo]) {
        lo
    } else if lo > 0 && is_word(t[lo - 1]) {
        lo - 1
    } else {
        -1
    };
    if center < 0 {
        None
    } else {
        Some((word_run_start(t, center), word_run_end(t, center + 1)))
    }
}

/// Scanning left from `i` with `depth` unmatched closers seen: the first
/// opener that is not closed before the scan start.
pub open spec fn open_scan(t: Seq<char>, i: int, depth: int) -> Option<int>
    decreases i,
{
    if i <= 0 || i > t.len() {
        None
    } else if is_close(t[i - 1]) {
        open_scan(t, i - 1, depth + 1)
    } else if is_open(t[i - 1]) {
        if depth == 0 {
            Some(i - 1)
        } else {
            open_scan(t, i - 1, depth - 1)
        }
    } else {
        open_scan(t, i - 1, depth)
    }
}

/// The nearest opening bracket enclosing position `from`.
pub open spec fn enclosing_open_spec(t: Seq<char>, from: int) -> Option<int> {
    open_scan(t, from, 0)
}

/// Scanning right from `i` with `depth` opens of `oc` unclosed: where the
/// first `oc` is closed by `cc`.
pub open spec fn close_scan(t: Seq<char>, i: int, depth: int, oc: char, cc: char) -> Option<int>
    decreases t.len() - i,
{
    if i < 0 || i >= t.len() {
        None
    } else if t[i] == oc {
        close_scan(t, i + 1, depth + 1, oc, cc)
    } else if t[i] == cc {
        if depth - 1 == 0 {
            Some(i)
        } else {
            close_scan(t, i + 1, depth - 1, oc, cc)
        }
    } else {
        close_scan(t, i + 1, depth, oc, cc)
    }
}

/// The matching close bracket for the opening bracket at `open`.
pub open spec fn matching_close_spec(t: Seq<char>, open: int) -> Option<int> {
    if 0 <= open < t.len() && is_open(t[open]) {
        close_scan(t, open, 0, t[open], close_of(t[open]))
    } else {
        None
    }
}

/// The end of the next word at or after `i`, skipping other chars; `None` if
/// a bracket comes first or there is no word.
pub open spec fn next_word_end_spec(t: Seq<char>, i: int) -> Option<int>
    decreases t.len() - i,
{
    if i < 0 || i >= t.len() {
        None
    } else if is_open(t[i]) || is_close(t[i]) {
        None
    } else if is_word(t[i]) {
        Some(word_run_end(t, i))
    } else {
        next_word_end_spec(t, i + 1)
    }
}

/// The start of the previous word before `i`, skipping other chars; `None`
/// if a bracket comes first or there is no word.
pub open spec fn prev_word_start_spec(t: Seq<char>, i: int) -> Option<int>
    decreases i,
{
    if i <= 0 || i > t.len() {
        None
    } else if is_open(t[i - 1]) || is_close(t[i - 1]) {
        None
    } else if is_word(t[i - 1]) {
        Some(word_run_start(t, i - 1))
    } else {
        prev_word_start_spec(t, i - 1)
    }
}

/// `I` / `U`: the word, then grow by a word in the bias direction (else the
/// other), then the enclosing bracket pair including delimiters; unchanged at
/// the outermost level.
pub open spec fn enclosing_spec(t: Seq<char>, lo: int, hi: int, bias_left: bool) -> (int, int) {
    let left = match prev_word_start_spec(t, lo) {
        Some(s) => Some((s, hi)),
        None => None,
    };
    let right = match next_word_end_spec(t, hi) {
        Some(e) => Some((lo, e)),
        None => None,
    };
    let (first, second) = if bias_left { (left, right) } else { (right, left) };
    match word_span_spec(t, lo) {
        Some((ws, we)) if (ws, we) != (lo, hi) && ws <= lo && hi <= we => (ws, we),
        _ => match first {
            Some(r) => r,
            None => match second {
                Some(r) => r,
                None => match enclosing_open_spec(t, lo) {
                    Some(op) => match matching_close_spec(t, op) {
                        Some(cl) => (op, cl + 1),
                        None => (lo, hi),
                    },
                    None => (lo, hi),
                },
            },
        },
    }
}

/// `O` from scan position `from`: the content of the smallest bracket pair
/// that strictly contains `[lo, hi)`, climbing through pairs whose content is
/// exactly the selection; unchanged when there is none.
pub open spec fn bracket_content_from(t: Seq<char>, lo: int, hi: int, from: int) -> (int, int)
    decreases from,
{
    match enclosing_open_spec(t, from) {
        None => (lo, hi),
        Some(op) => match matching_close_spec(t, op) {
            None => (lo, hi),
            Some(cl) => if op + 1 < lo || cl > hi {
                (op + 1, cl)
            } else if 0 <= op < from {
                bracket_content_from(t, lo, hi, op)
            } else {
                (lo, hi)
            },
        },
    }
}

/// `O`: the content of the nearest pair strictly containing `[lo, hi)`.
pub open spec fn bracket_content_spec(t: Seq<char>, lo: int, hi: int) -> (int, int) {
    bracket_content_from(t, lo, hi, lo)
}

/// `P`: content → that pair with delimiters → parent content → parent pair …
pub open spec fn bracket_alternating_spec(t: Seq<char>, lo: int, hi: int) -> (int, int) {
    if hi > lo && lo < t.len() && is_open(t[lo]) && matching_close_spec(t, lo) == Some(hi - 1) {
        // The selection is a whole pair: the parent's content, or the parent
        // pair when that content is exactly this pair.
        match enclosing_open_spec(t, lo) {
            Some(pop) => match matching_close_spec(t, pop) {
                Some(pcl) => if (pop + 1, pcl) != (lo, hi) {
                    (pop + 1, pcl)
                } else {
                    (pop, pcl + 1)
                },
                None => (lo, hi),
            },
            None => (lo, hi),
        }
    } else if lo > 0 && is_open(t[lo - 1]) && matching_close_spec(t, lo - 1) == Some(hi) {
        // The selection is exactly a pair's content: add its delimiters.
        (lo - 1, hi + 1)
    } else {
        bracket_content_spec(t, lo, hi)
    }
}

/// The span one expansion level out from `[lo, hi)`.
pub open spec fn expand_spec(t: Seq<char>, lo: int, hi: int, kind: Expansion) -> (int, int) {
    match kind {
        Expansion::Enclosing => enclosing_spec(t, lo, hi, false),
        Expansion::EnclosingLeft => enclosing_spec(t, lo, hi, true),
        Expansion::BracketContent => bracket_content_spec(t, lo, hi),
        Expansion::BracketAlternating => bracket_alternating_spec(t, lo, hi),
    }
}

proof fn lemma_word_run_start(t: Seq<char>, i: int)
    requires
        0 <= i <= t.len(),
    ensures
        0 <= word_run_start(t, i) <= i,
    decreases i,
{
    if i > 0 && is_word(t[i - 1]) {
        lemma_word_run_start(t, i - 1);
    }
}

proof fn lemma_word_run_end(t: Seq<char>, i: int)
    requires
        0 <= i <= t.len(),
    ensures
        i <= word_run_end(t, i) <= t.len(),
    decreases t.len() - i,
{
    if i < t.len() && is_word(t[i]) {
        lemma_word_run_end(t, i + 1);
    }
}

proof fn lemma_open_scan(t: Seq<char>, i: int, depth: int)
    requires
        0 <= i <= t.len(),
    ensures
        open_scan(t, i, depth) matches Some(op) ==> 0 <= op < i && is_open(t[op]),
    decreases i,
{
    if i > 0 {
        lemma_open_scan(t, i - 1, depth + 1);
        lemma_open_scan(t, i - 1, depth - 1);
        lemma_open_scan(t, i - 1, depth);
    }
}

proof fn lemma_close_scan(t: Seq<char>, i: int, depth: int, oc: char, cc: char)
    requires
        0 <= i <= t.len(),
    ensures
        close_scan(t, i, depth, oc, cc) matches Some(cl) ==> i <= cl < t.len(),
    decreases t.len() - i,
{
    if i < t.len() {
        lemma_close_scan(t, i + 1, depth + 1, oc, cc);
        lemma_close_scan(t, i + 1, depth - 1, oc, cc);
        lemma_close_scan(t, i + 1, depth, oc, cc);
    }
}

proof fn lemma_next_word_end(t: Seq<char>, i: int)
    requires
        0 <= i <= t.len(),
    ensures
        next_word_end_spec(t, i) matches Some(e) ==> i <= e <= t.len(),
    decreases t.len() - i,
{
    if i < t.len() {
        lemma_word_run_end(t, i);
        lemma_next_word_end(t, i + 1);
    }
}

proof fn lemma_prev_word_start(t: Seq<char>, i: int)
    requires
        0 <= i <= t.len(),
    ensures
        prev_word_start_spec(t, i) matches Some(s) ==> 0 <= s <= i,
    decreases i,
{
    if i > 0 {
        lemma_word_run_start(t, i - 1);
        lemma_prev_word_start(t, i - 1);
    }
}

/// A matching close lies after its opener and inside the text.
pub proof fn lemma_matching_close(t: Seq<char>, open: int)
    ensures
        matching_close_spec(t, open) matches Some(cl) ==> 0 <= open < cl < t.len(),
{
    if 0 <= open < t.len() && is_open(t[open]) {
        lemma_close_scan(t, open + 1, 1, t[open], close_of(t[open]));
    }
}

/// An enclosing opener lies before the scan start.
pub proof fn lemma_enclosing_open(t: Seq<char>, from: int)
    requires
        0 <= from <= t.len(),
    ensures
        enclosing_open_spec(t, from) matches Some(op) ==> 0 <= op < from && is_open(t[op]),
{
    lemma_open_scan(t, from, 0);
}

proof fn lemma_bracket_content_from(t: Seq<char>, lo: int, hi: int, from: int)
    requires
        0 <= lo <= hi <= t.len(),
        0 <= from <= t.len(),
    ensures
        ({
            let (a, b) = bracket_content_from(t, lo, hi, from);
            0 <= a <= b <= t.len()
        }),
    decreases from,
{
    lemma_open_scan(t, from, 0);
    match enclosing_open_spec(t, from) {
        None => {},
        Some(op) => {
            lemma_close_scan(t, op + 1, 1, t[op], close_of(t[op]));
            match matching_close_spec(t, op) {
                None => {},
                Some(cl) => {
                    if !(op + 1 < lo || cl > hi) {
                        lemma_bracket_content_from(t, lo, hi, op);
                    }
                },
            }
        },
    }
}

/// `s` is a bracket char.
fn is_bracket(c: char) -> (r: bool)
    ensures
        r == (is_open(c) || is_close(c)),
{
    c == '(' || c == ')' || c == '[' || c == ']' || c == '{' || c == '}'
}

fn is_word_char(c: char) -> (r: bool)
    ensures
        r == is_word(c),
{
    char_kind(c) == CharKind::Word
}

/// The start of the word run ending at `i`.
fn run_start(t: &Vec<char>, i: usize) -> (r: usize)
    requires
        i <= t.len(),
    ensures
        r == word_run_start(t@, i as int),
{
    let mut s = i;
    while s > 0 && is_word_char(t[s - 1])
        invariant
            s <= i <= t.len(),
            word_run_start(t@, s as int) == word_run_start(t@, i as int),
        decreases s,
    {
        s = s - 1;
    }
    s
}

/// The end of the word run starting at `i`.
fn run_end(t: &Vec<char>, i: usize) -> (r: usize)
    requires
        i <= t.len(),
    ensures
        r == word_run_end(t@, i as int),
{
    let mut e = i;
    while e < t.len() && is_word_char(t[e])
        invariant
            i <= e <= t.len(),
            word_run_end(t@, e as int) == word_run_end(t@, i as int),
        decreases t.len() - e,
    {
        e = e + 1;
    }
    e
}

/// The maximal word run touching the selection's left edge.
fn word_span(t: &Vec<char>, lo: usize) -> (r: Option<(usize, usize)>)
    requires
        lo <= t.len(),
    ensures
        match r {
            Some((a, b)) => word_span_spec(t@, lo as int) == Some((a as int, b as int)),
            None => word_span_spec(t@, lo as int) is None,
        },
        r matches Some((a, b)) ==> a <= b <= t.len(),
{
    let center = if lo < t.len() && is_word_char(t[lo]) {
        lo
    } else if lo > 0 && is_word_char(t[lo - 1]) {
        lo - 1
    } else {
        return None;
    };
    proof {
        lemma_word_run_start(t@, center as int);
        lemma_word_run_end(t@, center + 1);
    }
    Some((run_start(t, center), run_end(t, center + 1)))
}

/// The nearest opening bracket enclosing position `from` (scanning left).
pub(crate) fn enclosing_open(t: &Vec<char>, from: usize) -> (r: Option<usize>)
    requires
        from <= t.len(),
    ensures
        match r {
            Some(op) => enclosing_open_spec(t@, from as int) == Some(op as int),
            None => enclosing_open_spec(t@, from as int) is None,
        },
{
    let mut depth: usize = 0;
    let mut i = from;
    while i > 0
        invariant
            i <= from <= t.len(),
            depth <= from - i,
            open_scan(t@, i as int, depth as int) == open_scan(t@, from as int, 0),
        decreases i,
    {
        let c = t[i - 1];
        if c == ')' || c == ']' || c == '}' {
            depth = depth + 1;
        } else if c == '(' || c == '[' || c == '{' {
            if depth == 0 {
                return Some(i - 1);
            }
            depth = depth - 1;
        }
        i = i - 1;
    }
    None
}

/// The matching close bracket for the opening bracket at `open`.
pub(crate) fn matching_close(t: &Vec<char>, open: usize) -> (r: Option<usize>)
    requires
        open <= t.len(),
    ensures
        match r {
            Some(cl) => matching_close_spec(t@, open as int) == Some(cl as int),
            None => matching_close_spec(t@, open as int) is None,
        },
{
    if open >= t.len() {
        return None;
    }
    let oc = t[open];
    let cc = if oc == '(' {
        ')'
    } else if oc == '[' {
        ']'
    } else if oc == '{' {
        '}'
    } else {
        return None;
    };
    let mut depth: usize = 0;
    let mut i = open;
    while i < t.len()
        invariant
            open <= i <= t.len(),
            depth <= i - open,
            i == open || depth >= 1,
            oc == t@[open as int],
            is_open(oc),
            cc == close_of(oc),
            close_scan(t@, i as int, depth as int, oc, cc) == matching_close_spec(t@, open as int),
        decreases t.len() - i,
    {
        let c = t[i];
        if c == oc {
            depth = depth + 1;
        } else if c == cc {
            if depth == 1 {
                return Some(i);
            }
            depth = depth - 1;
        }
        i = i + 1;
    }
    None
}

/// The end of the next word to the right of `from`, skipping non-word,
/// non-bracket chars. `None` if a bracket is hit first or there is no word.
fn next_word_end(t: &Vec<char>, from: usize) -> (r: Option<usize>)
    requires
        from <= t.len(),
    ensures
        opt_pos(r) == next_word_end_spec(t@, from as int),
{
    let mut i = from;
    while i < t.len()
        invariant
            from <= i <= t.len(),
            next_word_end_spec(t@, i as int) == next_word_end_spec(t@, from as int),
        decreases t.len() - i,
    {
        let c = t[i];
        if is_bracket(c) {
            return None;
        }
        if is_word_char(c) {
            return Some(run_end(t, i));
        }
        i = i + 1;
    }
    None
}

/// The start of the previous word to the left of `from`, skipping non-word,
/// non-bracket chars. `None` if a bracket is hit first or there is no word.
fn prev_word_start(t: &Vec<char>, from: usize) -> (r: Option<usize>)
    requires
        from <= t.len(),
    ensures
        opt_pos(r) == prev_word_start_spec(t@, from as int),
{
    let mut i = from;
    while i > 0
        invariant
            i <= from <= t.len(),
            prev_word_start_spec(t@, i as int) == prev_word_start_spec(t@, from as int),
        decreases i,
    {
        let c = t[i - 1];
        if is_bracket(c) {
            return None;
        }
        if is_word_char(c) {
            return Some(run_start(t, i - 1));
        }
        i = i - 1;
    }
    None
}

/// An optional position as an optional integer.
pub open spec fn opt_pos(o: Option<usize>) -> Option<int> {
    match o {
        Some(k) => Some(k as int),
        None => None,
    }
}

/// `I` / `U`: word, then grow by a word in the bias direction (else the
/// other), then the enclosing bracket pair including delimiters.
fn enclosing(t: &Vec<char>, lo: usize, hi: usize, bias_left: bool) -> (r: (usize, usize))
    requires
        lo <= hi <= t.len(),
    ensures
        (r.0 as int, r.1 as int) == enclosing_spec(t@, lo as int, hi as int, bias_left),
        r.0 <= r.1 <= t.len(),
{
    proof {
        lemma_prev_word_start(t@, lo as int);
        lemma_next_word_end(t@, hi as int);
        lemma_enclosing_open(t@, lo as int);
    }
    // 1. If the selection sits inside a word but isn't the whole word, take it.
    if let Some((ws, we)) = word_span(t, lo) {
        if (ws != lo || we != hi) && ws <= lo && hi <= we {
            return (ws, we);
        }
    }
    // 2. Grow by a word, preferring the bias direction.
    let left = match prev_word_start(t, lo) {
        Some(s) => Some((s, hi)),
        None => None,
    };
    let right = match next_word_end(t, hi) {
        Some(e) => Some((lo, e)),
        None => None,
    };
    let (first, second) = if bias_left { (left, right) } else { (right, left) };
    if let Some(r) = first {
        return r;
    }
    if let Some(r) = second {
        return r;
    }
    // 3. Both directions blocked: the enclosing bracket pair (with delimiters).
    if let Some(op) = enclosing_open(t, lo) {
        proof {
            lemma_matching_close(t@, op as int);
        }
        if let Some(cl) = matching_close(t, op) {
            return (op, cl + 1);
        }
    }
    (lo, hi)
}

/// `O`: the content of the smallest bracket pair that strictly contains
/// `[lo, hi)`, climbing to the parent pair's content on repeat.
fn bracket_content(t: &Vec<char>, lo: usize, hi: usize) -> (r: (usize, usize))
    requires
        lo <= hi <= t.len(),
    ensures
        (r.0 as int, r.1 as int) == bracket_content_spec(t@, lo as int, hi as int),
        r.0 <= r.1 <= t.len(),
{
    proof {
        lemma_bracket_content_from(t@, lo as int, hi as int, lo as int);
    }
    let mut from = lo;
    loop
        invariant
            lo <= hi <= t.len(),
            from <= t.len(),
            bracket_content_from(t@, lo as int, hi as int, from as int) == bracket_content_spec(t@, lo as int, hi as int),
        decreases from,
    {
        proof {
            lemma_enclosing_open(t@, from as int);
        }
        let op = match enclosing_open(t, from) {
            Some(op) => op,
            None => {
                return (lo, hi);
            },
        };
        proof {
            lemma_matching_close(t@, op as int);
        }
        let cl = match matching_close(t, op) {
            Some(cl) => cl,
            None => {
                return (lo, hi);
            },
        };
        let content_start = op + 1;
        if content_start < lo || cl > hi {
            return (content_start, cl);
        }
        from = op;
    }
}

/// `P`: alternate content → that pair with delimiters → parent content → …
fn bracket_alternating(t: &Vec<char>, lo: usize, hi: usize) -> (r: (usize, usize))
    requires
        lo <= hi <= t.len(),
    ensures
        (r.0 as int, r.1 as int) == bracket_alternating_spec(t@, lo as int, hi as int),
        r.0 <= r.1 <= t.len(),
{
    proof {
        lemma_matching_close(t@, lo as int);
        lemma_enclosing_open(t@, lo as int);
        if lo > 0 {
            lemma_matching_close(t@, lo - 1);
        }
    }
    // Case A: the selection is a full pair `[lo, hi)` (delimiters included).
    if hi > lo && lo < t.len() && is_open_char(t[lo]) && matches_at(t, lo, hi - 1) {
        if let Some(pop) = enclosing_open(t, lo) {
            proof {
                lemma_matching_close(t@, pop as int);
            }
            if let Some(pcl) = matching_close(t, pop) {
                let parent_content_start = pop + 1;
                // The parent's content; if it coincides with the current pair,
                // skip straight to the parent pair (with delimiters).
                if parent_content_start != lo || pcl != hi {
                    return (parent_content_start, pcl);
                }
                return (pop, pcl + 1);
            }
        }
        return (lo, hi);
    }
    // Case B: the selection is exactly a pair's content -> add its delimiters.
    if lo > 0 && is_open_char(t[lo - 1]) && matches_at(t, lo - 1, hi) {
        return (lo - 1, hi + 1);
    }
    // Case C: cursor / other -> the nearest pair's content.
    bracket_content(t, lo, hi)
}

fn is_open_char(c: char) -> (r: bool)
    ensures
        r == is_open(c),
{
    c == '(' || c == '[' || c == '{'
}

/// The opener at `open` is closed at `close`.
fn matches_at(t: &Vec<char>, open: usize, close: usize) -> (r: bool)
    requires
        open <= t.len(),
    ensures
        r == (matching_close_spec(t@, open as int) == Some(close as int)),
{
    match matching_close(t, open) {
        Some(cl) => cl == close,
        None => false,
    }
}

/// Expand `[lo, hi)` one level according to `kind`. Returns the span
/// unchanged when already at the outermost level.
pub fn expand(text: &Vec<char>, lo: usize, hi: usize, kind: Expansion) -> (r: (usize, usize))
    requires
        lo <= hi <= text.len(),
    ensures
        (r.0 as int, r.1 as int) == expand_spec(text@, lo as int, hi as int, kind),
        r.0 <= r.1 <= text.len(),
{
    match kind {
        Expansion::Enclosing => enclosing(text, lo, hi, false),
        Expansion::EnclosingLeft => enclosing(text, lo, hi, true),
        Expansion::BracketContent => bracket_content(text, lo, hi),
        Expansion::BracketAlternating => bracket_alternating(text, lo, hi),
    }
}

proof fn lemma_run_end_before(t: Seq<char>, i: int, c: int)
    requires
        0 <= i <= c < t.len(),
        !is_word(t[c]),
    ensures
        word_run_end(t, i) <= c,
    decreases c - i,
{
    if i < c && is_word(t[i]) {
        lemma_run_end_before(t, i + 1, c);
    }
}

proof fn lemma_run_start_after(t: Seq<char>, i: int, o: int)
    requires
        0 <= o < i <= t.len(),
        !is_word(t[o]),
    ensures
        o + 1 <= word_run_start(t, i),
    decreases i,
{
    if i > o + 1 && is_word(t[i - 1]) {
        lemma_run_start_after(t, i - 1, o);
    }
}

proof fn lemma_next_word_end_before(t: Seq<char>, i: int, c: int)
    requires
        0 <= i <= c < t.len(),
        is_close(t[c]),
        !is_word(t[c]),
    ensures
        next_word_end_spec(t, i) matches Some(e) ==> e <= c,
    decreases c - i,
{
    if i < c && !is_open(t[i]) && !is_close(t[i]) {
        if is_word(t[i]) {
            lemma_run_end_before(t, i, c);
        } else {
            lemma_next_word_end_before(t, i + 1, c);
        }
    }
}

proof fn lemma_prev_word_start_after(t: Seq<char>, i: int, o: int)
    requires
        0 <= o < i <= t.len(),
        is_open(t[o]),
        !is_word(t[o]),
    ensures
        prev_word_start_spec(t, i) matches Some(s) ==> o + 1 <= s,
    decreases i,
{
    if i > o + 1 && !is_open(t[i - 1]) && !is_close(t[i - 1]) {
        if is_word(t[i - 1]) {
            lemma_run_start_after(t, i - 1, o);
        } else {
            lemma_prev_word_start_after(t, i - 1, o);
        }
    }
}

proof fn lemma_close_scan_closes(t: Seq<char>, i: int, depth: int, oc: char, cc: char)
    ensures
        close_scan(t, i, depth, oc, cc) matches Some(cl) ==> 0 <= cl < t.len() && t[cl] == cc,
    decreases t.len() - i,
{
    if 0 <= i < t.len() {
        lemma_close_scan_closes(t, i + 1, depth + 1, oc, cc);
        lemma_close_scan_closes(t, i + 1, depth - 1, oc, cc);
        lemma_close_scan_closes(t, i + 1, depth, oc, cc);
    }
}

proof fn lemma_next_word_end_grows(t: Seq<char>, i: int)
    requires
        0 <= i <= t.len(),
    ensures
        next_word_end_spec(t, i) matches Some(e) ==> i < e <= t.len(),
    decreases t.len() - i,
{
    if i < t.len() && !is_open(t[i]) && !is_close(t[i]) {
        if is_word(t[i]) {
            lemma_word_run_end(t, i + 1);
        } else {
            lemma_next_word_end_grows(t, i + 1);
        }
    }
}

proof fn lemma_prev_word_start_grows(t: Seq<char>, i: int)
    requires
        0 <= i <= t.len(),
    ensures
        prev_word_start_spec(t, i) matches Some(s) ==> 0 <= s < i,
    decreases i,
{
    if i > 0 && !is_open(t[i - 1]) && !is_close(t[i - 1]) {
        if is_word(t[i - 1]) {
            lemma_word_run_start(t, i - 1);
        } else {
            lemma_prev_word_start_grows(t, i - 1);
        }
    }
}

/// `I` and `U` never split a bracket pair: when the selection lies inside
/// the pair that encloses it (its nearest unclosed opener `op` and that
/// opener's match `cl`), one expansion grows the selection and stays within
/// the pair, delimiters included — it takes a word inside, grows by a word
/// inside, or takes the whole pair. (The delimiters are not word chars, as no bracket is
/// alphanumeric.)
pub proof fn lemma_enclosing_keeps_pairs(t: Seq<char>, lo: int, hi: int, op: int, cl: int)
    requires
        0 <= lo <= hi <= t.len(),
        !is_word(t[op]),
        !is_word(t[cl]),
        enclosing_open_spec(t, lo) == Some(op),
        matching_close_spec(t, op) == Some(cl),
        hi <= cl,
    ensures
        op <= expand_spec(t, lo, hi, Expansion::Enclosing).0 <= lo,
        hi <= expand_spec(t, lo, hi, Expansion::Enclosing).1 <= cl + 1,
        expand_spec(t, lo, hi, Expansion::Enclosing) != (lo, hi),
        op <= expand_spec(t, lo, hi, Expansion::EnclosingLeft).0 <= lo,
        hi <= expand_spec(t, lo, hi, Expansion::EnclosingLeft).1 <= cl + 1,
        expand_spec(t, lo, hi, Expansion::EnclosingLeft) != (lo, hi),
{
    lemma_next_word_end_grows(t, hi);
    lemma_prev_word_start_grows(t, lo);
    lemma_enclosing_open(t, lo);
    lemma_matching_close(t, op);
    assert(is_close(t[cl])) by {
        lemma_close_scan_closes(t, op, 0, t[op], close_of(t[op]));
    }
    lemma_next_word_end_before(t, hi, cl);
    lemma_prev_word_start_after(t, lo, op);
    lemma_prev_word_start(t, lo);
    lemma_next_word_end(t, hi);
    match word_span_spec(t, lo) {
        Some((ws, we)) => {
            let center = if lo < t.len() && is_word(t[lo]) { lo } else { lo - 1 };
            assert(op < center < cl);
            lemma_run_start_after(t, center, op);
            lemma_run_end_before(t, center + 1, cl);
        },
        None => {},
    }
}

} // verus!
