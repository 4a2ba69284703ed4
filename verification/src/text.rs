//! The document model: a sequence of `char`s addressed by char index, with the
//! byte (UTF-8) offsets the public API speaks in derived from it.
//!
//! Positions inside the engine are char indices; [`byte_offset`] maps a char
//! index to the UTF-8 byte offset of that char, so a byte offset handed across
//! the public boundary always names a char boundary.

use unicode_segmentation::GraphemeCursor;
use vstd::prelude::*;

verus! {

/// Whether a byte starts a UTF-8 char (is not a continuation byte): below
/// `0x80` or at least `0xC0`.
pub fn is_utf8_char_boundary(b: u8) -> (r: bool)
    ensures
        r == (b < 0x80 || b >= 0xc0),
{
    b < 0x80 || b >= 0xc0
}

/// The UTF-8 encoded width of `c`, in bytes.
pub open spec fn utf8_width(c: char) -> nat {
    if (c as u32) < 0x80 {
        1
    } else if (c as u32) < 0x800 {
        2
    } else if (c as u32) < 0x10000 {
        3
    } else {
        4
    }
}

/// The UTF-8 byte length of a char sequence.
pub open spec fn byte_len(s: Seq<char>) -> nat
    decreases s.len(),
{
    if s.len() == 0 {
        0
    } else {
        byte_len(s.drop_last()) + utf8_width(s.last())
    }
}

/// The byte offset of char index `i` in `s`.
pub open spec fn byte_offset(s: Seq<char>, i: int) -> nat {
    byte_len(s.take(i))
}

pub proof fn lemma_byte_offset_step(s: Seq<char>, i: int)
    requires
        0 <= i < s.len(),
    ensures
        byte_offset(s, i + 1) == byte_offset(s, i) + utf8_width(s[i]),
{
    assert(s.take(i + 1).drop_last() =~= s.take(i));
}

pub proof fn lemma_byte_offset_mono(s: Seq<char>, i: int, j: int)
    requires
        0 <= i <= j <= s.len(),
    ensures
        byte_offset(s, i) <= byte_offset(s, j),
        i < j ==> byte_offset(s, i) < byte_offset(s, j),
    decreases j - i,
{
    if i < j {
        lemma_byte_offset_step(s, j - 1);
        lemma_byte_offset_mono(s, i, j - 1);
    }
}

pub proof fn lemma_byte_offset_full(s: Seq<char>)
    ensures
        byte_offset(s, s.len() as int) == byte_len(s),
{
    assert(s.take(s.len() as int) =~= s);
}

pub proof fn lemma_byte_len_concat(a: Seq<char>, b: Seq<char>)
    ensures
        byte_len(a + b) == byte_len(a) + byte_len(b),
    decreases b.len(),
{
    if b.len() > 0 {
        assert((a + b).drop_last() =~= a + b.drop_last());
        lemma_byte_len_concat(a, b.drop_last());
    } else {
        assert(a + b =~= a);
    }
}

/// The UTF-8 width of `c` (the table `char::len_utf8` documents).
pub fn char_width(c: char) -> (w: usize)
    ensures
        w == utf8_width(c),
        1 <= w <= 4,
{
    let u = c as u32;
    if u < 0x80 {
        1
    } else if u < 0x800 {
        2
    } else if u < 0x10000 {
        3
    } else {
        4
    }
}

/// The byte offset of char index `i`.
pub fn byte_offset_of(t: &Vec<char>, i: usize) -> (b: usize)
    requires
        i <= t.len(),
        byte_len(t@) <= usize::MAX,
    ensures
        b == byte_offset(t@, i as int),
{
    let mut b: usize = 0;
    let mut k: usize = 0;
    proof {
        assert(t@.take(0) =~= Seq::<char>::empty());
    }
    while k < i
        invariant
            k <= i <= t.len(),
            byte_len(t@) <= usize::MAX,
            b == byte_offset(t@, k as int),
        decreases i - k,
    {
        proof {
            lemma_byte_offset_step(t@, k as int);
            lemma_byte_offset_mono(t@, k as int + 1, t.len() as int);
            lemma_byte_offset_full(t@);
        }
        b = b + char_width(t[k]);
        k = k + 1;
    }
    b
}

/// The largest char index whose byte offset is at most `b` (a byte offset
/// clipped leftward onto a char boundary, and onto the end of the text).
pub fn char_index_at_byte(t: &Vec<char>, b: usize) -> (i: usize)
    requires
        byte_len(t@) <= usize::MAX,
    ensures
        i <= t.len(),
        byte_offset(t@, i as int) <= b,
        i == t.len() || b < byte_offset(t@, i as int + 1),
        i == clip_byte(t@, b as int),
{
    let mut acc: usize = 0;
    let mut k: usize = 0;
    proof {
        assert(t@.take(0) =~= Seq::<char>::empty());
    }
    while k < t.len()
        invariant
            k <= t.len(),
            byte_len(t@) <= usize::MAX,
            acc == byte_offset(t@, k as int),
            acc <= b,
            clip_byte_from(t@, b as int, k as int) == clip_byte(t@, b as int),
        decreases t.len() - k,
    {
        proof {
            lemma_byte_offset_step(t@, k as int);
            lemma_byte_offset_mono(t@, k as int + 1, t.len() as int);
            lemma_byte_offset_full(t@);
        }
        let w = char_width(t[k]);
        if acc + w > b {
            return k;
        }
        acc = acc + w;
        k = k + 1;
    }
    k
}


/// `b` is the byte offset of some char index of `s` (a char boundary).
pub open spec fn is_char_boundary_at(s: Seq<char>, b: int) -> bool {
    exists|i: int| 0 <= i <= s.len() && byte_offset(s, i) == b
}

// ---------------------------------------------------------------------------
// Lines. A line is a maximal run without '\n'; positions are char indices.
// ---------------------------------------------------------------------------

/// The char index where the line containing index `i` starts.
pub open spec fn line_start(s: Seq<char>, i: int) -> int
    decreases i,
{
    if i <= 0 {
        0
    } else if s[i - 1] == '\n' {
        i
    } else {
        line_start(s, i - 1)
    }
}

/// The char index of the '\n' ending the line containing `i` (or the text end).
pub open spec fn line_end(s: Seq<char>, i: int) -> int
    decreases s.len() - i,
{
    if i >= s.len() {
        s.len() as int
    } else if s[i] == '\n' {
        i
    } else {
        line_end(s, i + 1)
    }
}

pub proof fn lemma_line_start(s: Seq<char>, i: int)
    requires
        0 <= i <= s.len(),
    ensures
        0 <= line_start(s, i) <= i,
        line_start(s, i) == 0 || s[line_start(s, i) - 1] == '\n',
        forall|k: int| line_start(s, i) <= k < i ==> s[k] != '\n',
    decreases i,
{
    if i > 0 && s[i - 1] != '\n' {
        lemma_line_start(s, i - 1);
    }
}

pub proof fn lemma_line_end(s: Seq<char>, i: int)
    requires
        0 <= i <= s.len(),
    ensures
        i <= line_end(s, i) <= s.len(),
        line_end(s, i) == s.len() || s[line_end(s, i)] == '\n',
        forall|k: int| i <= k < line_end(s, i) ==> s[k] != '\n',
    decreases s.len() - i,
{
    if i < s.len() && s[i] != '\n' {
        lemma_line_end(s, i + 1);
    }
}

/// Every index of a line shares the line's start.
pub proof fn lemma_line_start_same(s: Seq<char>, i: int, j: int)
    requires
        0 <= i <= j <= s.len(),
        forall|k: int| i <= k < j ==> s[k] != '\n',
    ensures
        line_start(s, j) == line_start(s, i),
    decreases j - i,
{
    if i < j {
        lemma_line_start_same(s, i, j - 1);
    }
}

/// Every index of a line shares the line's end.
pub proof fn lemma_line_end_same(s: Seq<char>, i: int, j: int)
    requires
        0 <= i <= j <= s.len(),
        forall|k: int| i <= k < j ==> s[k] != '\n',
    ensures
        line_end(s, j) == line_end(s, i),
    decreases j - i,
{
    if i < j {
        lemma_line_end_same(s, i + 1, j);
    }
}

/// The end of the line's visible content: its end, minus a trailing `'\r'` of a
/// `"\r\n"` break.
pub open spec fn content_end(s: Seq<char>, i: int) -> int {
    let ls = line_start(s, i);
    let le = line_end(s, i);
    if le > ls && s[le - 1] == '\r' {
        le - 1
    } else {
        le
    }
}

/// The char index where line `ls` starts (scan from a line start).
pub fn line_start_of(t: &Vec<char>, i: usize) -> (r: usize)
    requires
        i <= t.len(),
    ensures
        r == line_start(t@, i as int),
{
    let mut j = i;
    while j > 0 && t[j - 1] != '\n'
        invariant
            j <= i <= t.len(),
            line_start(t@, j as int) == line_start(t@, i as int),
        decreases j,
    {
        j = j - 1;
    }
    j
}

/// The char index of the line break ending the line containing `i`.
pub fn line_end_of(t: &Vec<char>, i: usize) -> (r: usize)
    requires
        i <= t.len(),
    ensures
        r == line_end(t@, i as int),
{
    let mut j = i;
    while j < t.len() && t[j] != '\n'
        invariant
            i <= j <= t.len(),
            line_end(t@, j as int) == line_end(t@, i as int),
        decreases t.len() - j,
    {
        j = j + 1;
    }
    j
}

/// The end of the visible content of the line containing `i`.
pub fn content_end_of(t: &Vec<char>, i: usize) -> (r: usize)
    requires
        i <= t.len(),
    ensures
        r == content_end(t@, i as int),
{
    proof {
        lemma_line_start(t@, i as int);
        lemma_line_end(t@, i as int);
    }
    let ls = line_start_of(t, i);
    let le = line_end_of(t, i);
    if le > ls && t[le - 1] == '\r' {
        le - 1
    } else {
        le
    }
}

// ---------------------------------------------------------------------------
// Char classes and grapheme clusters, from std and `unicode-segmentation`.
// ---------------------------------------------------------------------------

/// The Unicode `White_Space` property (the code points `char::is_whitespace`
/// documents as whitespace).
pub open spec fn is_white_space(c: char) -> bool {
    let u = c as u32;
    ||| 0x9 <= u <= 0xd
    ||| u == 0x20
    ||| u == 0x85
    ||| u == 0xa0
    ||| u == 0x1680
    ||| 0x2000 <= u <= 0x200a
    ||| u == 0x2028
    ||| u == 0x2029
    ||| u == 0x202f
    ||| u == 0x205f
    ||| u == 0x3000
}

/// Whether `c` is white space: true exactly for the `White_Space` code points
/// (what `char::is_whitespace` answers).
pub(crate) fn char_is_whitespace(c: char) -> (r: bool)
    ensures
        r == is_white_space(c),
{
    let u = c as u32;
    (0x9 <= u && u <= 0xd) || u == 0x20 || u == 0x85 || u == 0xa0 || u == 0x1680 || (0x2000 <= u && u <= 0x200a)
        || u == 0x2028 || u == 0x2029 || u == 0x202f || u == 0x205f || u == 0x3000
}

/// What `char::is_alphanumeric` answers for `c` (Unicode `Alphabetic` or
/// `Numeric`; the tables are std's).
pub uninterp spec fn spec_is_alphanumeric(c: char) -> bool;

/// `char::is_alphanumeric`; the result is named by [`spec_is_alphanumeric`].
#[verifier::external_body]
pub(crate) fn char_is_alphanumeric(c: char) -> (r: bool)
    ensures
        r == spec_is_alphanumeric(c),
{
    c.is_alphanumeric()
}

/// `String: FromIterator<&char>` — the chars collected into a string.
#[verifier::external_body]
pub(crate) fn chars_to_string(v: &Vec<char>) -> (s: String)
    ensures
        s@ == v@,
{
    v.iter().collect()
}

/// `str::chars` collected into a vector: the string's chars in order.
#[verifier::external_body]
pub(crate) fn str_to_chars(s: &str) -> (v: Vec<char>)
    ensures
        v@ == s@,
{
    s.chars().collect()
}

/// What `unicode_segmentation::GraphemeCursor::next_boundary` returns for a
/// cursor at byte `offset` of `s`, given the whole string as one chunk, with
/// extended grapheme clusters.
pub uninterp spec fn spec_next_grapheme_boundary(s: Seq<char>, offset: usize) -> Option<usize>;

/// What `unicode_segmentation::GraphemeCursor::prev_boundary` returns for a
/// cursor at byte `offset` of `s`, given the whole string as one chunk, with
/// extended grapheme clusters.
pub uninterp spec fn spec_prev_grapheme_boundary(s: Seq<char>, offset: usize) -> Option<usize>;

/// `GraphemeCursor::new(offset, s.len(), true).next_boundary(s, 0)`. With the
/// whole string as the chunk no `GraphemeIncomplete` can arise; the cursor
/// consumes at least one char before it reports a boundary, so a cursor before
/// the end finds one after itself and no further than the end, and a cursor at
/// the end gets `None`. A boundary is a byte index of `s` between chars.
#[verifier::external_body]
fn next_grapheme_boundary(s: &str, offset: usize) -> (r: Option<usize>)
    requires
        is_char_boundary_at(s@, offset as int),
    ensures
        r == spec_next_grapheme_boundary(s@, offset),
        offset < byte_len(s@) ==> r.is_some() && offset < r.unwrap() <= byte_len(s@),
        offset == byte_len(s@) ==> r.is_none(),
        r.is_some() ==> is_char_boundary_at(s@, r.unwrap() as int),
{
    let mut cursor = GraphemeCursor::new(offset, s.len(), true);
    cursor.next_boundary(s, 0).ok().flatten()
}

/// `GraphemeCursor::new(offset, s.len(), true).prev_boundary(s, 0)`: from a
/// cursor after the start, the boundary before it; `None` at the start. A
/// boundary is a byte index of `s` between chars.
#[verifier::external_body]
fn prev_grapheme_boundary(s: &str, offset: usize) -> (r: Option<usize>)
    requires
        is_char_boundary_at(s@, offset as int),
    ensures
        r == spec_prev_grapheme_boundary(s@, offset),
        0 < offset ==> r.is_some() && r.unwrap() < offset,
        offset == 0 ==> r.is_none(),
        r.is_some() ==> is_char_boundary_at(s@, r.unwrap() as int),
{
    let mut cursor = GraphemeCursor::new(offset, s.len(), true);
    cursor.prev_boundary(s, 0).ok().flatten()
}

/// The largest char index whose byte offset is at most `b`, searching from `k`.
pub open spec fn clip_byte_from(s: Seq<char>, b: int, k: int) -> int
    decreases s.len() - k,
{
    if k >= s.len() {
        s.len() as int
    } else if byte_offset(s, k + 1) > b {
        k
    } else {
        clip_byte_from(s, b, k + 1)
    }
}

/// A byte offset clipped leftward onto a char boundary: the largest char index
/// whose byte offset is at most `b` (the text end when `b` is past it).
pub open spec fn clip_byte(s: Seq<char>, b: int) -> int {
    clip_byte_from(s, b, 0)
}

/// One extended grapheme cluster right of char index `head` (the end stays put).
pub open spec fn grapheme_right(s: Seq<char>, head: int) -> int {
    if head >= s.len() {
        head
    } else {
        match spec_next_grapheme_boundary(s, byte_offset(s, head) as usize) {
            Some(b) => clip_byte(s, b as int),
            None => head,
        }
    }
}

/// One extended grapheme cluster left of char index `head` (the start stays put).
pub open spec fn grapheme_left(s: Seq<char>, head: int) -> int {
    if head <= 0 {
        head
    } else {
        match spec_prev_grapheme_boundary(s, byte_offset(s, head) as usize) {
            Some(b) => clip_byte(s, b as int),
            None => head,
        }
    }
}

/// The char index one grapheme cluster right of `head`.
pub fn grapheme_right_of(t: &Vec<char>, head: usize) -> (r: usize)
    requires
        head <= t.len(),
        byte_len(t@) <= usize::MAX,
    ensures
        r == grapheme_right(t@, head as int),
        head <= r <= t.len(),
        head < t.len() ==> head < r,
{
    if head >= t.len() {
        return head;
    }
    let s = chars_to_string(t);
    let off = byte_offset_of(t, head);
    let st = s.as_str();
    proof {
        lemma_byte_offset_mono(t@, head as int, t.len() as int);
        lemma_byte_offset_full(t@);
        assert(st@ == t@);
        assert(0 <= head <= t@.len() && byte_offset(t@, head as int) == off);
    }
    match next_grapheme_boundary(st, off) {
        Some(b) => {
            proof {
                let i = choose|i: int| 0 <= i <= t@.len() && byte_offset(t@, i) == b;
                lemma_clip_byte_offset(t@, i);
                if i <= head {
                    lemma_byte_offset_mono(t@, i, head as int);
                }
            }
            char_index_at_byte(t, b)
        },
        None => head,
    }
}

/// The char index one grapheme cluster left of `head`.
pub fn grapheme_left_of(t: &Vec<char>, head: usize) -> (r: usize)
    requires
        head <= t.len(),
        byte_len(t@) <= usize::MAX,
    ensures
        r == grapheme_left(t@, head as int),
        r <= head,
        0 < head ==> r < head,
{
    if head == 0 {
        return head;
    }
    let s = chars_to_string(t);
    let off = byte_offset_of(t, head);
    let st = s.as_str();
    proof {
        assert(st@ == t@);
        assert(0 <= head <= t@.len() && byte_offset(t@, head as int) == off);
    }
    match prev_grapheme_boundary(st, off) {
        Some(b) => {
            proof {
                let i = choose|i: int| 0 <= i <= t@.len() && byte_offset(t@, i) == b;
                lemma_clip_byte_offset(t@, i);
                if i >= head {
                    lemma_byte_offset_mono(t@, head as int, i);
                }
            }
            char_index_at_byte(t, b)
        },
        None => head,
    }
}

// ---------------------------------------------------------------------------
// Edits: sorted, non-overlapping `(from, to, inserted)` replacements, with
// positions as char indices of the text before the edit.
// ---------------------------------------------------------------------------

/// An edit list over a text of `len` chars: each range in bounds, ranges in
/// order and non-overlapping (they may touch).
pub open spec fn edits_wf(es: Seq<(int, int, Seq<char>)>, len: int) -> bool {
    &&& forall|k: int| 0 <= k < es.len() ==> 0 <= (#[trigger] es[k]).0 <= es[k].1 <= len
    &&& forall|j: int, k: int| 0 <= j < k < es.len() ==> (#[trigger] es[j]).1 <= (#[trigger] es[k]).0
}

/// The text with every edit applied: each `[from, to)` replaced by its text.
pub open spec fn apply_edits(t: Seq<char>, es: Seq<(int, int, Seq<char>)>) -> Seq<char>
    decreases es.len(),
{
    if es.len() == 0 {
        t
    } else {
        let e = es.last();
        apply_edits(t.take(e.0), es.drop_last()) + e.2 + t.skip(e.1)
    }
}

/// The old end of the edit before edit `k` (0 before the first).
pub open spec fn prev_to(es: Seq<(int, int, Seq<char>)>, k: int) -> int {
    if k <= 0 {
        0
    } else {
        es[k - 1].1
    }
}

/// Where the text inserted by edit `k` ends in the edited text (0 for `k < 0`).
pub open spec fn new_end(es: Seq<(int, int, Seq<char>)>, k: int) -> int
    decreases k + 1,
{
    if k < 0 {
        0
    } else {
        new_end(es, k - 1) + (es[k].0 - prev_to(es, k)) + es[k].2.len()
    }
}

/// The char index that old position `p` (with `bias`) maps to, scanning edits
/// from `k`: positions before an edit shift with the edits before them; a
/// position at an edit's start keeps left of the inserted text with
/// [`Bias::Left`](crate::selection::Bias); a position inside a replaced range,
/// at its end, or at its start with the right bias lands after the inserted text.
pub open spec fn map_from(es: Seq<(int, int, Seq<char>)>, p: int, left: bool, k: int) -> int
    decreases es.len() - k,
{
    let base_old = prev_to(es, k);
    let base_new = new_end(es, k - 1);
    if k < 0 || k >= es.len() {
        base_new + (p - base_old)
    } else if p < es[k].0 || (p == es[k].0 && left) {
        base_new + (p - base_old)
    } else if p <= es[k].1 {
        new_end(es, k)
    } else {
        map_from(es, p, left, k + 1)
    }
}

/// The char index an old position maps to through the whole edit list.
pub open spec fn map_index(es: Seq<(int, int, Seq<char>)>, p: int, left: bool) -> int {
    map_from(es, p, left, 0)
}

/// The edited text's length.
pub open spec fn edited_len(es: Seq<(int, int, Seq<char>)>, len: int) -> int {
    new_end(es, es.len() - 1) + (len - prev_to(es, es.len() as int))
}

/// Applying a prefix of the edits to a longer prefix of the text only appends
/// the untouched text between them.
pub proof fn lemma_apply_edits_prefix(t: Seq<char>, es: Seq<(int, int, Seq<char>)>, y: int, x: int)
    requires
        0 <= y <= x <= t.len(),
        forall|k: int| 0 <= k < es.len() ==> 0 <= (#[trigger] es[k]).0 <= es[k].1 <= y,
    ensures
        apply_edits(t.take(x), es) == apply_edits(t.take(y), es) + t.subrange(y, x),
    decreases es.len(),
{
    if es.len() == 0 {
        assert(t.take(x) =~= t.take(y) + t.subrange(y, x));
    } else {
        let e = es.last();
        let d = es.drop_last();
        assert(es[es.len() - 1] == e);
        assert(t.take(x).take(e.0) =~= t.take(e.0));
        assert(t.take(y).take(e.0) =~= t.take(e.0));
        assert(t.take(x).skip(e.1) =~= t.take(y).skip(e.1) + t.subrange(y, x));
        assert(apply_edits(t.take(x), es) == apply_edits(t.take(x).take(e.0), d) + e.2 + t.take(x).skip(e.1));
        assert(apply_edits(t.take(y), es) == apply_edits(t.take(y).take(e.0), d) + e.2 + t.take(y).skip(e.1));
        assert(apply_edits(t.take(x), es) =~= apply_edits(t.take(y), es) + t.subrange(y, x));
    }
}

pub proof fn lemma_new_end_nonneg(es: Seq<(int, int, Seq<char>)>, len: int, j: int)
    requires
        edits_wf(es, len),
        -1 <= j < es.len(),
    ensures
        0 <= new_end(es, j),
    decreases j + 1,
{
    if j >= 0 {
        lemma_new_end_nonneg(es, len, j - 1);
        if j >= 1 {
            assert(es[j - 1].1 <= es[j].0);
        }
    }
}

pub proof fn lemma_new_end_mono(es: Seq<(int, int, Seq<char>)>, len: int, j: int, k: int)
    requires
        edits_wf(es, len),
        -1 <= j <= k < es.len(),
    ensures
        new_end(es, j) <= new_end(es, k),
        0 <= new_end(es, j),
    decreases k - j,
{
    lemma_new_end_nonneg(es, len, j);
    if j < k {
        lemma_new_end_mono(es, len, j, k - 1);
        if k >= 1 {
            assert(es[k - 1].1 <= es[k].0);
        }
    }
}

/// A mapped position never precedes the edit boundary it scans from.
pub proof fn lemma_map_from_lower(es: Seq<(int, int, Seq<char>)>, len: int, p: int, left: bool, k: int)
    requires
        edits_wf(es, len),
        0 <= k <= es.len(),
        prev_to(es, k) <= p <= len,
    ensures
        new_end(es, k - 1) <= map_from(es, p, left, k),
        map_from(es, p, left, k) <= edited_len(es, len),
    decreases es.len() - k,
{
    let n = es.len() as int;
    lemma_new_end_mono(es, len, k - 1, n - 1);
    if k < n {
        lemma_new_end_mono(es, len, k, n - 1);
        if p < es[k].0 || (p == es[k].0 && left) {
        } else if p <= es[k].1 {
        } else {
            lemma_map_from_lower(es, len, p, left, k + 1);
            lemma_new_end_mono(es, len, k, k);
        }
        // the untouched tail after the last edit
        if n > 0 {
            assert(es[n - 1].1 <= len);
            if k < n - 1 {
                assert(es[k].1 <= es[n - 1].0);
            }
        }
    }
}

/// Mapping is monotone: a strictly earlier old position never maps later.
pub proof fn lemma_map_from_mono(
    es: Seq<(int, int, Seq<char>)>,
    len: int,
    p: int,
    lp: bool,
    q: int,
    lq: bool,
    k: int,
)
    requires
        edits_wf(es, len),
        0 <= k <= es.len(),
        prev_to(es, k) <= p,
        p < q || (p == q && lp == lq),
        q <= len,
    ensures
        map_from(es, p, lp, k) <= map_from(es, q, lq, k),
    decreases es.len() - k,
{
    let n = es.len() as int;
    if k < n {
        let f = es[k].0;
        let to = es[k].1;
        if p < f || (p == f && lp) {
            if q < f || (q == f && lq) {
            } else if q <= to {
                lemma_new_end_mono(es, len, k - 1, k);
            } else {
                lemma_map_from_lower(es, len, q, lq, k + 1);
                lemma_new_end_mono(es, len, k - 1, k);
            }
        } else if p <= to {
            if q <= to {
            } else {
                lemma_map_from_lower(es, len, q, lq, k + 1);
            }
        } else {
            lemma_map_from_mono(es, len, p, lp, q, lq, k + 1);
        }
    }
}

/// The exec view of an edit list.
pub open spec fn edits_view(es: Seq<(usize, usize, Vec<char>)>) -> Seq<(int, int, Seq<char>)> {
    es.map_values(|e: (usize, usize, Vec<char>)| (e.0 as int, e.1 as int, e.2@))
}

/// Apply a sorted, non-overlapping char edit list to `t`.
pub fn apply_char_edits(t: &Vec<char>, es: &Vec<(usize, usize, Vec<char>)>) -> (r: Vec<char>)
    requires
        edits_wf(edits_view(es@), t.len() as int),
    ensures
        r@ == apply_edits(t@, edits_view(es@)),
        r.len() == edited_len(edits_view(es@), t.len() as int),
{
    let ghost ev = edits_view(es@);
    let n = es.len();
    let mut out: Vec<char> = Vec::new();
    let mut pos: usize = 0;
    let mut k: usize = 0;
    proof {
        assert(t@.take(0) =~= Seq::<char>::empty());
        assert(ev.take(0) =~= Seq::<(int, int, Seq<char>)>::empty());
    }
    while k < n
        invariant
            n == es.len(),
            ev == edits_view(es@),
            ev.len() == n,
            edits_wf(ev, t.len() as int),
            k <= n,
            pos == prev_to(ev, k as int),
            pos <= t.len(),
            out@ == apply_edits(t@.take(pos as int), ev.take(k as int)),
            out.len() == new_end(ev, k as int - 1),
        decreases n - k,
    {
        let f = es[k].0;
        let to = es[k].1;
        proof {
            assert(ev[k as int] == (f as int, to as int, es@[k as int].2@));
            if k > 0 {
                assert(ev[k as int - 1].1 <= ev[k as int].0);
            }
            assert forall|j: int| 0 <= j < ev.take(k as int).len() implies 0 <= (#[trigger] ev.take(k as int)[j]).0
                <= ev.take(k as int)[j].1 <= pos by {
                assert(ev.take(k as int)[j] == ev[j]);
                if j < k - 1 {
                    assert(ev[j].1 <= ev[k as int - 1].0);
                }
            }
            lemma_apply_edits_prefix(t@, ev.take(k as int), pos as int, f as int);
        }
        let mut i = pos;
        while i < f
            invariant
                pos <= i <= f <= t.len(),
                out@ == apply_edits(t@.take(pos as int), ev.take(k as int)) + t@.subrange(pos as int, i as int),
            decreases f - i,
        {
            out.push(t[i]);
            proof {
                assert(t@.subrange(pos as int, i as int + 1) =~= t@.subrange(pos as int, i as int).push(t@[i as int]));
            }
            i = i + 1;
        }
        let ins = &es[k].2;
        let m = ins.len();
        let mut j: usize = 0;
        let ghost before_ins = out@;
        while j < m
            invariant
                m == ins.len(),
                j <= m,
                out@ == before_ins + ins@.take(j as int),
            decreases m - j,
        {
            out.push(ins[j]);
            proof {
                assert(ins@.take(j as int + 1) =~= ins@.take(j as int).push(ins@[j as int]));
            }
            j = j + 1;
        }
        proof {
            assert(ins@.take(m as int) =~= ins@);
            let tk = t@.take(to as int);
            assert(ev.take(k as int + 1).drop_last() =~= ev.take(k as int));
            assert(ev.take(k as int + 1).last() == ev[k as int]);
            assert(tk.take(f as int) =~= t@.take(f as int));
            assert(tk.skip(to as int) =~= Seq::<char>::empty());
            assert(apply_edits(tk, ev.take(k as int + 1)) == apply_edits(tk.take(f as int), ev.take(k as int)) + ins@ + tk.skip(to as int));
            assert(out@ =~= apply_edits(t@.take(to as int), ev.take(k as int + 1)));
        }
        pos = to;
        k = k + 1;
    }
    proof {
        assert(ev.take(n as int) =~= ev);
        assert forall|j: int| 0 <= j < ev.len() implies 0 <= (#[trigger] ev[j]).0 <= ev[j].1 <= pos by {
            if j < n - 1 {
                assert(ev[j].1 <= ev[n as int - 1].0);
            }
        }
        lemma_apply_edits_prefix(t@, ev, pos as int, t.len() as int);
        assert(t@.take(t.len() as int) =~= t@);
    }
    let len = t.len();
    let mut i = pos;
    while i < len
        invariant
            pos <= i <= len == t.len(),
            out@ == apply_edits(t@.take(pos as int), ev) + t@.subrange(pos as int, i as int),
        decreases len - i,
    {
        out.push(t[i]);
        proof {
            assert(t@.subrange(pos as int, i as int + 1) =~= t@.subrange(pos as int, i as int).push(t@[i as int]));
        }
        i = i + 1;
    }
    out
}

/// A copy of a char edit list.
pub fn copy_char_edits(es: &Vec<(usize, usize, Vec<char>)>) -> (r: Vec<(usize, usize, Vec<char>)>)
    ensures
        edits_view(r@) == edits_view(es@),
{
    let n = es.len();
    let mut r: Vec<(usize, usize, Vec<char>)> = Vec::new();
    let mut k: usize = 0;
    while k < n
        invariant
            n == es.len(),
            k <= n,
            edits_view(r@) == edits_view(es@).take(k as int),
        decreases n - k,
    {
        let text = es[k].2.clone();
        proof {
            assert(text@ =~= es@[k as int].2@);
        }
        let ghost r0 = r@;
        proof {
            assert(edits_view(r0).len() == r0.len());
        }
        r.push((es[k].0, es[k].1, text));
        proof {
            assert forall|i: int| 0 <= i < k implies edits_view(r@)[i] == edits_view(es@)[i] by {
                assert(r@[i] == r0[i]);
                assert(edits_view(r0)[i] == edits_view(es@).take(k as int)[i]);
            }
            assert(edits_view(r@) =~= edits_view(es@).take(k as int + 1));
        }
        k = k + 1;
    }
    proof {
        assert(edits_view(es@).take(n as int) =~= edits_view(es@));
    }
    r
}

/// The edits that take the edited text back: edit `k` of `es` replaced
/// `before[from, to)` by its text; in the edited text that text sits at
/// `[new start, new end)`, and putting `before[from, to)` back there undoes it.
pub open spec fn inverse_edits(es: Seq<(int, int, Seq<char>)>, before: Seq<char>) -> Seq<(int, int, Seq<char>)> {
    Seq::new(
        es.len(),
        |k: int| (new_end(es, k - 1) + (es[k].0 - prev_to(es, k)), new_end(es, k), before.subrange(es[k].0, es[k].1)),
    )
}

proof fn lemma_inverse_new_end(es: Seq<(int, int, Seq<char>)>, before: Seq<char>, k: int)
    requires
        edits_wf(es, before.len() as int),
        -1 <= k < es.len(),
    ensures
        new_end(inverse_edits(es, before), k) == (if k < 0 { 0 } else { es[k].1 }),
    decreases k + 1,
{
    if k >= 0 {
        lemma_inverse_new_end(es, before, k - 1);
        if k >= 1 {
            assert(es[k - 1].1 <= es[k].0);
        }
    }
}

/// The inverse edits are sorted, non-overlapping edits of the edited text,
/// and they give back a text of the old length.
pub proof fn lemma_inverse_edits(es: Seq<(int, int, Seq<char>)>, before: Seq<char>)
    requires
        edits_wf(es, before.len() as int),
    ensures
        edits_wf(inverse_edits(es, before), edited_len(es, before.len() as int)),
        edited_len(inverse_edits(es, before), edited_len(es, before.len() as int)) == before.len(),
{
    let len = before.len() as int;
    let inv = inverse_edits(es, before);
    let n = es.len() as int;
    if n > 0 {
        lemma_new_end_mono(es, len, n - 1, n - 1);
        lemma_inverse_new_end(es, before, n - 1);
    }
    assert forall|k: int| 0 <= k < inv.len() implies 0 <= (#[trigger] inv[k]).0 <= inv[k].1 <= edited_len(es, len) by {
        lemma_new_end_mono(es, len, k - 1, k);
        lemma_new_end_mono(es, len, k, n - 1);
        if k >= 1 {
            assert(es[k - 1].1 <= es[k].0);
        }
    }
    assert forall|j: int, k: int| 0 <= j < k < inv.len() implies (#[trigger] inv[j]).1 <= (#[trigger] inv[k]).0 by {
        lemma_new_end_mono(es, len, j, k - 1);
        assert(es[k - 1].1 <= es[k].0);
    }
}

/// The edits that take the text `es` made from `before` back to `before`.
pub fn inverse_char_edits(es: &Vec<(usize, usize, Vec<char>)>, before: &Vec<char>) -> (r: Vec<(usize, usize, Vec<char>)>)
    requires
        edits_wf(edits_view(es@), before.len() as int),
        edited_len(edits_view(es@), before.len() as int) <= usize::MAX,
    ensures
        edits_view(r@) == inverse_edits(edits_view(es@), before@),
{
    let ghost ev = edits_view(es@);
    let ghost inv = inverse_edits(ev, before@);
    let ghost len = before.len() as int;
    let n = es.len();
    let mut r: Vec<(usize, usize, Vec<char>)> = Vec::new();
    let mut base_old: usize = 0;
    let mut base_new: usize = 0;
    let mut k: usize = 0;
    while k < n
        invariant
            n == es.len(),
            ev == edits_view(es@),
            ev.len() == n,
            inv == inverse_edits(ev, before@),
            len == before.len(),
            edits_wf(ev, len),
            edited_len(ev, len) <= usize::MAX,
            k <= n,
            base_old == prev_to(ev, k as int),
            base_new == new_end(ev, k as int - 1),
            edits_view(r@) == inv.take(k as int),
        decreases n - k,
    {
        let f = es[k].0;
        let to = es[k].1;
        proof {
            assert(ev[k as int] == (f as int, to as int, es@[k as int].2@));
            if k > 0 {
                assert(ev[k as int - 1].1 <= ev[k as int].0);
            }
            lemma_new_end_mono(ev, len, k as int, n as int - 1);
            lemma_new_end_mono(ev, len, k as int - 1, k as int);
            assert(ev[n as int - 1].1 <= len);
        }
        let start = base_new + (f - base_old);
        let end_k = start + es[k].2.len();
        let mut text: Vec<char> = Vec::new();
        let mut c: usize = f;
        while c < to
            invariant
                f <= c <= to <= before.len(),
                text@ == before@.subrange(f as int, c as int),
            decreases to - c,
        {
            text.push(before[c]);
            proof {
                assert(text@ =~= before@.subrange(f as int, c as int + 1));
            }
            c = c + 1;
        }
        let ghost r0 = r@;
        let ghost tv = text@;
        proof {
            assert(edits_view(r0).len() == r0.len());
            assert(r0.len() == k);
        }
        r.push((start, end_k, text));
        proof {
            assert(new_end(ev, k as int) == new_end(ev, k as int - 1) + (ev[k as int].0 - prev_to(ev, k as int))
                + ev[k as int].2.len());
            assert(inv[k as int] == (start as int, end_k as int, tv));
            assert(r@[k as int].2@ == tv);
            assert(edits_view(r@)[k as int] == (start as int, end_k as int, tv));
            assert forall|i: int| 0 <= i < k implies edits_view(r@)[i] == inv[i] by {
                assert(r@[i] == r0[i]);
                assert(edits_view(r0)[i] == inv.take(k as int)[i]);
            }
            assert(edits_view(r@) =~= inv.take(k as int + 1));
        }
        base_old = to;
        base_new = end_k;
        k = k + 1;
    }
    proof {
        assert(inv.take(n as int) =~= inv);
    }
    r
}

/// Map an old char index through a sorted, non-overlapping edit list.
pub fn map_char_index(es: &Vec<(usize, usize, Vec<char>)>, len: usize, p: usize, left: bool) -> (r: usize)
    requires
        edits_wf(edits_view(es@), len as int),
        p <= len,
        edited_len(edits_view(es@), len as int) <= usize::MAX,
    ensures
        r == map_index(edits_view(es@), p as int, left),
        r <= edited_len(edits_view(es@), len as int),
{
    let ghost ev = edits_view(es@);
    let n = es.len();
    let mut base_old: usize = 0;
    let mut base_new: usize = 0;
    let mut k: usize = 0;
    proof {
        lemma_map_from_lower(ev, len as int, p as int, left, 0);
    }
    while k < n
        invariant
            n == es.len(),
            ev == edits_view(es@),
            ev.len() == n,
            edits_wf(ev, len as int),
            p <= len,
            edited_len(ev, len as int) <= usize::MAX,
            k <= n,
            base_old == prev_to(ev, k as int),
            base_new == new_end(ev, k as int - 1),
            base_old <= p,
            map_from(ev, p as int, left, k as int) == map_from(ev, p as int, left, 0),
        decreases n - k,
    {
        let f = es[k].0;
        let to = es[k].1;
        proof {
            assert(ev[k as int] == (f as int, to as int, es@[k as int].2@));
            if k > 0 {
                assert(ev[k as int - 1].1 <= ev[k as int].0);
            }
            lemma_new_end_mono(ev, len as int, k as int, n as int - 1);
            lemma_new_end_mono(ev, len as int, k as int - 1, k as int);
            assert(ev[n as int - 1].1 <= len);
            if k < n - 1 {
                assert(ev[k as int].1 <= ev[n as int - 1].0);
            }
        }
        let end_k = base_new + (f - base_old) + es[k].2.len();
        if p < f || (p == f && left) {
            return base_new + (p - base_old);
        } else if p <= to {
            return end_k;
        }
        base_old = to;
        base_new = end_k;
        k = k + 1;
    }
    proof {
        if n > 0 {
            assert(ev[n as int - 1].1 <= len);
        }
    }
    base_new + (p - base_old)
}

pub proof fn lemma_clip_byte_from(s: Seq<char>, b: int, k: int)
    requires
        0 <= k <= s.len(),
        byte_offset(s, k) <= b,
    ensures
        k <= clip_byte_from(s, b, k) <= s.len(),
        byte_offset(s, clip_byte_from(s, b, k)) <= b,
        clip_byte_from(s, b, k) == s.len() || b < byte_offset(s, clip_byte_from(s, b, k) + 1),
    decreases s.len() - k,
{
    if k < s.len() && byte_offset(s, k + 1) <= b {
        lemma_clip_byte_from(s, b, k + 1);
    }
}

/// The clipped index is the largest whose byte offset does not pass `b`.
pub proof fn lemma_clip_byte(s: Seq<char>, b: int)
    requires
        0 <= b,
    ensures
        0 <= clip_byte(s, b) <= s.len(),
        byte_offset(s, clip_byte(s, b)) <= b,
        clip_byte(s, b) == s.len() || b < byte_offset(s, clip_byte(s, b) + 1),
{
    assert(s.take(0) =~= Seq::<char>::empty());
    lemma_clip_byte_from(s, b, 0);
}

/// Clipping is monotone.
pub proof fn lemma_clip_byte_mono(s: Seq<char>, a: int, b: int)
    requires
        0 <= a <= b,
    ensures
        clip_byte(s, a) <= clip_byte(s, b),
{
    lemma_clip_byte(s, a);
    lemma_clip_byte(s, b);
    let i = clip_byte(s, a);
    let j = clip_byte(s, b);
    if i > j {
        lemma_byte_offset_mono(s, j + 1, i);
    }
}

/// Clipping the byte offset of a char index gives that index back.
pub proof fn lemma_clip_byte_offset(s: Seq<char>, i: int)
    requires
        0 <= i <= s.len(),
    ensures
        clip_byte(s, byte_offset(s, i) as int) == i,
{
    let b = byte_offset(s, i) as int;
    lemma_clip_byte(s, b);
    let j = clip_byte(s, b);
    if j < i {
        lemma_byte_offset_mono(s, j + 1, i);
    } else if j > i {
        lemma_byte_offset_mono(s, i, j);
    }
}

/// The UTF-8 length of the text, or `None` when it does not fit in `usize`.
pub fn checked_byte_len(t: &Vec<char>) -> (r: Option<usize>)
    ensures
        r is Some <==> byte_len(t@) <= usize::MAX,
        r matches Some(b) ==> b == byte_len(t@),
{
    let mut acc: usize = 0;
    let mut k: usize = 0;
    proof {
        assert(t@.take(0) =~= Seq::<char>::empty());
        lemma_byte_offset_full(t@);
    }
    while k < t.len()
        invariant
            k <= t.len(),
            acc == byte_offset(t@, k as int),
        decreases t.len() - k,
    {
        proof {
            lemma_byte_offset_step(t@, k as int);
            lemma_byte_offset_mono(t@, k as int + 1, t.len() as int);
            lemma_byte_offset_full(t@);
        }
        let w = char_width(t[k]);
        if acc > usize::MAX - w {
            return None;
        }
        acc = acc + w;
        k = k + 1;
    }
    proof {
        lemma_byte_offset_full(t@);
    }
    Some(acc)
}

pub proof fn lemma_byte_len_single(c: char)
    ensures
        byte_len(seq![c]) == utf8_width(c),
{
    let one = seq![c];
    assert(one.drop_last() =~= Seq::<char>::empty());
    assert(byte_len(Seq::<char>::empty()) == 0);
}

pub proof fn lemma_byte_len_first(s: Seq<char>)
    requires
        s.len() > 0,
    ensures
        byte_len(s) == utf8_width(s[0]) + byte_len(s.drop_first()),
{
    assert(s =~= seq![s[0]] + s.drop_first());
    lemma_byte_len_concat(seq![s[0]], s.drop_first());
    lemma_byte_len_single(s[0]);
}

/// The UTF-8 length agrees with vstd's encoding.
pub proof fn lemma_encode_utf8_len(s: Seq<char>)
    ensures
        vstd::utf8::encode_utf8(s).len() == byte_len(s),
    decreases s.len(),
{
    if s.len() > 0 {
        lemma_byte_len_first(s);
        lemma_encode_utf8_len(s.drop_first());
        let u = s[0] as u32;
        vstd::utf8::char_is_scalar(s[0]);
    }
}

/// `"\r\n"` and a lone `'\r'` become `'\n'`.
pub open spec fn normalize_line_endings(s: Seq<char>) -> Seq<char>
    decreases s.len(),
{
    if s.len() == 0 {
        s
    } else if s[0] == '\r' {
        if s.len() > 1 && s[1] == '\n' {
            seq!['\n'] + normalize_line_endings(s.skip(2))
        } else {
            seq!['\n'] + normalize_line_endings(s.skip(1))
        }
    } else {
        seq![s[0]] + normalize_line_endings(s.skip(1))
    }
}

pub proof fn lemma_normalize_line_endings_bytes(s: Seq<char>)
    ensures
        byte_len(normalize_line_endings(s)) <= byte_len(s),
    decreases s.len(),
{
    if s.len() > 0 {
        lemma_byte_len_first(s);
        let n = normalize_line_endings(s);
        if s[0] == '\r' && s.len() > 1 && s[1] == '\n' {
            lemma_normalize_line_endings_bytes(s.skip(2));
            lemma_byte_len_first(s.drop_first());
            assert(s.drop_first().drop_first() =~= s.skip(2));
            lemma_byte_len_concat(seq!['\n'], normalize_line_endings(s.skip(2)));
            lemma_byte_len_single('\n');
        } else {
            lemma_normalize_line_endings_bytes(s.skip(1));
            assert(s.drop_first() =~= s.skip(1));
            let c = if s[0] == '\r' { '\n' } else { s[0] };
            lemma_byte_len_concat(seq![c], normalize_line_endings(s.skip(1)));
            lemma_byte_len_single(c);
        }
    }
}

/// Normalize line endings: every `"\r\n"` and lone `'\r'` becomes `'\n'`.
pub fn normalize_line_endings_of(t: &Vec<char>) -> (r: Vec<char>)
    ensures
        r@ == normalize_line_endings(t@),
{
    let mut out: Vec<char> = Vec::new();
    let mut i: usize = 0;
    let n = t.len();
    proof {
        assert(t@.skip(0) =~= t@);
    }
    while i < n
        invariant
            n == t.len(),
            i <= n,
            out@ + normalize_line_endings(t@.skip(i as int)) == normalize_line_endings(t@),
        decreases n - i,
    {
        let ghost rest = t@.skip(i as int);
        if t[i] == '\r' {
            out.push('\n');
            if i + 1 < n && t[i + 1] == '\n' {
                proof {
                    assert(rest.skip(2) =~= t@.skip(i as int + 2));
                    assert(out@ + normalize_line_endings(t@.skip(i as int + 2)) =~= out@.drop_last() + normalize_line_endings(rest));
                }
                i = i + 2;
            } else {
                proof {
                    assert(rest.skip(1) =~= t@.skip(i as int + 1));
                    assert(out@ + normalize_line_endings(t@.skip(i as int + 1)) =~= out@.drop_last() + normalize_line_endings(rest));
                }
                i = i + 1;
            }
        } else {
            out.push(t[i]);
            proof {
                assert(rest.skip(1) =~= t@.skip(i as int + 1));
                assert(out@ + normalize_line_endings(t@.skip(i as int + 1)) =~= out@.drop_last() + normalize_line_endings(rest));
            }
            i = i + 1;
        }
    }
    proof {
        assert(t@.skip(n as int) =~= Seq::<char>::empty());
        assert(out@ + normalize_line_endings(t@.skip(n as int)) =~= out@);
    }
    out
}

} // verus!
