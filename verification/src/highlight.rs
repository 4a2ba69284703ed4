//! Syntax highlighting: parse the text with tree-sitter, run the language's
//! highlight query, and turn the captures into sorted, non-overlapping byte
//! spans tagged with the query's capture index (a theme-free identity; the
//! frontend maps it to a color). The innermost capture wins per byte.

use std::ops::Range;

use streaming_iterator::StreamingIterator;
use vstd::prelude::*;

use crate::text::{byte_len, lemma_encode_utf8_len};

verus! {

/// A source language the engine can highlight.
#[derive(Debug, Clone, Copy, PartialEq, Eq, Structural)]
pub enum Lang {
    Rust,
}

/// One highlight span: a byte range of the text tagged with the highlight
/// query's capture index.
#[derive(Debug, PartialEq, Eq)]
pub struct Highlight {
    pub range: Range<usize>,
    pub capture: u32,
}

impl Clone for Highlight {
    fn clone(&self) -> (r: Self)
        ensures
            r == *self,
    {
        Highlight { range: self.range.start..self.range.end, capture: self.capture }
    }
}

/// What the tree-sitter Rust grammar and its highlight query capture in a
/// text: `(start byte, end byte, capture index)` in the order the query
/// cursor reports them.
pub uninterp spec fn spec_rust_captures(text: Seq<char>) -> Seq<(usize, usize, u32)>;

/// Parse `text` with `tree_sitter_rust::LANGUAGE` and run
/// `tree_sitter_rust::HIGHLIGHTS_QUERY` over the whole tree with a
/// `QueryCursor`, collecting every capture's node byte range and index. The
/// result is named by [`spec_rust_captures`]; each range lies within the text.
/// (Setting the bundled grammar and compiling its bundled query do not fail;
/// a failure would give no captures.)
#[verifier::external_body]
fn rust_captures(text: &str) -> (r: Vec<(usize, usize, u32)>)
    ensures
        r@ == spec_rust_captures(text@),
        forall|i: int| 0 <= i < r.len() ==> (#[trigger] r@[i]).0 <= r@[i].1 <= byte_len(text@),
{
    let lang = tree_sitter::Language::from(tree_sitter_rust::LANGUAGE);
    let mut parser = tree_sitter::Parser::new();
    let query = tree_sitter::Query::new(&lang, tree_sitter_rust::HIGHLIGHTS_QUERY);
    let (Ok(()), Ok(query), Some(tree)) = (parser.set_language(&lang), query, parser.parse(text, None)) else { return Vec::new() };
    let mut cursor = tree_sitter::QueryCursor::new();
    let mut caps = cursor.captures(&query, tree.root_node(), text.as_bytes());
    let mut out = Vec::new();
    while let Some((m, ix)) = caps.next() {
        let c = m.captures()[*ix];
        out.push((c.node.start_byte(), c.node.end_byte(), c.index));
    }
    out
}

/// `a` is ordered no later than `b`: start ascending, then end descending, so
/// an outer capture opens before an inner one starting at the same byte.
pub open spec fn cap_le(a: (usize, usize, u32), b: (usize, usize, u32)) -> bool {
    a.0 < b.0 || (a.0 == b.0 && a.1 >= b.1)
}

/// `x` inserted into `s` after every element ordered no later than it.
pub open spec fn insert_cap(s: Seq<(usize, usize, u32)>, x: (usize, usize, u32)) -> Seq<(usize, usize, u32)>
    decreases s.len(),
{
    if s.len() == 0 {
        seq![x]
    } else if cap_le(s.last(), x) {
        s.push(x)
    } else {
        insert_cap(s.drop_last(), x).push(s.last())
    }
}

/// The stable sort of the captures by (start, end descending).
pub open spec fn sort_caps(s: Seq<(usize, usize, u32)>) -> Seq<(usize, usize, u32)>
    decreases s.len(),
{
    if s.len() == 0 {
        s
    } else {
        insert_cap(sort_caps(s.drop_last()), s.last())
    }
}

/// `spans` with `[start, end) @capture` appended, extending the last span
/// instead when it carries the same capture and ends at `start`.
pub open spec fn push_span_spec(spans: Seq<Highlight>, start: usize, end: usize, capture: u32) -> Seq<Highlight> {
    if spans.len() > 0 && spans.last().capture == capture && spans.last().range.end == start {
        spans.update(
            spans.len() - 1,
            Highlight { range: Range { start: spans.last().range.start, end }, capture },
        )
    } else {
        spans.push(Highlight { range: Range { start, end }, capture })
    }
}

/// The open-capture stack with every capture that ended by `pos` popped off
/// the top.
pub open spec fn pop_ended(stack: Seq<(usize, u32)>, pos: usize) -> Seq<(usize, u32)>
    decreases stack.len(),
{
    if stack.len() > 0 && stack.last().0 <= pos {
        pop_ended(stack.drop_last(), pos)
    } else {
        stack
    }
}

/// Open every capture from index `next` that starts by `pos` (pushing those
/// that are still open past `pos`): the next unopened index and the stack.
pub open spec fn open_started(caps: Seq<(usize, usize, u32)>, next: int, pos: usize, stack: Seq<(usize, u32)>) -> (
    int,
    Seq<(usize, u32)>,
)
    decreases caps.len() - next,
{
    if 0 <= next < caps.len() && caps[next].0 <= pos {
        let c = caps[next];
        open_started(caps, next + 1, pos, if c.1 > pos { stack.push((c.1, c.2)) } else { stack })
    } else {
        (next, stack)
    }
}

/// The smaller of two byte offsets.
pub open spec fn min_off(a: usize, b: usize) -> usize {
    if a <= b {
        a
    } else {
        b
    }
}

/// Every capture ends within the text and after it starts.
pub open spec fn caps_in(caps: Seq<(usize, usize, u32)>, len: usize) -> bool {
    forall|i: int| 0 <= i < caps.len() ==> (#[trigger] caps[i]).0 <= caps[i].1 <= len
}

/// Every open capture ends past `pos` and within the text.
pub open spec fn stack_in(stack: Seq<(usize, u32)>, pos: usize, len: usize) -> bool {
    forall|i: int| 0 <= i < stack.len() ==> (#[trigger] stack[i]).0 <= len
}

/// The walk over the sorted captures from byte `pos`: pop ended captures,
/// open started ones, and emit up to the next byte where the innermost open
/// capture can change (its end or the next start); the top of the stack is
/// the active highlight.
pub open spec fn walk(caps: Seq<(usize, usize, u32)>, len: usize, pos: usize, stack: Seq<(usize, u32)>, next: int, spans: Seq<
    Highlight,
>) -> Seq<Highlight>
    decreases len - pos,
{
    let st1 = pop_ended(stack, pos);
    let (nx, st2) = open_started(caps, next, pos, st1);
    if st2.len() == 0 && !(0 <= nx < caps.len()) {
        spans
    } else {
        let b1 = if st2.len() > 0 { min_off(len, st2.last().0) } else { len };
        let boundary = if 0 <= nx < caps.len() { min_off(b1, caps[nx].0) } else { b1 };
        let spans2 = if st2.len() > 0 { push_span_spec(spans, pos, boundary, st2.last().1) } else { spans };
        if pos < boundary <= len {
            walk(caps, len, boundary, st2, nx, spans2)
        } else {
            spans2
        }
    }
}

/// The spans the captures give over a `len`-byte text.
pub open spec fn spans_spec(len: usize, caps: Seq<(usize, usize, u32)>) -> Seq<Highlight> {
    walk(sort_caps(caps), len, 0, Seq::empty(), 0, Seq::empty())
}

proof fn lemma_insert_cap_at(s: Seq<(usize, usize, u32)>, x: (usize, usize, u32), p: int)
    requires
        0 <= p <= s.len(),
        p == 0 || cap_le(s[p - 1], x),
        forall|k: int| p <= k < s.len() ==> !cap_le(#[trigger] s[k], x),
    ensures
        insert_cap(s, x) == s.insert(p, x),
    decreases s.len() - p,
{
    if s.len() == 0 {
        assert(s.insert(p, x) =~= seq![x]);
    } else if p == s.len() {
        assert(s.insert(p, x) =~= s.push(x));
    } else {
        let d = s.drop_last();
        assert forall|k: int| p <= k < d.len() implies !cap_le(#[trigger] d[k], x) by {
            assert(d[k] == s[k]);
        }
        lemma_insert_cap_at(d, x, p);
        assert(s.insert(p, x) =~= d.insert(p, x).push(s.last()));
    }
}

proof fn lemma_insert_cap_in(s: Seq<(usize, usize, u32)>, x: (usize, usize, u32), len: usize)
    requires
        caps_in(s, len),
        x.0 <= x.1 <= len,
    ensures
        caps_in(insert_cap(s, x), len),
    decreases s.len(),
{
    if s.len() > 0 && !cap_le(s.last(), x) {
        let d = s.drop_last();
        assert(caps_in(d, len)) by {
            assert forall|i: int| 0 <= i < d.len() implies (#[trigger] d[i]).0 <= d[i].1 <= len by {
                assert(d[i] == s[i]);
            }
        }
        lemma_insert_cap_in(d, x, len);
        assert(s[s.len() - 1] == s.last());
    }
}

proof fn lemma_sort_caps_in(s: Seq<(usize, usize, u32)>, len: usize)
    requires
        caps_in(s, len),
    ensures
        caps_in(sort_caps(s), len),
    decreases s.len(),
{
    if s.len() > 0 {
        let d = s.drop_last();
        assert(caps_in(d, len)) by {
            assert forall|i: int| 0 <= i < d.len() implies (#[trigger] d[i]).0 <= d[i].1 <= len by {
                assert(d[i] == s[i]);
            }
        }
        lemma_sort_caps_in(d, len);
        assert(s[s.len() - 1] == s.last());
        lemma_insert_cap_in(sort_caps(d), s.last(), len);
    }
}

proof fn lemma_pop_ended(stack: Seq<(usize, u32)>, pos: usize, len: usize)
    requires
        stack_in(stack, pos, len),
    ensures
        stack_in(pop_ended(stack, pos), pos, len),
        pop_ended(stack, pos).len() > 0 ==> pop_ended(stack, pos).last().0 > pos,
    decreases stack.len(),
{
    if stack.len() > 0 && stack.last().0 <= pos {
        lemma_pop_ended(stack.drop_last(), pos, len);
    }
}

proof fn lemma_open_started(caps: Seq<(usize, usize, u32)>, next: int, pos: usize, stack: Seq<(usize, u32)>, len: usize)
    requires
        caps_in(caps, len),
        stack_in(stack, pos, len),
        stack.len() > 0 ==> stack.last().0 > pos,
        0 <= next <= caps.len(),
    ensures
        ({
            let (nx, st) = open_started(caps, next, pos, stack);
            &&& stack_in(st, pos, len)
            &&& st.len() > 0 ==> st.last().0 > pos
            &&& next <= nx <= caps.len()
            &&& nx < caps.len() ==> caps[nx].0 > pos
        }),
    decreases caps.len() - next,
{
    if 0 <= next < caps.len() && caps[next].0 <= pos {
        let c = caps[next];
        let st = if c.1 > pos { stack.push((c.1, c.2)) } else { stack };
        lemma_open_started(caps, next + 1, pos, st, len);
    }
}

/// `a` is ordered no later than `b`.
fn cap_le_exec(a: (usize, usize, u32), b: (usize, usize, u32)) -> (r: bool)
    ensures
        r == cap_le(a, b),
{
    a.0 < b.0 || (a.0 == b.0 && a.1 >= b.1)
}

/// The stable sort of the captures by (start, end descending).
fn sort_captures(caps: &Vec<(usize, usize, u32)>) -> (r: Vec<(usize, usize, u32)>)
    ensures
        r@ == sort_caps(caps@),
{
    let n = caps.len();
    let mut out: Vec<(usize, usize, u32)> = Vec::new();
    let mut i: usize = 0;
    proof {
        assert(caps@.take(0) =~= Seq::<(usize, usize, u32)>::empty());
    }
    while i < n
        invariant
            n == caps.len(),
            i <= n,
            out@ == sort_caps(caps@.take(i as int)),
        decreases n - i,
    {
        let x = caps[i];
        let mut j = out.len();
        while j > 0 && !cap_le_exec(out[j - 1], x)
            invariant
                j <= out.len(),
                forall|k: int| j <= k < out.len() ==> !cap_le(#[trigger] out@[k], x),
            decreases j,
        {
            j = j - 1;
        }
        proof {
            lemma_insert_cap_at(out@, x, j as int);
            assert(caps@.take(i as int + 1).drop_last() =~= caps@.take(i as int));
            assert(caps@.take(i as int + 1).last() == x);
        }
        out.insert(j, x);
        i = i + 1;
    }
    proof {
        assert(caps@.take(n as int) =~= caps@);
    }
    out
}

/// Append `[start, end) @capture`, extending the previous span instead when it
/// carries the same capture and is contiguous — keeps the output minimal while
/// staying sorted and non-overlapping.
fn push_span(spans: &mut Vec<Highlight>, start: usize, end: usize, capture: u32)
    ensures
        final(spans)@ == push_span_spec(old(spans)@, start, end, capture),
{
    let n = spans.len();
    if n > 0 && spans[n - 1].capture == capture && spans[n - 1].range.end == start {
        let s0 = spans[n - 1].range.start;
        spans.set(n - 1, Highlight { range: s0..end, capture });
        return;
    }
    spans.push(Highlight { range: start..end, capture });
}

/// The highlight spans of a `len`-byte text from its captures: sort them
/// (outer before inner at the same start), then walk left to right with a
/// stack of open captures, the innermost one active.
pub fn spans_from_captures(len: usize, caps: Vec<(usize, usize, u32)>) -> (r: Vec<Highlight>)
    requires
        caps_in(caps@, len),
    ensures
        r@ == spans_spec(len, caps@),
{
    let sorted = sort_captures(&caps);
    proof {
        lemma_sort_caps_in(caps@, len);
    }
    let n = sorted.len();
    let mut spans: Vec<Highlight> = Vec::new();
    let mut stack: Vec<(usize, u32)> = Vec::new();
    let mut next: usize = 0;
    let mut pos: usize = 0;
    loop
        invariant
            n == sorted.len(),
            caps_in(sorted@, len),
            stack_in(stack@, pos, len),
            next <= n,
            pos <= len,
            walk(sorted@, len, pos, stack@, next as int, spans@) == spans_spec(len, caps@),
        decreases len - pos,
    {
        let ghost st0 = stack@;
        proof {
            lemma_pop_ended(stack@, pos, len);
        }
        while stack.len() > 0 && stack[stack.len() - 1].0 <= pos
            invariant
                pop_ended(stack@, pos) == pop_ended(st0, pos),
            decreases stack.len(),
        {
            stack.pop();
        }
        let ghost st1 = stack@;
        let ghost nx0 = next as int;
        proof {
            lemma_open_started(sorted@, next as int, pos, stack@, len);
        }
        while next < n && sorted[next].0 <= pos
            invariant
                n == sorted.len(),
                next <= n,
                open_started(sorted@, next as int, pos, stack@) == open_started(sorted@, nx0, pos, st1),
            decreases n - next,
        {
            let c = sorted[next];
            if c.1 > pos {
                stack.push((c.1, c.2));
            }
            next = next + 1;
        }
        if stack.len() == 0 && next >= n {
            return spans;
        }
        let mut boundary = len;
        if stack.len() > 0 && stack[stack.len() - 1].0 < boundary {
            boundary = stack[stack.len() - 1].0;
        }
        if next < n && sorted[next].0 < boundary {
            boundary = sorted[next].0;
        }
        if stack.len() > 0 {
            push_span(&mut spans, pos, boundary, stack[stack.len() - 1].1);
        }
        pos = boundary;
    }
}

/// Highlight `text` as `lang`: parse it, run the highlight query, and return
/// byte-range spans tagged with the query's capture index: each non-empty and
/// within the text, sorted by start and non-overlapping, touching spans of
/// different captures, the innermost capture winning per byte.
pub fn highlight(text: &str, lang: Lang) -> (r: Vec<Highlight>)
    requires
        byte_len(text@) <= usize::MAX,
    ensures
        r@ == spans_spec(byte_len(text@) as usize, spec_rust_captures(text@)),
        caps_in(spec_rust_captures(text@), byte_len(text@) as usize),
        spans_ordered(r@, byte_len(text@) as int),
        neighbours_differ(r@),
        forall|b: int|
            0 <= b < byte_len(text@) ==> span_at(r@, b) == winning_capture(spec_rust_captures(text@), b),
{
    proof {
        lemma_encode_utf8_len(text@);
    }
    match lang {
        Lang::Rust => {
            let caps = rust_captures(text);
            let len = text.len();
            proof {
                lemma_spans_ordered(len, caps@);
                lemma_spans_neighbours_differ(len, caps@);
                lemma_innermost_capture_wins(len, caps@);
            }
            spans_from_captures(len, caps)
        },
    }
}

/// Spans that are non-empty, end by `pos`, and come in order without
/// overlapping.
pub open spec fn spans_ordered(spans: Seq<Highlight>, pos: int) -> bool {
    &&& forall|i: int| 0 <= i < spans.len() ==> (#[trigger] spans[i]).range.start < spans[i].range.end <= pos
    &&& forall|i: int, j: int| 0 <= i < j < spans.len() ==> (#[trigger] spans[i]).range.end <= (#[trigger] spans[j]).range.start
}

proof fn lemma_push_span_ordered(spans: Seq<Highlight>, pos: usize, boundary: usize, capture: u32)
    requires
        spans_ordered(spans, pos as int),
        pos < boundary,
    ensures
        spans_ordered(push_span_spec(spans, pos, boundary, capture), boundary as int),
{
    let r = push_span_spec(spans, pos, boundary, capture);
    if spans.len() > 0 && spans.last().capture == capture && spans.last().range.end == pos {
        assert forall|i: int, j: int| 0 <= i < j < r.len() implies (#[trigger] r[i]).range.end <= (#[trigger] r[j]).range.start by {
            if j == r.len() - 1 {
                assert(spans[i].range.end <= spans[j].range.start);
            }
        }
    }
}

proof fn lemma_walk_ordered(
    caps: Seq<(usize, usize, u32)>,
    len: usize,
    pos: usize,
    stack: Seq<(usize, u32)>,
    next: int,
    spans: Seq<Highlight>,
)
    requires
        spans_ordered(spans, pos as int),
        pos <= len,
        caps_in(caps, len),
        stack_in(stack, pos, len),
        0 <= next <= caps.len(),
    ensures
        spans_ordered(walk(caps, len, pos, stack, next, spans), len as int),
    decreases len - pos,
{
    lemma_pop_ended(stack, pos, len);
    lemma_open_started(caps, next, pos, pop_ended(stack, pos), len);
    let st1 = pop_ended(stack, pos);
    let (nx, st2) = open_started(caps, next, pos, st1);
    if st2.len() == 0 && !(0 <= nx < caps.len()) {
    } else {
        let b1 = if st2.len() > 0 { min_off(len, st2.last().0) } else { len };
        let boundary = if 0 <= nx < caps.len() { min_off(b1, caps[nx].0) } else { b1 };
        if pos < boundary {
            if st2.len() > 0 {
                lemma_push_span_ordered(spans, pos, boundary, st2.last().1);
            }
        }
        let spans2 = if st2.len() > 0 { push_span_spec(spans, pos, boundary, st2.last().1) } else { spans };
        if pos < boundary <= len {
            lemma_walk_ordered(caps, len, boundary, st2, nx, spans2);
        }
    }
}

/// The highlight spans of captures that lie within the text are non-empty,
/// lie within the text, and come sorted by start without overlapping.
pub proof fn lemma_spans_ordered(len: usize, caps: Seq<(usize, usize, u32)>)
    requires
        caps_in(caps, len),
    ensures
        spans_ordered(spans_spec(len, caps), len as int),
{
    lemma_sort_caps_in(caps, len);
    lemma_walk_ordered(sort_caps(caps), len, 0, Seq::empty(), 0, Seq::empty());
}

/// Touching neighbours carry different captures (a span is never followed,
/// without a gap, by another of its own capture).
pub open spec fn neighbours_differ(spans: Seq<Highlight>) -> bool {
    forall|i: int, j: int|
        0 <= i && j == i + 1 && j < spans.len() && (#[trigger] spans[i]).range.end == (#[trigger] spans[j]).range.start
            ==> spans[i].capture != spans[j].capture
}

proof fn lemma_push_span_neighbours(spans: Seq<Highlight>, pos: usize, boundary: usize, capture: u32)
    requires
        spans_ordered(spans, pos as int),
        neighbours_differ(spans),
        pos < boundary,
    ensures
        neighbours_differ(push_span_spec(spans, pos, boundary, capture)),
{
    let r = push_span_spec(spans, pos, boundary, capture);
    assert forall|i: int, j: int|
        0 <= i && j == i + 1 && j < r.len() && (#[trigger] r[i]).range.end == (#[trigger] r[j]).range.start implies r[i].capture
            != r[j].capture by {
        if j < spans.len() - 1 || (j == spans.len() - 1 && r.len() > spans.len()) {
            assert(r[i] == spans[i] && r[j] == spans[j]);
        } else if j == spans.len() - 1 {
            assert(r[i] == spans[i]);
            assert(r[j].range.start == spans[j].range.start && r[j].capture == spans[j].capture);
        } else {
            assert(r[i] == spans[i]);
        }
    }
}

proof fn lemma_walk_neighbours(
    caps: Seq<(usize, usize, u32)>,
    len: usize,
    pos: usize,
    stack: Seq<(usize, u32)>,
    next: int,
    spans: Seq<Highlight>,
)
    requires
        spans_ordered(spans, pos as int),
        neighbours_differ(spans),
        pos <= len,
        caps_in(caps, len),
        stack_in(stack, pos, len),
        0 <= next <= caps.len(),
    ensures
        neighbours_differ(walk(caps, len, pos, stack, next, spans)),
    decreases len - pos,
{
    lemma_pop_ended(stack, pos, len);
    lemma_open_started(caps, next, pos, pop_ended(stack, pos), len);
    let st1 = pop_ended(stack, pos);
    let (nx, st2) = open_started(caps, next, pos, st1);
    if st2.len() == 0 && !(0 <= nx < caps.len()) {
    } else {
        let b1 = if st2.len() > 0 { min_off(len, st2.last().0) } else { len };
        let boundary = if 0 <= nx < caps.len() { min_off(b1, caps[nx].0) } else { b1 };
        if pos < boundary {
            if st2.len() > 0 {
                lemma_push_span_ordered(spans, pos, boundary, st2.last().1);
                lemma_push_span_neighbours(spans, pos, boundary, st2.last().1);
            }
        }
        let spans2 = if st2.len() > 0 { push_span_spec(spans, pos, boundary, st2.last().1) } else { spans };
        if pos < boundary <= len {
            lemma_walk_neighbours(caps, len, boundary, st2, nx, spans2);
        }
    }
}

/// The highlight spans of captures that lie within the text never put two
/// spans of one capture side by side: touching spans differ in capture.
pub proof fn lemma_spans_neighbours_differ(len: usize, caps: Seq<(usize, usize, u32)>)
    requires
        caps_in(caps, len),
    ensures
        neighbours_differ(spans_spec(len, caps)),
{
    lemma_sort_caps_in(caps, len);
    lemma_walk_neighbours(sort_caps(caps), len, 0, Seq::empty(), 0, Seq::empty());
}

/// The capture of the last span of `spans` that holds byte `b`.
pub open spec fn span_at(spans: Seq<Highlight>, b: int) -> Option<u32>
    decreases spans.len(),
{
    if spans.len() == 0 {
        None
    } else if spans.last().range.start <= b < spans.last().range.end {
        Some(spans.last().capture)
    } else {
        span_at(spans.drop_last(), b)
    }
}

/// Capture `c` covers byte `b`.
pub open spec fn holds(c: (usize, usize, u32), b: int) -> bool {
    c.0 <= b < c.1
}

/// The index of the last of the first `k` captures that holds byte `b`.
pub open spec fn last_holding(caps: Seq<(usize, usize, u32)>, b: int, k: int) -> Option<int>
    decreases k,
{
    if k <= 0 {
        None
    } else if holds(caps[k - 1], b) {
        Some(k - 1)
    } else {
        last_holding(caps, b, k - 1)
    }
}

/// The capture that wins byte `b`: of the captures that hold it, the last
/// in the sorted order (start ascending, end descending, stable), which for
/// nested captures is the innermost; none when no capture holds it.
pub open spec fn winning_capture(caps: Seq<(usize, usize, u32)>, b: int) -> Option<u32> {
    wins(sort_caps(caps), b)
}

/// The capture of the last of the (sorted) captures `s` that holds byte `b`.
pub open spec fn wins(s: Seq<(usize, usize, u32)>, b: int) -> Option<u32> {
    match last_holding(s, b, s.len() as int) {
        Some(k) => Some(s[k].2),
        None => None,
    }
}

/// Capture starts never decrease along `s`.
spec fn starts_sorted(s: Seq<(usize, usize, u32)>) -> bool {
    forall|i: int, j: int| 0 <= i <= j < s.len() ==> (#[trigger] s[i]).0 <= (#[trigger] s[j]).0
}

proof fn lemma_insert_cap_sorted(s: Seq<(usize, usize, u32)>, x: (usize, usize, u32))
    requires
        starts_sorted(s),
    ensures
        starts_sorted(insert_cap(s, x)),
        forall|i: int|
            0 <= i < insert_cap(s, x).len() ==> (#[trigger] insert_cap(s, x)[i]).0 <= x.0 || (s.len() > 0
                && insert_cap(s, x)[i].0 <= s.last().0),
        insert_cap(s, x).len() == s.len() + 1,
    decreases s.len(),
{
    if s.len() == 0 {
    } else if cap_le(s.last(), x) {
        let r = s.push(x);
        assert forall|i: int, j: int| 0 <= i <= j < r.len() implies (#[trigger] r[i]).0 <= (#[trigger] r[j]).0 by {
            if j == r.len() - 1 && i < j {
                assert(s[i].0 <= s[s.len() - 1].0);
            }
        }
        assert forall|i: int| 0 <= i < r.len() implies (#[trigger] r[i]).0 <= x.0 || (s.len() > 0 && r[i].0
            <= s.last().0) by {
            if i < s.len() {
                assert(s[i].0 <= s[s.len() - 1].0);
            }
        }
    } else {
        let d = s.drop_last();
        assert(starts_sorted(d)) by {
            assert forall|i: int, j: int| 0 <= i <= j < d.len() implies (#[trigger] d[i]).0 <= (#[trigger] d[j]).0 by {
                assert(s[i].0 <= s[j].0);
            }
        }
        lemma_insert_cap_sorted(d, x);
        let m = insert_cap(d, x);
        let r = m.push(s.last());
        assert forall|i: int| 0 <= i < m.len() implies (#[trigger] m[i]).0 <= s.last().0 by {
            if d.len() > 0 {
                assert(d.last() == s[s.len() - 2]);
                assert(s[s.len() - 2].0 <= s[s.len() - 1].0);
            }
        }
        assert forall|i: int, j: int| 0 <= i <= j < r.len() implies (#[trigger] r[i]).0 <= (#[trigger] r[j]).0 by {
            if j == r.len() - 1 && i < j {
                assert(m[i].0 <= s.last().0);
            } else if i < j {
                assert(m[i].0 <= m[j].0);
            }
        }
    }
}

proof fn lemma_sort_caps_sorted(s: Seq<(usize, usize, u32)>)
    ensures
        starts_sorted(sort_caps(s)),
        sort_caps(s).len() == s.len(),
    decreases s.len(),
{
    if s.len() > 0 {
        lemma_sort_caps_sorted(s.drop_last());
        lemma_insert_cap_sorted(sort_caps(s.drop_last()), s.last());
    }
}

/// The open-capture stack for the captures at indices `idx` of `s`.
spec fn stack_of(s: Seq<(usize, usize, u32)>, idx: Seq<int>) -> Seq<(usize, u32)> {
    Seq::new(idx.len(), |i: int| (s[idx[i]].1, s[idx[i]].2))
}

/// `idx` lists indices below `next`, increasing.
spec fn idx_good(idx: Seq<int>, next: int) -> bool {
    &&& forall|i: int| 0 <= i < idx.len() ==> 0 <= #[trigger] idx[i] < next
    &&& forall|i: int, j: int| 0 <= i < j < idx.len() ==> (#[trigger] idx[i]) < (#[trigger] idx[j])
}

/// Popping the ended captures leaves a prefix of the indices: those popped
/// ended by `pos`, and the new top does not.
proof fn pop_idx(s: Seq<(usize, usize, u32)>, idx: Seq<int>, pos: usize) -> (m: int)
    requires
        forall|i: int| 0 <= i < idx.len() ==> 0 <= #[trigger] idx[i] < s.len(),
    ensures
        0 <= m <= idx.len(),
        pop_ended(stack_of(s, idx), pos) == stack_of(s, idx.take(m)),
        forall|j: int| m <= j < idx.len() ==> s[#[trigger] idx[j]].1 <= pos,
        m > 0 ==> s[idx[m - 1]].1 > pos,
    decreases idx.len(),
{
    let st = stack_of(s, idx);
    if idx.len() > 0 && s[idx.last()].1 <= pos {
        let d = idx.drop_last();
        assert(st.drop_last() =~= stack_of(s, d));
        assert(st.last() == (s[idx.last()].1, s[idx.last()].2));
        let m = pop_idx(s, d, pos);
        assert(d.take(m) =~= idx.take(m));
        assert forall|j: int| m <= j < idx.len() implies s[#[trigger] idx[j]].1 <= pos by {
            if j < d.len() {
                assert(d[j] == idx[j]);
            }
        }
        if m > 0 {
            assert(d[m - 1] == idx[m - 1]);
        }
        m
    } else {
        assert(idx.take(idx.len() as int) =~= idx);
        if idx.len() > 0 {
            assert(st.last() == (s[idx.last()].1, s[idx.last()].2));
        }
        idx.len() as int
    }
}

/// Opening the started captures pushes, in order, those from `next` on that
/// start by `pos` and are still open past it.
proof fn open_idx(s: Seq<(usize, usize, u32)>, next: int, pos: usize, idx: Seq<int>) -> (r: Seq<int>)
    requires
        0 <= next <= s.len(),
        idx_good(idx, next),
    ensures
        open_started(s, next, pos, stack_of(s, idx)).1 == stack_of(s, r),
        idx_good(r, open_started(s, next, pos, stack_of(s, idx)).0),
        r.len() >= idx.len(),
        r.take(idx.len() as int) == idx,
        forall|i: int| idx.len() <= i < r.len() ==> s[#[trigger] r[i]].1 > pos && next <= r[i],
        forall|k: int| next <= k < open_started(s, next, pos, stack_of(s, idx)).0 ==> (#[trigger] s[k]).0 <= pos,
        forall|k: int|
            next <= k < open_started(s, next, pos, stack_of(s, idx)).0 && s[k].1 > pos ==> exists|i: int|
                0 <= i < r.len() && #[trigger] r[i] == k,
    decreases s.len() - next,
{
    if 0 <= next < s.len() && s[next].0 <= pos {
        let c = s[next];
        let idx2 = if c.1 > pos { idx.push(next) } else { idx };
        if c.1 > pos {
            assert(stack_of(s, idx).push((c.1, c.2)) =~= stack_of(s, idx2));
        }
        assert(idx_good(idx2, next + 1));
        let r = open_idx(s, next + 1, pos, idx2);
        assert(r.take(idx.len() as int) =~= idx) by {
            assert(r.take(idx2.len() as int) == idx2);
            assert forall|i: int| 0 <= i < idx.len() implies r[i] == idx[i] by {
                assert(r.take(idx2.len() as int)[i] == idx2[i]);
            }
        }
        if c.1 > pos {
            assert(r.take(idx2.len() as int)[idx.len() as int] == next);
            assert(r[idx.len() as int] == next);
        }
        r
    } else {
        assert(idx.take(idx.len() as int) =~= idx);
        idx
    }
}

proof fn lemma_last_holding_is(s: Seq<(usize, usize, u32)>, b: int, k: int, k0: int)
    requires
        0 <= k0 < k <= s.len(),
        holds(s[k0], b),
        forall|j: int| k0 < j < k ==> !holds(#[trigger] s[j], b),
    ensures
        last_holding(s, b, k) == Some(k0),
    decreases k,
{
    if k - 1 > k0 {
        lemma_last_holding_is(s, b, k - 1, k0);
    }
}

proof fn lemma_last_holding_none(s: Seq<(usize, usize, u32)>, b: int, k: int)
    requires
        k <= s.len(),
        forall|j: int| 0 <= j < k ==> !holds(#[trigger] s[j], b),
    ensures
        last_holding(s, b, k) is None,
    decreases k,
{
    if k > 0 {
        lemma_last_holding_none(s, b, k - 1);
    }
}

proof fn lemma_span_at_past(spans: Seq<Highlight>, pos: int, b: int)
    requires
        spans_ordered(spans, pos),
        b >= pos,
    ensures
        span_at(spans, b) is None,
    decreases spans.len(),
{
    if spans.len() > 0 {
        let d = spans.drop_last();
        assert(spans_ordered(d, pos)) by {
            assert forall|i: int| 0 <= i < d.len() implies (#[trigger] d[i]).range.start < d[i].range.end <= pos by {
                assert(d[i] == spans[i]);
            }
            assert forall|i: int, j: int| 0 <= i < j < d.len() implies (#[trigger] d[i]).range.end <= (
            #[trigger] d[j]).range.start by {
                assert(d[i] == spans[i] && d[j] == spans[j]);
            }
        }
        assert(spans.last() == spans[spans.len() - 1]);
        lemma_span_at_past(d, pos, b);
    }
}

proof fn lemma_span_at_push(spans: Seq<Highlight>, pos: usize, boundary: usize, capture: u32, b: int)
    requires
        spans_ordered(spans, pos as int),
        pos < boundary,
        b < boundary,
    ensures
        span_at(push_span_spec(spans, pos, boundary, capture), b) == if b >= pos {
            Some(capture)
        } else {
            span_at(spans, b)
        },
{
    let r = push_span_spec(spans, pos, boundary, capture);
    if spans.len() > 0 && spans.last().capture == capture && spans.last().range.end == pos {
        assert(r.drop_last() =~= spans.drop_last());
        assert(spans.last() == spans[spans.len() - 1]);
    } else {
        assert(r.drop_last() =~= spans);
        if b >= pos {
        } else {
        }
    }
}

/// The walk gives every byte from `pos` on its winning capture, when the
/// stack holds exactly the open captures (at indices `idx`, in order) and
/// the spans so far give every byte before `pos` its winner.
proof fn lemma_walk_wins(
    s: Seq<(usize, usize, u32)>,
    len: usize,
    pos: usize,
    stack: Seq<(usize, u32)>,
    next: int,
    spans: Seq<Highlight>,
    idx: Seq<int>,
)
    requires
        starts_sorted(s),
        caps_in(s, len),
        pos <= len,
        0 <= next <= s.len(),
        idx_good(idx, next),
        stack == stack_of(s, idx),
        forall|k: int| 0 <= k < next ==> (#[trigger] s[k]).0 <= pos,
        forall|k: int|
            0 <= k < next && (#[trigger] s[k]).1 > pos ==> exists|i: int| 0 <= i < idx.len() && #[trigger] idx[i] == k,
        spans_ordered(spans, pos as int),
        forall|b: int| 0 <= b < pos ==> span_at(spans, b) == wins(s, b),
    ensures
        forall|b: int| 0 <= b < len ==> span_at(walk(s, len, pos, stack, next, spans), b) == wins(s, b),
    decreases len - pos,
{
    assert(stack_in(stack, pos, len)) by {
        assert forall|i: int| 0 <= i < stack.len() implies (#[trigger] stack[i]).0 <= len by {
            assert(s[idx[i]].0 <= s[idx[i]].1 <= len);
        }
    }
    let m = pop_idx(s, idx, pos);
    let idx1 = idx.take(m);
    let st1 = pop_ended(stack, pos);
    assert(st1 == stack_of(s, idx1));
    assert(idx_good(idx1, next));
    lemma_pop_ended(stack, pos, len);
    if m > 0 {
        assert(st1.last() == (s[idx1[m - 1]].1, s[idx1[m - 1]].2));
    }
    lemma_open_started(s, next, pos, st1, len);
    let idx2 = open_idx(s, next, pos, idx1);
    let nx = open_started(s, next, pos, st1).0;
    let st2 = open_started(s, next, pos, st1).1;
    assert(st2 == stack_of(s, idx2));
    // Every capture opened so far started by `pos`.
    assert forall|k: int| 0 <= k < nx implies (#[trigger] s[k]).0 <= pos by {
        if k < next {
            assert(s[k].0 <= pos);
        }
    }
    // Every capture open past `pos` is on the stack.
    assert forall|k: int| 0 <= k < nx && (#[trigger] s[k]).1 > pos implies exists|i: int|
        0 <= i < idx2.len() && #[trigger] idx2[i] == k by {
        if k < next {
            let i = choose|i: int| 0 <= i < idx.len() && #[trigger] idx[i] == k;
            if i >= m {
                assert(s[idx[i]].1 <= pos);
            }
            assert(idx2.take(idx1.len() as int)[i] == idx1[i]);
            assert(idx2[i] == k);
        }
    }
    // No capture from `nx` on has started by the first byte it could hold.
    if st2.len() == 0 && !(0 <= nx < s.len()) {
        assert forall|b: int| pos <= b < len implies span_at(spans, b) == wins(s, b) by {
            lemma_span_at_past(spans, pos as int, b);
            assert forall|j: int| 0 <= j < s.len() implies !holds(#[trigger] s[j], b) by {
                if s[j].1 > pos {
                    let i = choose|i: int| 0 <= i < idx2.len() && #[trigger] idx2[i] == j;
                }
            }
            lemma_last_holding_none(s, b, s.len() as int);
        }
    } else {
        if pos == len {
            if st2.len() > 0 {
                assert(s[idx2[idx2.len() - 1]].1 <= len);
                assert(st2.last() == (s[idx2.last()].1, s[idx2.last()].2));
            }
            if 0 <= nx < s.len() {
                assert(s[nx].0 <= s[nx].1 <= len);
            }
            assert(false);
        }
        let b1 = if st2.len() > 0 { min_off(len, st2.last().0) } else { len };
        let boundary = if 0 <= nx < s.len() { min_off(b1, s[nx].0) } else { b1 };
        assert(pos < boundary <= len);
        let spans2 = if st2.len() > 0 { push_span_spec(spans, pos, boundary, st2.last().1) } else { spans };
        // Between `pos` and `boundary` the winner is the top of the stack.
        assert forall|b: int| pos <= b < boundary implies wins(s, b) == if st2.len() > 0 {
            Some(st2.last().1)
        } else {
            None
        } by {
            assert forall|j: int| nx <= j < s.len() implies !holds(#[trigger] s[j], b) by {
                assert(s[nx].0 <= s[j].0);
            }
            if st2.len() > 0 {
                let t = idx2.last();
                assert(st2.last() == (s[t].1, s[t].2));
                assert(idx2[idx2.len() - 1] == t);
                assert(0 <= t < nx);
                assert forall|j: int| t < j < s.len() implies !holds(#[trigger] s[j], b) by {
                    if j < nx && s[j].1 > pos {
                        let i = choose|i: int| 0 <= i < idx2.len() && #[trigger] idx2[i] == j;
                        if i < idx2.len() - 1 {
                            assert(idx2[i] < idx2[idx2.len() - 1]);
                        }
                    }
                }
                lemma_last_holding_is(s, b, s.len() as int, t);
            } else {
                assert forall|j: int| 0 <= j < s.len() implies !holds(#[trigger] s[j], b) by {
                    if j < nx && s[j].1 > pos {
                        let i = choose|i: int| 0 <= i < idx2.len() && #[trigger] idx2[i] == j;
                    }
                }
                lemma_last_holding_none(s, b, s.len() as int);
            }
        }
        assert forall|b: int| 0 <= b < boundary implies span_at(spans2, b) == wins(s, b) by {
            if st2.len() > 0 {
                lemma_span_at_push(spans, pos, boundary, st2.last().1, b);
            } else if b >= pos {
                lemma_span_at_past(spans, pos as int, b);
            }
        }
        if st2.len() > 0 {
            lemma_push_span_ordered(spans, pos, boundary, st2.last().1);
        }
        assert(spans_ordered(spans2, boundary as int));
        assert forall|k: int| 0 <= k < nx && (#[trigger] s[k]).1 > boundary implies exists|i: int|
            0 <= i < idx2.len() && #[trigger] idx2[i] == k by {
            assert(s[k].1 > pos);
        }
        lemma_walk_wins(s, len, boundary, st2, nx, spans2, idx2);
    }
}

/// The innermost capture wins each byte: the highlight spans give every byte
/// of the text the capture that wins it (see [`winning_capture`]), and no
/// capture to a byte that no capture holds.
pub proof fn lemma_innermost_capture_wins(len: usize, caps: Seq<(usize, usize, u32)>)
    requires
        caps_in(caps, len),
    ensures
        forall|b: int| 0 <= b < len ==> span_at(spans_spec(len, caps), b) == winning_capture(caps, b),
{
    let s = sort_caps(caps);
    lemma_sort_caps_in(caps, len);
    lemma_sort_caps_sorted(caps);
    let e = Seq::<int>::empty();
    assert(stack_of(s, e) =~= Seq::<(usize, u32)>::empty());
    lemma_walk_wins(s, len, 0, Seq::empty(), 0, Seq::empty(), e);
}

} // verus!
