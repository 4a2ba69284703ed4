//! What goes onto the clipboard and how it comes back.
//!
//! Copy puts every selection's text on the clipboard, joined by `'\n'`, with
//! each piece's byte length alongside (and whether it is a whole line), so a
//! later paste can hand one piece back to each cursor. A bare cursor copies
//! its whole line, line break included. The clipboard itself is the
//! frontend's: this module only computes what to write and how to split what
//! was read.

use vstd::prelude::*;

use crate::buffer::Buffer;
use crate::selection::Selection;
use crate::text::{
    byte_len, byte_offset_of, char_index_at_byte, chars_to_string, clip_byte, lemma_byte_offset_full,
    lemma_byte_offset_mono, lemma_clip_byte, lemma_clip_byte_mono, lemma_encode_utf8_len, lemma_line_end, lemma_line_start, line_end, line_end_of,
    line_start, line_start_of, str_to_chars,
};
use crate::transaction::{char_boundary, lemma_subrange_len};

verus! {

/// The char index just past the line holding `i`: past its line break, or
/// the text end on the last line.
pub open spec fn line_through(t: Seq<char>, i: int) -> int {
    if line_end(t, i) < t.len() {
        line_end(t, i) + 1
    } else {
        line_end(t, i)
    }
}

/// The char range a selection copies (and cuts): its span; for a bare cursor
/// its whole line, line break included.
pub open spec fn copy_span(t: Seq<char>, x: Selection<usize>) -> (int, int) {
    if x.start != x.end {
        (x.start as int, x.end as int)
    } else {
        (line_start(t, x.end as int), line_through(t, x.end as int))
    }
}

/// The text a selection copies.
pub open spec fn copied_text(t: Seq<char>, x: Selection<usize>) -> Seq<char> {
    t.subrange(copy_span(t, x).0, copy_span(t, x).1)
}

/// The texts the selections copy, in order.
pub open spec fn copied_texts(t: Seq<char>, sels: Seq<Selection<usize>>) -> Seq<Seq<char>> {
    sels.map_values(|x: Selection<usize>| copied_text(t, x))
}

/// The pieces joined by `'\n'`.
pub open spec fn joined(ps: Seq<Seq<char>>) -> Seq<char>
    decreases ps.len(),
{
    if ps.len() == 0 {
        Seq::empty()
    } else if ps.len() == 1 {
        ps[0]
    } else {
        joined(ps.drop_last()) + seq!['\n'] + ps.last()
    }
}

/// The char range a selection copies, for a selection within `t`.
pub fn copy_span_of(t: &Vec<char>, x: &Selection<usize>) -> (r: (usize, usize))
    requires
        x.start <= x.end <= t.len(),
    ensures
        (r.0 as int, r.1 as int) == copy_span(t@, *x),
        r.0 <= r.1 <= t.len(),
{
    if x.start != x.end {
        return (x.start, x.end);
    }
    proof {
        lemma_line_start(t@, x.end as int);
        lemma_line_end(t@, x.end as int);
    }
    let a = line_start_of(t, x.end);
    let e = line_end_of(t, x.end);
    if e < t.len() {
        (a, e + 1)
    } else {
        (a, e)
    }
}

/// What copying writes to the clipboard: the texts of the selections in
/// order, joined by `'\n'`; each text's byte length; and whether each is a
/// bare cursor's whole line.
pub fn copy_payload(buffer: &Buffer) -> (r: (String, Vec<usize>, Vec<bool>))
    requires
        buffer.wf(),
    ensures
        r.0@ == joined(copied_texts(buffer.chars@, buffer.index_sels())),
        r.1@ == copied_texts(buffer.chars@, buffer.index_sels()).map_values(|p: Seq<char>| byte_len(p) as usize),
        r.2@ == buffer.index_sels().map_values(|x: Selection<usize>| x.start == x.end),
{
    proof {
        crate::executor::lemma_index_sels(*buffer);
        lemma_byte_offset_full(buffer.chars@);
    }
    let t = buffer.snapshot();
    let sels = buffer.resolved_chars();
    let ghost ps = copied_texts(t@, sels@);
    let ghost ls = ps.map_values(|p: Seq<char>| byte_len(p) as usize);
    let ghost ws = sels@.map_values(|x: Selection<usize>| x.start == x.end);
    let n = sels.len();
    let mut out: Vec<char> = Vec::new();
    let mut lens: Vec<usize> = Vec::new();
    let mut whole: Vec<bool> = Vec::new();
    let mut i: usize = 0;
    while i < n
        invariant
            n == sels.len(),
            i <= n,
            t@ == buffer.chars@,
            byte_len(t@) <= usize::MAX,
            sels@ == buffer.index_sels(),
            ps == copied_texts(t@, sels@),
            ls == ps.map_values(|p: Seq<char>| byte_len(p) as usize),
            ws == sels@.map_values(|x: Selection<usize>| x.start == x.end),
            forall|k: int| 0 <= k < n ==> (#[trigger] sels@[k]).start <= sels@[k].end <= t.len(),
            out@ == joined(ps.take(i as int)),
            lens@ == ls.take(i as int),
            whole@ == ws.take(i as int),
        decreases n - i,
    {
        let x = sels[i];
        let (a, b) = copy_span_of(t, &x);
        let ghost base = out@;
        if i > 0 {
            out.push('\n');
        }
        let ghost base2 = out@;
        let mut k = a;
        while k < b
            invariant
                a <= k <= b <= t.len(),
                out@ == base2 + t@.subrange(a as int, k as int),
            decreases b - k,
        {
            out.push(t[k]);
            proof {
                assert(t@.subrange(a as int, k as int + 1) =~= t@.subrange(a as int, k as int).push(t@[k as int]));
            }
            k = k + 1;
        }
        proof {
            lemma_subrange_len(t@, a as int, b as int);
            lemma_byte_offset_mono(t@, a as int, b as int);
            lemma_byte_offset_mono(t@, b as int, t.len() as int);
        }
        let ba = byte_offset_of(t, a);
        let bb = byte_offset_of(t, b);
        lens.push(bb - ba);
        whole.push(x.start == x.end);
        proof {
            let tk = ps.take(i as int + 1);
            assert(tk.drop_last() =~= ps.take(i as int));
            assert(tk.last() == ps[i as int]);
            assert(ps[i as int] == copied_text(t@, sels@[i as int]));
            if i == 0 {
                assert(out@ =~= joined(tk));
            } else {
                assert(out@ =~= joined(tk));
            }
            assert(lens@ =~= ls.take(i as int + 1));
            assert(whole@ =~= ws.take(i as int + 1));
        }
        i = i + 1;
    }
    proof {
        assert(ps.take(n as int) =~= ps);
        assert(ls.take(n as int) =~= ls);
        assert(ws.take(n as int) =~= ws);
    }
    (chars_to_string(&out), lens, whole)
}

/// Where piece `i` of a clipboard text starts, in bytes: past the pieces
/// before it, each followed by a one-byte separator.
pub open spec fn piece_start(lengths: Seq<usize>, i: int) -> int
    decreases i,
{
    if i <= 0 {
        0
    } else {
        piece_start(lengths, i - 1) + lengths[i - 1] + 1
    }
}

/// Piece `i` lies within `t`, starting and ending on char boundaries.
pub open spec fn piece_fits(t: Seq<char>, lengths: Seq<usize>, i: int) -> bool {
    &&& char_boundary(t, piece_start(lengths, i))
    &&& char_boundary(t, piece_start(lengths, i) + lengths[i])
}

/// The chars of piece `i`.
pub open spec fn piece_text(t: Seq<char>, lengths: Seq<usize>, i: int) -> Seq<char> {
    t.subrange(clip_byte(t, piece_start(lengths, i)), clip_byte(t, piece_start(lengths, i) + lengths[i]))
}

/// What a paste hands the cursors: with piece lengths that all fit, one
/// piece per length; otherwise (no lengths, none, or one that does not fit)
/// the whole text.
pub open spec fn clipboard_pieces_spec(t: Seq<char>, lengths: Option<Seq<usize>>) -> Seq<Seq<char>> {
    match lengths {
        Some(ls) => if ls.len() > 0 && (forall|i: int| 0 <= i < ls.len() ==> #[trigger] piece_fits(t, ls, i)) {
            Seq::new(ls.len(), |i: int| piece_text(t, ls, i))
        } else {
            seq![t]
        },
        None => seq![t],
    }
}

/// An optional vector of lengths as its optional sequence.
pub open spec fn opt_lengths(lengths: Option<Vec<usize>>) -> Option<Seq<usize>> {
    match lengths {
        Some(v) => Some(v@),
        None => None,
    }
}

/// Split clipboard text back into the pieces it was copied from, using the
/// byte lengths recorded with it (see [`clipboard_pieces_spec`]).
pub fn clipboard_pieces(text: &str, lengths: Option<Vec<usize>>) -> (r: Vec<String>)
    ensures
        r@.len() >= 1,
        r@.len() == clipboard_pieces_spec(text@, opt_lengths(lengths)).len(),
        forall|i: int| 0 <= i < r@.len() ==> (#[trigger] r@[i])@ == clipboard_pieces_spec(text@, opt_lengths(lengths))[i],
{
    let ghost spec = clipboard_pieces_spec(text@, opt_lengths(lengths));
    let t = str_to_chars(text);
    let tl = text.as_bytes().len();
    proof {
        lemma_encode_utf8_len(text@);
        lemma_byte_offset_full(t@);
    }
    let mut whole: Vec<String> = Vec::new();
    whole.push(chars_to_string(&t));
    let ls = match lengths {
        Some(v) => v,
        None => {
            return whole;
        },
    };
    let n = ls.len();
    if n == 0 {
        proof {
            assert(spec == clipboard_pieces_spec(text@, Some(ls@)));
            assert(spec == seq![text@]);
        }
        return whole;
    }
    let mut out: Vec<String> = Vec::new();
    let mut at: usize = 0;
    let mut i: usize = 0;
    while i < n
        invariant
            n == ls.len(),
            0 < n,
            i <= n,
            t@ == text@,
            tl == byte_len(t@),
            spec == clipboard_pieces_spec(text@, Some(ls@)),
            spec == clipboard_pieces_spec(text@, opt_lengths(lengths)),
            whole@.len() == 1,
            whole@[0]@ == text@,
            i < n ==> at as int == piece_start(ls@, i as int),
            at <= tl,
            forall|j: int| 0 <= j < i ==> #[trigger] piece_fits(t@, ls@, j),
            out@.len() == i,
            forall|j: int| 0 <= j < i ==> (#[trigger] out@[j])@ == piece_text(t@, ls@, j),
        decreases n - i,
    {
        let len = ls[i];
        if len > tl - at {
            proof {
                assert(!piece_fits(t@, ls@, i as int));
                assert(spec == seq![text@]);
            }
            return whole;
        }
        let end = at + len;
        let ca = char_index_at_byte(&t, at);
        let ce = char_index_at_byte(&t, end);
        if byte_offset_of(&t, ca) != at || byte_offset_of(&t, ce) != end {
            proof {
                assert(!piece_fits(t@, ls@, i as int));
                assert(spec == seq![text@]);
            }
            return whole;
        }
        proof {
            assert(piece_fits(t@, ls@, i as int));
            lemma_clip_byte_mono(t@, at as int, end as int);
            lemma_clip_byte(t@, end as int);
        }
        let mut piece: Vec<char> = Vec::new();
        let mut k = ca;
        while k < ce
            invariant
                ca <= k <= ce <= t.len(),
                piece@ == t@.subrange(ca as int, k as int),
            decreases ce - k,
        {
            piece.push(t[k]);
            proof {
                assert(t@.subrange(ca as int, k as int + 1) =~= t@.subrange(ca as int, k as int).push(t@[k as int]));
            }
            k = k + 1;
        }
        out.push(chars_to_string(&piece));
        if i + 1 < n {
            if end >= tl {
                proof {
                    assert(piece_start(ls@, i as int + 1) > tl);
                    assert(!piece_fits(t@, ls@, i as int + 1));
                    assert(spec == seq![text@]);
                }
                return whole;
            }
            at = end + 1;
        }
        i = i + 1;
    }
    proof {
        assert(forall|j: int| 0 <= j < ls@.len() ==> #[trigger] piece_fits(t@, ls@, j));
        assert(spec =~= Seq::new(ls@.len(), |j: int| piece_text(t@, ls@, j)));
    }
    out
}

} // verus!
