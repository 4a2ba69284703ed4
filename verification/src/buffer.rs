//! The text buffer: the document's chars, the current [`Selections`], and the
//! undo/redo stacks of text transactions.
//!
//! Positions are stored as char indices ([`Anchor`]s) and ride every edit; the
//! public reads and writes speak UTF-8 byte offsets. Line endings are
//! normalized to `\n` on construction, so the motion helpers can treat `\n` as
//! the only break.

use std::ops::Range;

use vstd::prelude::*;

use crate::selection::{
    lemma_find_id_range, lemma_normalize_bounds, normalize, normalize_primary, normalize_spec,
    normalized_seq, primary_index, Anchor, Bias, Selection, Selections,
};
use crate::text::{
    apply_char_edits, apply_edits, byte_len, byte_offset, byte_offset_of, char_index_at_byte,
    checked_byte_len, chars_to_string, clip_byte, copy_char_edits, edited_len, edits_view, edits_wf, inverse_char_edits,
    inverse_edits, lemma_inverse_edits,
    lemma_byte_offset_full, lemma_clip_byte, lemma_clip_byte_mono,
    lemma_encode_utf8_len, lemma_map_from_lower, lemma_map_from_mono, lemma_normalize_line_endings_bytes,
    map_char_index, map_index, normalize_line_endings, normalize_line_endings_of, str_to_chars,
};

verus! {

/// Identifies one text transaction on the undo/redo stacks.
#[derive(Clone, Copy, Debug, PartialEq, Eq)]
pub struct TransactionId(pub u64);

/// One undoable text change: the document before and after it.
pub struct Transaction {
    /// The id handed out when the change was made.
    pub id: TransactionId,
    /// The document before the change (restored by undo).
    pub before: Vec<char>,
    /// The document after the change (restored by redo).
    pub after: Vec<char>,
    /// The char edits that turned `before` into `after`, sorted and
    /// non-overlapping: redo moves the selections through them, undo through
    /// their inverse.
    pub edits: Vec<(usize, usize, Vec<char>)>,
}

/// A document and where the cursor(s) currently are.
pub struct Buffer {
    /// The document, one entry per char.
    pub chars: Vec<char>,
    /// The document's UTF-8 length.
    pub len_bytes: usize,
    /// The multicursor set, as anchors that ride edits.
    pub selection: Selections,
    /// Applied transactions, most recent last.
    pub undo_stack: Vec<Transaction>,
    /// Undone transactions, most recently undone last.
    pub redo_stack: Vec<Transaction>,
    /// The id the next transaction gets.
    pub next_transaction: u64,
}

/// Anchored selections that fit a `len`-char document: in bounds, ordered, and
/// non-overlapping (starts strictly increase; each ends before the next starts);
/// the two anchors of a bare cursor stick to the same side.
pub open spec fn fits(s: Seq<Selection<Anchor>>, len: int) -> bool {
    &&& s.len() > 0
    &&& forall|i: int| 0 <= i < s.len() ==> (#[trigger] s[i]).start.index <= s[i].end.index <= len
    &&& forall|i: int|
        0 <= i < s.len() && (#[trigger] s[i]).start.index == s[i].end.index ==> s[i].start.bias == s[i].end.bias
    &&& forall|i: int, j: int|
        0 <= i < j < s.len() ==> (#[trigger] s[i]).start.index < (#[trigger] s[j]).start.index
            && s[i].end.index <= s[j].start.index
}

/// `next` grown past every id of `s`: the larger of `next` and one more than
/// the largest id.
pub open spec fn grown_next_id(next: usize, s: Seq<Selection<Anchor>>) -> usize
    decreases s.len(),
{
    if s.len() == 0 {
        next
    } else {
        let m = grown_next_id(next, s.drop_last());
        if s.last().id + 1 > m {
            (s.last().id + 1) as usize
        } else {
            m
        }
    }
}

/// A selection set that is valid over a `len`-char document.
pub open spec fn sels_ok(s: Selections, len: int) -> bool {
    &&& fits(s.selections@, len)
    &&& s.ids_below_next()
    &&& s.primary_id < usize::MAX
}

/// A transaction whose texts can be measured in `usize` bytes and whose
/// edits lead from a text of `before`'s length to one of `after`'s.
pub open spec fn tx_fits(t: Transaction) -> bool {
    &&& byte_len(t.before@) <= usize::MAX
    &&& byte_len(t.after@) <= usize::MAX
    &&& edits_wf(edits_view(t.edits@), t.before.len() as int)
    &&& t.after.len() == edited_len(edits_view(t.edits@), t.before.len() as int)
}

/// The stacks line up with a `len`-char text: the last transaction done ends
/// at its length and the last one undone starts at it; along each stack every
/// transaction starts where the one below it ended (undo) or ends where the
/// one below it started (redo).
pub open spec fn stacks_chain(len: int, undo: Seq<Transaction>, redo: Seq<Transaction>) -> bool {
    &&& undo.len() > 0 ==> undo.last().after.len() == len
    &&& redo.len() > 0 ==> redo.last().before.len() == len
    &&& forall|i: int, j: int|
        0 <= i && j == i + 1 && j < undo.len() ==> (#[trigger] undo[i]).after.len() == (#[trigger] undo[j]).before.len()
    &&& forall|i: int, j: int|
        0 <= i && j == i + 1 && j < redo.len() ==> (#[trigger] redo[i]).before.len() == (#[trigger] redo[j]).after.len()
}

/// An anchored selection's char-index form.
pub open spec fn index_sel(a: Selection<Anchor>) -> Selection<usize> {
    Selection { id: a.id, start: a.start.index, end: a.end.index, reversed: a.reversed, goal: a.goal }
}

/// Anchor a char-index selection: a bare cursor sticks left of text typed at
/// it; a span's start sticks right and its end left, so text typed just
/// outside the span stays outside it.
pub open spec fn anchor_sel(s: Selection<usize>) -> Selection<Anchor> {
    if s.start == s.end {
        Selection {
            id: s.id,
            start: Anchor { index: s.start, bias: Bias::Left },
            end: Anchor { index: s.end, bias: Bias::Left },
            reversed: s.reversed,
            goal: s.goal,
        }
    } else {
        Selection {
            id: s.id,
            start: Anchor { index: s.start, bias: Bias::Right },
            end: Anchor { index: s.end, bias: Bias::Left },
            reversed: s.reversed,
            goal: s.goal,
        }
    }
}

/// Anchor a char-index selection. A bare cursor uses one left-biased anchor
/// for both ends; a span biases its `start` rightward and its `end` leftward,
/// so text typed just outside the span stays outside it.
fn anchorize(s: &Selection<usize>) -> (r: Selection<Anchor>)
    ensures
        r == anchor_sel(*s),
{
    if s.start == s.end {
        Selection {
            id: s.id,
            start: Anchor { index: s.start, bias: Bias::Left },
            end: Anchor { index: s.end, bias: Bias::Left },
            reversed: s.reversed,
            goal: s.goal,
        }
    } else {
        Selection {
            id: s.id,
            start: Anchor { index: s.start, bias: Bias::Right },
            end: Anchor { index: s.end, bias: Bias::Left },
            reversed: s.reversed,
            goal: s.goal,
        }
    }
}

/// A char-index selection resolved to byte offsets.
pub open spec fn byte_sel(t: Seq<char>, s: Selection<usize>) -> Selection<usize> {
    Selection {
        id: s.id,
        start: byte_offset(t, s.start as int) as usize,
        end: byte_offset(t, s.end as int) as usize,
        reversed: s.reversed,
        goal: s.goal,
    }
}

/// A byte-offset selection clipped onto char indices.
pub open spec fn char_sel(t: Seq<char>, s: Selection<usize>) -> Selection<usize> {
    Selection {
        id: s.id,
        start: clip_byte(t, s.start as int) as usize,
        end: clip_byte(t, s.end as int) as usize,
        reversed: s.reversed,
        goal: s.goal,
    }
}

/// Anchor every selection of a normalized set.
pub open spec fn anchor_all(s: Seq<Selection<usize>>) -> Seq<Selection<Anchor>> {
    s.map_values(|x: Selection<usize>| anchor_sel(x))
}

/// An anchor moved through an edit list.
pub open spec fn map_anchor(es: Seq<(int, int, Seq<char>)>, a: Anchor) -> usize {
    map_index(es, a.index as int, a.bias == Bias::Left) as usize
}

/// A selection whose anchors moved through an edit list.
pub open spec fn map_sel(es: Seq<(int, int, Seq<char>)>, a: Selection<Anchor>) -> Selection<usize> {
    Selection { id: a.id, start: map_anchor(es, a.start), end: map_anchor(es, a.end), reversed: a.reversed, goal: a.goal }
}

/// Byte edit ranges clipped onto char indices, with the inserted chars.
pub open spec fn char_edits(t: Seq<char>, edits: Seq<(Range<usize>, String)>) -> Seq<(int, int, Seq<char>)> {
    edits.map_values(
        |e: (Range<usize>, String)| (clip_byte(t, e.0.start as int), clip_byte(t, e.0.end as int), e.1@),
    )
}

/// Every edit leaves the text as it is (an empty range with no text).
pub open spec fn all_empty(es: Seq<(int, int, Seq<char>)>) -> bool {
    forall|k: int| 0 <= k < es.len() ==> (#[trigger] es[k]).0 == es[k].1 && es[k].2.len() == 0
}

/// `new` is `old` with one transaction pushed on top: `id` turning `before`
/// into `after` by the edits `es`.
pub open spec fn pushed_tx(
    old: Seq<Transaction>,
    new: Seq<Transaction>,
    id: TransactionId,
    before: Seq<char>,
    after: Seq<char>,
    es: Seq<(int, int, Seq<char>)>,
) -> bool {
    &&& new.len() == old.len() + 1
    &&& forall|i: int| 0 <= i < old.len() ==> #[trigger] new[i] == old[i]
    &&& new.last().id == id
    &&& new.last().before@ == before
    &&& new.last().after@ == after
    &&& edits_view(new.last().edits@) == es
}

/// Every selection of `s` with its anchors moved through an edit list.
pub open spec fn mapped_sels(es: Seq<(int, int, Seq<char>)>, s: Seq<Selection<Anchor>>) -> Seq<Selection<usize>> {
    s.map_values(|a: Selection<Anchor>| map_sel(es, a))
}

/// The id after `n`, wrapping at the top of the range.
pub open spec fn next_tx_id(n: u64) -> u64 {
    if n < u64::MAX {
        (n + 1) as u64
    } else {
        0
    }
}

/// A char edit list that changes nothing, or whose result cannot be measured
/// in `usize` bytes: [`Buffer::edit_chars`] refuses it.
pub open spec fn chars_refused(t: Seq<char>, es: Seq<(int, int, Seq<char>)>) -> bool {
    all_empty(es) || byte_len(apply_edits(t, es)) > usize::MAX
}

impl Buffer {
    /// The text half of the invariant: the cached length is right, every
    /// stored transaction fits, and the stacks line up with the text.
    pub open spec fn text_wf(&self) -> bool {
        &&& self.len_bytes == byte_len(self.chars@)
        &&& forall|i: int| 0 <= i < self.undo_stack.len() ==> tx_fits(#[trigger] self.undo_stack@[i])
        &&& forall|i: int| 0 <= i < self.redo_stack.len() ==> tx_fits(#[trigger] self.redo_stack@[i])
        &&& stacks_chain(self.chars.len() as int, self.undo_stack@, self.redo_stack@)
    }

    /// The buffer's invariant.
    pub open spec fn wf(&self) -> bool {
        &&& self.text_wf()
        &&& sels_ok(self.selection, self.chars.len() as int)
    }

    /// The selections in char-index form.
    pub open spec fn index_sels(&self) -> Seq<Selection<usize>> {
        self.selection.selections@.map_values(|a: Selection<Anchor>| index_sel(a))
    }

    /// The selections resolved to byte offsets.
    pub open spec fn resolved_spec(&self) -> Seq<Selection<usize>> {
        self.selection.selections@.map_values(|a: Selection<Anchor>| byte_sel(self.chars@, index_sel(a)))
    }

    /// The primary selection in char-index form.
    pub open spec fn primary_index_sel(&self) -> Selection<usize> {
        index_sel(self.selection.selections@[primary_index(self.selection.selections@, self.selection.primary_id)])
    }

    /// The state after setting the selections from char-index selections `s`.
    /// The next free id becomes the larger of the old one and one past the
    /// largest surviving id.
    pub open spec fn selections_set(&self, old: &Buffer, s: Seq<Selection<usize>>, primary_id: usize) -> bool {
        &&& self.selection.selections@ == anchor_all(normalize_spec(s, primary_id))
        &&& self.selection.primary_id == normalize_primary(s, primary_id)
        &&& self.selection.next_id == grown_next_id(old.selection.next_id, self.selection.selections@)
        &&& self.chars@ == old.chars@
        &&& self.len_bytes == old.len_bytes
        &&& self.undo_stack@ == old.undo_stack@
        &&& self.redo_stack@ == old.redo_stack@
        &&& self.next_transaction == old.next_transaction
    }

    /// Build a buffer from a string, with a single bare cursor at offset 0.
    /// `"\r\n"` and lone `'\r'` line endings are normalized to `'\n'`.
    pub fn from_str(s: &str) -> (r: Self)
        ensures
            r.wf(),
            r.chars@ == normalize_line_endings(s@),
            r.index_sels() == seq![Selection::<usize> { id: 0, start: 0, end: 0, reversed: false, goal: crate::selection::SelectionGoal::Unset }],
            r.selection.primary_id == 0,
            r.undo_stack.len() == 0,
            r.redo_stack.len() == 0,
    {
        let raw = str_to_chars(s);
        let chars = normalize_line_endings_of(&raw);
        let nbytes = s.as_bytes().len();
        proof {
            lemma_encode_utf8_len(s@);
            lemma_normalize_line_endings_bytes(s@);
        }
        let len_bytes = crate::text::byte_offset_of(&chars, chars.len());
        proof {
            lemma_byte_offset_full(chars@);
        }
        let cursor = Selection {
            id: 0,
            start: Anchor { index: 0, bias: Bias::Left },
            end: Anchor { index: 0, bias: Bias::Left },
            reversed: false,
            goal: crate::selection::SelectionGoal::Unset,
        };
        let r = Buffer {
            chars,
            len_bytes,
            selection: Selections::single(cursor),
            undo_stack: Vec::new(),
            redo_stack: Vec::new(),
            next_transaction: 0,
        };
        proof {
            assert(r.index_sels() =~= seq![Selection::<usize> { id: 0, start: 0, end: 0, reversed: false, goal: crate::selection::SelectionGoal::Unset }]);
        }
        r
    }

    /// The document's chars (a read-only snapshot of the text).
    pub fn snapshot(&self) -> (r: &Vec<char>)
        ensures
            r@ == self.chars@,
    {
        &self.chars
    }

    /// The document's chars — what the motion layer reads.
    pub fn rope(&self) -> (r: &Vec<char>)
        ensures
            r@ == self.chars@,
    {
        &self.chars
    }

    /// The whole document as a `String`.
    pub fn text(&self) -> (r: String)
        ensures
            r@ == self.chars@,
    {
        chars_to_string(&self.chars)
    }

    /// The byte length of the document.
    pub fn len(&self) -> (r: usize)
        requires
            self.wf(),
        ensures
            r == byte_len(self.chars@),
    {
        self.len_bytes
    }

    /// True when the document is empty.
    pub fn is_empty(&self) -> (r: bool)
        ensures
            r == (self.chars@.len() == 0),
    {
        self.chars.len() == 0
    }

    /// Every selection in char-index form.
    pub fn resolved_chars(&self) -> (r: Vec<Selection<usize>>)
        ensures
            r@ == self.index_sels(),
    {
        let n = self.selection.selections.len();
        let mut v: Vec<Selection<usize>> = Vec::new();
        let mut i: usize = 0;
        while i < n
            invariant
                n == self.selection.selections.len(),
                i <= n,
                v@ == self.index_sels().take(i as int),
            decreases n - i,
        {
            let a = self.selection.selections[i];
            v.push(Selection { id: a.id, start: a.start.index, end: a.end.index, reversed: a.reversed, goal: a.goal });
            proof {
                assert(self.index_sels().take(i as int + 1) =~= self.index_sels().take(i as int).push(index_sel(a)));
            }
            i = i + 1;
        }
        proof {
            assert(self.index_sels().take(n as int) =~= self.index_sels());
        }
        v
    }

    /// Every selection resolved to byte offsets against the current text.
    pub fn resolved(&self) -> (r: Vec<Selection<usize>>)
        requires
            self.wf(),
        ensures
            r@ == self.resolved_spec(),
    {
        let n = self.selection.selections.len();
        let mut v: Vec<Selection<usize>> = Vec::new();
        let mut i: usize = 0;
        while i < n
            invariant
                self.wf(),
                n == self.selection.selections.len(),
                i <= n,
                v@ == self.resolved_spec().take(i as int),
            decreases n - i,
        {
            let a = self.selection.selections[i];
            proof {
                lemma_byte_offset_full(self.chars@);
            }
            let start = byte_offset_of(&self.chars, a.start.index);
            let end = byte_offset_of(&self.chars, a.end.index);
            v.push(Selection { id: a.id, start, end, reversed: a.reversed, goal: a.goal });
            proof {
                assert(self.resolved_spec().take(i as int + 1) =~= self.resolved_spec().take(i as int).push(
                    byte_sel(self.chars@, index_sel(a)),
                ));
            }
            i = i + 1;
        }
        proof {
            assert(self.resolved_spec().take(n as int) =~= self.resolved_spec());
        }
        v
    }

    /// The primary selection in char-index form.
    pub fn primary_chars(&self) -> (r: Selection<usize>)
        requires
            self.wf(),
        ensures
            r == self.primary_index_sel(),
    {
        let a = *self.selection.primary();
        Selection { id: a.id, start: a.start.index, end: a.end.index, reversed: a.reversed, goal: a.goal }
    }

    /// The primary selection resolved to byte offsets.
    pub fn primary_resolved(&self) -> (r: Selection<usize>)
        requires
            self.wf(),
        ensures
            r == byte_sel(self.chars@, self.primary_index_sel()),
    {
        let p = self.primary_chars();
        proof {
            lemma_find_id_range(self.selection.selections@, self.selection.primary_id, 0);
            lemma_byte_offset_full(self.chars@);
        }
        let start = byte_offset_of(&self.chars, p.start);
        let end = byte_offset_of(&self.chars, p.end);
        Selection { id: p.id, start, end, reversed: p.reversed, goal: p.goal }
    }

    /// The id of the primary selection.
    pub fn primary_id(&self) -> (r: usize)
        ensures
            r == self.selection.primary_id,
    {
        self.selection.primary_id()
    }

    /// Hand out a fresh selection id (for spawning a cursor).
    pub fn alloc_id(&mut self) -> (r: usize)
        requires
            old(self).wf(),
            old(self).selection.next_id < usize::MAX,
        ensures
            final(self).wf(),
            r == old(self).selection.next_id,
            final(self).selection.next_id == r + 1,
            final(self).selection.selections@ == old(self).selection.selections@,
            final(self).selection.primary_id == old(self).selection.primary_id,
            final(self).only_selection_changed(old(self)),
    {
        self.selection.alloc_id()
    }

    /// Replace the selection set from char-index selections: sort, merge
    /// overlaps, re-anchor, and record the surviving primary id.
    pub fn set_selections_chars(&mut self, sels: Vec<Selection<usize>>, primary_id: usize)
        requires
            old(self).text_wf(),
            sels.len() > 0,
            sels.len() > 1 || primary_id < usize::MAX,
            forall|i: int|
                0 <= i < sels.len() ==> (#[trigger] sels@[i]).start <= sels@[i].end <= old(self).chars.len()
                    && sels@[i].id < usize::MAX,
        ensures
            final(self).wf(),
            final(self).selections_set(old(self), sels@, primary_id),
    {
        let ghost s0 = sels@;
        let mut v = sels;
        let pid = normalize(&mut v, primary_id);
        proof {
            lemma_normalize_bounds(s0, primary_id, usize::MAX as int, self.chars.len() as int);
            assert(v@ == normalize_spec(s0, primary_id));
        }
        let n = v.len();
        let mut anchored: Vec<Selection<Anchor>> = Vec::new();
        let mut i: usize = 0;
        while i < n
            invariant
                n == v.len(),
                i <= n,
                anchored@ == anchor_all(v@).take(i as int),
            decreases n - i,
        {
            anchored.push(anchorize(&v[i]));
            proof {
                assert(anchor_all(v@).take(i as int + 1) =~= anchor_all(v@).take(i as int).push(anchor_sel(v@[i as int])));
            }
            i = i + 1;
        }
        proof {
            assert(anchor_all(v@).take(n as int) =~= anchor_all(v@));
            let m = v@;
            let am = anchor_all(m);
            assert forall|i: int| 0 <= i < am.len() implies (#[trigger] am[i]).id < usize::MAX by {
                assert(am[i].id == m[i].id);
            }
        }
        self.selection.replace(anchored, pid);
        proof {
            let m = v@;
            let am = anchor_all(m);
            assert(normalized_seq(m));
            assert(fits(am, self.chars.len() as int)) by {
                assert forall|i: int| 0 <= i < am.len() implies (#[trigger] am[i]).start.index <= am[i].end.index
                    <= self.chars.len() by {
                    assert(am[i].start.index == m[i].start && am[i].end.index == m[i].end);
                }
                assert forall|i: int, j: int| 0 <= i < j < am.len() implies (#[trigger] am[i]).start.index
                    < (#[trigger] am[j]).start.index && am[i].end.index <= am[j].start.index by {
                    assert(am[i].start.index == m[i].start && am[i].end.index == m[i].end);
                    assert(am[j].start.index == m[j].start);
                }
                assert forall|i: int| 0 <= i < am.len() && (#[trigger] am[i]).start.index == am[i].end.index implies am[i].start.bias
                    == am[i].end.bias by {
                    assert(am[i] == anchor_sel(m[i]));
                }
            }
        }
    }

    /// Replace the selection set from byte-offset selections: offsets are
    /// clipped onto char boundaries, then sorted, merged, and re-anchored.
    /// Every id, and a primary id that a lone selection keeps as it is, stays
    /// below `usize::MAX`: the set counts its next id past each of them, and
    /// collapsing to a cursor makes the primary id a selection's id.
    pub fn set_selections(&mut self, resolved: Vec<Selection<usize>>, primary_id: usize)
        requires
            old(self).wf(),
            resolved.len() > 0,
            resolved.len() > 1 || primary_id < usize::MAX,
            forall|i: int|
                0 <= i < resolved.len() ==> (#[trigger] resolved@[i]).start <= resolved@[i].end
                    && resolved@[i].id < usize::MAX,
        ensures
            final(self).wf(),
            final(self).selections_set(
                old(self),
                resolved@.map_values(|s: Selection<usize>| char_sel(old(self).chars@, s)),
                primary_id,
            ),
    {
        let ghost t = self.chars@;
        let ghost target = resolved@.map_values(|s: Selection<usize>| char_sel(t, s));
        let n = resolved.len();
        let mut v: Vec<Selection<usize>> = Vec::new();
        let mut i: usize = 0;
        while i < n
            invariant
                self.wf(),
                t == self.chars@,
                n == resolved.len(),
                i <= n,
                target == resolved@.map_values(|s: Selection<usize>| char_sel(t, s)),
                v@ == target.take(i as int),
            decreases n - i,
        {
            let s = resolved[i];
            proof {
                lemma_byte_offset_full(t);
            }
            let start = char_index_at_byte(&self.chars, s.start);
            let end = char_index_at_byte(&self.chars, s.end);
            v.push(Selection { id: s.id, start, end, reversed: s.reversed, goal: s.goal });
            proof {
                assert(target.take(i as int + 1) =~= target.take(i as int).push(char_sel(t, s)));
            }
            i = i + 1;
        }
        proof {
            assert(target.take(n as int) =~= target);
            assert forall|i: int| 0 <= i < v.len() implies (#[trigger] v@[i]).start <= v@[i].end <= self.chars.len()
                && v@[i].id < usize::MAX by {
                let s = resolved@[i];
                assert(v@[i] == target[i]);
                assert(target[i] == char_sel(t, s));
                lemma_clip_byte_mono(t, s.start as int, s.end as int);
                lemma_clip_byte(t, s.end as int);
                lemma_clip_byte(t, s.start as int);
                assert(resolved@[i].id < usize::MAX);
            }
        }
        self.set_selections_chars(v, primary_id);
    }

    /// Nothing but the selection set differs from `old`.
    pub open spec fn only_selection_changed(&self, old: &Buffer) -> bool {
        &&& self.chars@ == old.chars@
        &&& self.len_bytes == old.len_bytes
        &&& self.undo_stack@ == old.undo_stack@
        &&& self.redo_stack@ == old.redo_stack@
        &&& self.next_transaction == old.next_transaction
    }

    /// Apply `edits` (byte ranges of the current text, each with its replacement)
    /// as **one** undoable transaction and return its id. Range ends are clipped
    /// onto char boundaries. Returns `None`, changing nothing, when no edit
    /// changes anything. The anchors ride the change and the set is re-merged;
    /// the redo stack is cleared.
    pub fn edit(&mut self, edits: Vec<(Range<usize>, String)>) -> (r: Option<TransactionId>)
        requires
            old(self).wf(),
            forall|k: int| 0 <= k < edits.len() ==> (#[trigger] edits@[k]).0.start <= edits@[k].0.end <= old(self).len_bytes,
            forall|j: int, k: int| 0 <= j < k < edits.len() ==> (#[trigger] edits@[j]).0.end <= (#[trigger] edits@[k]).0.start,
        ensures
            final(self).wf(),
            final(self).edited(old(self), char_edits(old(self).chars@, edits@), r),
    {
        let ghost t0 = self.chars@;
        let ghost es = char_edits(t0, edits@);
        let ghost len0 = self.chars.len() as int;
        proof {
            lemma_byte_offset_full(t0);
        }
        let n = edits.len();
        let mut ces: Vec<(usize, usize, Vec<char>)> = Vec::new();
        let mut i: usize = 0;
        while i < n
            invariant
                self.wf(),
                t0 == self.chars@,
                es == char_edits(t0, edits@),
                n == edits.len(),
                i <= n,
                edits_view(ces@) == es.take(i as int),
                ces.len() == i,
                es.len() == n,
            decreases n - i,
        {
            let from = char_index_at_byte(&self.chars, edits[i].0.start);
            let to = char_index_at_byte(&self.chars, edits[i].0.end);
            let ins = str_to_chars(edits[i].1.as_str());
            let ghost e = edits@[i as int];
            proof {
                assert(ins@ == e.1@);
                assert(es[i as int] == (from as int, to as int, ins@));
            }
            let ghost ins_v = ins@;
            let ghost old_ces = ces@;
            ces.push((from, to, ins));
            proof {
                assert(ces@[i as int].2@ == ins_v);
                assert(edits_view(ces@)[i as int] == es[i as int]);
                assert(edits_view(ces@) =~= es.take(i as int + 1));
            }
            i = i + 1;
        }
        proof {
            assert(es.take(n as int) =~= es);
            assert forall|k: int| 0 <= k < es.len() implies 0 <= (#[trigger] es[k]).0 <= es[k].1 <= len0 by {
                let e = edits@[k];
                lemma_clip_byte_mono(t0, e.0.start as int, e.0.end as int);
                lemma_clip_byte(t0, e.0.end as int);
                lemma_clip_byte(t0, e.0.start as int);
            }
            assert forall|j: int, k: int| 0 <= j < k < es.len() implies (#[trigger] es[j]).1 <= (#[trigger] es[k]).0 by {
                lemma_clip_byte_mono(t0, edits@[j].0.end as int, edits@[k].0.start as int);
            }
        }
        self.edit_chars(&ces)
    }

    /// The state after applying the char edit list `es` to `old` as one
    /// transaction, with result `r`: refused (nothing changes) exactly when no
    /// edit changes anything or the result cannot be measured in `usize` bytes.
    pub open spec fn edited(&self, old: &Buffer, es: Seq<(int, int, Seq<char>)>, r: Option<TransactionId>) -> bool {
        &&& r is None <==> chars_refused(old.chars@, es)
        &&& r is None ==> self.only_selection_changed(old) && self.selection.same_as(&old.selection)
        &&& r is Some ==> {
            &&& r == Some(TransactionId(old.next_transaction))
            &&& self.chars@ == apply_edits(old.chars@, es)
            &&& self.chars@.len() == edited_len(es, old.chars@.len() as int)
            &&& self.selection.selections@ == anchor_all(
                normalize_spec(mapped_sels(es, old.selection.selections@), old.selection.primary_id),
            )
            &&& self.selection.primary_id == normalize_primary(
                mapped_sels(es, old.selection.selections@),
                old.selection.primary_id,
            )
            &&& pushed_tx(old.undo_stack@, self.undo_stack@, r.unwrap(), old.chars@, self.chars@, es)
            &&& self.redo_stack.len() == 0
            &&& self.next_transaction == next_tx_id(old.next_transaction)
        }
    }

    /// Apply a sorted, non-overlapping char edit list (positions are char
    /// indices of the current text) as one undoable transaction; see
    /// [`Buffer::edit`].
    pub fn edit_chars(&mut self, ces: &Vec<(usize, usize, Vec<char>)>) -> (r: Option<TransactionId>)
        requires
            old(self).wf(),
            edits_wf(edits_view(ces@), old(self).chars.len() as int),
        ensures
            final(self).wf(),
            final(self).edited(old(self), edits_view(ces@), r),
    {
        let ghost t0 = self.chars@;
        let ghost es = edits_view(ces@);
        let n = ces.len();
        let mut any = false;
        let mut i: usize = 0;
        while i < n
            invariant
                n == ces.len(),
                es == edits_view(ces@),
                i <= n,
                any == !all_empty(es.take(i as int)),
            decreases n - i,
        {
            if ces[i].0 != ces[i].1 || ces[i].2.len() > 0 {
                any = true;
            }
            proof {
                assert(es.take(i as int + 1).take(i as int) =~= es.take(i as int));
                assert(es.take(i as int + 1)[i as int] == es[i as int]);
            }
            i = i + 1;
        }
        proof {
            assert(es.take(n as int) =~= es);
        }
        if !any {
            return None;
        }
        let new_chars = apply_char_edits(&self.chars, ces);
        let nb = match checked_byte_len(&new_chars) {
            Some(b) => b,
            None => {
                return None;
            },
        };
        let ghost t1 = new_chars@;
        let ghost sels = self.selection.selections@;
        let ghost target = mapped_sels(es, sels);
        let m = self.selection.selections.len();
        let len = self.chars.len();
        let mut mapped: Vec<Selection<usize>> = Vec::new();
        let mut j: usize = 0;
        while j < m
            invariant
                self.wf(),
                t0 == self.chars@,
                len == self.chars.len(),
                sels == self.selection.selections@,
                m == sels.len(),
                es == edits_view(ces@),
                edits_wf(es, len as int),
                edited_len(es, len as int) == t1.len(),
                t1.len() <= usize::MAX,
                target == mapped_sels(es, sels),
                j <= m,
                mapped@ == target.take(j as int),
            decreases m - j,
        {
            let a = self.selection.selections[j];
            let start = map_char_index(ces, len, a.start.index, a.start.bias == Bias::Left);
            let end = map_char_index(ces, len, a.end.index, a.end.bias == Bias::Left);
            mapped.push(Selection { id: a.id, start, end, reversed: a.reversed, goal: a.goal });
            proof {
                assert(mapped@ =~= target.take(j as int + 1));
            }
            j = j + 1;
        }
        proof {
            assert(target.take(m as int) =~= target);
            assert forall|k: int| 0 <= k < mapped.len() implies (#[trigger] mapped@[k]).start <= mapped@[k].end <= t1.len()
                && mapped@[k].id < usize::MAX by {
                let a = sels[k];
                assert(mapped@[k] == map_sel(es, a));
                assert(a.id < self.selection.next_id);
                let lp = a.start.bias == Bias::Left;
                let lq = a.end.bias == Bias::Left;
                lemma_map_from_mono(es, len as int, a.start.index as int, lp, a.end.index as int, lq, 0);
                lemma_map_from_lower(es, len as int, a.end.index as int, lq, 0);
                lemma_map_from_lower(es, len as int, a.start.index as int, lp, 0);
            }
        }
        let id = TransactionId(self.next_transaction);
        let after = new_chars.clone();
        proof {
            assert(after@ =~= new_chars@);
        }
        let stored = copy_char_edits(ces);
        let mut nc = new_chars;
        core::mem::swap(&mut self.chars, &mut nc);
        let ghost u0 = self.undo_stack@;
        self.undo_stack.push(Transaction { id, before: nc, after, edits: stored });
        self.redo_stack.clear();
        self.next_transaction = self.next_transaction.wrapping_add(1);
        self.len_bytes = nb;
        let pid = self.selection.primary_id;
        proof {
            assert forall|i: int| 0 <= i < self.undo_stack.len() implies tx_fits(#[trigger] self.undo_stack@[i]) by {
                if i == self.undo_stack.len() - 1 {
                    assert(self.undo_stack@[i].before@ == t0);
                } else {
                    assert(self.undo_stack@[i] == u0[i]);
                }
            }
            let u = self.undo_stack@;
            assert forall|i: int, j: int| 0 <= i && j == i + 1 && j < u.len() implies (#[trigger] u[i]).after.len()
                == (#[trigger] u[j]).before.len() by {
                assert(u[i] == u0[i]);
                if j < u.len() - 1 {
                    assert(u[j] == u0[j]);
                } else {
                    assert(u0.last() == u0[i]);
                }
            }
        }
        self.set_selections_chars(mapped, pid);
        Some(id)
    }

    /// Install `text` as the document, the one that the edits `es` make of the
    /// current text, moving every selection through them and re-merging; the
    /// caller has already moved the transaction between stacks.
    fn install_text(&mut self, text: Vec<char>, es: &Vec<(usize, usize, Vec<char>)>)
        requires
            sels_ok(old(self).selection, old(self).chars.len() as int),
            forall|i: int| 0 <= i < old(self).undo_stack.len() ==> tx_fits(#[trigger] old(self).undo_stack@[i]),
            forall|i: int| 0 <= i < old(self).redo_stack.len() ==> tx_fits(#[trigger] old(self).redo_stack@[i]),
            stacks_chain(text.len() as int, old(self).undo_stack@, old(self).redo_stack@),
            byte_len(text@) <= usize::MAX,
            edits_wf(edits_view(es@), old(self).chars.len() as int),
            edited_len(edits_view(es@), old(self).chars.len() as int) == text.len(),
        ensures
            final(self).wf(),
            final(self).chars@ == text@,
            final(self).undo_stack@ == old(self).undo_stack@,
            final(self).redo_stack@ == old(self).redo_stack@,
            final(self).next_transaction == old(self).next_transaction,
            final(self).selection.selections@ == anchor_all(
                normalize_spec(mapped_sels(edits_view(es@), old(self).selection.selections@), old(self).selection.primary_id),
            ),
            final(self).selection.primary_id == normalize_primary(
                mapped_sels(edits_view(es@), old(self).selection.selections@),
                old(self).selection.primary_id,
            ),
    {
        proof {
            lemma_byte_offset_full(text@);
        }
        let nb = byte_offset_of(&text, text.len());
        let ghost ev = edits_view(es@);
        let ghost sels = self.selection.selections@;
        let len = self.chars.len();
        let ghost t1len = text.len();
        let ghost target = mapped_sels(ev, sels);
        let m = self.selection.selections.len();
        let mut v: Vec<Selection<usize>> = Vec::new();
        let mut j: usize = 0;
        while j < m
            invariant
                sels_ok(self.selection, len as int),
                sels == self.selection.selections@,
                m == sels.len(),
                ev == edits_view(es@),
                edits_wf(ev, len as int),
                edited_len(ev, len as int) == t1len,
                t1len <= usize::MAX,
                target == mapped_sels(ev, sels),
                j <= m,
                v@ == target.take(j as int),
            decreases m - j,
        {
            let a = self.selection.selections[j];
            let start = map_char_index(es, len, a.start.index, a.start.bias == Bias::Left);
            let end = map_char_index(es, len, a.end.index, a.end.bias == Bias::Left);
            v.push(Selection { id: a.id, start, end, reversed: a.reversed, goal: a.goal });
            proof {
                assert(v@ =~= target.take(j as int + 1));
            }
            j = j + 1;
        }
        proof {
            assert(target.take(m as int) =~= target);
            assert forall|k: int| 0 <= k < v.len() implies (#[trigger] v@[k]).start <= v@[k].end <= t1len
                && v@[k].id < usize::MAX by {
                let a = sels[k];
                assert(v@[k] == map_sel(ev, a));
                assert(a.id < self.selection.next_id);
                let lp = a.start.bias == Bias::Left;
                let lq = a.end.bias == Bias::Left;
                lemma_map_from_mono(ev, len as int, a.start.index as int, lp, a.end.index as int, lq, 0);
                lemma_map_from_lower(ev, len as int, a.end.index as int, lq, 0);
                lemma_map_from_lower(ev, len as int, a.start.index as int, lp, 0);
            }
        }
        self.chars = text;
        self.len_bytes = nb;
        let pid = self.selection.primary_id;
        self.set_selections_chars(v, pid);
    }

    /// The state after undoing from `old`, with result `r`: the top
    /// transaction's text before it is restored and the transaction moves to
    /// the redo stack; the selections move through the inverse of its edits
    /// and are re-merged. With nothing to undo, nothing changes.
    pub open spec fn undone(&self, old: &Buffer, r: Option<TransactionId>) -> bool {
        &&& r is None <==> old.undo_stack.len() == 0
        &&& r is None ==> self.only_selection_changed(old) && self.selection.same_as(&old.selection)
        &&& r is Some ==> {
            let t = old.undo_stack@.last();
            &&& r == Some(t.id)
            &&& self.chars@ == t.before@
            &&& self.undo_stack@ == old.undo_stack@.drop_last()
            &&& self.redo_stack@ == old.redo_stack@.push(t)
            &&& self.next_transaction == old.next_transaction
            &&& self.selection.selections@ == anchor_all(
                normalize_spec(
                    mapped_sels(inverse_edits(edits_view(t.edits@), t.before@), old.selection.selections@),
                    old.selection.primary_id,
                ),
            )
            &&& self.selection.primary_id == normalize_primary(
                mapped_sels(inverse_edits(edits_view(t.edits@), t.before@), old.selection.selections@),
                old.selection.primary_id,
            )
        }
    }

    /// The state after redoing from `old`, with result `r`: the top undone
    /// transaction's text after it is restored and the transaction returns to
    /// the undo stack; the selections move through its edits and are
    /// re-merged. With nothing undone, nothing changes.
    pub open spec fn redone(&self, old: &Buffer, r: Option<TransactionId>) -> bool {
        &&& r is None <==> old.redo_stack.len() == 0
        &&& r is None ==> self.only_selection_changed(old) && self.selection.same_as(&old.selection)
        &&& r is Some ==> {
            let t = old.redo_stack@.last();
            &&& r == Some(t.id)
            &&& self.chars@ == t.after@
            &&& self.redo_stack@ == old.redo_stack@.drop_last()
            &&& self.undo_stack@ == old.undo_stack@.push(t)
            &&& self.next_transaction == old.next_transaction
            &&& self.selection.selections@ == anchor_all(
                normalize_spec(mapped_sels(edits_view(t.edits@), old.selection.selections@), old.selection.primary_id),
            )
            &&& self.selection.primary_id == normalize_primary(
                mapped_sels(edits_view(t.edits@), old.selection.selections@),
                old.selection.primary_id,
            )
        }
    }

    /// Undo the most recent text transaction: the text returns to what it was
    /// before it and the transaction moves to the redo stack; the selections
    /// follow the text back through the inverse of its edits and are
    /// re-merged. `None`, changing nothing, when there is nothing to undo.
    pub fn undo(&mut self) -> (r: Option<TransactionId>)
        requires
            old(self).wf(),
        ensures
            final(self).wf(),
            final(self).undone(old(self), r),
    {
        if self.undo_stack.len() == 0 {
            return None;
        }
        let t = self.undo_stack.pop().unwrap();
        proof {
            assert(tx_fits(old(self).undo_stack@[old(self).undo_stack.len() - 1]));
            lemma_inverse_edits(edits_view(t.edits@), t.before@);
        }
        let inv = inverse_char_edits(&t.edits, &t.before);
        let text = t.before.clone();
        proof {
            assert(text@ =~= t.before@);
        }
        let id = t.id;
        self.redo_stack.push(t);
        proof {
            assert forall|i: int| 0 <= i < self.redo_stack.len() implies tx_fits(#[trigger] self.redo_stack@[i]) by {
                if i < old(self).redo_stack.len() {
                    assert(self.redo_stack@[i] == old(self).redo_stack@[i]);
                }
            }
            assert forall|i: int| 0 <= i < self.undo_stack.len() implies tx_fits(#[trigger] self.undo_stack@[i]) by {
                assert(self.undo_stack@[i] == old(self).undo_stack@[i]);
            }
        }
        proof {
            let u = self.undo_stack@;
            let rs = self.redo_stack@;
            let u0 = old(self).undo_stack@;
            let r0 = old(self).redo_stack@;
            assert(u == u0.drop_last());
            assert(rs == r0.push(t));
            assert forall|i: int, j: int| 0 <= i && j == i + 1 && j < u.len() implies (#[trigger] u[i]).after.len()
                == (#[trigger] u[j]).before.len() by {
                assert(u[i] == u0[i] && u[j] == u0[j]);
            }
            if u.len() > 0 {
                assert(u.last() == u0[u0.len() - 2]);
                assert(u0[u0.len() - 1] == t);
            }
            assert forall|i: int, j: int| 0 <= i && j == i + 1 && j < rs.len() implies (#[trigger] rs[i]).before.len()
                == (#[trigger] rs[j]).after.len() by {
                assert(rs[i] == r0[i]);
                if j < rs.len() - 1 {
                    assert(rs[j] == r0[j]);
                } else {
                    assert(r0.last() == r0[i]);
                }
            }
        }
        self.install_text(text, &inv);
        Some(id)
    }

    /// Redo the most recently undone transaction: the text becomes what it was
    /// after it and the transaction returns to the undo stack; the selections
    /// follow the text through its edits again and are re-merged. `None`,
    /// changing nothing, when nothing was undone.
    pub fn redo(&mut self) -> (r: Option<TransactionId>)
        requires
            old(self).wf(),
        ensures
            final(self).wf(),
            final(self).redone(old(self), r),
    {
        if self.redo_stack.len() == 0 {
            return None;
        }
        let t = self.redo_stack.pop().unwrap();
        proof {
            assert(tx_fits(old(self).redo_stack@[old(self).redo_stack.len() - 1]));
        }
        let es = copy_char_edits(&t.edits);
        let text = t.after.clone();
        proof {
            assert(text@ =~= t.after@);
        }
        let id = t.id;
        self.undo_stack.push(t);
        proof {
            assert forall|i: int| 0 <= i < self.undo_stack.len() implies tx_fits(#[trigger] self.undo_stack@[i]) by {
                if i < old(self).undo_stack.len() {
                    assert(self.undo_stack@[i] == old(self).undo_stack@[i]);
                }
            }
            assert forall|i: int| 0 <= i < self.redo_stack.len() implies tx_fits(#[trigger] self.redo_stack@[i]) by {
                assert(self.redo_stack@[i] == old(self).redo_stack@[i]);
            }
        }
        proof {
            let u = self.undo_stack@;
            let rs = self.redo_stack@;
            let u0 = old(self).undo_stack@;
            let r0 = old(self).redo_stack@;
            assert(rs == r0.drop_last());
            assert(u == u0.push(t));
            assert forall|i: int, j: int| 0 <= i && j == i + 1 && j < rs.len() implies (#[trigger] rs[i]).before.len()
                == (#[trigger] rs[j]).after.len() by {
                assert(rs[i] == r0[i] && rs[j] == r0[j]);
            }
            if rs.len() > 0 {
                assert(rs.last() == r0[r0.len() - 2]);
                assert(r0[r0.len() - 1] == t);
            }
            assert forall|i: int, j: int| 0 <= i && j == i + 1 && j < u.len() implies (#[trigger] u[i]).after.len()
                == (#[trigger] u[j]).before.len() by {
                assert(u[i] == u0[i]);
                if j < u.len() - 1 {
                    assert(u[j] == u0[j]);
                } else {
                    assert(u0.last() == u0[i]);
                }
            }
        }
        self.install_text(text, &es);
        Some(id)
    }

    /// Collapse to a single bare cursor at byte `offset` (clipped onto a char
    /// boundary), keeping the primary id.
    pub fn set_cursor(&mut self, offset: usize)
        requires
            old(self).wf(),
        ensures
            final(self).wf(),
            final(self).selections_set(
                old(self),
                seq![crate::selection::cursor_spec(old(self).selection.primary_id, clip_byte(old(self).chars@, offset as int) as usize)],
                old(self).selection.primary_id,
            ),
    {
        let id = self.selection.primary_id();
        let mut v: Vec<Selection<usize>> = Vec::new();
        v.push(Selection::cursor(id, offset));
        self.set_selections(v, id);
        proof {
            let t = old(self).chars@;
            assert(v@.map_values(|s: Selection<usize>| char_sel(t, s)) =~= seq![
                crate::selection::cursor_spec(id, clip_byte(t, offset as int) as usize),
            ]);
        }
    }
}

/// Undoing a transaction right after an edit made it restores the text from
/// before the edit; redoing it then restores the edited text.
pub proof fn lemma_edit_undo_redo(
    b0: Buffer,
    b1: Buffer,
    b2: Buffer,
    b3: Buffer,
    es: Seq<(int, int, Seq<char>)>,
    r1: Option<TransactionId>,
    r2: Option<TransactionId>,
    r3: Option<TransactionId>,
)
    requires
        b1.edited(&b0, es, r1),
        r1 is Some,
        b2.undone(&b1, r2),
        b3.redone(&b2, r3),
    ensures
        r2 == r1,
        b2.chars@ == b0.chars@,
        b2.undo_stack@ == b0.undo_stack@,
        r3 == r1,
        b3.chars@ == b1.chars@,
{
    assert(b1.undo_stack@.drop_last() =~= b0.undo_stack@);
}

} // verus!
