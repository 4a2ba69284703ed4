//! The changeset transaction layer.
//!
//! A [`ChangeSet`] is a sequence of [`Op`]s that together partition the *old*
//! document end-to-end. Lengths are in **bytes**; edits land on `char`
//! boundaries. Three operations make undo and multicursor fall out:
//!
//! - [`ChangeSet::apply`] mutates a rope.
//! - [`ChangeSet::invert`] produces the inverse changeset for undo.
//! - [`ChangeSet::map_pos`] maps a byte offset through the change.

use vstd::prelude::*;

use ropey::Rope;

use crate::text::{
    byte_len, byte_offset, clip_byte, lemma_byte_len_concat, lemma_byte_offset_full, lemma_byte_offset_mono,
    lemma_clip_byte, lemma_clip_byte_mono, lemma_clip_byte_offset, lemma_encode_utf8_len,
};

verus! {

/// One change operation. Lengths are in **bytes**.
#[derive(Clone, PartialEq, Eq, Debug)]
pub enum Op {
    /// Keep the next `n` bytes unchanged.
    Retain(usize),
    /// Delete the next `n` bytes.
    Delete(usize),
    /// Insert this text at the current position.
    Insert(String),
}

/// An [`Op`] with its inserted text as chars.
pub enum OpView {
    Retain(nat),
    Delete(nat),
    Insert(Seq<char>),
}

impl View for Op {
    type V = OpView;

    open spec fn view(&self) -> OpView {
        match self {
            Op::Retain(n) => OpView::Retain(*n as nat),
            Op::Delete(n) => OpView::Delete(*n as nat),
            Op::Insert(s) => OpView::Insert(s@),
        }
    }
}

/// Which side a position sticks to when it lands exactly on an insert boundary.
#[derive(Clone, Copy, PartialEq, Eq, Debug, Structural)]
pub enum Assoc {
    /// Stay to the left of inserted text (the insertion pushes in front).
    Before,
    /// Move to the right, past the inserted text.
    After,
}

/// A complete description of an edit over a document of `len_before` bytes.
#[derive(Clone, PartialEq, Eq, Debug)]
pub struct ChangeSet {
    pub ops: Vec<Op>,
    pub len_before: usize,
}

#[verifier::external_type_specification]
#[verifier::external_body]
pub struct ExRope(ropey::Rope);

/// The chars a rope holds, in order.
pub uninterp spec fn rope_text(r: Rope) -> Seq<char>;

/// `Rope::len_bytes`: the UTF-8 length of the text.
#[verifier::external_body]
fn rope_len_bytes(r: &Rope) -> (n: usize)
    ensures
        n == byte_len(rope_text(*r)),
{
    r.len_bytes()
}

/// `Rope::byte_to_char`: the index of the char a byte belongs to (the char
/// count for the one-past-the-end byte). Panics past the end, so `b` must not
/// be.
#[verifier::external_body]
fn rope_byte_to_char(r: &Rope, b: usize) -> (c: usize)
    requires
        b <= byte_len(rope_text(*r)),
    ensures
        c == clip_byte(rope_text(*r), b as int),
{
    r.byte_to_char(b)
}

/// `Rope::char_to_byte`: the byte offset of a char index (the byte length for
/// the one-past-the-end index). Panics past the end, so `c` must not be.
#[verifier::external_body]
fn rope_char_to_byte(r: &Rope, c: usize) -> (b: usize)
    requires
        c <= rope_text(*r).len(),
    ensures
        b == byte_offset(rope_text(*r), c as int),
{
    r.char_to_byte(c)
}

/// `Rope::remove(start..end)`: the chars in the range are removed. Panics
/// unless `start <= end <= len_chars`, so the range must be so. A rope's byte
/// length always fits `usize`.
#[verifier::external_body]
fn rope_remove(r: &mut Rope, start: usize, end: usize)
    requires
        start <= end <= rope_text(*old(r)).len(),
    ensures
        rope_text(*final(r)) == rope_text(*old(r)).take(start as int) + rope_text(*old(r)).skip(end as int),
        byte_len(rope_text(*final(r))) <= usize::MAX,
{
    r.remove(start..end)
}

/// `Rope::insert(at, s)`: `s` is inserted before char `at`. Panics past the
/// end, so `at` must not be. A rope's byte length always fits `usize`.
#[verifier::external_body]
fn rope_insert(r: &mut Rope, at: usize, s: &str)
    requires
        at <= rope_text(*old(r)).len(),
    ensures
        rope_text(*final(r)) == rope_text(*old(r)).take(at as int) + s@ + rope_text(*old(r)).skip(at as int),
        byte_len(rope_text(*final(r))) <= usize::MAX,
{
    r.insert(at, s)
}

/// `Rope::slice(start..end).to_string()`: the chars in the range. Panics
/// unless `start <= end <= len_chars`, so the range must be so.
#[verifier::external_body]
fn rope_slice_string(r: &Rope, start: usize, end: usize) -> (s: String)
    requires
        start <= end <= rope_text(*r).len(),
    ensures
        s@ == rope_text(*r).subrange(start as int, end as int),
{
    r.slice(start..end).to_string()
}

/// Byte `b` is in bounds and on a char boundary of `t` (clipping it onto a
/// char and back gives it again).
pub open spec fn char_boundary(t: Seq<char>, b: int) -> bool {
    b <= byte_len(t) && byte_offset(t, clip_byte(t, b)) == b
}

/// Every op boundary from op `i` on (with `pos` bytes of `t` consumed) that a
/// `Delete` or an `Insert` touches is a char boundary of `t`.
pub open spec fn boundaries_ok(ops: Seq<OpView>, t: Seq<char>, i: int, pos: int) -> bool
    decreases ops.len() - i,
{
    if i < 0 || i >= ops.len() {
        true
    } else {
        match ops[i] {
            OpView::Retain(n) => boundaries_ok(ops, t, i + 1, pos + n),
            OpView::Delete(n) => char_boundary(t, pos) && char_boundary(t, pos + n) && boundaries_ok(
                ops,
                t,
                i + 1,
                pos + n,
            ),
            OpView::Insert(_) => char_boundary(t, pos) && boundaries_ok(ops, t, i + 1, pos),
        }
    }
}

/// The changeset fits the document `t`: the lengths match and every boundary
/// where text is deleted or inserted is a char boundary.
pub open spec fn applicable(ops: Seq<OpView>, len_before: usize, t: Seq<char>) -> bool {
    &&& byte_len(t) == len_before
    &&& ops_old_len(ops) == len_before
    &&& boundaries_ok(ops, t, 0, 0)
}

/// The text the ops from `i` on produce from `t`, with `pos` bytes of `t`
/// consumed: retained ranges are kept, deleted ones dropped, inserted text
/// placed; what is left of `t` after the last op follows.
pub open spec fn apply_from(ops: Seq<OpView>, t: Seq<char>, i: int, pos: int) -> Seq<char>
    decreases ops.len() - i,
{
    if i < 0 || i >= ops.len() {
        t.skip(clip_byte(t, pos))
    } else {
        match ops[i] {
            OpView::Retain(n) => t.subrange(clip_byte(t, pos), clip_byte(t, pos + n)) + apply_from(ops, t, i + 1, pos + n),
            OpView::Delete(n) => apply_from(ops, t, i + 1, pos + n),
            OpView::Insert(s) => s + apply_from(ops, t, i + 1, pos),
        }
    }
}

/// The ops from `i` on, inverted against `t` with `pos` bytes consumed: a
/// retain stays, a delete becomes the insertion of what it removed, an insert
/// becomes a delete of its length (coalesced as [`ChangeSet::invert`] builds
/// them).
pub open spec fn invert_from(ops: Seq<OpView>, t: Seq<char>, i: int, pos: int, acc: Seq<OpView>) -> Seq<OpView>
    decreases ops.len() - i,
{
    if i < 0 || i >= ops.len() {
        acc
    } else {
        match ops[i] {
            OpView::Retain(n) => invert_from(ops, t, i + 1, pos + n, push_retain_spec(acc, n)),
            OpView::Delete(n) => invert_from(
                ops,
                t,
                i + 1,
                pos + n,
                if pos + n <= byte_len(t) {
                    push_insert_spec(acc, t.subrange(clip_byte(t, pos), clip_byte(t, pos + n)))
                } else {
                    acc
                },
            ),
            OpView::Insert(s) => invert_from(ops, t, i + 1, pos, push_delete_spec(acc, byte_len(s))),
        }
    }
}

/// The ops as views.
pub open spec fn ops_view(ops: Seq<Op>) -> Seq<OpView> {
    ops.map_values(|o: Op| o@)
}

/// Bytes an op consumes from the old document.
pub open spec fn old_len(o: OpView) -> nat {
    match o {
        OpView::Retain(n) => n,
        OpView::Delete(n) => n,
        OpView::Insert(_) => 0,
    }
}

/// Bytes an op contributes to the new document.
pub open spec fn new_len(o: OpView) -> nat {
    match o {
        OpView::Retain(n) => n,
        OpView::Delete(_) => 0,
        OpView::Insert(s) => byte_len(s),
    }
}

/// Bytes the ops consume from the old document.
pub open spec fn ops_old_len(ops: Seq<OpView>) -> nat
    decreases ops.len(),
{
    if ops.len() == 0 {
        0
    } else {
        ops_old_len(ops.drop_last()) + old_len(ops.last())
    }
}

/// Bytes the ops produce in the new document.
pub open spec fn ops_new_len(ops: Seq<OpView>) -> nat
    decreases ops.len(),
{
    if ops.len() == 0 {
        0
    } else {
        ops_new_len(ops.drop_last()) + new_len(ops.last())
    }
}

/// The ops change nothing: every op retains or inserts nothing.
pub open spec fn ops_identity(ops: Seq<OpView>) -> bool {
    forall|i: int| 0 <= i < ops.len() ==> (#[trigger] ops[i] is Retain || ops[i] == OpView::Insert(Seq::empty()))
}

/// `ops` with `Retain(n)` appended, coalescing with a trailing `Retain`.
pub open spec fn push_retain_spec(ops: Seq<OpView>, n: nat) -> Seq<OpView> {
    if n == 0 {
        ops
    } else if ops.len() > 0 && ops.last() is Retain {
        ops.update(ops.len() - 1, OpView::Retain(ops.last()->Retain_0 + n))
    } else {
        ops.push(OpView::Retain(n))
    }
}

/// `ops` with `Delete(n)` appended, coalescing with a trailing `Delete`.
pub open spec fn push_delete_spec(ops: Seq<OpView>, n: nat) -> Seq<OpView> {
    if n == 0 {
        ops
    } else if ops.len() > 0 && ops.last() is Delete {
        ops.update(ops.len() - 1, OpView::Delete(ops.last()->Delete_0 + n))
    } else {
        ops.push(OpView::Delete(n))
    }
}

/// `ops` with `Insert(s)` appended, coalescing with a trailing `Insert`.
pub open spec fn push_insert_spec(ops: Seq<OpView>, s: Seq<char>) -> Seq<OpView> {
    if s.len() == 0 {
        ops
    } else if ops.len() > 0 && ops.last() is Insert {
        ops.update(ops.len() - 1, OpView::Insert(ops.last()->Insert_0 + s))
    } else {
        ops.push(OpView::Insert(s))
    }
}

/// `a - b`, or 0 when `b` is larger.
pub open spec fn sat_sub(a: usize, b: usize) -> nat {
    if a >= b {
        (a - b) as nat
    } else {
        0
    }
}

/// The ops after the first `i` changes, and where the last one ended.
pub open spec fn changes_prefix(changes: Seq<(usize, usize, String)>, i: int) -> (Seq<OpView>, usize)
    decreases i,
{
    if i <= 0 {
        (Seq::empty(), 0)
    } else {
        let (ops, last) = changes_prefix(changes, i - 1);
        let c = changes[i - 1];
        let o1 = push_retain_spec(ops, sat_sub(c.0, last));
        let o2 = push_delete_spec(o1, sat_sub(c.1, c.0));
        (push_insert_spec(o2, c.2@), c.1)
    }
}

/// The changeset for `changes` over a `len_before`-byte document: for each
/// change, retain up to it, delete its range, insert its text; retain the rest.
pub open spec fn from_changes_spec(len_before: usize, changes: Seq<(usize, usize, String)>) -> Seq<OpView> {
    let (ops, last) = changes_prefix(changes, changes.len() as int);
    push_retain_spec(ops, sat_sub(len_before, last))
}

/// Where change `i - 1` ends (`0` before the first change).
pub open spec fn change_end(changes: Seq<(usize, usize, String)>, i: int) -> usize {
    if i >= 1 {
        changes[i - 1].1
    } else {
        0
    }
}

/// `t` up to the end of change `i - 1`, with the first `i` changes applied:
/// the text between changes is kept and each change's range `[from, to)`
/// (in bytes) is replaced by its text.
pub open spec fn spliced_upto(t: Seq<char>, changes: Seq<(usize, usize, String)>, i: int) -> Seq<char>
    decreases i,
{
    if i <= 0 {
        Seq::empty()
    } else {
        spliced_upto(t, changes, i - 1) + t.subrange(
            clip_byte(t, change_end(changes, i - 1) as int),
            clip_byte(t, changes[i - 1].0 as int),
        ) + changes[i - 1].2@
    }
}

/// `t` with every change applied.
pub open spec fn spliced(t: Seq<char>, changes: Seq<(usize, usize, String)>) -> Seq<char> {
    spliced_upto(t, changes, changes.len() as int) + t.skip(
        clip_byte(t, change_end(changes, changes.len() as int) as int),
    )
}

/// Where old byte offset `pos` lands, scanning from op `i` with `old_pos` /
/// `new_pos` the offsets reached in the old / new document.
pub open spec fn map_pos_from(ops: Seq<OpView>, pos: int, assoc: Assoc, i: int, old_pos: int, new_pos: int) -> int
    decreases ops.len() - i,
{
    if i < 0 || i >= ops.len() {
        new_pos
    } else {
        match ops[i] {
            OpView::Retain(n) => if pos < old_pos + n {
                new_pos + (pos - old_pos)
            } else {
                map_pos_from(ops, pos, assoc, i + 1, old_pos + n, new_pos + n)
            },
            OpView::Delete(n) => if pos < old_pos + n {
                // Inside a deletion: its left edge in the new document.
                new_pos
            } else {
                map_pos_from(ops, pos, assoc, i + 1, old_pos + n, new_pos)
            },
            OpView::Insert(s) => if pos == old_pos {
                new_pos + if assoc == Assoc::After { byte_len(s) as int } else { 0 }
            } else {
                map_pos_from(ops, pos, assoc, i + 1, old_pos, new_pos + byte_len(s))
            },
        }
    }
}

pub proof fn lemma_ops_len_step(ops: Seq<OpView>, i: int)
    requires
        0 <= i < ops.len(),
    ensures
        ops_old_len(ops.take(i + 1)) == ops_old_len(ops.take(i)) + old_len(ops[i]),
        ops_new_len(ops.take(i + 1)) == ops_new_len(ops.take(i)) + new_len(ops[i]),
{
    assert(ops.take(i + 1).drop_last() =~= ops.take(i));
}

pub proof fn lemma_ops_len_prefix(ops: Seq<OpView>, i: int)
    requires
        0 <= i <= ops.len(),
    ensures
        ops_old_len(ops.take(i)) <= ops_old_len(ops),
        ops_new_len(ops.take(i)) <= ops_new_len(ops),
    decreases ops.len() - i,
{
    if i < ops.len() {
        lemma_ops_len_step(ops, i);
        lemma_ops_len_prefix(ops, i + 1);
    } else {
        assert(ops.take(i) =~= ops);
    }
}

/// The UTF-8 length of a string.
fn str_bytes(s: &String) -> (r: usize)
    requires
        byte_len(s@) <= usize::MAX,
    ensures
        r == byte_len(s@),
{
    proof {
        lemma_encode_utf8_len(s@);
    }
    s.as_str().len()
}

impl ChangeSet {
    /// The ops as views.
    pub open spec fn ops_v(&self) -> Seq<OpView> {
        ops_view(self.ops@)
    }

    /// The identity changeset over a `len`-byte document (changes nothing).
    pub fn identity(len: usize) -> (r: ChangeSet)
        ensures
            r.len_before == len,
            r.ops_v() == (if len == 0 { Seq::<OpView>::empty() } else { seq![OpView::Retain(len as nat)] }),
    {
        let mut ops: Vec<Op> = Vec::new();
        if len != 0 {
            ops.push(Op::Retain(len));
        }
        let r = ChangeSet { ops, len_before: len };
        proof {
            assert(r.ops_v() =~= (if len == 0 { Seq::<OpView>::empty() } else { seq![OpView::Retain(len as nat)] }));
        }
        r
    }

    /// Build a changeset from edits expressed in the **old** coordinate
    /// space: each `(from, to, text)` deletes bytes `[from, to)` and inserts
    /// `text` there. `changes` must be sorted by `from`, non-overlapping, and
    /// within the document. A delete comes before the insert it pairs with, so
    /// a position inside a replaced region maps to the deletion's left edge.
    pub fn from_changes(len_before: usize, changes: &[(usize, usize, String)]) -> (r: ChangeSet)
        requires
            forall|i: int| 0 <= i < changes@.len() ==> (#[trigger] changes@[i]).0 <= changes@[i].1 <= len_before,
            forall|i: int, j: int| 0 <= i < j < changes@.len() ==> (#[trigger] changes@[i]).1 <= (#[trigger] changes@[j]).0,
        ensures
            r.len_before == len_before,
            r.ops_v() == from_changes_spec(len_before, changes@),
            ops_old_len(r.ops_v()) == len_before,
    {
        let mut ops: Vec<Op> = Vec::new();
        let mut last: usize = 0;
        let n = changes.len();
        let mut i: usize = 0;
        proof {
            assert(ops_view(ops@) =~= Seq::<OpView>::empty());
        }
        while i < n
            invariant
                n == changes@.len(),
                i <= n,
                forall|i: int| 0 <= i < changes@.len() ==> (#[trigger] changes@[i]).0 <= changes@[i].1 <= len_before,
                forall|i: int, j: int| 0 <= i < j < changes@.len() ==> (#[trigger] changes@[i]).1 <= (#[trigger] changes@[j]).0,
                (ops_view(ops@), last) == changes_prefix(changes@, i as int),
                last <= len_before,
                i > 0 ==> last == changes@[i - 1].1,
                ops_old_len(ops_view(ops@)) == last,
            decreases n - i,
        {
            let from = changes[i].0;
            let to = changes[i].1;
            proof {
                if i > 0 {
                    assert(changes@[i - 1].1 <= changes@[i as int].0);
                }
            }
            push_retain(&mut ops, from - last);
            push_delete(&mut ops, to - from);
            push_insert(&mut ops, changes[i].2.clone());
            last = to;
            i = i + 1;
        }
        push_retain(&mut ops, len_before - last);
        ChangeSet { ops, len_before }
    }

    /// The byte length of the document *after* this changeset is applied.
    pub fn len_after(&self) -> (r: usize)
        requires
            ops_new_len(self.ops_v()) <= usize::MAX,
        ensures
            r == ops_new_len(self.ops_v()),
    {
        let ghost v = self.ops_v();
        let n = self.ops.len();
        let mut acc: usize = 0;
        let mut i: usize = 0;
        proof {
            assert(v.take(0) =~= Seq::<OpView>::empty());
        }
        while i < n
            invariant
                n == self.ops.len(),
                v == self.ops_v(),
                ops_new_len(v) <= usize::MAX,
                i <= n,
                acc == ops_new_len(v.take(i as int)),
            decreases n - i,
        {
            proof {
                lemma_ops_len_step(v, i as int);
                lemma_ops_len_prefix(v, i as int + 1);
            }
            let add = match &self.ops[i] {
                Op::Retain(k) => *k,
                Op::Delete(_) => 0,
                Op::Insert(s) => str_bytes(s),
            };
            acc = acc + add;
            i = i + 1;
        }
        proof {
            assert(v.take(n as int) =~= v);
        }
        acc
    }

    /// True when applying this changeset would leave the document unchanged.
    pub fn is_identity(&self) -> (r: bool)
        ensures
            r == ops_identity(self.ops_v()),
    {
        let n = self.ops.len();
        let mut i: usize = 0;
        while i < n
            invariant
                n == self.ops.len(),
                i <= n,
                forall|k: int| 0 <= k < i ==> (#[trigger] self.ops_v()[k] is Retain || self.ops_v()[k] == OpView::Insert(
                    Seq::empty(),
                )),
            decreases n - i,
        {
            let ok = match &self.ops[i] {
                Op::Retain(_) => true,
                Op::Delete(_) => false,
                Op::Insert(s) => {
                    let e = s.as_str().is_empty();
                    proof {
                        if e {
                            assert(s@ =~= Seq::<char>::empty());
                        }
                    }
                    e
                },
            };
            if !ok {
                proof {
                    assert(!(self.ops_v()[i as int] is Retain || self.ops_v()[i as int] == OpView::Insert(Seq::empty())));
                }
                return false;
            }
            i = i + 1;
        }
        true
    }

    /// Bytes consumed from the old document (sum of `Retain` + `Delete`), or
    /// `None` when the sum does not fit `usize`. A well-formed changeset
    /// consumes exactly `len_before`.
    fn consumed(&self) -> (r: Option<usize>)
        ensures
            r is Some <==> ops_old_len(self.ops_v()) <= usize::MAX,
            r is Some ==> r.unwrap() == ops_old_len(self.ops_v()),
    {
        let ghost v = self.ops_v();
        let n = self.ops.len();
        let mut acc: usize = 0;
        let mut i: usize = 0;
        proof {
            assert(v.take(0) =~= Seq::<OpView>::empty());
        }
        while i < n
            invariant
                n == self.ops.len(),
                v == self.ops_v(),
                i <= n,
                acc == ops_old_len(v.take(i as int)),
            decreases n - i,
        {
            proof {
                lemma_ops_len_step(v, i as int);
                lemma_ops_len_prefix(v, i as int + 1);
            }
            let add = match &self.ops[i] {
                Op::Retain(k) => *k,
                Op::Delete(k) => *k,
                Op::Insert(_) => 0,
            };
            if acc > usize::MAX - add {
                proof {
                    lemma_ops_len_tail(v, i as int + 1);
                }
                return None;
            }
            acc = acc + add;
            i = i + 1;
        }
        proof {
            assert(v.take(n as int) =~= v);
        }
        Some(acc)
    }

    /// True when this changeset can be applied to `text` without corrupting
    /// it: `len_before` matches the document, the ops consume exactly
    /// `len_before` bytes, and every op boundary where text is deleted or
    /// inserted is a char boundary of `text`.
    fn is_applicable(&self, text: &Rope) -> (r: bool)
        ensures
            r == applicable(self.ops_v(), self.len_before, rope_text(*text)),
    {
        let ghost v = self.ops_v();
        let ghost t = rope_text(*text);
        if rope_len_bytes(text) != self.len_before {
            return false;
        }
        match self.consumed() {
            Some(c) => {
                if c != self.len_before {
                    return false;
                }
            },
            None => {
                return false;
            },
        }
        let n = self.ops.len();
        let mut pos: usize = 0;
        let mut i: usize = 0;
        proof {
            assert(v.take(0) =~= Seq::<OpView>::empty());
        }
        while i < n
            invariant
                n == self.ops.len(),
                v == self.ops_v(),
                t == rope_text(*text),
                ops_old_len(v) == self.len_before,
                byte_len(t) == self.len_before,
                i <= n,
                pos == ops_old_len(v.take(i as int)),
                boundaries_ok(v, t, i as int, pos as int) == boundaries_ok(v, t, 0, 0),
            decreases n - i,
        {
            proof {
                lemma_ops_len_step(v, i as int);
                lemma_ops_len_prefix(v, i as int + 1);
            }
            match &self.ops[i] {
                Op::Retain(k) => {
                    pos = pos + *k;
                },
                Op::Delete(k) => {
                    if !byte_is_char_boundary(text, pos) || !byte_is_char_boundary(text, pos + *k) {
                        return false;
                    }
                    pos = pos + *k;
                },
                Op::Insert(_) => {
                    if !byte_is_char_boundary(text, pos) {
                        return false;
                    }
                },
            }
            i = i + 1;
        }
        true
    }

    /// Apply this changeset to `text`, mutating it in place. Returns `false`
    /// and leaves `text` **untouched** when the changeset does not fit the
    /// document (see [`applicable`]); it validates fully before mutating, so
    /// it never half-applies a stale or malformed changeset.
    pub fn apply(&self, text: &mut Rope) -> (r: bool)
        ensures
            r == applicable(self.ops_v(), self.len_before, rope_text(*old(text))),
            r ==> rope_text(*final(text)) == apply_from(self.ops_v(), rope_text(*old(text)), 0, 0),
            !r ==> rope_text(*final(text)) == rope_text(*old(text)),
    {
        if !self.is_applicable(text) {
            return false;
        }
        let ghost v = self.ops_v();
        let ghost t0 = rope_text(*text);
        let ghost mut done: Seq<char> = Seq::empty();
        let ghost mut cp: int = 0;
        let len0 = rope_len_bytes(text);
        proof {
            assert(v.take(0) =~= Seq::<OpView>::empty());
            assert(t0.take(0) =~= Seq::<char>::empty());
            lemma_clip_byte_offset(t0, 0);
            assert(t0.skip(0) =~= t0);
            assert(done + t0.skip(0) =~= t0);
            assert(done + apply_from(v, t0, 0, 0) =~= apply_from(v, t0, 0, 0));
        }
        // `byte_pos` indexes the *live* (mutating) rope; `pos` the original.
        let mut byte_pos: usize = 0;
        let mut pos: usize = 0;
        let n = self.ops.len();
        let mut i: usize = 0;
        while i < n
            invariant
                n == self.ops.len(),
                v == self.ops_v(),
                applicable(v, self.len_before, t0),
                len0 == byte_len(t0),
                i <= n,
                pos == ops_old_len(v.take(i as int)),
                pos <= self.len_before,
                cp == clip_byte(t0, pos as int),
                0 <= cp <= t0.len(),
                byte_offset(t0, cp) <= pos,
                rope_text(*text) == done + t0.skip(cp),
                byte_len(rope_text(*text)) <= usize::MAX,
                apply_from(v, t0, 0, 0) == done + apply_from(v, t0, i as int, pos as int),
                byte_pos == byte_len(done) + (pos - byte_offset(t0, cp)),
                boundaries_ok(v, t0, i as int, pos as int),
            decreases n - i,
        {
            proof {
                lemma_ops_len_step(v, i as int);
                lemma_ops_len_prefix(v, i as int + 1);
                lemma_clip_byte(t0, pos as int);
                lemma_skip_len(t0, cp);
                lemma_byte_len_concat(done, t0.skip(cp));
            }
            match &self.ops[i] {
                Op::Retain(k) => {
                    let ghost cq = clip_byte(t0, pos + *k);
                    proof {
                        lemma_clip_byte(t0, pos + *k);
                        lemma_clip_byte_mono(t0, pos as int, pos + *k);
                        lemma_subrange_len(t0, cp, cq);
                        lemma_byte_len_concat(done, t0.subrange(cp, cq));
                        assert(t0.skip(cp) =~= t0.subrange(cp, cq) + t0.skip(cq));
                        assert(done + t0.skip(cp) =~= (done + t0.subrange(cp, cq)) + t0.skip(cq));
                        assert(done + (t0.subrange(cp, cq) + apply_from(v, t0, i + 1, pos + *k)) =~= (done
                            + t0.subrange(cp, cq)) + apply_from(v, t0, i + 1, pos + *k));
                    }
                    byte_pos = byte_pos + *k;
                    pos = pos + *k;
                    proof {
                        done = done + t0.subrange(cp, cq);
                        cp = cq;
                    }
                },
                Op::Delete(k) => {
                    let ghost cq = clip_byte(t0, pos + *k);
                    let ghost live = rope_text(*text);
                    proof {
                        lemma_clip_byte(t0, pos + *k);
                        lemma_clip_byte_mono(t0, pos as int, pos + *k);
                        lemma_offset_concat(done, t0.skip(cp), 0);
                        lemma_offset_concat(done, t0.skip(cp), cq - cp);
                        lemma_skip_offset(t0, cp, cq - cp);
                        lemma_clip_byte_offset(live, done.len() as int);
                        lemma_clip_byte_offset(live, done.len() + cq - cp);
                        lemma_byte_offset_full(live);
                        lemma_byte_offset_mono(live, done.len() + cq - cp, live.len() as int);
                    }
                    let start_char = rope_byte_to_char(text, byte_pos);
                    let end_char = rope_byte_to_char(text, byte_pos + *k);
                    rope_remove(text, start_char, end_char);
                    proof {
                        assert(live.take(done.len() as int) =~= done);
                        assert(live.skip(done.len() + cq - cp) =~= t0.skip(cq));
                    }
                    pos = pos + *k;
                    proof {
                        cp = cq;
                    }
                },
                Op::Insert(s) => {
                    let ghost live = rope_text(*text);
                    proof {
                        lemma_offset_concat(done, t0.skip(cp), 0);
                        lemma_clip_byte_offset(live, done.len() as int);
                        lemma_byte_offset_full(live);
                    }
                    let char_idx = rope_byte_to_char(text, byte_pos);
                    rope_insert(text, char_idx, s.as_str());
                    proof {
                        assert(live.take(done.len() as int) =~= done);
                        assert(live.skip(done.len() as int) =~= t0.skip(cp));
                        let nl = rope_text(*text);
                        assert(nl =~= (done + s@) + t0.skip(cp));
                        lemma_byte_len_concat(done + s@, t0.skip(cp));
                        lemma_byte_len_concat(done, s@);
                        assert(done + (s@ + apply_from(v, t0, i + 1, pos as int)) =~= (done + s@) + apply_from(
                            v,
                            t0,
                            i + 1,
                            pos as int,
                        ));
                    }
                    let len = str_bytes(s);
                    byte_pos = byte_pos + len;
                    proof {
                        done = done + s@;
                    }
                },
            }
            i = i + 1;
        }
        proof {
            assert(v.take(n as int) =~= v);
            lemma_byte_offset_full(t0);
            lemma_clip_byte_offset(t0, t0.len() as int);
            assert(t0.skip(t0.len() as int) =~= Seq::<char>::empty());
            assert(done + t0.skip(cp) =~= done);
        }
        true
    }

    /// Produce the inverse changeset (post-image → pre-image) for undo.
    /// `original` must be the document **before** this changeset applied: a
    /// `Delete` carries no text, so its inverse `Insert` recovers the removed
    /// text from `original`.
    pub fn invert(&self, original: &Rope) -> (r: ChangeSet)
        requires
            ops_old_len(self.ops_v()) <= usize::MAX,
            ops_new_len(self.ops_v()) <= usize::MAX,
        ensures
            r.len_before == ops_new_len(self.ops_v()),
            r.ops_v() == invert_from(self.ops_v(), rope_text(*original), 0, 0, Seq::empty()),
    {
        let ghost v = self.ops_v();
        let ghost t = rope_text(*original);
        let mut ops: Vec<Op> = Vec::new();
        // `byte_pos` walks the *original* document.
        let mut byte_pos: usize = 0;
        let n = self.ops.len();
        let mut i: usize = 0;
        proof {
            assert(v.take(0) =~= Seq::<OpView>::empty());
            assert(ops_view(ops@) =~= Seq::<OpView>::empty());
        }
        while i < n
            invariant
                n == self.ops.len(),
                v == self.ops_v(),
                t == rope_text(*original),
                ops_old_len(v) <= usize::MAX,
                ops_new_len(v) <= usize::MAX,
                i <= n,
                byte_pos == ops_old_len(v.take(i as int)),
                ops_old_len(ops_view(ops@)) == ops_new_len(v.take(i as int)),
                invert_from(v, t, i as int, byte_pos as int, ops_view(ops@)) == invert_from(v, t, 0, 0, Seq::empty()),
            decreases n - i,
        {
            proof {
                lemma_ops_len_step(v, i as int);
                lemma_ops_len_prefix(v, i as int + 1);
            }
            match &self.ops[i] {
                Op::Retain(k) => {
                    push_retain(&mut ops, *k);
                    byte_pos = byte_pos + *k;
                },
                Op::Delete(k) => {
                    // Recover the removed text from the original to re-insert.
                    let end = byte_pos + *k;
                    if end <= rope_len_bytes(original) {
                        proof {
                            lemma_clip_byte(t, byte_pos as int);
                            lemma_clip_byte(t, end as int);
                            lemma_clip_byte_mono(t, byte_pos as int, end as int);
                        }
                        let start_char = rope_byte_to_char(original, byte_pos);
                        let end_char = rope_byte_to_char(original, end);
                        push_insert(&mut ops, rope_slice_string(original, start_char, end_char));
                    }
                    byte_pos = end;
                },
                Op::Insert(s) => {
                    // The forward insert added text absent from the original,
                    // so its inverse deletes it.
                    push_delete(&mut ops, str_bytes(s));
                },
            }
            i = i + 1;
        }
        proof {
            assert(v.take(n as int) =~= v);
        }
        let len_before = self.len_after();
        ChangeSet { ops, len_before }
    }

    /// Map a byte offset from the old coordinate space to the new one: a
    /// position in retained text shifts with the edits before it; one inside a
    /// deletion clamps to its left edge; one exactly where text is inserted
    /// stays before it (`Before`) or moves past it (`After`).
    pub fn map_pos(&self, pos: usize, assoc: Assoc) -> (r: usize)
        requires
            ops_old_len(self.ops_v()) <= usize::MAX,
            ops_new_len(self.ops_v()) <= usize::MAX,
        ensures
            r == map_pos_from(self.ops_v(), pos as int, assoc, 0, 0, 0),
    {
        let ghost v = self.ops_v();
        let n = self.ops.len();
        let mut old_pos: usize = 0;
        let mut new_pos: usize = 0;
        let mut i: usize = 0;
        proof {
            assert(v.take(0) =~= Seq::<OpView>::empty());
        }
        while i < n
            invariant
                n == self.ops.len(),
                v == self.ops_v(),
                ops_old_len(v) <= usize::MAX,
                ops_new_len(v) <= usize::MAX,
                i <= n,
                old_pos == ops_old_len(v.take(i as int)),
                new_pos == ops_new_len(v.take(i as int)),
                old_pos <= pos,
                map_pos_from(v, pos as int, assoc, i as int, old_pos as int, new_pos as int) == map_pos_from(
                    v,
                    pos as int,
                    assoc,
                    0,
                    0,
                    0,
                ),
            decreases n - i,
        {
            proof {
                lemma_ops_len_step(v, i as int);
                lemma_ops_len_prefix(v, i as int + 1);
            }
            match &self.ops[i] {
                Op::Retain(k) => {
                    if pos < old_pos + *k {
                        return new_pos + (pos - old_pos);
                    }
                    old_pos = old_pos + *k;
                    new_pos = new_pos + *k;
                },
                Op::Delete(k) => {
                    if pos < old_pos + *k {
                        return new_pos;
                    }
                    old_pos = old_pos + *k;
                },
                Op::Insert(s) => {
                    let len = str_bytes(s);
                    if pos == old_pos {
                        return new_pos + match assoc {
                            Assoc::After => len,
                            Assoc::Before => 0,
                        };
                    }
                    new_pos = new_pos + len;
                },
            }
            i = i + 1;
        }
        new_pos
    }
}

/// Append a `Retain(n)`, coalescing with a trailing `Retain`.
fn push_retain(ops: &mut Vec<Op>, n: usize)
    requires
        ops_old_len(ops_view(old(ops)@)) + n <= usize::MAX,
    ensures
        ops_view(final(ops)@) == push_retain_spec(ops_view(old(ops)@), n as nat),
        ops_old_len(ops_view(final(ops)@)) == ops_old_len(ops_view(old(ops)@)) + n,
{
    if n == 0 {
        return;
    }
    let len = ops.len();
    if len > 0 {
        if let Op::Retain(last) = ops[len - 1] {
            proof {
                lemma_ops_last(ops_view(ops@));
            }
            ops.set(len - 1, Op::Retain(last + n));
            proof {
                assert(ops_view(ops@) =~= push_retain_spec(ops_view(old(ops)@), n as nat));
                assert(ops_view(ops@).drop_last() =~= ops_view(old(ops)@).drop_last());
            }
            return;
        }
    }
    ops.push(Op::Retain(n));
    proof {
        assert(ops_view(ops@) =~= push_retain_spec(ops_view(old(ops)@), n as nat));
        assert(ops_view(ops@).drop_last() =~= ops_view(old(ops)@));
    }
}

/// Append a `Delete(n)`, coalescing with a trailing `Delete`.
fn push_delete(ops: &mut Vec<Op>, n: usize)
    requires
        ops_old_len(ops_view(old(ops)@)) + n <= usize::MAX,
    ensures
        ops_view(final(ops)@) == push_delete_spec(ops_view(old(ops)@), n as nat),
        ops_old_len(ops_view(final(ops)@)) == ops_old_len(ops_view(old(ops)@)) + n,
{
    if n == 0 {
        return;
    }
    let len = ops.len();
    if len > 0 {
        if let Op::Delete(last) = ops[len - 1] {
            proof {
                lemma_ops_last(ops_view(ops@));
            }
            ops.set(len - 1, Op::Delete(last + n));
            proof {
                assert(ops_view(ops@) =~= push_delete_spec(ops_view(old(ops)@), n as nat));
                assert(ops_view(ops@).drop_last() =~= ops_view(old(ops)@).drop_last());
            }
            return;
        }
    }
    ops.push(Op::Delete(n));
    proof {
        assert(ops_view(ops@) =~= push_delete_spec(ops_view(old(ops)@), n as nat));
        assert(ops_view(ops@).drop_last() =~= ops_view(old(ops)@));
    }
}

/// Append an `Insert(s)`, coalescing with a trailing `Insert`.
fn push_insert(ops: &mut Vec<Op>, s: String)
    ensures
        ops_view(final(ops)@) == push_insert_spec(ops_view(old(ops)@), s@),
        ops_old_len(ops_view(final(ops)@)) == ops_old_len(ops_view(old(ops)@)),
{
    if s.as_str().is_empty() {
        return;
    }
    let len = ops.len();
    if len > 0 {
        if let Op::Insert(last) = &ops[len - 1] {
            let joined = concat_strings(last, &s);
            ops.set(len - 1, Op::Insert(joined));
            proof {
                assert(ops_view(ops@) =~= push_insert_spec(ops_view(old(ops)@), s@));
                assert(ops_view(ops@).drop_last() =~= ops_view(old(ops)@).drop_last());
            }
            return;
        }
    }
    ops.push(Op::Insert(s));
    proof {
        assert(ops_view(ops@) =~= push_insert_spec(ops_view(old(ops)@), s@));
        assert(ops_view(ops@).drop_last() =~= ops_view(old(ops)@));
    }
}

/// True when byte offset `b` is in bounds and on a char boundary of `text`:
/// `byte_to_char` rounds a mid-char byte down to its char, so a round trip
/// back to bytes reveals whether `b` was a boundary.
fn byte_is_char_boundary(text: &Rope, b: usize) -> (r: bool)
    ensures
        r == char_boundary(rope_text(*text), b as int),
{
    if b > rope_len_bytes(text) {
        return false;
    }
    proof {
        lemma_clip_byte(rope_text(*text), b as int);
    }
    rope_char_to_byte(text, rope_byte_to_char(text, b)) == b
}

/// The UTF-8 offsets into `a + b` past `a` are those into `b`, shifted.
pub proof fn lemma_offset_concat(a: Seq<char>, b: Seq<char>, j: int)
    requires
        0 <= j <= b.len(),
    ensures
        byte_offset(a + b, a.len() + j) == byte_len(a) + byte_offset(b, j),
{
    assert((a + b).take(a.len() + j) =~= a + b.take(j));
    lemma_byte_len_concat(a, b.take(j));
}

/// The UTF-8 offsets into a suffix are those into the whole, shifted.
proof fn lemma_skip_offset(t: Seq<char>, c: int, j: int)
    requires
        0 <= c,
        0 <= j,
        c + j <= t.len(),
    ensures
        byte_offset(t.skip(c), j) == byte_offset(t, c + j) - byte_offset(t, c),
{
    assert(t.take(c + j) =~= t.take(c) + t.skip(c).take(j));
    lemma_byte_len_concat(t.take(c), t.skip(c).take(j));
}

/// The UTF-8 length of a range of chars.
pub proof fn lemma_subrange_len(t: Seq<char>, a: int, b: int)
    requires
        0 <= a <= b <= t.len(),
    ensures
        byte_len(t.subrange(a, b)) == byte_offset(t, b) - byte_offset(t, a),
{
    assert(t.take(b) =~= t.take(a) + t.subrange(a, b));
    lemma_byte_len_concat(t.take(a), t.subrange(a, b));
}

/// The UTF-8 length of a suffix.
proof fn lemma_skip_len(t: Seq<char>, c: int)
    requires
        0 <= c <= t.len(),
    ensures
        byte_len(t.skip(c)) == byte_len(t) - byte_offset(t, c),
{
    assert(t =~= t.take(c) + t.skip(c));
    lemma_byte_len_concat(t.take(c), t.skip(c));
}

/// The ops consumed beyond a prefix are still counted in the total.
proof fn lemma_ops_len_tail(v: Seq<OpView>, i: int)
    requires
        0 <= i <= v.len(),
    ensures
        ops_old_len(v.take(i)) <= ops_old_len(v),
{
    lemma_ops_len_prefix(v, i);
}

proof fn lemma_ops_last(v: Seq<OpView>)
    requires
        v.len() > 0,
    ensures
        ops_old_len(v) == ops_old_len(v.drop_last()) + old_len(v.last()),
{
}

/// `a` followed by `b`.
fn concat_strings(a: &String, b: &String) -> (r: String)
    ensures
        r@ == a@ + b@,
{
    let mut v = crate::text::str_to_chars(a.as_str());
    let w = crate::text::str_to_chars(b.as_str());
    let ghost v0 = v@;
    let mut i: usize = 0;
    while i < w.len()
        invariant
            i <= w.len(),
            v@ == v0 + w@.take(i as int),
        decreases w.len() - i,
    {
        v.push(w[i]);
        proof {
            assert(w@.take(i as int + 1) =~= w@.take(i as int).push(w@[i as int]));
        }
        i = i + 1;
    }
    proof {
        assert(w@.take(w.len() as int) =~= w@);
    }
    crate::text::chars_to_string(&v)
}

/// Mapping any position of the document through the identity changeset
/// leaves it where it is.
pub proof fn lemma_identity_map_pos(len: usize, pos: usize, assoc: Assoc)
    requires
        pos <= len,
    ensures
        map_pos_from(
            if len == 0 { Seq::<OpView>::empty() } else { seq![OpView::Retain(len as nat)] },
            pos as int,
            assoc,
            0,
            0,
            0,
        ) == pos,
{
    if len > 0 {
        let ops = seq![OpView::Retain(len as nat)];
        if pos == len {
            assert(map_pos_from(ops, pos as int, assoc, 1, len as int, len as int) == len);
        }
    }
}

proof fn lemma_map_pos_walk(ops: Seq<OpView>, p: int, q: int, assoc: Assoc, i: int)
    requires
        0 <= i <= ops.len(),
        ops_old_len(ops.take(i)) <= p <= q <= ops_old_len(ops),
    ensures
        ({
            let op = ops_old_len(ops.take(i)) as int;
            let np = ops_new_len(ops.take(i)) as int;
            &&& np <= map_pos_from(ops, p, assoc, i, op, np)
            &&& map_pos_from(ops, p, assoc, i, op, np) <= map_pos_from(ops, q, assoc, i, op, np)
            &&& map_pos_from(ops, q, assoc, i, op, np) <= ops_new_len(ops)
            &&& map_pos_from(ops, p, Assoc::Before, i, op, np) <= map_pos_from(ops, p, Assoc::After, i, op, np)
        }),
    decreases ops.len() - i,
{
    if i == ops.len() {
        assert(ops.take(i) =~= ops);
    } else {
        lemma_ops_len_step(ops, i);
        lemma_ops_len_prefix(ops, i + 1);
        let op = ops_old_len(ops.take(i)) as int;
        let op2 = ops_old_len(ops.take(i + 1)) as int;
        match ops[i] {
            OpView::Retain(n) => {
                if q >= op + n {
                    lemma_map_pos_walk(ops, q, q, assoc, i + 1);
                }
                if p >= op + n {
                    lemma_map_pos_walk(ops, p, q, assoc, i + 1);
                    lemma_map_pos_walk(ops, p, q, Assoc::Before, i + 1);
                    lemma_map_pos_walk(ops, p, q, Assoc::After, i + 1);
                }
            },
            OpView::Delete(n) => {
                if q >= op + n {
                    lemma_map_pos_walk(ops, q, q, assoc, i + 1);
                }
                if p >= op + n {
                    lemma_map_pos_walk(ops, p, q, assoc, i + 1);
                    lemma_map_pos_walk(ops, p, q, Assoc::Before, i + 1);
                    lemma_map_pos_walk(ops, p, q, Assoc::After, i + 1);
                }
            },
            OpView::Insert(t) => {
                if q > op {
                    lemma_map_pos_walk(ops, q, q, assoc, i + 1);
                }
                if p > op {
                    lemma_map_pos_walk(ops, p, q, assoc, i + 1);
                    lemma_map_pos_walk(ops, p, q, Assoc::Before, i + 1);
                    lemma_map_pos_walk(ops, p, q, Assoc::After, i + 1);
                }
            },
        }
    }
}

/// Mapping positions keeps their order: for a changeset that consumes its
/// whole document, positions `p <= q` land at `map(p) <= map(q)`, within the
/// new document, and a position maps no further right before an insert
/// (`Before`) than past it (`After`).
pub proof fn lemma_map_pos_monotone(ops: Seq<OpView>, len_before: usize, p: usize, q: usize, assoc: Assoc)
    requires
        ops_old_len(ops) == len_before,
        p <= q <= len_before,
    ensures
        map_pos_from(ops, p as int, assoc, 0, 0, 0) <= map_pos_from(ops, q as int, assoc, 0, 0, 0),
        map_pos_from(ops, q as int, assoc, 0, 0, 0) <= ops_new_len(ops),
        map_pos_from(ops, p as int, Assoc::Before, 0, 0, 0) <= map_pos_from(ops, p as int, Assoc::After, 0, 0, 0),
{
    assert(ops.take(0) =~= Seq::<OpView>::empty());
    lemma_map_pos_walk(ops, p as int, q as int, assoc, 0);
}

} // verus!
