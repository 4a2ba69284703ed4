//! What a changeset's ops produce, read op by op from the back
//! ([`ops_output`]), and which of their edges must be char boundaries
//! ([`ops_bounds_ok`]). Both are unchanged when [`push_retain_spec`] and its
//! siblings coalesce an op into the last one, which is how changesets are
//! built. Four laws follow:
//!
//! - [`lemma_from_changes_splices`]: a changeset built by
//!   [`ChangeSet::from_changes`](crate::transaction::ChangeSet::from_changes)
//!   applies exactly the changes it was built from.
//! - [`lemma_identity_leaves_text`]: an identity changeset leaves any text
//!   as it is.
//! - [`lemma_len_after_is_result_len`]: `len_after` is the byte length of
//!   the document a changeset produces.
//! - [`lemma_invert_round_trip`]: the inverse built by
//!   [`ChangeSet::invert`](crate::transaction::ChangeSet::invert) fits the
//!   new document and gives the old one back.

use vstd::prelude::*;

use crate::text::{
    byte_len, byte_offset, clip_byte, lemma_byte_len_concat, lemma_byte_offset_full, lemma_byte_offset_mono,
    lemma_byte_offset_step, lemma_clip_byte, lemma_clip_byte_mono, lemma_clip_byte_offset, utf8_width,
};
use crate::transaction::{
    apply_from, applicable, boundaries_ok, change_end, changes_prefix, char_boundary, from_changes_spec, invert_from,
    lemma_offset_concat, lemma_ops_len_prefix, lemma_ops_len_step, lemma_subrange_len, new_len, old_len, ops_identity,
    ops_new_len, ops_old_len, push_delete_spec, push_insert_spec, push_retain_spec, sat_sub, spliced, spliced_upto,
    OpView,
};

verus! {

/// What op `o` contributes to the new document when it starts at byte `p` of
/// the old document `t`.
pub open spec fn op_output(o: OpView, t: Seq<char>, p: int) -> Seq<char> {
    match o {
        OpView::Retain(n) => t.subrange(clip_byte(t, p), clip_byte(t, p + n)),
        OpView::Delete(_) => Seq::empty(),
        OpView::Insert(s) => s,
    }
}

/// What `ops` produce from `t`, leaving out the part of `t` past them.
pub open spec fn ops_output(ops: Seq<OpView>, t: Seq<char>) -> Seq<char>
    decreases ops.len(),
{
    if ops.len() == 0 {
        Seq::empty()
    } else {
        ops_output(ops.drop_last(), t) + op_output(ops.last(), t, ops_old_len(ops.drop_last()) as int)
    }
}

/// The edges of op `o`, starting at byte `p` of `t`, where text is deleted
/// or inserted are char boundaries.
pub open spec fn op_bounds_ok(o: OpView, t: Seq<char>, p: int) -> bool {
    match o {
        OpView::Retain(_) => true,
        OpView::Delete(n) => char_boundary(t, p) && char_boundary(t, p + n),
        OpView::Insert(_) => char_boundary(t, p),
    }
}

/// Every op of `ops` has its edges on char boundaries of `t`.
pub open spec fn ops_bounds_ok(ops: Seq<OpView>, t: Seq<char>) -> bool
    decreases ops.len(),
{
    ops.len() == 0 || (ops_bounds_ok(ops.drop_last(), t) && op_bounds_ok(
        ops.last(),
        t,
        ops_old_len(ops.drop_last()) as int,
    ))
}

/// Applying the ops is producing their output, then the rest of `t`.
proof fn lemma_apply_output(ops: Seq<OpView>, t: Seq<char>, i: int)
    requires
        0 <= i <= ops.len(),
    ensures
        ops_output(ops.take(i), t) + apply_from(ops, t, i, ops_old_len(ops.take(i)) as int) == ops_output(ops, t)
            + t.skip(clip_byte(t, ops_old_len(ops) as int)),
    decreases ops.len() - i,
{
    if i == ops.len() {
        assert(ops.take(i) =~= ops);
    } else {
        lemma_ops_len_step(ops, i);
        lemma_apply_output(ops, t, i + 1);
        let p = ops_old_len(ops.take(i)) as int;
        assert(ops.take(i + 1).drop_last() =~= ops.take(i));
        let x = ops_output(ops.take(i), t);
        let y = op_output(ops[i], t, p);
        let z = apply_from(ops, t, i + 1, ops_old_len(ops.take(i + 1)) as int);
        assert(apply_from(ops, t, i, p) == y + z);
        assert(x + (y + z) =~= (x + y) + z);
    }
}

/// The bounds of the ops split at any index into those before and after it.
proof fn lemma_bounds_split(ops: Seq<OpView>, t: Seq<char>, i: int)
    requires
        0 <= i <= ops.len(),
    ensures
        ops_bounds_ok(ops, t) == (ops_bounds_ok(ops.take(i), t) && boundaries_ok(
            ops,
            t,
            i,
            ops_old_len(ops.take(i)) as int,
        )),
    decreases ops.len() - i,
{
    if i == ops.len() {
        assert(ops.take(i) =~= ops);
    } else {
        lemma_ops_len_step(ops, i);
        lemma_bounds_split(ops, t, i + 1);
        assert(ops.take(i + 1).drop_last() =~= ops.take(i));
    }
}

/// Appending `Retain(n)` appends the retained range of `u`.
proof fn lemma_push_retain(acc: Seq<OpView>, n: nat, u: Seq<char>)
    ensures
        ops_output(push_retain_spec(acc, n), u) == ops_output(acc, u) + u.subrange(
            clip_byte(u, ops_old_len(acc) as int),
            clip_byte(u, (ops_old_len(acc) + n) as int),
        ),
        ops_old_len(push_retain_spec(acc, n)) == ops_old_len(acc) + n,
        ops_bounds_ok(push_retain_spec(acc, n), u) == ops_bounds_ok(acc, u),
{
    let p = ops_old_len(acc) as int;
    lemma_clip_byte(u, p);
    lemma_clip_byte(u, p + n);
    lemma_clip_byte_mono(u, p, p + n);
    if n == 0 {
        assert(ops_output(acc, u) + u.subrange(clip_byte(u, p), clip_byte(u, p)) =~= ops_output(acc, u));
    } else if acc.len() > 0 && acc.last() is Retain {
        let r = push_retain_spec(acc, n);
        let m = acc.last()->Retain_0;
        assert(r.drop_last() =~= acc.drop_last());
        let q = ops_old_len(acc.drop_last()) as int;
        lemma_clip_byte(u, q);
        lemma_clip_byte_mono(u, q, p);
        let x = ops_output(acc.drop_last(), u);
        assert(u.subrange(clip_byte(u, q), clip_byte(u, p + n)) =~= u.subrange(clip_byte(u, q), clip_byte(u, p))
            + u.subrange(clip_byte(u, p), clip_byte(u, p + n)));
        assert(x + u.subrange(clip_byte(u, q), clip_byte(u, p + n)) =~= (x + u.subrange(clip_byte(u, q), clip_byte(u, p)))
            + u.subrange(clip_byte(u, p), clip_byte(u, p + n)));
    } else {
        assert(acc.push(OpView::Retain(n)).drop_last() =~= acc);
    }
}

/// Appending `Delete(n)` adds nothing to the output.
proof fn lemma_push_delete(acc: Seq<OpView>, n: nat, u: Seq<char>)
    ensures
        ops_output(push_delete_spec(acc, n), u) == ops_output(acc, u),
        ops_old_len(push_delete_spec(acc, n)) == ops_old_len(acc) + n,
        ops_bounds_ok(acc, u) && char_boundary(u, ops_old_len(acc) as int) && char_boundary(
            u,
            (ops_old_len(acc) + n) as int,
        ) ==> ops_bounds_ok(push_delete_spec(acc, n), u),
{
    if n == 0 {
    } else if acc.len() > 0 && acc.last() is Delete {
        let r = push_delete_spec(acc, n);
        assert(r.drop_last() =~= acc.drop_last());
        assert(ops_output(acc, u) =~= ops_output(acc.drop_last(), u));
        assert(ops_output(r, u) =~= ops_output(acc.drop_last(), u));
    } else {
        let r = acc.push(OpView::Delete(n));
        assert(r.drop_last() =~= acc);
        assert(ops_output(r, u) =~= ops_output(acc, u));
    }
}

/// Appending `Insert(s)` appends `s` to the output.
proof fn lemma_push_insert(acc: Seq<OpView>, s: Seq<char>, u: Seq<char>)
    ensures
        ops_output(push_insert_spec(acc, s), u) == ops_output(acc, u) + s,
        ops_old_len(push_insert_spec(acc, s)) == ops_old_len(acc),
        ops_bounds_ok(acc, u) && char_boundary(u, ops_old_len(acc) as int) ==> ops_bounds_ok(
            push_insert_spec(acc, s),
            u,
        ),
{
    if s.len() == 0 {
        assert(ops_output(acc, u) + s =~= ops_output(acc, u));
    } else if acc.len() > 0 && acc.last() is Insert {
        let r = push_insert_spec(acc, s);
        let s0 = acc.last()->Insert_0;
        assert(r.drop_last() =~= acc.drop_last());
        let x = ops_output(acc.drop_last(), u);
        assert(x + (s0 + s) =~= (x + s0) + s);
    } else {
        assert(acc.push(OpView::Insert(s)).drop_last() =~= acc);
    }
}

/// `clip_byte` gives the one char index whose char holds byte `b`.
proof fn lemma_clip_unique(s: Seq<char>, b: int, k: int)
    requires
        0 <= k <= s.len(),
        byte_offset(s, k) <= b,
        k == s.len() || b < byte_offset(s, k + 1),
    ensures
        clip_byte(s, b) == k,
{
    lemma_clip_byte(s, b);
    let j = clip_byte(s, b);
    if j < k {
        lemma_byte_offset_mono(s, j + 1, k);
    } else if j > k {
        lemma_byte_offset_mono(s, k + 1, j);
    }
}

/// Clipping a byte past a prefix clips within the rest.
proof fn lemma_clip_concat(a: Seq<char>, w: Seq<char>, r: int)
    requires
        0 <= r,
    ensures
        clip_byte(a + w, byte_len(a) + r) == a.len() + clip_byte(w, r),
{
    lemma_clip_byte(w, r);
    let j = clip_byte(w, r);
    lemma_offset_concat(a, w, j);
    if j < w.len() {
        lemma_offset_concat(a, w, j + 1);
    }
    lemma_clip_unique(a + w, byte_len(a) + r, a.len() + j);
}

/// A byte inside the first char (or the very start) clips to index 0.
proof fn lemma_clip_head(w: Seq<char>, r: int)
    requires
        0 <= r,
        r == 0 || (w.len() > 0 && r < utf8_width(w[0])),
    ensures
        clip_byte(w, r) == 0,
{
    assert(w.take(0) =~= Seq::<char>::empty());
    if w.len() > 0 {
        lemma_byte_offset_step(w, 0);
    }
    lemma_clip_unique(w, r, 0);
}

/// Bytes of the old document the first `i` ops consume.
spec fn consumed_at(v: Seq<OpView>, i: int) -> int {
    ops_old_len(v.take(i)) as int
}

/// Bytes of the new document the first `i` ops produce.
spec fn produced_at(v: Seq<OpView>, i: int) -> int {
    ops_new_len(v.take(i)) as int
}

/// How far byte `p` lies into the char of `t` that holds it.
spec fn into_char(t: Seq<char>, p: int) -> int {
    p - byte_offset(t, clip_byte(t, p))
}

/// What the ops from `i` on produce, the rest of `t` included.
spec fn rest_at(v: Seq<OpView>, t: Seq<char>, i: int) -> Seq<char> {
    apply_from(v, t, i, consumed_at(v, i))
}

/// Facts about the op at `i` of a changeset that fits `t`.
proof fn lemma_step_facts(v: Seq<OpView>, len_before: usize, t: Seq<char>, i: int)
    requires
        applicable(v, len_before, t),
        0 <= i < v.len(),
    ensures
        consumed_at(v, i + 1) == consumed_at(v, i) + old_len(v[i]),
        produced_at(v, i + 1) == produced_at(v, i) + new_len(v[i]),
        consumed_at(v, i + 1) <= byte_len(t),
        boundaries_ok(v, t, i, consumed_at(v, i)),
{
    lemma_ops_len_step(v, i);
    lemma_ops_len_prefix(v, i + 1);
    lemma_bounds_split(v, t, i);
    lemma_bounds_split(v, t, 0);
    assert(v.take(0) =~= Seq::<OpView>::empty());
}

/// Where the ops leave the old document in the middle of a char, what they
/// produce next starts with that char: only retains can end mid-char, and
/// the run of retains goes on past it.
proof fn lemma_mid_char(v: Seq<OpView>, len_before: usize, t: Seq<char>, i: int)
    requires
        applicable(v, len_before, t),
        0 <= i <= v.len(),
        consumed_at(v, i) <= byte_len(t),
        into_char(t, consumed_at(v, i)) > 0,
    ensures
        clip_byte(t, consumed_at(v, i)) < t.len(),
        rest_at(v, t, i).len() > 0,
        rest_at(v, t, i)[0] == t[clip_byte(t, consumed_at(v, i))],
    decreases v.len() - i,
{
    let p = consumed_at(v, i);
    let c = clip_byte(t, p);
    lemma_clip_byte(t, p);
    lemma_byte_offset_full(t);
    if c == t.len() {
        assert(false);
    }
    if i == v.len() {
        assert(v.take(i) =~= v);
        lemma_clip_byte_offset(t, t.len() as int);
        assert(false);
    } else {
        lemma_step_facts(v, len_before, t, i);
        match v[i] {
            OpView::Retain(m) => {
                let c2 = clip_byte(t, p + m);
                lemma_clip_byte_mono(t, p, p + m);
                lemma_clip_byte(t, p + m);
                if c2 == c {
                    lemma_mid_char(v, len_before, t, i + 1);
                    assert(rest_at(v, t, i) =~= rest_at(v, t, i + 1));
                }
            },
            _ => {},
        }
    }
}

/// The end of a prefix `a` is a char boundary of `a + w`.
proof fn lemma_prefix_boundary(a: Seq<char>, w: Seq<char>)
    ensures
        char_boundary(a + w, byte_len(a) as int),
{
    lemma_clip_concat(a, w, 0);
    lemma_clip_head(w, 0);
    assert(w.take(0) =~= Seq::<char>::empty());
    lemma_offset_concat(a, w, 0);
    lemma_byte_len_concat(a, w);
}

/// In the new document `a + rest_at(v, t, i)`, the byte that lies as far
/// past `a` as the ops leave the old document into its char clips to the end
/// of `a`.
proof fn lemma_clip_produced(v: Seq<OpView>, len_before: usize, t: Seq<char>, i: int, a: Seq<char>)
    requires
        applicable(v, len_before, t),
        0 <= i <= v.len(),
        consumed_at(v, i) <= byte_len(t),
    ensures
        into_char(t, consumed_at(v, i)) >= 0,
        clip_byte(a + rest_at(v, t, i), byte_len(a) + into_char(t, consumed_at(v, i))) == a.len(),
{
    let p = consumed_at(v, i);
    let c = clip_byte(t, p);
    let r = into_char(t, p);
    lemma_clip_byte(t, p);
    if r > 0 {
        lemma_mid_char(v, len_before, t, i);
        lemma_byte_offset_step(t, c);
    }
    lemma_clip_concat(a, rest_at(v, t, i), r);
    lemma_clip_head(rest_at(v, t, i), r);
}

/// Building the inverse op by op from `i` on, with `acc` the inverse of the
/// first `i` ops and `a` what they produced: the inverse gives `t` back and
/// fits the new document.
proof fn lemma_invert_walk(
    v: Seq<OpView>,
    len_before: usize,
    t: Seq<char>,
    u: Seq<char>,
    i: int,
    acc: Seq<OpView>,
    a: Seq<char>,
)
    requires
        applicable(v, len_before, t),
        u == apply_from(v, t, 0, 0),
        0 <= i <= v.len(),
        u == a + rest_at(v, t, i),
        byte_len(a) + into_char(t, consumed_at(v, i)) == produced_at(v, i),
        ops_output(acc, u) == t.take(clip_byte(t, consumed_at(v, i))),
        ops_old_len(acc) == produced_at(v, i),
        ops_bounds_ok(acc, u),
    ensures
        ops_output(invert_from(v, t, i, consumed_at(v, i), acc), u) == t,
        ops_old_len(invert_from(v, t, i, consumed_at(v, i), acc)) == byte_len(u),
        ops_bounds_ok(invert_from(v, t, i, consumed_at(v, i), acc), u),
        byte_len(u) == ops_new_len(v),
    decreases v.len() - i,
{
    let p = consumed_at(v, i);
    let c = clip_byte(t, p);
    let q = produced_at(v, i);
    lemma_ops_len_prefix(v, i);
    lemma_clip_byte(t, p);
    if i == v.len() {
        assert(v.take(i) =~= v);
        lemma_byte_offset_full(t);
        lemma_clip_byte_offset(t, t.len() as int);
        assert(t.skip(t.len() as int) =~= Seq::<char>::empty());
        assert(a + rest_at(v, t, i) =~= a);
        assert(t.take(t.len() as int) =~= t);
    } else {
        lemma_step_facts(v, len_before, t, i);
        match v[i] {
            OpView::Retain(m) => {
                let p2 = p + m;
                let c2 = clip_byte(t, p2);
                lemma_clip_byte(t, p2);
                lemma_clip_byte_mono(t, p, p2);
                let piece = t.subrange(c, c2);
                let a2 = a + piece;
                let w2 = rest_at(v, t, i + 1);
                assert(rest_at(v, t, i) == piece + w2);
                assert(u =~= a2 + w2);
                lemma_byte_len_concat(a, piece);
                lemma_subrange_len(t, c, c2);
                let acc2 = push_retain_spec(acc, m);
                lemma_push_retain(acc, m, u);
                lemma_clip_produced(v, len_before, t, i, a);
                lemma_clip_produced(v, len_before, t, i + 1, a2);
                assert(u.subrange(a.len() as int, a2.len() as int) =~= piece);
                assert(t.take(c) + piece =~= t.take(c2));
                lemma_invert_walk(v, len_before, t, u, i + 1, acc2, a2);
            },
            OpView::Delete(m) => {
                let c2 = clip_byte(t, p + m);
                lemma_clip_byte_mono(t, p, p + m);
                lemma_clip_byte(t, p + m);
                assert(rest_at(v, t, i) == rest_at(v, t, i + 1));
                let piece = t.subrange(c, c2);
                let acc2 = push_insert_spec(acc, piece);
                lemma_push_insert(acc, piece, u);
                lemma_prefix_boundary(a, rest_at(v, t, i));
                assert(t.take(c) + piece =~= t.take(c2));
                lemma_invert_walk(v, len_before, t, u, i + 1, acc2, a);
            },
            OpView::Insert(s) => {
                let a2 = a + s;
                let w2 = rest_at(v, t, i + 1);
                assert(rest_at(v, t, i) == s + w2);
                assert(u =~= a2 + w2);
                lemma_byte_len_concat(a, s);
                let acc2 = push_delete_spec(acc, byte_len(s));
                lemma_push_delete(acc, byte_len(s), u);
                lemma_prefix_boundary(a, rest_at(v, t, i));
                lemma_prefix_boundary(a2, w2);
                lemma_invert_walk(v, len_before, t, u, i + 1, acc2, a2);
            },
        }
    }
}

/// [`ChangeSet::len_after`](crate::transaction::ChangeSet::len_after) is
/// what it says: when a changeset fits a document, the document it produces
/// is `ops_new_len` bytes long.
pub proof fn lemma_len_after_is_result_len(ops: Seq<OpView>, len_before: usize, t: Seq<char>)
    requires
        applicable(ops, len_before, t),
    ensures
        byte_len(apply_from(ops, t, 0, 0)) == ops_new_len(ops),
{
    let u = apply_from(ops, t, 0, 0);
    let e = Seq::<OpView>::empty();
    assert(ops.take(0) =~= e);
    assert(t.take(0) =~= Seq::<char>::empty());
    lemma_clip_head(t, 0);
    assert(u =~= Seq::<char>::empty() + rest_at(ops, t, 0));
    lemma_invert_walk(ops, len_before, t, u, 0, e, Seq::empty());
}

/// Identity ops produce the text up to where they end.
proof fn lemma_identity_output(ops: Seq<OpView>, t: Seq<char>)
    requires
        ops_identity(ops),
    ensures
        ops_output(ops, t) == t.take(clip_byte(t, ops_old_len(ops) as int)),
    decreases ops.len(),
{
    if ops.len() == 0 {
        lemma_clip_head(t, 0);
        assert(t.take(0) =~= Seq::<char>::empty());
    } else {
        let d = ops.drop_last();
        assert forall|i: int| 0 <= i < d.len() implies (#[trigger] d[i] is Retain || d[i] == OpView::Insert(
            Seq::empty(),
        )) by {
            assert(d[i] == ops[i]);
        }
        lemma_identity_output(d, t);
        let p = ops_old_len(d) as int;
        assert(ops.last() == ops[ops.len() - 1]);
        match ops.last() {
            OpView::Retain(n) => {
                lemma_clip_byte(t, p);
                lemma_clip_byte(t, p + n);
                lemma_clip_byte_mono(t, p, p + n);
                assert(t.take(clip_byte(t, p)) + t.subrange(clip_byte(t, p), clip_byte(t, p + n)) =~= t.take(
                    clip_byte(t, p + n),
                ));
            },
            _ => {
                assert(t.take(clip_byte(t, p)) + Seq::<char>::empty() =~= t.take(clip_byte(t, p)));
            },
        }
    }
}

/// [`ChangeSet::is_identity`](crate::transaction::ChangeSet::is_identity) is
/// what it says: ops that only retain (or insert nothing) leave any text as
/// it is.
pub proof fn lemma_identity_leaves_text(ops: Seq<OpView>, t: Seq<char>)
    requires
        ops_identity(ops),
    ensures
        apply_from(ops, t, 0, 0) == t,
{
    lemma_identity_output(ops, t);
    assert(ops.take(0) =~= Seq::<OpView>::empty());
    lemma_apply_output(ops, t, 0);
    lemma_clip_byte(t, ops_old_len(ops) as int);
    let c = clip_byte(t, ops_old_len(ops) as int);
    assert(t.take(c) + t.skip(c) =~= t);
    assert(ops_output(Seq::<OpView>::empty(), t) + apply_from(ops, t, 0, 0) =~= apply_from(ops, t, 0, 0));
}

/// Undo is exact: when a changeset fits a document, its inverse (built
/// against that document) fits the document the changeset produces and,
/// applied to it, gives the original document back.
pub proof fn lemma_invert_round_trip(ops: Seq<OpView>, len_before: usize, t: Seq<char>)
    requires
        applicable(ops, len_before, t),
    ensures
        byte_len(apply_from(ops, t, 0, 0)) == ops_new_len(ops),
        ops_old_len(invert_from(ops, t, 0, 0, Seq::empty())) == ops_new_len(ops),
        boundaries_ok(invert_from(ops, t, 0, 0, Seq::empty()), apply_from(ops, t, 0, 0), 0, 0),
        // A document in memory (a rope) always has a `usize` byte length, so
        // there the inverse's `len_before` is exact and it fits.
        ops_new_len(ops) <= usize::MAX ==> applicable(
            invert_from(ops, t, 0, 0, Seq::empty()),
            ops_new_len(ops) as usize,
            apply_from(ops, t, 0, 0),
        ),
        apply_from(invert_from(ops, t, 0, 0, Seq::empty()), apply_from(ops, t, 0, 0), 0, 0) == t,
{
    let u = apply_from(ops, t, 0, 0);
    let e = Seq::<OpView>::empty();
    assert(ops.take(0) =~= e);
    assert(t.take(0) =~= Seq::<char>::empty());
    lemma_clip_head(t, 0);
    assert(u =~= Seq::<char>::empty() + rest_at(ops, t, 0));
    lemma_invert_walk(ops, len_before, t, u, 0, e, Seq::empty());
    let inv = invert_from(ops, t, 0, 0, e);
    lemma_bounds_split(inv, u, 0);
    assert(inv.take(0) =~= e);
    lemma_apply_output(inv, u, 0);
    lemma_byte_offset_full(u);
    lemma_clip_byte_offset(u, u.len() as int);
    assert(u.skip(u.len() as int) =~= Seq::<char>::empty());
    assert(ops_output(e, u) + apply_from(inv, u, 0, 0) =~= apply_from(inv, u, 0, 0));
    assert(t + Seq::<char>::empty() =~= t);
}

/// Every change's edges are char boundaries of `t`.
pub open spec fn edges_on_boundaries(t: Seq<char>, changes: Seq<(usize, usize, String)>) -> bool {
    forall|k: int|
        0 <= k < changes.len() ==> char_boundary(t, (#[trigger] changes[k]).0 as int) && char_boundary(
            t,
            changes[k].1 as int,
        )
}

/// The ops for the first `i` changes produce `t` spliced up to there, end
/// where change `i - 1` ends, and have their edges on char boundaries when
/// the changes do.
proof fn lemma_changes_prefix(len_before: usize, changes: Seq<(usize, usize, String)>, t: Seq<char>, i: int)
    requires
        0 <= i <= changes.len(),
        forall|k: int| 0 <= k < changes.len() ==> (#[trigger] changes[k]).0 <= changes[k].1 <= len_before,
        forall|j: int, k: int| 0 <= j < k < changes.len() ==> (#[trigger] changes[j]).1 <= (#[trigger] changes[k]).0,
    ensures
        ops_output(changes_prefix(changes, i).0, t) == spliced_upto(t, changes, i),
        ops_old_len(changes_prefix(changes, i).0) == change_end(changes, i),
        changes_prefix(changes, i).1 == change_end(changes, i),
        edges_on_boundaries(t, changes) ==> ops_bounds_ok(changes_prefix(changes, i).0, t),
    decreases i,
{
    if i > 0 {
        lemma_changes_prefix(len_before, changes, t, i - 1);
        let ops = changes_prefix(changes, i - 1).0;
        let last = changes_prefix(changes, i - 1).1;
        let c = changes[i - 1];
        assert(c.0 <= c.1);
        if i >= 2 {
            assert(changes[i - 2].1 <= changes[i - 1].0);
        }
        let o1 = push_retain_spec(ops, sat_sub(c.0, last));
        lemma_push_retain(ops, sat_sub(c.0, last), t);
        let o2 = push_delete_spec(o1, sat_sub(c.1, c.0));
        lemma_push_delete(o1, sat_sub(c.1, c.0), t);
        lemma_push_insert(o2, c.2@, t);
        if edges_on_boundaries(t, changes) {
            assert(char_boundary(t, c.0 as int) && char_boundary(t, c.1 as int));
        }
    } else {
        assert(ops_output(Seq::<OpView>::empty(), t) =~= spliced_upto(t, changes, i));
    }
}

/// A changeset built from a list of changes applies exactly those changes:
/// the result is the text with each range `[from, to)` replaced by its text
/// and everything between kept. When every change's edges are char
/// boundaries, the changeset fits the text, so applying it succeeds.
pub proof fn lemma_from_changes_splices(len_before: usize, changes: Seq<(usize, usize, String)>, t: Seq<char>)
    requires
        byte_len(t) == len_before,
        forall|k: int| 0 <= k < changes.len() ==> (#[trigger] changes[k]).0 <= changes[k].1 <= len_before,
        forall|j: int, k: int| 0 <= j < k < changes.len() ==> (#[trigger] changes[j]).1 <= (#[trigger] changes[k]).0,
    ensures
        apply_from(from_changes_spec(len_before, changes), t, 0, 0) == spliced(t, changes),
        edges_on_boundaries(t, changes) ==> applicable(from_changes_spec(len_before, changes), len_before, t),
{
    let n = changes.len() as int;
    lemma_changes_prefix(len_before, changes, t, n);
    let ops = changes_prefix(changes, n).0;
    let last = changes_prefix(changes, n).1;
    if n > 0 {
        assert(changes[n - 1].0 <= changes[n - 1].1 <= len_before);
    }
    let all = from_changes_spec(len_before, changes);
    lemma_push_retain(ops, sat_sub(len_before, last), t);
    lemma_byte_offset_full(t);
    lemma_clip_byte_offset(t, t.len() as int);
    lemma_clip_byte(t, last as int);
    assert(t.subrange(clip_byte(t, last as int), t.len() as int) =~= t.skip(clip_byte(t, last as int)));
    assert(all.take(0) =~= Seq::<OpView>::empty());
    lemma_apply_output(all, t, 0);
    assert(t.skip(t.len() as int) =~= Seq::<char>::empty());
    assert(ops_output(Seq::<OpView>::empty(), t) + apply_from(all, t, 0, 0) =~= apply_from(all, t, 0, 0));
    assert(ops_output(all, t) + Seq::<char>::empty() =~= ops_output(all, t));
    lemma_bounds_split(all, t, 0);
}

/// An op that does something: a retain or delete of at least one byte, an
/// insert of at least one char.
pub open spec fn op_nonempty(o: OpView) -> bool {
    match o {
        OpView::Retain(n) => n > 0,
        OpView::Delete(n) => n > 0,
        OpView::Insert(t) => t.len() > 0,
    }
}

/// Two ops of one kind.
pub open spec fn same_kind(a: OpView, b: OpView) -> bool {
    (a is Retain && b is Retain) || (a is Delete && b is Delete) || (a is Insert && b is Insert)
}

/// The ops are as short as they can be: none is empty and no two neighbours
/// are of one kind (they would have been merged).
pub open spec fn ops_coalesced(ops: Seq<OpView>) -> bool {
    &&& forall|i: int| 0 <= i < ops.len() ==> op_nonempty(#[trigger] ops[i])
    &&& forall|i: int| 0 <= i < ops.len() - 1 ==> !same_kind(#[trigger] ops[i], ops[i + 1])
}

proof fn lemma_push_coalesced(acc: Seq<OpView>, n: nat, s: Seq<char>)
    requires
        ops_coalesced(acc),
    ensures
        ops_coalesced(push_retain_spec(acc, n)),
        ops_coalesced(push_delete_spec(acc, n)),
        ops_coalesced(push_insert_spec(acc, s)),
        ops_new_len(push_retain_spec(acc, n)) == ops_new_len(acc) + n,
        ops_new_len(push_delete_spec(acc, n)) == ops_new_len(acc),
        ops_new_len(push_insert_spec(acc, s)) == ops_new_len(acc) + byte_len(s),
{
    let l = acc.len() as int;
    if l > 0 {
        assert(acc.last() == acc[l - 1]);
        let d = acc.drop_last();
        assert(acc.update(l - 1, OpView::Retain(0)).drop_last() =~= d);
        if acc.last() is Retain {
            let r = push_retain_spec(acc, n);
            assert(r.drop_last() =~= d);
        }
        if acc.last() is Delete {
            let r = push_delete_spec(acc, n);
            assert(r.drop_last() =~= d);
        }
        if acc.last() is Insert {
            let r = push_insert_spec(acc, s);
            assert(r.drop_last() =~= d);
            lemma_byte_len_concat(acc.last()->Insert_0, s);
        }
    }
    assert(acc.push(OpView::Retain(n)).drop_last() =~= acc);
    assert(acc.push(OpView::Delete(n)).drop_last() =~= acc);
    assert(acc.push(OpView::Insert(s)).drop_last() =~= acc);
}

/// How many bytes the first `i` changes add: the inserted text's bytes less
/// the replaced range's.
pub open spec fn change_growth(changes: Seq<(usize, usize, String)>, i: int) -> int
    decreases i,
{
    if i <= 0 {
        0
    } else {
        change_growth(changes, i - 1) + byte_len(changes[i - 1].2@) - (changes[i - 1].1 - changes[i - 1].0)
    }
}

proof fn lemma_changes_prefix_shape(len_before: usize, changes: Seq<(usize, usize, String)>, i: int)
    requires
        0 <= i <= changes.len(),
        forall|k: int| 0 <= k < changes.len() ==> (#[trigger] changes[k]).0 <= changes[k].1 <= len_before,
        forall|j: int, k: int| 0 <= j < k < changes.len() ==> (#[trigger] changes[j]).1 <= (#[trigger] changes[k]).0,
    ensures
        ops_coalesced(changes_prefix(changes, i).0),
        ops_new_len(changes_prefix(changes, i).0) == change_end(changes, i) + change_growth(changes, i),
        changes_prefix(changes, i).1 == change_end(changes, i),
    decreases i,
{
    if i > 0 {
        lemma_changes_prefix_shape(len_before, changes, i - 1);
        let ops = changes_prefix(changes, i - 1).0;
        let last = changes_prefix(changes, i - 1).1;
        let c = changes[i - 1];
        assert(c.0 <= c.1);
        if i >= 2 {
            assert(changes[i - 2].1 <= changes[i - 1].0);
        }
        let o1 = push_retain_spec(ops, sat_sub(c.0, last));
        lemma_push_coalesced(ops, sat_sub(c.0, last), c.2@);
        let o2 = push_delete_spec(o1, sat_sub(c.1, c.0));
        lemma_push_coalesced(o1, sat_sub(c.1, c.0), c.2@);
        lemma_push_coalesced(o2, 0, c.2@);
    }
}

/// A changeset built from a list of changes is as short as it can be (no
/// empty op, no two neighbours of one kind), and the document it gives is
/// `len_before` bytes plus what the changes add: each inserted text's bytes
/// less its replaced range's.
pub proof fn lemma_from_changes_shape(len_before: usize, changes: Seq<(usize, usize, String)>)
    requires
        forall|k: int| 0 <= k < changes.len() ==> (#[trigger] changes[k]).0 <= changes[k].1 <= len_before,
        forall|j: int, k: int| 0 <= j < k < changes.len() ==> (#[trigger] changes[j]).1 <= (#[trigger] changes[k]).0,
    ensures
        ops_coalesced(from_changes_spec(len_before, changes)),
        ops_new_len(from_changes_spec(len_before, changes)) == len_before + change_growth(
            changes,
            changes.len() as int,
        ),
{
    let n = changes.len() as int;
    lemma_changes_prefix_shape(len_before, changes, n);
    let ops = changes_prefix(changes, n).0;
    let last = changes_prefix(changes, n).1;
    if n > 0 {
        assert(changes[n - 1].0 <= changes[n - 1].1 <= len_before);
    }
    lemma_push_coalesced(ops, sat_sub(len_before, last), Seq::empty());
}

} // verus!
