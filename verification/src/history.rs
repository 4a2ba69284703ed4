//! The undo/redo timeline: one shared stack of steps.
//!
//! Text edits keep their inverse in the [`Buffer`]'s transaction stacks; an
//! entry here names the transaction. Selection-only steps (expansions)
//! interleave on the *same* timeline as entries that carry no text change, so
//! `Ctrl+Z` walks back through expansions and edits alike.
//!
//! Every entry stores the [`Selections`] to restore on undo (`before`) and on
//! redo (`after`).
//!
//! **Invariant** ([`consistent`]): the edit entries stay in lockstep with the
//! buffer's transaction stacks, and each stored selection set fits the text it
//! will be restored into.

use vstd::prelude::*;

use crate::buffer::{sels_ok, Buffer, Transaction, TransactionId};
use crate::selection::Selections;

verus! {

/// What an undo entry does to the text. The selection is always restored.
#[derive(Clone, Copy, Debug)]
pub enum Step {
    /// A text transaction on the buffer's stacks.
    Edit(TransactionId),
    /// A selection-only step (an expansion): no text change.
    SelectionOnly,
}

/// One step on the shared timeline.
#[derive(Clone, Debug)]
pub struct Entry {
    pub step: Step,
    /// The selection before the step (restored on undo).
    pub before: Selections,
    /// The selection after the step (restored on redo).
    pub after: Selections,
}

/// The undo/redo history: two stacks of [`Entry`]s.
#[derive(Clone, Debug)]
pub struct History {
    pub undo_stack: Vec<Entry>,
    pub redo_stack: Vec<Entry>,
}

/// The undo entries `es` (top last) match the buffer's undo transactions `ts`
/// (top last) when the current text is `text`: each edit entry's transaction
/// is on top of the remaining ones and leads to the text above it, and each
/// entry's selections fit the text on its side of the step.
pub open spec fn undo_chain(es: Seq<Entry>, ts: Seq<Transaction>, text: Seq<char>) -> bool
    decreases es.len(),
{
    if es.len() == 0 {
        true
    } else {
        let e = es.last();
        match e.step {
            Step::Edit(id) => {
                &&& ts.len() > 0
                &&& ts.last().id == id
                &&& ts.last().after@ == text
                &&& sels_ok(e.after, text.len() as int)
                &&& sels_ok(e.before, ts.last().before.len() as int)
                &&& undo_chain(es.drop_last(), ts.drop_last(), ts.last().before@)
            },
            Step::SelectionOnly => {
                &&& sels_ok(e.after, text.len() as int)
                &&& sels_ok(e.before, text.len() as int)
                &&& undo_chain(es.drop_last(), ts, text)
            },
        }
    }
}

/// The redo entries `es` match the buffer's redo transactions `ts` when the
/// current text is `text` (the mirror image of [`undo_chain`]).
pub open spec fn redo_chain(es: Seq<Entry>, ts: Seq<Transaction>, text: Seq<char>) -> bool
    decreases es.len(),
{
    if es.len() == 0 {
        true
    } else {
        let e = es.last();
        match e.step {
            Step::Edit(id) => {
                &&& ts.len() > 0
                &&& ts.last().id == id
                &&& ts.last().before@ == text
                &&& sels_ok(e.before, text.len() as int)
                &&& sels_ok(e.after, ts.last().after.len() as int)
                &&& redo_chain(es.drop_last(), ts.drop_last(), ts.last().after@)
            },
            Step::SelectionOnly => {
                &&& sels_ok(e.before, text.len() as int)
                &&& sels_ok(e.after, text.len() as int)
                &&& redo_chain(es.drop_last(), ts, text)
            },
        }
    }
}

/// The history and the buffer are in lockstep.
pub open spec fn consistent(h: History, b: Buffer) -> bool {
    &&& undo_chain(h.undo_stack@, b.undo_stack@, b.chars@)
    &&& redo_chain(h.redo_stack@, b.redo_stack@, b.chars@)
}

/// What undo does to `(h0, b0)`, giving `(h1, b1)` and reporting `r`: with an
/// entry to undo, its text step is reversed and its `before` selection
/// restored; at the root nothing changes.
pub open spec fn undo_step(h0: History, b0: Buffer, h1: History, b1: Buffer, r: bool) -> bool {
    &&& r == (h0.undo_stack.len() > 0)
    &&& !r ==> h1.undo_stack@ == h0.undo_stack@ && h1.redo_stack@ == h0.redo_stack@ && b1.only_selection_changed(&b0)
        && b1.selection.same_as(&b0.selection)
    &&& r ==> {
        let e = h0.undo_stack@.last();
        &&& h1.undo_stack@ == h0.undo_stack@.drop_last()
        &&& h1.redo_stack@ == h0.redo_stack@.push(e)
        &&& b1.selection.same_as(&e.before)
        &&& b1.next_transaction == b0.next_transaction
        &&& match e.step {
            Step::Edit(_) => {
                &&& b1.chars@ == b0.undo_stack@.last().before@
                &&& b1.undo_stack@ == b0.undo_stack@.drop_last()
                &&& b1.redo_stack@ == b0.redo_stack@.push(b0.undo_stack@.last())
            },
            Step::SelectionOnly => {
                &&& b1.chars@ == b0.chars@
                &&& b1.undo_stack@ == b0.undo_stack@
                &&& b1.redo_stack@ == b0.redo_stack@
            },
        }
    }
}

/// What redo does to `(h0, b0)`, giving `(h1, b1)` and reporting `r`: with an
/// undone entry, its text step is re-applied and its `after` selection
/// restored; with nothing undone nothing changes.
pub open spec fn redo_step(h0: History, b0: Buffer, h1: History, b1: Buffer, r: bool) -> bool {
    &&& r == (h0.redo_stack.len() > 0)
    &&& !r ==> h1.undo_stack@ == h0.undo_stack@ && h1.redo_stack@ == h0.redo_stack@ && b1.only_selection_changed(&b0)
        && b1.selection.same_as(&b0.selection)
    &&& r ==> {
        let e = h0.redo_stack@.last();
        &&& h1.redo_stack@ == h0.redo_stack@.drop_last()
        &&& h1.undo_stack@ == h0.undo_stack@.push(e)
        &&& b1.selection.same_as(&e.after)
        &&& b1.next_transaction == b0.next_transaction
        &&& match e.step {
            Step::Edit(_) => {
                &&& b1.chars@ == b0.redo_stack@.last().after@
                &&& b1.redo_stack@ == b0.redo_stack@.drop_last()
                &&& b1.undo_stack@ == b0.undo_stack@.push(b0.redo_stack@.last())
            },
            Step::SelectionOnly => {
                &&& b1.chars@ == b0.chars@
                &&& b1.undo_stack@ == b0.undo_stack@
                &&& b1.redo_stack@ == b0.redo_stack@
            },
        }
    }
}

/// `(h1, b1)` is `(h0, b0)` after one recorded step: one entry pushed whose
/// `before` is `b0`'s selection and whose `after` is `b1`'s; an edit step's
/// transaction is on top of the buffer's undo stack and leads from `b0`'s text
/// to `b1`'s; a selection-only step leaves the text alone.
pub open spec fn recorded_step(h0: History, b0: Buffer, h1: History, b1: Buffer) -> bool {
    &&& h1.undo_stack.len() == h0.undo_stack.len() + 1
    &&& h1.undo_stack@.drop_last() == h0.undo_stack@
    &&& h1.undo_stack@.last().before.same_as(&b0.selection)
    &&& h1.undo_stack@.last().after.same_as(&b1.selection)
    &&& match h1.undo_stack@.last().step {
        Step::Edit(id) => {
            &&& b1.undo_stack.len() > 0
            &&& b1.undo_stack@.last().id == id
            &&& b1.undo_stack@.last().before@ == b0.chars@
            &&& b1.undo_stack@.last().after@ == b1.chars@
            &&& b1.undo_stack@.drop_last() == b0.undo_stack@
        },
        Step::SelectionOnly => {
            &&& b1.chars@ == b0.chars@
            &&& b1.undo_stack@ == b0.undo_stack@
        },
    }
}

/// Undo right after a recorded step (an edit or an expansion) restores the
/// text and the selection from before the step, and the undo stack from
/// before it.
pub proof fn lemma_undo_reverts_step(h0: History, b0: Buffer, h1: History, b1: Buffer, h2: History, b2: Buffer, r: bool)
    requires
        recorded_step(h0, b0, h1, b1),
        undo_step(h1, b1, h2, b2, r),
    ensures
        r,
        b2.chars@ == b0.chars@,
        b2.selection.same_as(&b0.selection),
        h2.undo_stack@ == h0.undo_stack@,
{
    let e = h1.undo_stack@.last();
    match e.step {
        Step::Edit(_) => {
            assert(b2.undo_stack@ == b0.undo_stack@);
        },
        Step::SelectionOnly => {},
    }
}

/// Redo right after an undo puts back the text, the selection the undone
/// entry recorded after its step, and both stacks of the history and of the
/// buffer.
pub proof fn lemma_redo_after_undo(h0: History, b0: Buffer, h1: History, b1: Buffer, h2: History, b2: Buffer, r: bool)
    requires
        consistent(h0, b0),
        undo_step(h0, b0, h1, b1, true),
        redo_step(h1, b1, h2, b2, r),
    ensures
        r,
        b2.chars@ == b0.chars@,
        b2.selection.same_as(&h0.undo_stack@.last().after),
        h2.undo_stack@ == h0.undo_stack@,
        h2.redo_stack@ == h0.redo_stack@,
        b2.undo_stack@ == b0.undo_stack@,
        b2.redo_stack@ == b0.redo_stack@,
{
    let e = h0.undo_stack@.last();
    assert(h1.redo_stack@.last() == e);
    assert(h0.undo_stack@.drop_last().push(e) =~= h0.undo_stack@);
    assert(h1.redo_stack@.drop_last() =~= h0.redo_stack@);
    match e.step {
        Step::Edit(_) => {
            assert(b0.undo_stack@.drop_last().push(b0.undo_stack@.last()) =~= b0.undo_stack@);
            assert(b1.redo_stack@.drop_last() =~= b0.redo_stack@);
        },
        Step::SelectionOnly => {},
    }
}

/// Undo right after a redo takes back the text, the selection the redone
/// entry recorded before its step, and both stacks.
pub proof fn lemma_undo_after_redo(h0: History, b0: Buffer, h1: History, b1: Buffer, h2: History, b2: Buffer, r: bool)
    requires
        consistent(h0, b0),
        redo_step(h0, b0, h1, b1, true),
        undo_step(h1, b1, h2, b2, r),
    ensures
        r,
        b2.chars@ == b0.chars@,
        b2.selection.same_as(&h0.redo_stack@.last().before),
        h2.undo_stack@ == h0.undo_stack@,
        h2.redo_stack@ == h0.redo_stack@,
        b2.undo_stack@ == b0.undo_stack@,
        b2.redo_stack@ == b0.redo_stack@,
{
    let e = h0.redo_stack@.last();
    assert(h1.undo_stack@.last() == e);
    assert(h0.redo_stack@.drop_last().push(e) =~= h0.redo_stack@);
    assert(h1.undo_stack@.drop_last() =~= h0.undo_stack@);
    match e.step {
        Step::Edit(_) => {
            assert(b0.redo_stack@.drop_last().push(b0.redo_stack@.last()) =~= b0.redo_stack@);
            assert(b1.undo_stack@.drop_last() =~= b0.undo_stack@);
        },
        Step::SelectionOnly => {},
    }
}

/// Recording a step keeps the history and the buffer in lockstep, given that
/// both sides' selections fit and the redo branch was cleared on both sides
/// of an edit (the buffer's own redo stack may keep transactions that no
/// entry names any more).
pub proof fn lemma_recorded_consistent(h0: History, b0: Buffer, h1: History, b1: Buffer)
    requires
        consistent(h0, b0),
        sels_ok(b0.selection, b0.chars.len() as int),
        sels_ok(b1.selection, b1.chars.len() as int),
        recorded_step(h0, b0, h1, b1),
        h1.redo_stack.len() == 0,
    ensures
        consistent(h1, b1),
{
    let e = h1.undo_stack@.last();
    lemma_sels_ok_copy(e.after, b1.selection, b1.chars.len() as int);
    lemma_sels_ok_copy(e.before, b0.selection, b0.chars.len() as int);
}

/// Recording an edit drops the redo branch: a `redo` right after it does
/// nothing, and the `undo` after that steps back over the recorded edit,
/// restoring the text from before the buffer's latest transaction and the
/// selection recorded before the edit.
pub proof fn lemma_record_edit_then_redo_undo(
    h0: History,
    transaction: TransactionId,
    before: Selections,
    after: Selections,
    h1: History,
    b1: Buffer,
    h2: History,
    b2: Buffer,
    r2: bool,
    h3: History,
    b3: Buffer,
    r3: bool,
)
    requires
        h1.undo_stack@ == h0.undo_stack@.push(Entry { step: Step::Edit(transaction), before, after }),
        h1.redo_stack.len() == 0,
        redo_step(h1, b1, h2, b2, r2),
        undo_step(h2, b2, h3, b3, r3),
    ensures
        !r2,
        b2.chars@ == b1.chars@,
        b2.selection.same_as(&b1.selection),
        h2.undo_stack@ == h1.undo_stack@,
        r3,
        b3.chars@ == b1.undo_stack@.last().before@,
        b3.selection.same_as(&before),
        h3.undo_stack@ == h0.undo_stack@,
{
    assert(h2.undo_stack@.last() == Entry { step: Step::Edit(transaction), before, after });
    assert(h1.undo_stack@.drop_last() =~= h0.undo_stack@);
}

/// A selection set that fits is still fitting after it is copied.
pub proof fn lemma_sels_ok_copy(a: Selections, b: Selections, len: int)
    requires
        a.same_as(&b),
        sels_ok(b, len),
    ensures
        sels_ok(a, len),
{
    assert forall|i: int| 0 <= i < a.selections.len() implies (#[trigger] a.selections@[i]).id < a.next_id by {
        assert(a.selections@[i] == b.selections@[i]);
    }
}

impl Default for History {
    fn default() -> (r: Self)
        ensures
            r.undo_stack.len() == 0,
            r.redo_stack.len() == 0,
    {
        History::new()
    }
}

impl History {
    /// A fresh, empty history.
    pub fn new() -> (r: Self)
        ensures
            r.undo_stack.len() == 0,
            r.redo_stack.len() == 0,
    {
        History { undo_stack: Vec::new(), redo_stack: Vec::new() }
    }

    /// Record a text edit: `transaction` is the id the buffer produced;
    /// `before`/`after` are the selection on each side. Clears the redo branch.
    pub fn record_edit(&mut self, transaction: TransactionId, before: Selections, after: Selections)
        ensures
            final(self).undo_stack@ == old(self).undo_stack@.push(Entry { step: Step::Edit(transaction), before, after }),
            final(self).redo_stack.len() == 0,
    {
        self.undo_stack.push(Entry { step: Step::Edit(transaction), before, after });
        self.redo_stack.clear();
    }

    /// Record a selection-only step (an expansion). Clears the redo branch.
    pub fn record_selection(&mut self, before: Selections, after: Selections)
        ensures
            final(self).undo_stack@ == old(self).undo_stack@.push(Entry { step: Step::SelectionOnly, before, after }),
            final(self).redo_stack.len() == 0,
    {
        self.undo_stack.push(Entry { step: Step::SelectionOnly, before, after });
        self.redo_stack.clear();
    }

    /// Step back one entry: reverse its text step (if any) and restore the
    /// selection that preceded it. A no-op at the root (returns `false`).
    pub fn undo(&mut self, buf: &mut Buffer) -> (r: bool)
        requires
            old(buf).wf(),
            consistent(*old(self), *old(buf)),
        ensures
            final(buf).wf(),
            consistent(*final(self), *final(buf)),
            undo_step(*old(self), *old(buf), *final(self), *final(buf), r),
    {
        if self.undo_stack.len() == 0 {
            return false;
        }
        let entry = self.undo_stack.pop().unwrap();
        let ghost e = entry;
        let ghost h0 = *old(self);
        let ghost b0 = *old(buf);
        proof {
            assert(h0.undo_stack@.last() == e);
        }
        match entry.step {
            Step::Edit(_) => {
                buf.undo();
            },
            Step::SelectionOnly => {},
        }
        let restored = entry.before.copy();
        buf.selection = restored;
        self.redo_stack.push(entry);
        proof {
            let text = buf.chars@;
            match e.step {
                Step::Edit(_) => {
                    let t = b0.undo_stack@.last();
                    lemma_sels_ok_copy(buf.selection, e.before, text.len() as int);
                    assert(self.redo_stack@.drop_last() =~= h0.redo_stack@);
                    assert(buf.redo_stack@.drop_last() =~= b0.redo_stack@);
                    assert(redo_chain(self.redo_stack@, buf.redo_stack@, text));
                },
                Step::SelectionOnly => {
                    lemma_sels_ok_copy(buf.selection, e.before, text.len() as int);
                    assert(self.redo_stack@.drop_last() =~= h0.redo_stack@);
                    assert(redo_chain(self.redo_stack@, buf.redo_stack@, text));
                },
            }
        }
        true
    }

    /// Step forward one entry: re-apply its text step (if any) and restore the
    /// selection that followed it. A no-op when nothing was undone (returns
    /// `false`).
    pub fn redo(&mut self, buf: &mut Buffer) -> (r: bool)
        requires
            old(buf).wf(),
            consistent(*old(self), *old(buf)),
        ensures
            final(buf).wf(),
            consistent(*final(self), *final(buf)),
            redo_step(*old(self), *old(buf), *final(self), *final(buf), r),
    {
        if self.redo_stack.len() == 0 {
            return false;
        }
        let entry = self.redo_stack.pop().unwrap();
        let ghost e = entry;
        let ghost h0 = *old(self);
        let ghost b0 = *old(buf);
        proof {
            assert(h0.redo_stack@.last() == e);
        }
        match entry.step {
            Step::Edit(_) => {
                buf.redo();
            },
            Step::SelectionOnly => {},
        }
        let restored = entry.after.copy();
        buf.selection = restored;
        self.undo_stack.push(entry);
        proof {
            let text = buf.chars@;
            lemma_sels_ok_copy(buf.selection, e.after, text.len() as int);
            assert(self.undo_stack@.drop_last() =~= h0.undo_stack@);
            match e.step {
                Step::Edit(_) => {
                    assert(buf.undo_stack@.drop_last() =~= b0.undo_stack@);
                },
                Step::SelectionOnly => {},
            }
            assert(undo_chain(self.undo_stack@, buf.undo_stack@, text));
        }
        true
    }
}

} // verus!
