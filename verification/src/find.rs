//! Inline char search — the `Alt+F` find sub-mode.
//!
//! From the caret `head`, find the next (or previous) occurrence of a target
//! char **on the current line only**. Positions are char indices; `None` means
//! no match, and the executor then leaves the caret where it is.

use vstd::prelude::*;

use crate::text::{content_end, content_end_of, lemma_line_end, lemma_line_start, line_end, line_start, line_start_of};

verus! {

/// The first index in `[k, end)` holding `ch`.
pub open spec fn first_from(t: Seq<char>, ch: char, k: int, end: int) -> Option<int>
    decreases end - k,
{
    if k >= end {
        None
    } else if t[k] == ch {
        Some(k)
    } else {
        first_from(t, ch, k + 1, end)
    }
}

/// The last index in `[start, k)` holding `ch`.
pub open spec fn last_before(t: Seq<char>, ch: char, start: int, k: int) -> Option<int>
    decreases k - start,
{
    if k <= start {
        None
    } else if t[k - 1] == ch {
        Some(k - 1)
    } else {
        last_before(t, ch, start, k - 1)
    }
}

/// The next (`forward`) occurrence of `ch` strictly after `head` and before the
/// end of the line's content, or the previous one strictly before `head` and
/// not before the line's start.
pub open spec fn find_on_line_spec(t: Seq<char>, head: int, ch: char, forward: bool) -> Option<int> {
    if forward {
        first_from(t, ch, head + 1, content_end(t, head))
    } else {
        last_before(t, ch, line_start(t, head), head)
    }
}

/// An optional index as an optional integer.
pub open spec fn opt_int(o: Option<usize>) -> Option<int> {
    match o {
        Some(k) => Some(k as int),
        None => None,
    }
}

/// The next (`forward`) or previous occurrence of `ch` on the line containing
/// `head`, strictly past `head`. `None` if there is no match before the line
/// boundary.
pub fn find_on_line(text: &Vec<char>, head: usize, ch: char, forward: bool) -> (r: Option<usize>)
    requires
        head <= text.len(),
    ensures
        opt_int(r) == find_on_line_spec(text@, head as int, ch, forward),
        r matches Some(k) ==> k < text.len() && text@[k as int] == ch && k != head,
{
    proof {
        lemma_line_start(text@, head as int);
        lemma_line_end(text@, head as int);
    }
    if forward {
        let end = content_end_of(text, head);
        if head >= end {
            return None;
        }
        let mut k = head + 1;
        while k < end
            invariant
                forward,
                head < k,
                end == content_end(text@, head as int),
                end <= text.len(),
                first_from(text@, ch, k as int, end as int) == first_from(text@, ch, head + 1, end as int),
            decreases end - k,
        {
            if text[k] == ch {
                return Some(k);
            }
            k = k + 1;
        }
        None
    } else {
        let start = line_start_of(text, head);
        let mut k = head;
        while k > start
            invariant
                !forward,
                start <= k <= head <= text.len(),
                start == line_start(text@, head as int),
                last_before(text@, ch, start as int, k as int) == last_before(text@, ch, start as int, head as int),
            decreases k,
        {
            if text[k - 1] == ch {
                return Some(k - 1);
            }
            k = k - 1;
        }
        None
    }
}

proof fn lemma_last_before(t: Seq<char>, ch: char, start: int, k: int)
    requires
        0 <= start <= k <= t.len(),
    ensures
        last_before(t, ch, start, k) matches Some(j) ==> start <= j < k && t[j] == ch && forall|i: int|
            j < i < k ==> #[trigger] t[i] != ch,
        last_before(t, ch, start, k) is None ==> forall|i: int| start <= i < k ==> #[trigger] t[i] != ch,
    decreases k - start,
{
    if k > start && t[k - 1] != ch {
        lemma_last_before(t, ch, start, k - 1);
    }
}

proof fn lemma_first_from(t: Seq<char>, ch: char, k: int, end: int)
    requires
        0 <= k,
        end <= t.len(),
    ensures
        first_from(t, ch, k, end) matches Some(j) ==> k <= j < end && t[j] == ch && forall|i: int|
            k <= i < j ==> #[trigger] t[i] != ch,
        first_from(t, ch, k, end) is None ==> forall|i: int| k <= i < end ==> #[trigger] t[i] != ch,
    decreases end - k,
{
    if k < end && t[k] != ch {
        lemma_first_from(t, ch, k + 1, end);
    }
}

/// Finding stays on the caret's line. Backward, the match is the nearest
/// `ch` before `head` with no line break between it and `head`, and there is
/// none when no such `ch` exists. Forward, the match is the nearest `ch` after
/// `head` with no line break from `head` up to it, and there is none when
/// every `ch` after `head` lies past a line break (or a `'\r'`).
pub proof fn lemma_find_stays_on_line(t: Seq<char>, head: int, ch: char)
    requires
        0 <= head <= t.len(),
    ensures
        find_on_line_spec(t, head, ch, false) matches Some(k) ==> {
            &&& 0 <= k < head
            &&& t[k] == ch
            &&& forall|j: int| k <= j < head ==> #[trigger] t[j] != '\n'
            &&& forall|j: int| k < j < head ==> #[trigger] t[j] != ch
        },
        find_on_line_spec(t, head, ch, false) is None ==> forall|j: int|
            0 <= j < head && (forall|i: int| j <= i < head ==> #[trigger] t[i] != '\n') ==> #[trigger] t[j] != ch,
        find_on_line_spec(t, head, ch, true) matches Some(k) ==> {
            &&& head < k < t.len()
            &&& t[k] == ch
            &&& forall|j: int| head <= j <= k ==> #[trigger] t[j] != '\n'
            &&& forall|j: int| head < j < k ==> #[trigger] t[j] != ch
        },
        find_on_line_spec(t, head, ch, true) is None ==> forall|j: int|
            head < j < t.len() && (forall|i: int| head <= i <= j ==> #[trigger] t[i] != '\n' && t[i] != '\r')
                ==> #[trigger] t[j] != ch,
{
    lemma_line_start(t, head);
    lemma_line_end(t, head);
    let ls = line_start(t, head);
    let le = line_end(t, head);
    let ce = content_end(t, head);
    lemma_last_before(t, ch, ls, head);
    lemma_first_from(t, ch, head + 1, ce);
    assert forall|j: int|
        0 <= j < head && (forall|i: int| j <= i < head ==> #[trigger] t[i] != '\n') && find_on_line_spec(t, head, ch, false)
            is None implies #[trigger] t[j] != ch by {
        if j < ls {
            assert(t[ls - 1] == '\n');
        }
    }
    assert forall|j: int|
        head < j < t.len() && (forall|i: int| head <= i <= j ==> #[trigger] t[i] != '\n' && t[i] != '\r')
            && find_on_line_spec(t, head, ch, true) is None implies #[trigger] t[j] != ch by {
        if j >= le {
            assert(t[le] == '\n');
        }
        if j >= ce {
            assert(t[j] == '\r');
        }
    }
}

} // verus!
