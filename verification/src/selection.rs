//! The selection model: `Selection<T> { id, start, end, reversed, goal }` with
//! `start <= end`; `reversed` marks which end is the moving head. `T` is an
//! [`Anchor`] in storage and a byte offset (`usize`) in the resolved working
//! form. A [`Selections`] is the multicursor set with a stable primary id.

use vstd::prelude::*;

verus! {

/// The remembered goal for vertical motion: a byte column kept across short
/// lines, or none (seed it from the current column).
#[derive(Copy, Clone, Debug, PartialEq, Eq, Structural)]
pub enum SelectionGoal {
    /// No goal — seed it from the current column on the next vertical motion.
    Unset,
    /// Keep this byte column across short lines.
    Column(u32),
}

impl Default for SelectionGoal {
    fn default() -> (r: Self)
        ensures
            r == SelectionGoal::Unset,
    {
        SelectionGoal::Unset
    }
}

/// The goal as an optional byte column.
pub open spec fn goal_column(g: SelectionGoal) -> Option<u32> {
    match g {
        SelectionGoal::Unset => None,
        SelectionGoal::Column(c) => Some(c),
    }
}

/// The goal for an optional byte column.
pub open spec fn goal_from_column(col: Option<u32>) -> SelectionGoal {
    match col {
        Some(c) => SelectionGoal::Column(c),
        None => SelectionGoal::Unset,
    }
}

impl SelectionGoal {
    /// The goal as an optional byte column, for the offset-space motion helpers.
    pub fn column(self) -> (r: Option<u32>)
        ensures
            r == goal_column(self),
    {
        match self {
            SelectionGoal::Unset => None,
            SelectionGoal::Column(c) => Some(c),
        }
    }

    /// Build a goal from an optional byte column (the inverse of `column`).
    pub fn from_column(col: Option<u32>) -> (r: Self)
        ensures
            r == goal_from_column(col),
    {
        match col {
            Some(c) => SelectionGoal::Column(c),
            None => SelectionGoal::Unset,
        }
    }
}

/// Which side of an insertion at its exact position an anchor sticks to.
#[derive(Copy, Clone, Debug, PartialEq, Eq, Structural)]
pub enum Bias {
    /// Stay before text inserted at the anchor's position.
    Left,
    /// Move past text inserted at the anchor's position.
    Right,
}

/// A position that rides edits: a char index into the document plus the side
/// it sticks to when text is inserted exactly there.
#[derive(Copy, Clone, Debug, PartialEq, Eq)]
pub struct Anchor {
    /// The char index the anchor currently resolves to.
    pub index: usize,
    /// Which side of an insertion at `index` the anchor stays on.
    pub bias: Bias,
}

/// A single cursor or selection span.
#[derive(Clone, Copy, Debug, PartialEq, Eq)]
pub struct Selection<T> {
    /// A stable identity, so a selection can be tracked through motions, edits,
    /// and merges.
    pub id: usize,
    /// The lower end of the span.
    pub start: T,
    /// The upper end of the span.
    pub end: T,
    /// `true` when the head is at `start` (the selection was extended leftward).
    pub reversed: bool,
    /// The vertical-motion goal carried with the head.
    pub goal: SelectionGoal,
}

impl<T> Selection<T> {
    /// The moving end (the cursor).
    pub open spec fn head_spec(&self) -> T {
        if self.reversed {
            self.start
        } else {
            self.end
        }
    }

    /// The fixed end (the anchor the head moved away from).
    pub open spec fn tail_spec(&self) -> T {
        if self.reversed {
            self.end
        } else {
            self.start
        }
    }
}

impl<T: Copy> Selection<T> {
    /// The moving end (the cursor).
    pub fn head(&self) -> (r: T)
        ensures
            r == self.head_spec(),
    {
        if self.reversed {
            self.start
        } else {
            self.end
        }
    }

    /// The fixed end (the anchor the head moved away from).
    pub fn tail(&self) -> (r: T)
        ensures
            r == self.tail_spec(),
    {
        if self.reversed {
            self.end
        } else {
            self.start
        }
    }
}

/// A bare cursor at `pos` with id `id` and no goal.
pub open spec fn cursor_spec(id: usize, pos: usize) -> Selection<usize> {
    Selection { id, start: pos, end: pos, reversed: false, goal: SelectionGoal::Unset }
}

/// `s` with its head moved to `head` (tail fixed) and goal `goal`.
pub open spec fn with_head(s: Selection<usize>, head: usize, goal: SelectionGoal) -> Selection<usize> {
    let tail = s.tail_spec();
    if head >= tail {
        Selection { id: s.id, start: tail, end: head, reversed: false, goal }
    } else {
        Selection { id: s.id, start: head, end: tail, reversed: true, goal }
    }
}

impl Selection<usize> {
    /// A bare cursor at `pos` with id `id` and no goal.
    pub fn cursor(id: usize, pos: usize) -> (r: Self)
        ensures
            r == cursor_spec(id, pos),
    {
        Selection { id, start: pos, end: pos, reversed: false, goal: SelectionGoal::Unset }
    }

    /// True when nothing is selected (`start == end`).
    pub fn is_empty(&self) -> (r: bool)
        ensures
            r == (self.start == self.end),
    {
        self.start == self.end
    }

    /// The lower bound of the span.
    pub fn min(&self) -> (r: usize)
        ensures
            r == self.start,
    {
        self.start
    }

    /// The upper bound of the span.
    pub fn max(&self) -> (r: usize)
        ensures
            r == self.end,
    {
        self.end
    }

    /// Move the head to `head`, keeping the tail fixed, and set the new goal —
    /// reordering `start`/`end` and flipping `reversed` as needed.
    pub fn set_head(&mut self, head: usize, goal: SelectionGoal)
        ensures
            *final(self) == with_head(*old(self), head, goal),
    {
        let tail = self.tail();
        if head >= tail {
            self.start = tail;
            self.end = head;
            self.reversed = false;
        } else {
            self.start = head;
            self.end = tail;
            self.reversed = true;
        }
        self.goal = goal;
    }
}

// ---------------------------------------------------------------------------
// Normalization: stable sort by span, then merge overlaps.
// ---------------------------------------------------------------------------

/// `a` sorts no later than `b`: ordered by `(start, end)`.
pub open spec fn span_le(a: Selection<usize>, b: Selection<usize>) -> bool {
    a.start < b.start || (a.start == b.start && a.end <= b.end)
}

/// `x` inserted into `s` after every element that sorts no later than it.
pub open spec fn insert_by_span(s: Seq<Selection<usize>>, x: Selection<usize>) -> Seq<Selection<usize>>
    decreases s.len(),
{
    if s.len() == 0 {
        seq![x]
    } else if span_le(s.last(), x) {
        s.push(x)
    } else {
        insert_by_span(s.drop_last(), x).push(s.last())
    }
}

/// The stable sort of `s` by `(start, end)`: each element, in order, inserted
/// after all elements already placed that sort no later than it.
pub open spec fn sort_by_span(s: Seq<Selection<usize>>) -> Seq<Selection<usize>>
    decreases s.len(),
{
    if s.len() == 0 {
        s
    } else {
        insert_by_span(sort_by_span(s.drop_last()), s.last())
    }
}

/// Two resolved selections share a position and should merge: two bare cursors
/// coincide, or two spans share interior. Touching end-to-start does not merge.
pub open spec fn overlaps_spec(a: Selection<usize>, b: Selection<usize>) -> bool {
    a.start == b.start || (a.end > b.start && b.end > a.start)
}

/// The union of an overlapping pair, forward with no goal, keeping `b`'s id
/// when it is the primary and `a`'s otherwise.
pub open spec fn merge_pair(a: Selection<usize>, b: Selection<usize>, primary_id: usize) -> Selection<usize> {
    Selection {
        id: if b.id == primary_id { b.id } else { a.id },
        start: if a.start <= b.start { a.start } else { b.start },
        end: if a.end >= b.end { a.end } else { b.end },
        reversed: false,
        goal: SelectionGoal::Unset,
    }
}

/// Merge a sorted sequence left to right: each selection either grows the last
/// survivor (when they overlap) or starts a new one.
pub open spec fn merge_sorted(s: Seq<Selection<usize>>, primary_id: usize) -> Seq<Selection<usize>>
    decreases s.len(),
{
    if s.len() == 0 {
        s
    } else {
        let m = merge_sorted(s.drop_last(), primary_id);
        let x = s.last();
        if m.len() > 0 && overlaps_spec(m.last(), x) {
            m.update(m.len() - 1, merge_pair(m.last(), x, primary_id))
        } else {
            m.push(x)
        }
    }
}

/// The first index at or after `k` whose selection has id `id`.
pub open spec fn find_id<T>(s: Seq<Selection<T>>, id: usize, k: int) -> Option<int>
    decreases s.len() - k,
{
    if k < 0 || k >= s.len() {
        None
    } else if s[k].id == id {
        Some(k)
    } else {
        find_id(s, id, k + 1)
    }
}

/// The first index at or after `k` whose selection contains `[lo, hi]`.
pub open spec fn find_covering(s: Seq<Selection<usize>>, lo: usize, hi: usize, k: int) -> Option<int>
    decreases s.len() - k,
{
    if k < 0 || k >= s.len() {
        None
    } else if s[k].start <= lo && hi <= s[k].end {
        Some(k)
    } else {
        find_covering(s, lo, hi, k + 1)
    }
}

/// The primary id after merging: the old id if it survived, else the id of the
/// first merged range containing the old primary's span, else the first id.
pub open spec fn surviving_primary(
    merged: Seq<Selection<usize>>,
    orig: Seq<Selection<usize>>,
    primary_id: usize,
) -> usize {
    if find_id(merged, primary_id, 0) is Some {
        primary_id
    } else {
        match find_id(orig, primary_id, 0) {
            Some(i) => match find_covering(merged, orig[i].start, orig[i].end, 0) {
                Some(j) => merged[j].id,
                None => merged[0].id,
            },
            None => merged[0].id,
        }
    }
}

proof fn lemma_insert_by_span_at(s: Seq<Selection<usize>>, x: Selection<usize>, p: int)
    requires
        0 <= p <= s.len(),
        p == 0 || span_le(s[p - 1], x),
        forall|k: int| p <= k < s.len() ==> !span_le(#[trigger] s[k], x),
    ensures
        insert_by_span(s, x) == s.insert(p, x),
    decreases s.len() - p,
{
    if s.len() == 0 {
        assert(s.insert(p, x) =~= seq![x]);
    } else if p == s.len() {
        assert(s.insert(p, x) =~= s.push(x));
    } else {
        let d = s.drop_last();
        assert forall|k: int| p <= k < d.len() implies !span_le(#[trigger] d[k], x) by {
            assert(d[k] == s[k]);
        }
        lemma_insert_by_span_at(d, x, p);
        assert(s.insert(p, x) =~= d.insert(p, x).push(s.last()));
    }
}

proof fn lemma_merge_sorted_len(s: Seq<Selection<usize>>, primary_id: usize)
    ensures
        s.len() > 0 ==> merge_sorted(s, primary_id).len() > 0,
        merge_sorted(s, primary_id).len() <= s.len(),
    decreases s.len(),
{
    if s.len() > 0 {
        lemma_merge_sorted_len(s.drop_last(), primary_id);
    }
}

fn overlaps(a: &Selection<usize>, b: &Selection<usize>) -> (r: bool)
    ensures
        r == overlaps_spec(*a, *b),
{
    a.min() == b.min() || (a.max() > b.min() && b.max() > a.min())
}

/// Sort `selections` by position and merge any that overlap, returning the
/// surviving id for the selection that carried `primary_id` (or the range that
/// swallowed it). A merged span is forward with no goal; standalone selections
/// keep their orientation, id, and goal.
pub fn normalize(selections: &mut Vec<Selection<usize>>, primary_id: usize) -> (r: usize)
    ensures
        old(selections).len() <= 1 ==> final(selections)@ == old(selections)@ && r == primary_id,
        old(selections).len() > 1 ==> {
            &&& final(selections)@ == merge_sorted(sort_by_span(old(selections)@), primary_id)
            &&& r == surviving_primary(final(selections)@, old(selections)@, primary_id)
        },
        old(selections).len() > 0 ==> final(selections).len() > 0,
{
    if selections.len() <= 1 {
        return primary_id;
    }
    let n = selections.len();
    let ghost orig = selections@;
    // The span the old primary covered, to re-find it after merging.
    let mut primary_span: Option<(usize, usize)> = None;
    let mut f: usize = 0;
    while f < n
        invariant
            n == selections.len(),
            selections@ == orig,
            f <= n,
            primary_span is None ==> find_id(orig, primary_id, 0) == find_id(orig, primary_id, f as int),
            primary_span matches Some(sp) ==> (find_id(orig, primary_id, 0) matches Some(i) && sp == (orig[i].start, orig[i].end)),
        decreases n - f,
    {
        if primary_span.is_none() && selections[f].id == primary_id {
            primary_span = Some((selections[f].min(), selections[f].max()));
        }
        f = f + 1;
    }
    // Stable insertion sort by (start, end).
    let mut sorted: Vec<Selection<usize>> = Vec::new();
    let mut i: usize = 0;
    while i < n
        invariant
            n == selections.len(),
            selections@ == orig,
            i <= n,
            sorted.len() == i,
            sorted@ == sort_by_span(orig.take(i as int)),
        decreases n - i,
    {
        let x = selections[i];
        let mut p = sorted.len();
        while p > 0 && !(sorted[p - 1].start < x.start || (sorted[p - 1].start == x.start && sorted[p - 1].end <= x.end))
            invariant
                p <= sorted.len(),
                forall|k: int| p <= k < sorted.len() ==> !span_le(#[trigger] sorted@[k], x),
            decreases p,
        {
            p = p - 1;
        }
        proof {
            lemma_insert_by_span_at(sorted@, x, p as int);
            assert(orig.take(i as int + 1).drop_last() =~= orig.take(i as int));
        }
        sorted.insert(p, x);
        i = i + 1;
    }
    proof {
        assert(orig.take(n as int) =~= orig);
    }
    // Merge overlapping neighbours left to right.
    let mut merged: Vec<Selection<usize>> = Vec::new();
    let mut k: usize = 0;
    while k < n
        invariant
            n == sorted.len(),
            k <= n,
            merged@ == merge_sorted(sorted@.take(k as int), primary_id),
        decreases n - k,
    {
        let s = sorted[k];
        proof {
            assert(sorted@.take(k as int + 1).drop_last() =~= sorted@.take(k as int));
        }
        let ml = merged.len();
        if ml > 0 && overlaps(&merged[ml - 1], &s) {
            let last = merged[ml - 1];
            let keep_id = if s.id == primary_id { s.id } else { last.id };
            let new_min = if last.start <= s.start { last.start } else { s.start };
            let new_max = if last.end >= s.end { last.end } else { s.end };
            merged.set(ml - 1, Selection { id: keep_id, start: new_min, end: new_max, reversed: false, goal: SelectionGoal::Unset });
        } else {
            merged.push(s);
        }
        k = k + 1;
    }
    proof {
        assert(sorted@.take(n as int) =~= sorted@);
        lemma_merge_sorted_len(sorted@, primary_id);
    }
    let ghost m = merged@;
    // Keep the primary: the surviving identical id, else the range that now
    // contains the old primary's span, else the first.
    let mm = merged.len();
    let mut j: usize = 0;
    while j < mm && merged[j].id != primary_id
        invariant
            mm == merged.len(),
            merged@ == m,
            j <= mm,
            find_id(m, primary_id, 0) == find_id(m, primary_id, j as int),
        decreases mm - j,
    {
        j = j + 1;
    }
    let new_primary = if j < mm {
        primary_id
    } else {
        match primary_span {
            Some((lo, hi)) => {
                let mut c: usize = 0;
                while c < mm && !(merged[c].min() <= lo && hi <= merged[c].max())
                    invariant
                        mm == merged.len(),
                        merged@ == m,
                        c <= mm,
                        find_covering(m, lo, hi, 0) == find_covering(m, lo, hi, c as int),
                    decreases mm - c,
                {
                    c = c + 1;
                }
                if c < mm {
                    merged[c].id
                } else {
                    merged[0].id
                }
            },
            None => merged[0].id,
        }
    };
    *selections = merged;
    new_primary
}

// ---------------------------------------------------------------------------
// Laws of normalization.
// ---------------------------------------------------------------------------

/// Sorted by `(start, end)`.
pub open spec fn sorted_by_span(s: Seq<Selection<usize>>) -> bool {
    forall|i: int, j: int| 0 <= i < j < s.len() ==> span_le(#[trigger] s[i], #[trigger] s[j])
}

/// The shape normalization produces: ordered spans, starts strictly increasing,
/// each span ending no later than the next one starts.
pub open spec fn normalized_seq(s: Seq<Selection<usize>>) -> bool {
    &&& forall|i: int| 0 <= i < s.len() ==> (#[trigger] s[i]).start <= s[i].end
    &&& forall|i: int, j: int|
        0 <= i < j < s.len() ==> (#[trigger] s[i]).start < (#[trigger] s[j]).start && s[i].end <= s[j].start
}

/// Where `insert_by_span` puts `x`: after the last element sorting no later.
pub open spec fn insert_pos(s: Seq<Selection<usize>>, x: Selection<usize>) -> int
    decreases s.len(),
{
    if s.len() == 0 || span_le(s.last(), x) {
        s.len() as int
    } else {
        insert_pos(s.drop_last(), x)
    }
}

proof fn lemma_insert_by_span_is_insert(s: Seq<Selection<usize>>, x: Selection<usize>)
    ensures
        0 <= insert_pos(s, x) <= s.len(),
        insert_by_span(s, x) == s.insert(insert_pos(s, x), x),
    decreases s.len(),
{
    if s.len() == 0 {
        assert(s.insert(0, x) =~= seq![x]);
    } else if span_le(s.last(), x) {
        assert(s.insert(s.len() as int, x) =~= s.push(x));
    } else {
        lemma_insert_by_span_is_insert(s.drop_last(), x);
        let p = insert_pos(s.drop_last(), x);
        assert(s.insert(p, x) =~= s.drop_last().insert(p, x).push(s.last()));
    }
}

proof fn lemma_insert_by_span_sorted(s: Seq<Selection<usize>>, x: Selection<usize>)
    requires
        sorted_by_span(s),
    ensures
        sorted_by_span(insert_by_span(s, x)),
    decreases s.len(),
{
    if s.len() == 0 {
    } else if span_le(s.last(), x) {
        let r = s.push(x);
        assert forall|i: int, j: int| 0 <= i < j < r.len() implies span_le(#[trigger] r[i], #[trigger] r[j]) by {
            if j == s.len() {
                if i < s.len() - 1 {
                    assert(span_le(s[i], s[s.len() - 1]));
                }
            } else {
                assert(span_le(s[i], s[j]));
            }
        }
    } else {
        let d = s.drop_last();
        assert(sorted_by_span(d)) by {
            assert forall|i: int, j: int| 0 <= i < j < d.len() implies span_le(#[trigger] d[i], #[trigger] d[j]) by {
                assert(span_le(s[i], s[j]));
            }
        }
        lemma_insert_by_span_sorted(d, x);
        lemma_insert_by_span_is_insert(d, x);
        let m = insert_by_span(d, x);
        let r = m.push(s.last());
        assert forall|i: int, j: int| 0 <= i < j < r.len() implies span_le(#[trigger] r[i], #[trigger] r[j]) by {
            if j == m.len() {
                let p = insert_pos(d, x);
                if i == p {
                    assert(r[i] == x);
                } else if i < p {
                    assert(r[i] == d[i]);
                    assert(span_le(s[i], s[s.len() - 1]));
                } else {
                    assert(r[i] == d[i - 1]);
                    assert(span_le(s[i - 1], s[s.len() - 1]));
                }
            } else {
                assert(r[i] == m[i] && r[j] == m[j]);
            }
        }
    }
}

/// The stable sort really sorts, and only rearranges its input.
proof fn lemma_sort_by_span(s: Seq<Selection<usize>>)
    ensures
        sorted_by_span(sort_by_span(s)),
        sort_by_span(s).len() == s.len(),
        forall|i: int| 0 <= i < sort_by_span(s).len() ==> s.contains(#[trigger] sort_by_span(s)[i]),
    decreases s.len(),
{
    if s.len() > 0 {
        let d = s.drop_last();
        lemma_sort_by_span(d);
        let sd = sort_by_span(d);
        lemma_insert_by_span_sorted(sd, s.last());
        lemma_insert_by_span_is_insert(sd, s.last());
        let p = insert_pos(sd, s.last());
        let r = sort_by_span(s);
        assert forall|i: int| 0 <= i < r.len() implies s.contains(#[trigger] r[i]) by {
            if i == p {
                assert(s[s.len() - 1] == r[i]);
            } else {
                let k = if i < p { i } else { i - 1 };
                assert(r[i] == sd[k]);
                assert(d.contains(sd[k]));
                let w = choose|w: int| 0 <= w < d.len() && d[w] == sd[k];
                assert(s[w] == r[i]);
            }
        }
    }
}

proof fn lemma_merge_sorted_normalized(s: Seq<Selection<usize>>, primary_id: usize)
    requires
        sorted_by_span(s),
        forall|i: int| 0 <= i < s.len() ==> (#[trigger] s[i]).start <= s[i].end,
    ensures
        normalized_seq(merge_sorted(s, primary_id)),
        s.len() > 0 ==> merge_sorted(s, primary_id).len() > 0,
        s.len() > 0 ==> forall|i: int|
            0 <= i < merge_sorted(s, primary_id).len() ==> (#[trigger] merge_sorted(s, primary_id)[i]).start
                <= s.last().start,
    decreases s.len(),
{
    if s.len() > 0 {
        let d = s.drop_last();
        assert(sorted_by_span(d)) by {
            assert forall|i: int, j: int| 0 <= i < j < d.len() implies span_le(#[trigger] d[i], #[trigger] d[j]) by {
                assert(span_le(s[i], s[j]));
            }
        }
        assert forall|i: int| 0 <= i < d.len() implies (#[trigger] d[i]).start <= d[i].end by {
            assert(d[i] == s[i]);
        }
        lemma_merge_sorted_normalized(d, primary_id);
        let m = merge_sorted(d, primary_id);
        let x = s.last();
        assert(s[s.len() - 1] == x);
        if d.len() > 0 {
            assert(span_le(s[d.len() - 1], x));
            assert(d.last() == s[d.len() - 1]);
        }
        let r = merge_sorted(s, primary_id);
        if m.len() > 0 && overlaps_spec(m.last(), x) {
            assert(m.last().start <= x.start);
            assert(r == m.update(m.len() - 1, merge_pair(m.last(), x, primary_id)));
            assert(r.last().start == m.last().start);
            assert forall|i: int| 0 <= i < r.len() implies (#[trigger] r[i]).start <= x.start by {
                if i < m.len() - 1 {
                    assert(r[i] == m[i]);
                }
            }
            assert forall|i: int, j: int| 0 <= i < j < r.len() implies (#[trigger] r[i]).start < (#[trigger] r[j]).start
                && r[i].end <= r[j].start by {
                assert(r[i] == m[i]);
                if j < m.len() - 1 {
                    assert(r[j] == m[j]);
                } else {
                    assert(m[i].start < m[j].start && m[i].end <= m[j].start);
                }
            }
        } else {
            assert(r == m.push(x));
            if m.len() > 0 {
                assert(m.last().start <= x.start);
                assert(m.last().start != x.start);
                assert(m.last().end <= x.start);
            }
            assert forall|i: int, j: int| 0 <= i < j < r.len() implies (#[trigger] r[i]).start < (#[trigger] r[j]).start
                && r[i].end <= r[j].start by {
                assert(r[i] == m[i]);
                if j < m.len() {
                    assert(r[j] == m[j]);
                } else if i < m.len() - 1 {
                    assert(m[i].start < m[m.len() - 1].start && m[i].end <= m[m.len() - 1].start);
                }
            }
            assert forall|i: int| 0 <= i < r.len() implies (#[trigger] r[i]).start <= x.start by {
                if i < m.len() {
                    assert(r[i] == m[i]);
                }
            }
        }
    }
}

/// Normalizing spans that each have `start <= end` yields ordered,
/// non-overlapping spans: starts strictly increase and each span ends no later
/// than the next begins.
pub proof fn lemma_normalize_shape(s: Seq<Selection<usize>>, primary_id: usize)
    requires
        forall|i: int| 0 <= i < s.len() ==> (#[trigger] s[i]).start <= s[i].end,
    ensures
        normalized_seq(merge_sorted(sort_by_span(s), primary_id)),
        s.len() > 0 ==> merge_sorted(sort_by_span(s), primary_id).len() > 0,
{
    lemma_sort_by_span(s);
    let t = sort_by_span(s);
    assert forall|i: int| 0 <= i < t.len() implies (#[trigger] t[i]).start <= t[i].end by {
        assert(s.contains(t[i]));
    }
    lemma_merge_sorted_normalized(t, primary_id);
}

// ---------------------------------------------------------------------------
// The multicursor set.
// ---------------------------------------------------------------------------

/// The index of the primary selection: the first carrying `primary_id`, else 0.
pub open spec fn primary_index<T>(s: Seq<Selection<T>>, primary_id: usize) -> int {
    match find_id(s, primary_id, 0) {
        Some(i) => i,
        None => 0,
    }
}

pub proof fn lemma_find_id_range<T>(s: Seq<Selection<T>>, id: usize, k: int)
    requires
        0 <= k,
    ensures
        find_id(s, id, k) matches Some(i) ==> k <= i < s.len() && s[i].id == id,
        find_id(s, id, k) is None ==> forall|i: int| k <= i < s.len() ==> (#[trigger] s[i]).id != id,
    decreases s.len() - k,
{
    if 0 <= k < s.len() && s[k].id != id {
        lemma_find_id_range(s, id, k + 1);
    }
}

/// The multicursor set: anchored selections with one stable primary.
#[derive(Clone, Debug)]
pub struct Selections {
    /// Every cursor/span, kept sorted and non-overlapping after each action.
    pub selections: Vec<Selection<Anchor>>,
    /// The id of the primary selection (the one motions/edits report against).
    pub primary_id: usize,
    /// The next id to hand out, so every selection gets a unique stable id.
    pub next_id: usize,
}

impl Selections {
    /// Every selection's id is below the next id to hand out.
    pub open spec fn ids_below_next(&self) -> bool {
        forall|i: int| 0 <= i < self.selections.len() ==> (#[trigger] self.selections@[i]).id < self.next_id
    }

    /// `self` and `other` hold the same selections and ids.
    pub open spec fn same_as(&self, other: &Selections) -> bool {
        &&& self.selections@ == other.selections@
        &&& self.primary_id == other.primary_id
        &&& self.next_id == other.next_id
    }

    /// A set holding the single anchored `cursor`, made primary.
    pub fn single(cursor: Selection<Anchor>) -> (r: Self)
        requires
            cursor.id < usize::MAX,
        ensures
            r.selections@ == seq![cursor],
            r.primary_id == cursor.id,
            r.next_id == cursor.id + 1,
    {
        let primary_id = cursor.id;
        let mut v = Vec::new();
        v.push(cursor);
        Selections { selections: v, primary_id, next_id: primary_id + 1 }
    }

    /// The primary selection (the first if the id went missing).
    pub fn primary(&self) -> (r: &Selection<Anchor>)
        requires
            self.selections.len() > 0,
        ensures
            *r == self.selections@[primary_index(self.selections@, self.primary_id)],
    {
        let n = self.selections.len();
        let mut i: usize = 0;
        while i < n && self.selections[i].id != self.primary_id
            invariant
                n == self.selections.len(),
                i <= n,
                find_id(self.selections@, self.primary_id, 0) == find_id(self.selections@, self.primary_id, i as int),
            decreases n - i,
        {
            i = i + 1;
        }
        if i < n {
            &self.selections[i]
        } else {
            &self.selections[0]
        }
    }

    /// The id of the primary selection.
    pub fn primary_id(&self) -> (r: usize)
        ensures
            r == self.primary_id,
    {
        self.primary_id
    }

    /// Hand out a fresh, unique selection id (for spawning a cursor).
    pub fn alloc_id(&mut self) -> (r: usize)
        requires
            old(self).next_id < usize::MAX,
        ensures
            r == old(self).next_id,
            final(self).next_id == r + 1,
            final(self).selections@ == old(self).selections@,
            final(self).primary_id == old(self).primary_id,
    {
        let id = self.next_id;
        self.next_id = self.next_id + 1;
        id
    }

    /// True when another id can be handed out.
    pub fn can_alloc_id(&self) -> (r: bool)
        ensures
            r == (self.next_id < usize::MAX),
    {
        self.next_id < usize::MAX
    }

    /// Replace the anchored selections wholesale, recording the new primary id.
    /// The next id grows past every incoming id so ids stay unique.
    pub fn replace(&mut self, selections: Vec<Selection<Anchor>>, primary_id: usize)
        requires
            forall|i: int| 0 <= i < selections.len() ==> (#[trigger] selections@[i]).id < usize::MAX,
        ensures
            final(self).selections@ == selections@,
            final(self).primary_id == primary_id,
            final(self).next_id >= old(self).next_id,
            forall|i: int| 0 <= i < selections.len() ==> (#[trigger] selections@[i]).id < final(self).next_id,
            forall|i: int| 0 <= i < selections.len() ==> (#[trigger] selections@[i]).id + 1 <= final(self).next_id,
            final(self).next_id == old(self).next_id || exists|i: int|
                0 <= i < selections.len() && final(self).next_id == (#[trigger] selections@[i]).id + 1,
            final(self).next_id == crate::buffer::grown_next_id(old(self).next_id, selections@),
    {
        let mut next = self.next_id;
        let n = selections.len();
        let mut i: usize = 0;
        while i < n
            invariant
                n == selections.len(),
                i <= n,
                forall|i: int| 0 <= i < selections.len() ==> (#[trigger] selections@[i]).id < usize::MAX,
                next >= self.next_id,
                forall|k: int| 0 <= k < i ==> (#[trigger] selections@[k]).id < next,
                next == self.next_id || exists|k: int| 0 <= k < i && next == (#[trigger] selections@[k]).id + 1,
                next == crate::buffer::grown_next_id(self.next_id, selections@.take(i as int)),
            decreases n - i,
        {
            proof {
                assert(selections@.take(i as int + 1).drop_last() =~= selections@.take(i as int));
                assert(selections@.take(i as int + 1).last() == selections@[i as int]);
            }
            if selections[i].id + 1 > next {
                next = selections[i].id + 1;
            }
            i = i + 1;
        }
        proof {
            assert(selections@.take(n as int) =~= selections@);
        }
        self.next_id = next;
        self.selections = selections;
        self.primary_id = primary_id;
    }

    /// An independent copy of this set.
    pub fn copy(&self) -> (r: Selections)
        ensures
            r.same_as(self),
    {
        let mut v: Vec<Selection<Anchor>> = Vec::new();
        let n = self.selections.len();
        let mut i: usize = 0;
        while i < n
            invariant
                n == self.selections.len(),
                i <= n,
                v@ == self.selections@.take(i as int),
            decreases n - i,
        {
            v.push(self.selections[i]);
            proof {
                assert(self.selections@.take(i as int + 1) =~= self.selections@.take(i as int).push(self.selections@[i as int]));
            }
            i = i + 1;
        }
        proof {
            assert(self.selections@.take(n as int) =~= self.selections@);
        }
        Selections { selections: v, primary_id: self.primary_id, next_id: self.next_id }
    }
}

/// What `normalize` leaves: unchanged for at most one selection, else the
/// stable sort by span with overlaps merged.
pub open spec fn normalize_spec(s: Seq<Selection<usize>>, primary_id: usize) -> Seq<Selection<usize>> {
    if s.len() <= 1 {
        s
    } else {
        merge_sorted(sort_by_span(s), primary_id)
    }
}

/// The primary id `normalize` returns.
pub open spec fn normalize_primary(s: Seq<Selection<usize>>, primary_id: usize) -> usize {
    if s.len() <= 1 {
        primary_id
    } else {
        surviving_primary(normalize_spec(s, primary_id), s, primary_id)
    }
}

proof fn lemma_merge_bounds(s: Seq<Selection<usize>>, primary_id: usize, id_bound: int, end_bound: int)
    requires
        forall|i: int| 0 <= i < s.len() ==> (#[trigger] s[i]).id < id_bound && s[i].start <= s[i].end <= end_bound,
    ensures
        forall|i: int|
            0 <= i < merge_sorted(s, primary_id).len() ==> (#[trigger] merge_sorted(s, primary_id)[i]).id
                < id_bound && merge_sorted(s, primary_id)[i].start <= merge_sorted(s, primary_id)[i].end
                <= end_bound,
    decreases s.len(),
{
    if s.len() > 0 {
        let d = s.drop_last();
        assert forall|i: int| 0 <= i < d.len() implies (#[trigger] d[i]).id < id_bound && d[i].start <= d[i].end
            <= end_bound by {
            assert(d[i] == s[i]);
        }
        lemma_merge_bounds(d, primary_id, id_bound, end_bound);
        let m = merge_sorted(d, primary_id);
        assert(s[s.len() - 1] == s.last());
        let r = merge_sorted(s, primary_id);
        if m.len() > 0 && overlaps_spec(m.last(), s.last()) {
            assert forall|i: int| 0 <= i < r.len() implies (#[trigger] r[i]).id < id_bound && r[i].start <= r[i].end
                <= end_bound by {
                if i < m.len() - 1 {
                    assert(r[i] == m[i]);
                } else {
                    assert(m.last() == m[m.len() - 1]);
                }
            }
        } else {
            assert forall|i: int| 0 <= i < r.len() implies (#[trigger] r[i]).id < id_bound && r[i].start <= r[i].end
                <= end_bound by {
                if i < m.len() {
                    assert(r[i] == m[i]);
                }
            }
        }
    }
}

/// Normalizing keeps every id and end within the bounds its input respects, and
/// the surviving primary id is one of them (or the requested one).
pub proof fn lemma_normalize_bounds(s: Seq<Selection<usize>>, primary_id: usize, id_bound: int, end_bound: int)
    requires
        s.len() > 0,
        forall|i: int| 0 <= i < s.len() ==> (#[trigger] s[i]).id < id_bound && s[i].start <= s[i].end <= end_bound,
    ensures
        forall|i: int|
            0 <= i < normalize_spec(s, primary_id).len() ==> (#[trigger] normalize_spec(s, primary_id)[i]).id
                < id_bound && normalize_spec(s, primary_id)[i].start <= normalize_spec(s, primary_id)[i].end
                <= end_bound,
        s.len() > 1 || primary_id < id_bound ==> normalize_primary(s, primary_id) < id_bound,
        normalized_seq(normalize_spec(s, primary_id)),
        normalize_spec(s, primary_id).len() > 0,
{
    lemma_normalize_shape(s, primary_id);
    if s.len() > 1 {
        lemma_sort_by_span(s);
        let t = sort_by_span(s);
        assert forall|i: int| 0 <= i < t.len() implies (#[trigger] t[i]).id < id_bound && t[i].start <= t[i].end
            <= end_bound by {
            assert(s.contains(t[i]));
        }
        lemma_merge_bounds(t, primary_id, id_bound, end_bound);
        let m = normalize_spec(s, primary_id);
        lemma_find_id_range(m, primary_id, 0);
        lemma_find_id_range(s, primary_id, 0);
        match find_id(s, primary_id, 0) {
            Some(i) => {
                lemma_find_covering_range(m, s[i].start, s[i].end, 0);
            },
            None => {},
        }
    } else {
        assert(normalized_seq(s));
    }
}

pub proof fn lemma_find_covering_range(s: Seq<Selection<usize>>, lo: usize, hi: usize, k: int)
    requires
        0 <= k,
    ensures
        find_covering(s, lo, hi, k) matches Some(i) ==> k <= i < s.len(),
    decreases s.len() - k,
{
    if k < s.len() && !(s[k].start <= lo && hi <= s[k].end) {
        lemma_find_covering_range(s, lo, hi, k + 1);
    }
}

/// Ids handed out one after another are fresh: the next id and the one after
/// it belong to no selection of a set whose ids are all below its next id
/// (two calls of [`Selections::alloc_id`] give `a` and `a + 1`, neither in
/// use).
pub proof fn lemma_alloc_ids_fresh(s: Selections)
    requires
        s.ids_below_next(),
    ensures
        forall|i: int| 0 <= i < s.selections.len() ==> (#[trigger] s.selections@[i]).id != s.next_id && s.selections@[i].id
            != s.next_id + 1,
{
}

/// Selection `a` contains the span of `b`.
pub open spec fn covers(a: Selection<usize>, b: Selection<usize>) -> bool {
    a.start <= b.start && b.end <= a.end
}

proof fn lemma_sort_keeps_all(s: Seq<Selection<usize>>)
    ensures
        forall|i: int| 0 <= i < s.len() ==> sort_by_span(s).contains(#[trigger] s[i]),
    decreases s.len(),
{
    if s.len() > 0 {
        let d = s.drop_last();
        lemma_sort_keeps_all(d);
        let sd = sort_by_span(d);
        lemma_insert_by_span_is_insert(sd, s.last());
        let p = insert_pos(sd, s.last());
        let r = sort_by_span(s);
        assert(r == sd.insert(p, s.last()));
        assert forall|i: int| 0 <= i < s.len() implies r.contains(#[trigger] s[i]) by {
            if i == s.len() - 1 {
                assert(r[p] == s.last());
            } else {
                assert(s[i] == d[i]);
                assert(sd.contains(d[i]));
                let k = choose|k: int| 0 <= k < sd.len() && sd[k] == d[i];
                if k < p {
                    assert(r[k] == sd[k]);
                } else {
                    assert(r[k + 1] == sd[k]);
                }
            }
        }
    }
}

/// Merging loses no input: every input span lies within a result span.
proof fn lemma_merge_covers_inputs(t: Seq<Selection<usize>>, primary_id: usize)
    ensures
        forall|i: int|
            #![trigger t[i]]
            0 <= i < t.len() ==> exists|j: int|
                0 <= j < merge_sorted(t, primary_id).len() && covers(#[trigger] merge_sorted(t, primary_id)[j], t[i]),
        merge_sorted(t, primary_id).len() <= t.len(),
    decreases t.len(),
{
    if t.len() > 0 {
        let d = t.drop_last();
        lemma_merge_covers_inputs(d, primary_id);
        let m = merge_sorted(d, primary_id);
        let x = t.last();
        let r = merge_sorted(t, primary_id);
        assert(t[t.len() - 1] == x);
        let grew = m.len() > 0 && overlaps_spec(m.last(), x);
        let l = if grew { m.len() - 1 } else { m.len() as int };
        if grew {
            assert(m.last() == m[l]);
        }
        assert(covers(r[l], x));
        assert forall|i: int| #![trigger t[i]] 0 <= i < t.len() implies exists|j: int|
            0 <= j < r.len() && covers(#[trigger] r[j], t[i]) by {
            if i < t.len() - 1 {
                assert(t[i] == d[i]);
                let j = choose|j: int| 0 <= j < m.len() && covers(#[trigger] m[j], d[i]);
                if j < l {
                    assert(r[j] == m[j]);
                } else {
                    assert(covers(r[l], m[j]));
                }
            }
        }
    }
}

/// Every merged span carries the id of an input it contains.
proof fn lemma_merge_ids(t: Seq<Selection<usize>>, primary_id: usize)
    ensures
        forall|j: int| 0 <= j < merge_sorted(t, primary_id).len() ==> exists|i: int|
            0 <= i < t.len() && (#[trigger] merge_sorted(t, primary_id)[j]).id == #[trigger] t[i].id && covers(
                merge_sorted(t, primary_id)[j],
                t[i],
            ),
    decreases t.len(),
{
    if t.len() > 0 {
        let d = t.drop_last();
        lemma_merge_ids(d, primary_id);
        let m = merge_sorted(d, primary_id);
        let x = t.last();
        let r = merge_sorted(t, primary_id);
        let n = t.len() - 1;
        assert(t[n] == x);
        let grew = m.len() > 0 && overlaps_spec(m.last(), x);
        let l = if grew { m.len() - 1 } else { m.len() as int };
        assert forall|j: int| 0 <= j < r.len() implies exists|i: int|
            0 <= i < t.len() && (#[trigger] r[j]).id == #[trigger] t[i].id && covers(r[j], t[i]) by {
            if j < l {
                assert(r[j] == m[j]);
                let i = choose|i: int| 0 <= i < d.len() && (#[trigger] m[j]).id == #[trigger] d[i].id && covers(m[j], d[i]);
                assert(t[i] == d[i]);
            } else if grew && x.id != primary_id {
                assert(m.last() == m[l]);
                let i = choose|i: int| 0 <= i < d.len() && (#[trigger] m[l]).id == #[trigger] d[i].id && covers(m[l], d[i]);
                assert(t[i] == d[i]);
                assert(covers(r[j], m[l]));
            } else {
                assert(r[j].id == t[n].id && covers(r[j], t[n]));
            }
        }
    }
}

/// Every merged span is an input kept as it was, or a union made forward with
/// no goal.
proof fn lemma_merge_shapes(t: Seq<Selection<usize>>, primary_id: usize)
    ensures
        forall|j: int|
            0 <= j < merge_sorted(t, primary_id).len() ==> t.contains(#[trigger] merge_sorted(t, primary_id)[j]) || (
            merge_sorted(t, primary_id)[j].reversed == false && merge_sorted(t, primary_id)[j].goal == SelectionGoal::Unset),
    decreases t.len(),
{
    if t.len() > 0 {
        let d = t.drop_last();
        lemma_merge_shapes(d, primary_id);
        let m = merge_sorted(d, primary_id);
        let x = t.last();
        let r = merge_sorted(t, primary_id);
        let n = t.len() - 1;
        assert(t[n] == x);
        let grew = m.len() > 0 && overlaps_spec(m.last(), x);
        let l = if grew { m.len() - 1 } else { m.len() as int };
        assert forall|j: int| 0 <= j < r.len() implies t.contains(#[trigger] r[j]) || (r[j].reversed == false
            && r[j].goal == SelectionGoal::Unset) by {
            if j < l {
                assert(r[j] == m[j]);
                if d.contains(m[j]) {
                    let i = choose|i: int| 0 <= i < d.len() && d[i] == m[j];
                    assert(t[i] == d[i]);
                }
            } else if !grew {
                assert(r[j] == t[n]);
            }
        }
    }
}

proof fn lemma_find_covering_spec(s: Seq<Selection<usize>>, lo: usize, hi: usize, k: int)
    requires
        0 <= k,
    ensures
        find_covering(s, lo, hi, k) matches Some(j) ==> s[j].start <= lo && hi <= s[j].end,
        find_covering(s, lo, hi, k) is None ==> forall|j: int| k <= j < s.len() ==> !(s[j].start <= lo && hi <= #[trigger] s[j].end),
    decreases s.len() - k,
{
    if 0 <= k < s.len() && !(s[k].start <= lo && hi <= s[k].end) {
        lemma_find_covering_spec(s, lo, hi, k + 1);
    }
}

/// Normalizing loses no span: every old span lies within a new one, and
/// there are no more new spans than old.
pub proof fn lemma_normalize_covers(s: Seq<Selection<usize>>, primary_id: usize)
    ensures
        forall|i: int|
            #![trigger s[i]]
            0 <= i < s.len() ==> exists|j: int|
                0 <= j < normalize_spec(s, primary_id).len() && covers(#[trigger] normalize_spec(s, primary_id)[j], s[i]),
        normalize_spec(s, primary_id).len() <= s.len(),
{
    let r = normalize_spec(s, primary_id);
    if s.len() <= 1 {
        assert forall|i: int| #![trigger s[i]] 0 <= i < s.len() implies exists|j: int|
            0 <= j < r.len() && covers(#[trigger] r[j], s[i]) by {
            assert(covers(r[i], s[i]));
        }
    } else {
        let t = sort_by_span(s);
        lemma_sort_by_span(s);
        lemma_sort_keeps_all(s);
        lemma_merge_covers_inputs(t, primary_id);
        assert forall|i: int| #![trigger s[i]] 0 <= i < s.len() implies exists|j: int|
            0 <= j < r.len() && covers(#[trigger] r[j], s[i]) by {
            assert(t.contains(s[i]));
            let k = choose|k: int| 0 <= k < t.len() && t[k] == s[i];
            assert(t[k] == s[i]);
        }
    }
}

/// Each span that normalizing returns carries the id of an old span that it
/// contains.
pub proof fn lemma_normalize_ids(s: Seq<Selection<usize>>, primary_id: usize)
    ensures
        forall|j: int| 0 <= j < normalize_spec(s, primary_id).len() ==> exists|i: int|
            0 <= i < s.len() && (#[trigger] normalize_spec(s, primary_id)[j]).id == #[trigger] s[i].id && covers(
                normalize_spec(s, primary_id)[j],
                s[i],
            ),
{
    let r = normalize_spec(s, primary_id);
    if s.len() <= 1 {
        assert(r == s);
        assert forall|j: int| 0 <= j < r.len() implies exists|i: int|
            0 <= i < s.len() && (#[trigger] r[j]).id == #[trigger] s[i].id && covers(r[j], s[i]) by {
            assert(r[j] == s[j]);
            assert(r[j].id == s[j].id && covers(r[j], s[j]));
        }
    } else {
        let t = sort_by_span(s);
        lemma_sort_by_span(s);
        lemma_merge_ids(t, primary_id);
        assert forall|j: int| 0 <= j < r.len() implies exists|i: int|
            0 <= i < s.len() && (#[trigger] r[j]).id == #[trigger] s[i].id && covers(r[j], s[i]) by {
            let i = choose|i: int| 0 <= i < t.len() && (#[trigger] r[j]).id == #[trigger] t[i].id && covers(r[j], t[i]);
            assert(s.contains(t[i]));
            let k = choose|k: int| 0 <= k < s.len() && s[k] == t[i];
            assert(s[k] == t[i]);
        }
    }
}

/// Each span that normalizing returns is an old selection kept as it was
/// (id, orientation, goal), or a union made forward with no goal.
pub proof fn lemma_normalize_shapes(s: Seq<Selection<usize>>, primary_id: usize)
    ensures
        forall|j: int|
            0 <= j < normalize_spec(s, primary_id).len() ==> s.contains(#[trigger] normalize_spec(s, primary_id)[j]) || (
            normalize_spec(s, primary_id)[j].reversed == false && normalize_spec(s, primary_id)[j].goal
                == SelectionGoal::Unset),
{
    let r = normalize_spec(s, primary_id);
    if s.len() <= 1 {
        assert forall|j: int| 0 <= j < r.len() implies s.contains(#[trigger] r[j]) || (r[j].reversed == false
            && r[j].goal == SelectionGoal::Unset) by {
            assert(s[j] == r[j]);
        }
    } else {
        let t = sort_by_span(s);
        lemma_sort_by_span(s);
        lemma_merge_shapes(t, primary_id);
        assert forall|j: int| 0 <= j < r.len() implies s.contains(#[trigger] r[j]) || (r[j].reversed == false
            && r[j].goal == SelectionGoal::Unset) by {
            if t.contains(r[j]) {
                let i = choose|i: int| 0 <= i < t.len() && t[i] == r[j];
                assert(s.contains(t[i]));
            }
        }
    }
}

/// Ids that no two selections share.
pub open spec fn ids_distinct(s: Seq<Selection<usize>>) -> bool {
    forall|i: int, k: int| 0 <= i < k < s.len() ==> (#[trigger] s[i]).id != (#[trigger] s[k]).id
}

/// Normalizing keeps the primary: when the ids are distinct and selection `p`
/// carries `primary_id`, the returned primary id names exactly one new span,
/// and that span contains `p`'s span.
pub proof fn lemma_normalize_primary(s: Seq<Selection<usize>>, primary_id: usize, p: int)
    requires
        forall|i: int| 0 <= i < s.len() ==> (#[trigger] s[i]).start <= s[i].end,
        ids_distinct(s),
        0 <= p < s.len(),
        s[p].id == primary_id,
    ensures
        exists|j: int|
            0 <= j < normalize_spec(s, primary_id).len() && (#[trigger] normalize_spec(s, primary_id)[j]).id
                == normalize_primary(s, primary_id),
        forall|j: int|
            0 <= j < normalize_spec(s, primary_id).len() && (#[trigger] normalize_spec(s, primary_id)[j]).id
                == normalize_primary(s, primary_id) ==> covers(normalize_spec(s, primary_id)[j], s[p]),
{
    lemma_normalize_primary_found(s, primary_id, p);
    lemma_normalize_ids_distinct(s, primary_id);
    let r = normalize_spec(s, primary_id);
    let j0 = choose|j: int| 0 <= j < r.len() && (#[trigger] r[j]).id == normalize_primary(s, primary_id) && covers(r[j], s[p]);
    assert forall|j: int| 0 <= j < r.len() && (#[trigger] r[j]).id == normalize_primary(s, primary_id) implies covers(r[j], s[p]) by {
        if j < j0 {
            assert(r[j].id != r[j0].id);
        } else if j0 < j {
            assert(r[j0].id != r[j].id);
        }
    }
}

proof fn lemma_normalize_primary_found(s: Seq<Selection<usize>>, primary_id: usize, p: int)
    requires
        forall|i: int| 0 <= i < s.len() ==> (#[trigger] s[i]).start <= s[i].end,
        ids_distinct(s),
        0 <= p < s.len(),
        s[p].id == primary_id,
    ensures
        exists|j: int|
            0 <= j < normalize_spec(s, primary_id).len() && (#[trigger] normalize_spec(s, primary_id)[j]).id
                == normalize_primary(s, primary_id) && covers(normalize_spec(s, primary_id)[j], s[p]),
{
    let r = normalize_spec(s, primary_id);
    if s.len() <= 1 {
        assert(covers(r[p], s[p]));
    } else {
        let t = sort_by_span(s);
        lemma_sort_by_span(s);
        lemma_find_id_range(r, primary_id, 0);
        lemma_find_id_range(s, primary_id, 0);
        match find_id(r, primary_id, 0) {
            Some(j) => {
                lemma_merge_ids(t, primary_id);
                let i = choose|i: int| 0 <= i < t.len() && (#[trigger] r[j]).id == #[trigger] t[i].id && covers(r[j], t[i]);
                assert(s.contains(t[i]));
                let k = choose|k: int| 0 <= k < s.len() && s[k] == t[i];
                if k < p {
                    assert(s[k].id != s[p].id);
                } else if k > p {
                    assert(s[p].id != s[k].id);
                }
                assert(covers(r[j], s[p]));
            },
            None => {
                let q = find_id(s, primary_id, 0)->0;
                if q < p {
                    assert(s[q].id != s[p].id);
                } else if q > p {
                    assert(s[p].id != s[q].id);
                }
                lemma_normalize_covers(s, primary_id);
                lemma_find_covering_spec(r, s[p].start, s[p].end, 0);
                lemma_find_covering_range(r, s[p].start, s[p].end, 0);
                let j = choose|j: int| 0 <= j < r.len() && covers(#[trigger] r[j], s[p]);
                match find_covering(r, s[p].start, s[p].end, 0) {
                    Some(j2) => {
                        assert(covers(r[j2], s[p]));
                    },
                    None => {
                        assert(!(r[j].start <= s[p].start && s[p].end <= r[j].end));
                    },
                }
            },
        }
    }
}

/// Sorting keeps every selection as often as it occurs.
proof fn lemma_sort_multiset(s: Seq<Selection<usize>>)
    ensures
        sort_by_span(s).to_multiset() == s.to_multiset(),
    decreases s.len(),
{
    if s.len() > 0 {
        let d = s.drop_last();
        lemma_sort_multiset(d);
        let sd = sort_by_span(d);
        lemma_insert_by_span_is_insert(sd, s.last());
        vstd::seq_lib::to_multiset_insert(sd, insert_pos(sd, s.last()), s.last());
        vstd::seq_lib::to_multiset_build(d, s.last());
        assert(d.push(s.last()) =~= s);
    }
}

/// A selection found at one index only occurs once.
proof fn lemma_count_one(s: Seq<Selection<usize>>, i: int)
    requires
        0 <= i < s.len(),
        forall|k: int| 0 <= k < s.len() && s[k] == s[i] ==> k == i,
    ensures
        s.to_multiset().count(s[i]) == 1,
{
    let x = s[i];
    vstd::seq_lib::to_multiset_remove(s, i);
    let r = s.remove(i);
    if r.contains(x) {
        let k = choose|k: int| 0 <= k < r.len() && r[k] == x;
        if k < i {
            assert(s[k] == x);
        } else {
            assert(s[k + 1] == x);
        }
    }
    vstd::seq_lib::to_multiset_contains(r, x);
    vstd::seq_lib::to_multiset_contains(s, x);
    assert(s.contains(x)) by {
        assert(s[i] == x);
    }
    broadcast use vstd::multiset::group_multiset_axioms;
}

/// A selection that occurs once sits at one index only.
proof fn lemma_count_one_unique(t: Seq<Selection<usize>>, a: Selection<usize>, k1: int, k2: int)
    requires
        t.to_multiset().count(a) == 1,
        0 <= k1 < t.len(),
        0 <= k2 < t.len(),
        t[k1] == a,
        t[k2] == a,
    ensures
        k1 == k2,
{
    if k1 != k2 {
        vstd::seq_lib::to_multiset_remove(t, k1);
        let r = t.remove(k1);
        let k = if k2 < k1 { k2 } else { k2 - 1 };
        assert(r[k] == a);
        vstd::seq_lib::to_multiset_contains(r, a);
        broadcast use vstd::multiset::group_multiset_axioms;
    }
}

/// Every merged span is the hull of inputs it contains: an input it contains
/// starts where it starts, and one ends where it ends.
proof fn lemma_merge_hull(t: Seq<Selection<usize>>, primary_id: usize)
    ensures
        forall|j: int|
            #![trigger merge_sorted(t, primary_id)[j]]
            0 <= j < merge_sorted(t, primary_id).len() ==> (exists|a: int|
                0 <= a < t.len() && (#[trigger] t[a]).start == merge_sorted(t, primary_id)[j].start && covers(
                    merge_sorted(t, primary_id)[j],
                    t[a],
                )) && (exists|b: int|
                0 <= b < t.len() && (#[trigger] t[b]).end == merge_sorted(t, primary_id)[j].end && covers(
                    merge_sorted(t, primary_id)[j],
                    t[b],
                )),
    decreases t.len(),
{
    if t.len() > 0 {
        let d = t.drop_last();
        lemma_merge_hull(d, primary_id);
        let m = merge_sorted(d, primary_id);
        let x = t.last();
        let r = merge_sorted(t, primary_id);
        let n = t.len() - 1;
        assert(t[n] == x);
        let grew = m.len() > 0 && overlaps_spec(m.last(), x);
        let l = if grew { m.len() - 1 } else { m.len() as int };
        assert forall|j: int| #![trigger r[j]] 0 <= j < r.len() implies (exists|a: int|
            0 <= a < t.len() && (#[trigger] t[a]).start == r[j].start && covers(r[j], t[a])) && (exists|b: int|
            0 <= b < t.len() && (#[trigger] t[b]).end == r[j].end && covers(r[j], t[b])) by {
            if j < l {
                assert(r[j] == m[j]);
                let a = choose|a: int| 0 <= a < d.len() && (#[trigger] d[a]).start == m[j].start && covers(m[j], d[a]);
                let b = choose|b: int| 0 <= b < d.len() && (#[trigger] d[b]).end == m[j].end && covers(m[j], d[b]);
                assert(t[a] == d[a] && t[b] == d[b]);
            } else if grew {
                let ml = m[l];
                assert(m.last() == ml);
                let a = choose|a: int| 0 <= a < d.len() && (#[trigger] d[a]).start == ml.start && covers(ml, d[a]);
                let b = choose|b: int| 0 <= b < d.len() && (#[trigger] d[b]).end == ml.end && covers(ml, d[b]);
                assert(t[a] == d[a] && t[b] == d[b]);
                assert(covers(r[j], t[a]) && covers(r[j], t[b]) && covers(r[j], t[n]));
                if ml.start <= x.start {
                    assert(t[a].start == r[j].start);
                } else {
                    assert(t[n].start == r[j].start);
                }
                if ml.end >= x.end {
                    assert(t[b].end == r[j].end);
                } else {
                    assert(t[n].end == r[j].end);
                }
            } else {
                assert(r[j] == t[n]);
                assert(covers(r[j], t[n]));
            }
        }
    }
}

/// In a sorted input, a selection that overlaps no other one comes out of the
/// merge as it went in.
proof fn lemma_merge_keeps_lone(t: Seq<Selection<usize>>, primary_id: usize, p: int)
    requires
        sorted_by_span(t),
        forall|k: int| 0 <= k < t.len() ==> (#[trigger] t[k]).start <= t[k].end,
        0 <= p < t.len(),
        forall|k: int| 0 <= k < t.len() && k != p ==> !overlaps_spec(t[p], #[trigger] t[k]),
    ensures
        merge_sorted(t, primary_id).contains(t[p]),
    decreases t.len(),
{
    let d = t.drop_last();
    let m = merge_sorted(d, primary_id);
    let x = t.last();
    let r = merge_sorted(t, primary_id);
    let n = t.len() - 1;
    assert(t[n] == x);
    let grew = m.len() > 0 && overlaps_spec(m.last(), x);
    if p < n {
        assert forall|k: int| 0 <= k < d.len() && k != p implies !overlaps_spec(d[p], #[trigger] d[k]) by {
            assert(d[k] == t[k] && d[p] == t[p]);
        }
        assert forall|i: int, j: int| 0 <= i < j < d.len() implies span_le(#[trigger] d[i], #[trigger] d[j]) by {
            assert(d[i] == t[i] && d[j] == t[j]);
        }
        assert forall|k: int| 0 <= k < d.len() implies (#[trigger] d[k]).start <= d[k].end by {
            assert(d[k] == t[k]);
        }
        lemma_merge_keeps_lone(d, primary_id, p);
        let j = choose|j: int| 0 <= j < m.len() && m[j] == d[p];
        if grew && j == m.len() - 1 {
            assert(overlaps_spec(t[p], t[n]));
        } else {
            assert(r[j] == m[j]);
        }
    } else {
        if grew {
            lemma_merge_hull(d, primary_id);
            let ml = m[m.len() - 1];
            let a = choose|a: int| 0 <= a < d.len() && (#[trigger] d[a]).start == ml.start && covers(ml, d[a]);
            let b = choose|b: int| 0 <= b < d.len() && (#[trigger] d[b]).end == ml.end && covers(ml, d[b]);
            assert(t[a] == d[a] && t[b] == d[b]);
            assert(span_le(t[a], t[n]) && span_le(t[b], t[n]));
            assert(t[n].start <= t[n].end);
            assert(overlaps_spec(t[n], t[a]) || overlaps_spec(t[n], t[b]));
        }
        assert(r[r.len() - 1] == x);
    }
}

/// Merging inputs with distinct ids gives spans with distinct ids.
proof fn lemma_merge_ids_distinct(t: Seq<Selection<usize>>, primary_id: usize)
    requires
        ids_distinct(t),
    ensures
        ids_distinct(merge_sorted(t, primary_id)),
    decreases t.len(),
{
    if t.len() > 0 {
        let d = t.drop_last();
        assert forall|i: int, k: int| 0 <= i < k < d.len() implies (#[trigger] d[i]).id != (#[trigger] d[k]).id by {
            assert(d[i] == t[i] && d[k] == t[k]);
        }
        lemma_merge_ids_distinct(d, primary_id);
        lemma_merge_ids(d, primary_id);
        let m = merge_sorted(d, primary_id);
        let x = t.last();
        let r = merge_sorted(t, primary_id);
        let n = t.len() - 1;
        assert(t[n] == x);
        assert forall|j: int| 0 <= j < m.len() implies (#[trigger] m[j]).id != x.id by {
            let i = choose|i: int| 0 <= i < d.len() && (#[trigger] m[j]).id == #[trigger] d[i].id && covers(m[j], d[i]);
            assert(t[i] == d[i]);
        }
        assert forall|i: int, k: int| 0 <= i < k < r.len() implies (#[trigger] r[i]).id != (#[trigger] r[k]).id by {
            if k < m.len() - 1 || (k == m.len() - 1 && r.len() > m.len()) {
                assert(r[i] == m[i] && r[k] == m[k]);
            } else if k == m.len() - 1 {
                assert(r[i] == m[i]);
                assert(r[k].id == m[k].id || r[k].id == x.id);
            } else {
                assert(r[i] == m[i] && r[k] == x);
            }
        }
    }
}

proof fn lemma_normalize_hull_at(s: Seq<Selection<usize>>, primary_id: usize, j: int)
    requires
        0 <= j < normalize_spec(s, primary_id).len(),
    ensures
        exists|a: int|
            0 <= a < s.len() && (#[trigger] s[a]).start == normalize_spec(s, primary_id)[j].start && covers(
                normalize_spec(s, primary_id)[j],
                s[a],
            ),
        exists|b: int|
            0 <= b < s.len() && (#[trigger] s[b]).end == normalize_spec(s, primary_id)[j].end && covers(
                normalize_spec(s, primary_id)[j],
                s[b],
            ),
{
    let r = normalize_spec(s, primary_id);
    if s.len() <= 1 {
        assert(r[j] == s[j]);
        assert(covers(r[j], s[j]));
    } else {
        let t = sort_by_span(s);
        lemma_sort_by_span(s);
        lemma_merge_hull(t, primary_id);
        assert(r[j] == merge_sorted(t, primary_id)[j]);
        let a = choose|a: int| 0 <= a < t.len() && (#[trigger] t[a]).start == r[j].start && covers(r[j], t[a]);
        let b = choose|b: int| 0 <= b < t.len() && (#[trigger] t[b]).end == r[j].end && covers(r[j], t[b]);
        assert(s.contains(t[a]) && s.contains(t[b]));
        let a2 = choose|a2: int| 0 <= a2 < s.len() && s[a2] == t[a];
        let b2 = choose|b2: int| 0 <= b2 < s.len() && s[b2] == t[b];
        assert(s[a2] == t[a] && s[b2] == t[b]);
    }
}

/// Each span that normalizing returns is the hull of the old spans it holds:
/// one of them starts where it starts and one ends where it ends.
pub proof fn lemma_normalize_hull(s: Seq<Selection<usize>>, primary_id: usize)
    ensures
        forall|j: int|
            #![trigger normalize_spec(s, primary_id)[j]]
            0 <= j < normalize_spec(s, primary_id).len() ==> (exists|a: int|
                0 <= a < s.len() && (#[trigger] s[a]).start == normalize_spec(s, primary_id)[j].start && covers(
                    normalize_spec(s, primary_id)[j],
                    s[a],
                )) && (exists|b: int|
                0 <= b < s.len() && (#[trigger] s[b]).end == normalize_spec(s, primary_id)[j].end && covers(
                    normalize_spec(s, primary_id)[j],
                    s[b],
                )),
{
    assert forall|j: int| #![trigger normalize_spec(s, primary_id)[j]] 0 <= j < normalize_spec(s, primary_id).len() implies (
    exists|a: int|
        0 <= a < s.len() && (#[trigger] s[a]).start == normalize_spec(s, primary_id)[j].start && covers(
            normalize_spec(s, primary_id)[j],
            s[a],
        )) && (exists|b: int|
        0 <= b < s.len() && (#[trigger] s[b]).end == normalize_spec(s, primary_id)[j].end && covers(
            normalize_spec(s, primary_id)[j],
            s[b],
        )) by {
        lemma_normalize_hull_at(s, primary_id, j);
    }
}

/// A selection that overlaps no other one (for spans with `start <= end`)
/// absorbs nothing and is kept as it was: id, ends, orientation and goal.
pub proof fn lemma_normalize_keeps_lone(s: Seq<Selection<usize>>, primary_id: usize, i: int)
    requires
        forall|k: int| 0 <= k < s.len() ==> (#[trigger] s[k]).start <= s[k].end,
        0 <= i < s.len(),
        forall|k: int| 0 <= k < s.len() && k != i ==> !overlaps_spec(s[i], #[trigger] s[k]),
    ensures
        normalize_spec(s, primary_id).contains(s[i]),
{
    let r = normalize_spec(s, primary_id);
    if s.len() <= 1 {
        assert(r[i] == s[i]);
    } else {
        let x = s[i];
        let t = sort_by_span(s);
        lemma_sort_by_span(s);
        lemma_sort_keeps_all(s);
        lemma_sort_multiset(s);
        assert forall|k: int| 0 <= k < s.len() && s[k] == s[i] implies k == i by {
            if k != i {
                assert(overlaps_spec(s[i], s[k]));
            }
        }
        lemma_count_one(s, i);
        assert(t.contains(x));
        let p = choose|p: int| 0 <= p < t.len() && t[p] == x;
        assert forall|k: int| 0 <= k < t.len() && k != p implies !overlaps_spec(t[p], #[trigger] t[k]) by {
            assert(s.contains(t[k]));
            let w = choose|w: int| 0 <= w < s.len() && s[w] == t[k];
            if overlaps_spec(t[p], t[k]) {
                assert(s[w] == t[k]);
                assert(w == i);
                lemma_count_one_unique(t, x, p, k);
            }
        }
        assert forall|k: int| 0 <= k < t.len() implies (#[trigger] t[k]).start <= t[k].end by {
            assert(s.contains(t[k]));
        }
        lemma_merge_keeps_lone(t, primary_id, p);
    }
}

/// Normalizing selections with distinct ids gives selections with distinct
/// ids: the primary id returned names exactly one of them.
pub proof fn lemma_normalize_ids_distinct(s: Seq<Selection<usize>>, primary_id: usize)
    requires
        ids_distinct(s),
    ensures
        ids_distinct(normalize_spec(s, primary_id)),
{
    if s.len() > 1 {
        let t = sort_by_span(s);
        lemma_sort_by_span(s);
        lemma_sort_multiset(s);
        assert forall|i1: int, i2: int| 0 <= i1 < i2 < t.len() implies (#[trigger] t[i1]).id != (#[trigger] t[i2]).id by {
            assert(s.contains(t[i1]) && s.contains(t[i2]));
            let a = choose|a: int| 0 <= a < s.len() && s[a] == t[i1];
            let b = choose|b: int| 0 <= b < s.len() && s[b] == t[i2];
            if t[i1].id == t[i2].id {
                if a < b {
                    assert(s[a].id != s[b].id);
                } else if b < a {
                    assert(s[b].id != s[a].id);
                } else {
                    assert forall|k: int| 0 <= k < s.len() && s[k] == s[a] implies k == a by {
                        if k < a {
                            assert(s[k].id != s[a].id);
                        } else if a < k {
                            assert(s[a].id != s[k].id);
                        }
                    }
                    lemma_count_one(s, a);
                    lemma_count_one_unique(t, s[a], i1, i2);
                }
            }
        }
        lemma_merge_ids_distinct(t, primary_id);
    }
}

} // verus!
