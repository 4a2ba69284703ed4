//! Text layout by rows: where a byte offset sits as `(row, byte column)`, and
//! which text a row holds. Rows are separated by `'\n'` (line endings are
//! normalized on load).

use vstd::prelude::*;
use vstd::string::StrSliceExecFns;

use crate::text::{byte_len, byte_offset, char_width, lemma_byte_offset_full, lemma_byte_offset_mono, lemma_byte_offset_step, str_to_chars};

verus! {

/// Scanning chars from `k` (at row `row`, the row starting at byte `ls`),
/// counting the line breaks that start before byte `offset`: the row and byte
/// column of `offset`.
pub open spec fn scan_rows(t: Seq<char>, offset: int, k: int, row: int, ls: int) -> (int, int)
    decreases t.len() - k,
{
    if k < 0 || k >= t.len() || byte_offset(t, k) >= offset {
        (row, offset - ls)
    } else if t[k] == '\n' {
        scan_rows(t, offset, k + 1, row + 1, byte_offset(t, k) + 1int)
    } else {
        scan_rows(t, offset, k + 1, row, ls)
    }
}

/// Scanning chars from `k` (at row `row`, which starts at char `sk`): the char
/// range of row `target` (the last row when there are fewer).
pub open spec fn scan_line(t: Seq<char>, target: int, k: int, row: int, sk: int) -> (int, int)
    decreases t.len() - k,
{
    if k < 0 || k >= t.len() {
        (sk, t.len() as int)
    } else if t[k] == '\n' {
        if row == target {
            (sk, k)
        } else {
            scan_line(t, target, k + 1, row + 1, k + 1)
        }
    } else {
        scan_line(t, target, k + 1, row, sk)
    }
}

/// Byte offset → `(row, byte column)` by counting the `'\n'`s before `offset`.
pub fn row_col(text: &str, offset: usize) -> (r: (usize, usize))
    requires
        byte_len(text@) <= usize::MAX,
    ensures
        (r.0 as int, r.1 as int) == scan_rows(text@, offset as int, 0, 0, 0),
{
    let t = str_to_chars(text);
    proof {
        lemma_byte_offset_full(t@);
        assert(t@.take(0) =~= Seq::<char>::empty());
    }
    let mut row: usize = 0;
    let mut ls: usize = 0;
    let mut b: usize = 0;
    let mut k: usize = 0;
    while k < t.len() && b < offset
        invariant
            t@ == text@,
            byte_len(t@) <= usize::MAX,
            k <= t.len(),
            b == byte_offset(t@, k as int),
            row <= k,
            ls <= offset,
            scan_rows(t@, offset as int, k as int, row as int, ls as int) == scan_rows(t@, offset as int, 0, 0, 0),
        decreases t.len() - k,
    {
        proof {
            lemma_byte_offset_step(t@, k as int);
            lemma_byte_offset_mono(t@, k as int + 1, t.len() as int);
            lemma_byte_offset_full(t@);
        }
        if t[k] == '\n' {
            row = row + 1;
            ls = b + 1;
        }
        b = b + char_width(t[k]);
        k = k + 1;
    }
    (row, offset - ls)
}

/// The byte offset where row `target_row` starts and that row's text (the
/// last row when there are fewer rows).
pub fn line_at_row(text: &str, target_row: usize) -> (r: (usize, &str))
    requires
        byte_len(text@) <= usize::MAX,
    ensures
        ({
            let (a, z) = scan_line(text@, target_row as int, 0, 0, 0);
            r.0 == byte_offset(text@, a) && r.1@ == text@.subrange(a, z)
        }),
{
    let t = str_to_chars(text);
    proof {
        lemma_byte_offset_full(t@);
        assert(t@.take(0) =~= Seq::<char>::empty());
    }
    let mut row: usize = 0;
    let mut sk: usize = 0;
    let mut sb: usize = 0;
    let mut b: usize = 0;
    let mut k: usize = 0;
    while k < t.len()
        invariant
            t@ == text@,
            byte_len(t@) <= usize::MAX,
            k <= t.len(),
            sk <= k,
            b == byte_offset(t@, k as int),
            sb == byte_offset(t@, sk as int),
            row <= k,
            scan_line(t@, target_row as int, k as int, row as int, sk as int) == scan_line(t@, target_row as int, 0, 0, 0),
        decreases t.len() - k,
    {
        proof {
            lemma_byte_offset_step(t@, k as int);
            lemma_byte_offset_mono(t@, k as int + 1, t.len() as int);
            lemma_byte_offset_full(t@);
        }
        let w = char_width(t[k]);
        if t[k] == '\n' {
            if row == target_row {
                return (sb, text.substring_char(sk, k));
            }
            row = row + 1;
            sk = k + 1;
            sb = b + w;
        }
        b = b + w;
        k = k + 1;
    }
    (sb, text.substring_char(sk, t.len()))
}

} // verus!
