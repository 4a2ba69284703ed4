//! Inline char search on the current line.

use alteria_core::find::find_on_line;

fn find(text: &str, head: usize, ch: char, forward: bool) -> Option<usize> {
    let t: Vec<char> = text.chars().collect();
    find_on_line(&t, head, ch, forward)
}

#[test]
fn finds_next_occurrence_forward() {
    // a0 b1 c2 a3 b4 c5
    assert_eq!(find("abcabc", 0, 'b', true), Some(1));
    assert_eq!(find("abcabc", 1, 'b', true), Some(4)); // strictly after head
}

#[test]
fn finds_previous_occurrence_backward() {
    assert_eq!(find("abcabc", 5, 'b', false), Some(4));
    assert_eq!(find("abcabc", 4, 'b', false), Some(1));
}

#[test]
fn finds_from_mid_line_both_ways() {
    // a0 x1 b2 x3 c4 ; head on 'b' (byte 2)
    assert_eq!(find("axbxc", 2, 'x', true), Some(3));
    assert_eq!(find("axbxc", 2, 'x', false), Some(1));
}

#[test]
fn no_match_returns_none() {
    assert_eq!(find("abc", 0, 'z', true), None);
    assert_eq!(find("abc", 3, 'z', false), None);
}

#[test]
fn does_not_cross_into_the_next_line() {
    // ab\nxb : a0 b1 \n2 x3 b4 ; from line0, 'x' is on line1
    assert_eq!(find("ab\nxb", 0, 'x', true), None);
}

#[test]
fn searches_within_the_current_line() {
    // line1 starts at byte 3 ("xb")
    assert_eq!(find("ab\nxb", 3, 'b', true), Some(4));
}
