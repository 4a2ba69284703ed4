//! Selection expansion (`I` / `U` / `O` / `P`).

use alteria_core::action::Expansion;
use alteria_core::action::Expansion::{BracketAlternating, BracketContent, Enclosing, EnclosingLeft};
use alteria_core::expand::expand;

/// A span from its anchor to its head.
fn rng(anchor: usize, head: usize) -> (usize, usize) {
    (anchor, head)
}
/// A bare cursor.
fn cursor(pos: usize) -> (usize, usize) {
    (pos, pos)
}
/// Expand once and return the resulting span as `(min, max)`.
fn ex(text: &str, range: (usize, usize), kind: Expansion) -> (usize, usize) {
    let t: Vec<char> = text.chars().collect();
    let (lo, hi) = if range.0 <= range.1 { range } else { (range.1, range.0) };
    expand(&t, lo, hi, kind)
}

#[test]
fn i_selects_word_then_grows_right() {
    let t = "a aa b"; // cursor in "aa" (byte 2)
    assert_eq!(ex(t, cursor(2), Enclosing), (2, 4)); // "aa"
    assert_eq!(ex(t, rng(2, 4), Enclosing), (2, 6)); // "aa b"
}

#[test]
fn u_selects_word_then_grows_left() {
    let t = "a aa b";
    assert_eq!(ex(t, cursor(2), EnclosingLeft), (2, 4)); // "aa"
    assert_eq!(ex(t, rng(2, 4), EnclosingLeft), (0, 4)); // "a aa"
}

#[test]
fn i_climbs_into_enclosing_bracket_pair() {
    let t = "(a aa b)";
    // content fully selected -> the pair including its delimiters
    assert_eq!(ex(t, rng(1, 7), Enclosing), (0, 8));
}

#[test]
fn i_word_then_noop_in_plain_text() {
    let t = "abc";
    assert_eq!(ex(t, cursor(1), Enclosing), (0, 3)); // word
    assert_eq!(ex(t, rng(0, 3), Enclosing), (0, 3)); // outermost: no-op
}

#[test]
fn i_climbs_through_nested_brackets() {
    let t = "[(x)]";
    assert_eq!(ex(t, cursor(2), Enclosing), (2, 3)); // word "x"
    assert_eq!(ex(t, rng(2, 3), Enclosing), (1, 4)); // inner pair "(x)"
    assert_eq!(ex(t, rng(1, 4), Enclosing), (0, 5)); // outer pair "[(x)]"
}

#[test]
fn o_climbs_bracket_content() {
    let t = "((x))";
    assert_eq!(ex(t, cursor(2), BracketContent), (2, 3)); // "x"
    assert_eq!(ex(t, rng(2, 3), BracketContent), (1, 4)); // "(x)"
    assert_eq!(ex(t, rng(1, 4), BracketContent), (1, 4)); // outermost: no-op
}

#[test]
fn o_matches_across_lines() {
    let t = "(\nx\n)"; // ( \n x \n ) -> bytes 0..5
    assert_eq!(ex(t, cursor(2), BracketContent), (1, 4)); // "\nx\n"
}

#[test]
fn p_alternates_content_then_pair() {
    let t = "(a)";
    assert_eq!(ex(t, cursor(1), BracketAlternating), (1, 2)); // "a"
    assert_eq!(ex(t, rng(1, 2), BracketAlternating), (0, 3)); // "(a)"
    assert_eq!(ex(t, rng(0, 3), BracketAlternating), (0, 3)); // no-op
}

#[test]
fn p_nested_skips_the_coinciding_level() {
    let t = "((x))";
    assert_eq!(ex(t, cursor(2), BracketAlternating), (2, 3)); // "x"
    assert_eq!(ex(t, rng(2, 3), BracketAlternating), (1, 4)); // "(x)" pair
    assert_eq!(ex(t, rng(1, 4), BracketAlternating), (0, 5)); // "((x))" pair
    assert_eq!(ex(t, rng(0, 5), BracketAlternating), (0, 5)); // no-op
}
