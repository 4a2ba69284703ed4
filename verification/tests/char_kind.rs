//! The three-class character model and the boundary scans.

use alteria_core::char_kind::{char_kind, find_boundary, find_preceding_boundary, CharKind};

#[test]
fn classifies_the_three_kinds() {
    for c in ['a', 'Z', '7', '_', 'é'] {
        assert_eq!(char_kind(c), CharKind::Word, "{c:?} should be Word");
    }
    for c in [' ', '\t', '\n', '\r'] {
        assert_eq!(
            char_kind(c),
            CharKind::Whitespace,
            "{c:?} should be Whitespace"
        );
    }
    for c in ['.', '(', ')', '-', '+', ','] {
        assert_eq!(
            char_kind(c),
            CharKind::Punctuation,
            "{c:?} should be Punctuation"
        );
    }
}

fn chars(s: &str) -> Vec<char> {
    s.chars().collect()
}

// A kind-transition predicate, the shared shape both word motions build on.
fn kind_change(left: char, right: char) -> bool {
    char_kind(left) != char_kind(right)
}

#[test]
fn find_boundary_stops_at_the_first_kind_transition() {
    let t = chars("foo.bar");
    // Word -> Punctuation between "foo" and '.'.
    assert_eq!(find_boundary(&t, 0, kind_change), 3);
}

#[test]
fn find_boundary_runs_to_the_end_with_no_transition() {
    let t = chars("foobar");
    assert_eq!(find_boundary(&t, 0, kind_change), 6);
}

#[test]
fn find_preceding_boundary_stops_at_the_first_kind_transition() {
    let t = chars("foo.bar");
    // Scanning back from the end stops at the start of "bar".
    assert_eq!(find_preceding_boundary(&t, 7, kind_change), 4);
}

#[test]
fn find_preceding_boundary_runs_to_the_start_with_no_transition() {
    let t = chars("foobar");
    assert_eq!(find_preceding_boundary(&t, 6, kind_change), 0);
}

#[test]
fn scanners_handle_buffer_edges_without_panicking() {
    let t = chars("");
    assert_eq!(find_boundary(&t, 0, kind_change), 0);
    assert_eq!(find_preceding_boundary(&t, 0, kind_change), 0);
}

#[test]
fn scanners_accept_a_capturing_closure_and_count_in_chars() {
    // "é" is one char: the gap before '.' is char index 2.
    let t = chars("aé.b");
    let stop = '.';
    assert_eq!(find_boundary(&t, 0, |_l, r| r == stop), 2);
    assert_eq!(find_preceding_boundary(&t, 4, |l, _r| l == stop), 3);
    // The pair at `from` itself is never asked about.
    assert_eq!(find_boundary(&t, 2, |_l, r| r == stop), 4);
}

#[test]
fn whitespace_is_exactly_what_std_calls_whitespace() {
    for c in (0u32..=0x10FFFF).filter_map(char::from_u32) {
        let expected = if c.is_alphanumeric() || c == '_' {
            CharKind::Word
        } else if c.is_whitespace() {
            CharKind::Whitespace
        } else {
            CharKind::Punctuation
        };
        assert_eq!(char_kind(c), expected, "{:?}", c);
    }
}
