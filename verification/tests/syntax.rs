//! The tree-sitter runtime and the Rust grammar that highlighting runs on.

use alteria_core::highlight::{highlight, Lang};
use tree_sitter::Parser;

/// The `tree-sitter` runtime links the `tree-sitter-rust` grammar and parses a
/// trivial program; a version skew between the two would fail here.
#[test]
fn tree_sitter_rust_links_and_parses() {
    let mut parser = Parser::new();
    parser
        .set_language(&tree_sitter_rust::LANGUAGE.into())
        .expect("tree-sitter-rust grammar is ABI-compatible with the runtime");
    let tree = parser
        .parse("fn main() {}", None)
        .expect("parse yields a tree when a language is set");
    let root = tree.root_node();
    assert_eq!(root.kind(), "source_file");
    assert!(!root.has_error());
}

#[test]
fn highlighting_a_program_tags_its_keyword() {
    let spans = highlight("fn main() {}", Lang::Rust);
    assert!(spans.iter().any(|s| s.range == (0..2)));
    for s in &spans {
        assert!(s.range.start < s.range.end && s.range.end <= 12);
    }
}
