//! Changesets: building, measuring, and mapping positions.

use alteria_core::transaction::{Assoc, ChangeSet, Op};
use ropey::Rope;

fn ins(s: &str) -> Op {
    Op::Insert(s.to_string())
}


#[test]
fn map_pos_shifts_after_insert() {
    // retain 2, insert "XY" (2 bytes), retain 3 ; len_before = 5
    let cs = ChangeSet {
        ops: vec![Op::Retain(2), ins("XY"), Op::Retain(3)],
        len_before: 5,
    };
    // a position past the insert shifts right by the inserted length
    assert_eq!(cs.map_pos(4, Assoc::After), 6);
    assert_eq!(cs.map_pos(0, Assoc::After), 0); // before the edit: unchanged
}

#[test]
fn map_pos_assoc_breaks_the_insert_tie() {
    let cs = ChangeSet {
        ops: vec![Op::Retain(2), ins("XY"), Op::Retain(3)],
        len_before: 5,
    };
    assert_eq!(cs.map_pos(2, Assoc::Before), 2); // stays left of inserted text
    assert_eq!(cs.map_pos(2, Assoc::After), 4); // jumps past inserted text
}

#[test]
fn map_pos_clamps_inside_a_deletion() {
    // retain 1, delete 3 (bytes [1,4)), retain 1 ; len_before = 5
    let cs = ChangeSet {
        ops: vec![Op::Retain(1), Op::Delete(3), Op::Retain(1)],
        len_before: 5,
    };
    assert_eq!(cs.map_pos(1, Assoc::After), 1); // left edge
    assert_eq!(cs.map_pos(2, Assoc::After), 1); // interior clamps left
    assert_eq!(cs.map_pos(3, Assoc::Before), 1); // interior clamps left
    assert_eq!(cs.map_pos(4, Assoc::After), 1); // right edge shifts to 1
}

#[test]
fn map_pos_at_document_end() {
    let cs = ChangeSet {
        ops: vec![Op::Retain(3)],
        len_before: 3,
    };
    assert_eq!(cs.map_pos(3, Assoc::After), 3);
}

#[test]
fn map_pos_through_identity_is_unchanged() {
    let cs = ChangeSet::identity(5);
    for p in 0..=5 {
        assert_eq!(cs.map_pos(p, Assoc::Before), p);
        assert_eq!(cs.map_pos(p, Assoc::After), p);
    }
}

#[test]
fn from_changes_single_insert() {
    let cs = ChangeSet::from_changes(5, &[(2, 2, "XY".to_string())]);
    assert_eq!(cs.ops, vec![Op::Retain(2), ins("XY"), Op::Retain(3)]);
    assert_eq!(cs.len_before, 5);
}

#[test]
fn from_changes_single_delete() {
    let cs = ChangeSet::from_changes(5, &[(1, 3, String::new())]);
    assert_eq!(cs.ops, vec![Op::Retain(1), Op::Delete(2), Op::Retain(2)]);
}

#[test]
fn from_changes_two_inserts_for_multicursor() {
    let cs = ChangeSet::from_changes(5, &[(1, 1, "A".to_string()), (3, 3, "B".to_string())]);
    assert_eq!(
        cs.ops,
        vec![
            Op::Retain(1),
            ins("A"),
            Op::Retain(2),
            ins("B"),
            Op::Retain(2)
        ]
    );
}

#[test]
fn from_changes_replace_emits_delete_before_insert() {
    let cs = ChangeSet::from_changes(5, &[(1, 3, "XYZ".to_string())]);
    assert_eq!(
        cs.ops,
        vec![Op::Retain(1), Op::Delete(2), ins("XYZ"), Op::Retain(2)]
    );
}

#[test]
fn map_pos_inside_replace_clamps_to_deletion_start() {
    // Replace old bytes [1,3) with "XYZ".
    let cs = ChangeSet::from_changes(5, &[(1, 3, "XYZ".to_string())]);
    // A position inside (or at the left edge of) the replaced region clamps
    // to the deletion's left edge in the new space, regardless of Assoc —
    // it must not overshoot past the inserted text.
    assert_eq!(cs.map_pos(1, Assoc::Before), 1);
    assert_eq!(cs.map_pos(2, Assoc::Before), 1);
    assert_eq!(cs.map_pos(2, Assoc::After), 1);
    // A position after the replace shifts by the net delta (+1).
    assert_eq!(cs.map_pos(3, Assoc::After), 4);
}

#[test]
fn len_after_and_is_identity() {
    let cs = ChangeSet {
        ops: vec![Op::Retain(2), ins("XY"), Op::Delete(1)],
        len_before: 3,
    };
    assert_eq!(cs.len_after(), 4);
    assert!(!cs.is_identity());
    assert!(ChangeSet::identity(7).is_identity());
    assert!(ChangeSet::identity(0).is_identity());
}

fn assert_round_trips(original: &str, ops: Vec<Op>) {
    let pre = Rope::from_str(original);
    let cs = ChangeSet {
        len_before: pre.len_bytes(),
        ops,
    };
    let mut post = pre.clone();
    assert!(cs.apply(&mut post));

    let inverse = cs.invert(&pre);
    assert_eq!(inverse.len_before, cs.len_after());
    let mut restored = post.clone();
    assert!(inverse.apply(&mut restored));
    assert_eq!(restored, original);
}

#[test]
fn apply_insert() {
    let mut r = Rope::from_str("abc");
    let cs = ChangeSet {
        ops: vec![Op::Retain(1), ins("X"), Op::Retain(2)],
        len_before: 3,
    };
    assert!(cs.apply(&mut r));
    assert_eq!(r, "aXbc");
}

#[test]
fn apply_delete() {
    let mut r = Rope::from_str("abc");
    let cs = ChangeSet {
        ops: vec![Op::Retain(1), Op::Delete(1), Op::Retain(1)],
        len_before: 3,
    };
    assert!(cs.apply(&mut r));
    assert_eq!(r, "ac");
}

#[test]
fn apply_mixed_replace() {
    let mut r = Rope::from_str("hello");
    // keep 'h', delete 'e', insert "XY", keep "llo"
    let cs = ChangeSet {
        ops: vec![Op::Retain(1), Op::Delete(1), ins("XY"), Op::Retain(3)],
        len_before: 5,
    };
    assert!(cs.apply(&mut r));
    assert_eq!(r, "hXYllo");
}

#[test]
fn apply_at_end() {
    let mut r = Rope::from_str("abc");
    let cs = ChangeSet {
        ops: vec![Op::Retain(3), ins("Z")],
        len_before: 3,
    };
    assert!(cs.apply(&mut r));
    assert_eq!(r, "abcZ");
}

#[test]
fn apply_rejects_stale_changeset() {
    let mut r = Rope::from_str("abc"); // 3 bytes
    let cs = ChangeSet {
        ops: vec![Op::Retain(5)],
        len_before: 5, // does not match the 3-byte doc
    };
    assert!(!cs.apply(&mut r));
    assert_eq!(r, "abc"); // untouched
}

#[test]
fn apply_multibyte_insert_and_delete_stay_char_aligned() {
    // "aé" = a(1) + é(2) = 3 bytes
    let mut r = Rope::from_str("aé");
    let cs = ChangeSet {
        ops: vec![Op::Retain(1), ins("X"), Op::Retain(2)],
        len_before: 3,
    };
    assert!(cs.apply(&mut r));
    assert_eq!(r, "aXé");

    // delete the 2-byte 'é'
    let mut r2 = Rope::from_str("aé");
    let cs2 = ChangeSet {
        ops: vec![Op::Retain(1), Op::Delete(2)],
        len_before: 3,
    };
    assert!(cs2.apply(&mut r2));
    assert_eq!(r2, "a");
}

#[test]
fn apply_identity_is_noop() {
    let mut r = Rope::from_str("abc");
    assert!(ChangeSet::identity(3).apply(&mut r));
    assert_eq!(r, "abc");

    let mut empty = Rope::from_str("");
    assert!(ChangeSet::identity(0).apply(&mut empty));
    assert_eq!(empty, "");
}

#[test]
fn invert_insert_round_trips() {
    assert_round_trips("abc", vec![Op::Retain(1), ins("X"), Op::Retain(2)]);
}

#[test]
fn invert_delete_round_trips() {
    assert_round_trips("abc", vec![Op::Retain(1), Op::Delete(1), Op::Retain(1)]);
}

#[test]
fn invert_mixed_round_trips() {
    assert_round_trips(
        "hello",
        vec![Op::Retain(1), Op::Delete(1), ins("XY"), Op::Retain(3)],
    );
}

#[test]
fn invert_multibyte_round_trips() {
    // delete the multi-byte 'é', insert an ascii — round trip must restore é
    assert_round_trips(
        "aébc",
        vec![Op::Retain(1), Op::Delete(2), ins("Z"), Op::Retain(2)],
    );
}

#[test]
fn from_changes_replace_applies_correctly() {
    let cs = ChangeSet::from_changes(5, &[(1, 3, "XYZ".to_string())]);
    let mut r = Rope::from_str("abcde");
    assert!(cs.apply(&mut r));
    assert_eq!(r, "aXYZde");
}

#[test]
fn apply_rejects_a_midcodepoint_boundary_untouched() {
    // "é" is 2 bytes; an op boundary at byte 1 falls inside the codepoint.
    let mut r = Rope::from_str("é");
    let cs = ChangeSet {
        ops: vec![Op::Delete(1), Op::Retain(1)],
        len_before: 2,
    };
    assert!(!cs.apply(&mut r)); // cleanly rejected, not silently rounded
    assert_eq!(r, "é"); // untouched
}
