//! Selections and their normalization.

use alteria_core::selection::{normalize, Selection, SelectionGoal};

fn sel(id: usize, start: usize, end: usize, reversed: bool) -> Selection<usize> {
    Selection {
        id,
        start,
        end,
        reversed,
        goal: SelectionGoal::Unset,
    }
}

#[test]
fn head_and_tail_follow_reversed() {
    let forward = sel(0, 2, 7, false);
    assert_eq!((forward.tail(), forward.head()), (2, 7));
    let backward = sel(0, 2, 7, true);
    assert_eq!((backward.tail(), backward.head()), (7, 2));
}

#[test]
fn cursor_is_empty() {
    let c = Selection::cursor(0, 4);
    assert!(c.is_empty());
    assert_eq!((c.min(), c.max()), (4, 4));
}

#[test]
fn set_head_extends_forward_then_flips_backward() {
    let mut s = Selection::cursor(0, 3);
    s.set_head(5, SelectionGoal::Unset);
    assert_eq!((s.start, s.end, s.reversed), (3, 5, false));
    // Pull the head back past the tail: the orientation flips.
    s.set_head(1, SelectionGoal::Unset);
    assert_eq!((s.start, s.end, s.reversed), (1, 3, true));
}

#[test]
fn set_head_records_goal() {
    let mut s = Selection::cursor(0, 0);
    s.set_head(2, SelectionGoal::Column(9));
    assert_eq!(s.goal, SelectionGoal::Column(9));
}

#[test]
fn goal_round_trips_through_column() {
    assert_eq!(
        SelectionGoal::from_column(Some(7)),
        SelectionGoal::Column(7)
    );
    assert_eq!(SelectionGoal::Column(7).column(), Some(7));
    assert_eq!(SelectionGoal::Unset.column(), None);
    assert_eq!(SelectionGoal::from_column(None), SelectionGoal::Unset);
}

#[test]
fn normalize_single_is_noop() {
    let mut v = vec![sel(0, 7, 2, false)];
    assert_eq!(normalize(&mut v, 0), 0);
    assert_eq!(v.len(), 1);
}

#[test]
fn normalize_merges_overlapping_and_keeps_primary() {
    let mut v = vec![sel(0, 0, 3, false), sel(1, 2, 5, false)];
    let p = normalize(&mut v, 1);
    assert_eq!(v.len(), 1);
    assert_eq!((v[0].min(), v[0].max()), (0, 5));
    // The merged range carries the primary id (1 swallowed 0).
    assert_eq!(p, 1);
    assert_eq!(v[0].id, 1);
}

#[test]
fn normalize_merges_duplicate_cursors() {
    let mut v = vec![Selection::cursor(0, 4), Selection::cursor(1, 4)];
    normalize(&mut v, 0);
    assert_eq!(v.len(), 1);
    assert!(v[0].is_empty() && v[0].min() == 4);
}

#[test]
fn normalize_keeps_a_cursor_off_a_shared_edge() {
    // A bare cursor at 4 on the far edge of [2,4) stays distinct.
    let mut v = vec![sel(0, 2, 4, false), Selection::cursor(1, 4)];
    let p = normalize(&mut v, 1);
    assert_eq!(v.len(), 2);
    assert_eq!(p, 1);
}

#[test]
fn normalize_keeps_distinct_cursors_sorted() {
    let mut v = vec![
        Selection::cursor(0, 9),
        Selection::cursor(1, 1),
        Selection::cursor(2, 5),
    ];
    let p = normalize(&mut v, 0);
    assert_eq!(v.iter().map(|s| s.min()).collect::<Vec<_>>(), vec![1, 5, 9]);
    assert_eq!(p, 0); // primary still the cursor that was at 9
}
