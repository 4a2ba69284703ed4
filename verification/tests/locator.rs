//! Dense position identifiers.

use alteria_core::locator::Locator;

#[test]
fn the_first_locator_sits_between_min_and_max() {
    let (min, max) = (Locator::min(), Locator::max());
    assert!(min < max);
    let first = Locator::between(&min, &max);
    assert!(min < first && first < max);
    assert_eq!(first.len(), 1);
    assert!(!first.is_empty());
}

#[test]
fn sequential_inserts_keep_sorting_after_each_other() {
    let max = Locator::max();
    let mut prev = Locator::between(&Locator::min(), &max);
    for _ in 0..1000 {
        let next = Locator::between(&prev, &max);
        assert!(prev < next && next < max);
        prev = next;
    }
    // A 2^48th step at a time: a thousand appends still fit in one digit.
    assert_eq!(prev.len(), 1);
}

#[test]
fn adjacent_locators_get_a_longer_one_between() {
    let max = Locator::max();
    let a = Locator::between(&Locator::min(), &max);
    let b = Locator::between(&a, &max);
    // `a` and `b` differ by one step; whatever lies between needs a digit more.
    let mut lo = a.clone();
    for _ in 0..5 {
        let mid = Locator::between(&lo, &b);
        assert!(lo < mid && mid < b);
        assert!(mid.len() >= 2);
        lo = mid;
    }
    let hi = Locator::between(&a, &lo);
    assert!(a < hi && hi < lo);
}

#[test]
fn assign_clone_and_default() {
    let max = Locator::max();
    let first = Locator::between(&Locator::min(), &max);
    let mut x = Locator::min();
    x.assign(&first);
    assert_eq!(x, first);
    let mut y = Locator::default();
    assert_eq!(y, Locator::min());
    y.clone_from(&max);
    assert_eq!(y, max);
    assert_eq!(first.clone(), first);
}
