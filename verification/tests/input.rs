//! Raw input values.

use alteria_core::input::Modifiers;

#[test]
fn none_is_none() {
    assert!(Modifiers::none().is_none());
}

#[test]
fn any_modifier_is_not_none() {
    assert!(!Modifiers {
        alt: true,
        ..Modifiers::none()
    }
    .is_none());
    assert!(!Modifiers {
        ctrl: true,
        ..Modifiers::none()
    }
    .is_none());
}

#[test]
fn default_equals_none() {
    assert_eq!(Modifiers::default(), Modifiers::none());
}
