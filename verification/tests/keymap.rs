//! The declarative keymap.

use alteria_core::action::Direction::{Down, Left, Right, Up};
use alteria_core::action::{Action, Direction, Expansion, Motion};
use alteria_core::input::{Key, Modifiers};
use alteria_core::keymap::Keymap;

const ALT: Modifiers = Modifiers {
    alt: true,
    ctrl: false,
    shift: false,
    super_key: false,
};
const ALT_SHIFT: Modifiers = Modifiers {
    alt: true,
    ctrl: false,
    shift: true,
    super_key: false,
};
const CTRL: Modifiers = Modifiers {
    alt: false,
    ctrl: true,
    shift: false,
    super_key: false,
};
const CTRL_SHIFT: Modifiers = Modifiers {
    alt: false,
    ctrl: true,
    shift: true,
    super_key: false,
};
const ALT_CTRL: Modifiers = Modifiers {
    alt: true,
    ctrl: true,
    shift: false,
    super_key: false,
};

fn km() -> Keymap {
    Keymap::default_alteria()
}

#[test]
fn alt_w_moves_up_collapsing() {
    assert_eq!(
        km().lookup(ALT, Key::Char('w')),
        Some(Action::Move {
            motion: Motion::Char(Direction::Up),
            extend: false,
            count: 1,
        })
    );
}

#[test]
fn alt_shift_w_moves_up_extending() {
    assert_eq!(
        km().lookup(ALT_SHIFT, Key::Char('w')),
        Some(Action::Move {
            motion: Motion::Char(Direction::Up),
            extend: true,
            count: 1,
        })
    );
}

#[test]
fn alt_layer_full_motion_set() {
    let k = km();
    let cases = [
        ('a', Motion::Char(Left)),
        ('d', Motion::Char(Right)),
        ('s', Motion::Char(Down)),
        ('q', Motion::WordStart(Left)),
        ('e', Motion::WordStart(Right)),
        ('z', Motion::LineEdge(Left)),
        ('c', Motion::LineEdge(Right)),
        ('r', Motion::MatchingBracket),
        ('[', Motion::BlankLine(Up)),
        (']', Motion::BlankLine(Down)),
    ];
    for (ch, motion) in cases {
        assert_eq!(
            k.lookup(ALT, Key::Char(ch)),
            Some(Action::Move {
                motion,
                extend: false,
                count: 1,
            }),
            "binding for Alt+{ch}",
        );
    }
}

#[test]
fn expansions_are_unaffected_by_shift() {
    let k = km();
    for mods in [ALT, ALT_SHIFT] {
        assert_eq!(
            k.lookup(mods, Key::Char('i')),
            Some(Action::Expand(Expansion::Enclosing))
        );
        assert_eq!(
            k.lookup(mods, Key::Char('u')),
            Some(Action::Expand(Expansion::EnclosingLeft))
        );
        assert_eq!(
            k.lookup(mods, Key::Char('o')),
            Some(Action::Expand(Expansion::BracketContent))
        );
        assert_eq!(
            k.lookup(mods, Key::Char('p')),
            Some(Action::Expand(Expansion::BracketAlternating))
        );
    }
}

#[test]
fn ctrl_z_is_undo() {
    assert_eq!(km().lookup(CTRL, Key::Char('z')), Some(Action::Undo));
}

#[test]
fn ctrl_y_is_redo() {
    assert_eq!(km().lookup(CTRL, Key::Char('y')), Some(Action::Redo));
}

#[test]
fn ctrl_shift_z_is_redo() {
    // Mirror Zed-Linux: redo binds to both Ctrl+Y and Ctrl+Shift+Z.
    assert_eq!(km().lookup(CTRL_SHIFT, Key::Char('z')), Some(Action::Redo));
}

#[test]
fn alt_ctrl_spawns_cursors() {
    let k = km();
    assert_eq!(
        k.lookup(ALT_CTRL, Key::Char('w')),
        Some(Action::SpawnCursor(Direction::Up))
    );
    assert_eq!(
        k.lookup(ALT_CTRL, Key::Char('s')),
        Some(Action::SpawnCursor(Direction::Down))
    );
}

#[test]
fn base_layer_has_no_bindings() {
    // Typing is resolver fallback, not a keymap layer.
    assert_eq!(km().lookup(Modifiers::none(), Key::Char('w')), None);
    assert_eq!(km().lookup(Modifiers::none(), Key::Char('a')), None);
}

#[test]
fn unbound_key_in_a_layer_is_none() {
    // 'j' is not bound in the Alt layer.
    assert_eq!(km().lookup(ALT, Key::Char('j')), None);
}
