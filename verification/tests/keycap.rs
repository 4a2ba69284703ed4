//! Keystroke translation into core keys.

use alteria_core::input::{Key, Modifiers};
use alteria_core::keycap::translate_key;

const NONE: Modifiers = Modifiers {
    alt: false,
    ctrl: false,
    shift: false,
    super_key: false,
};
const ALT: Modifiers = Modifiers {
    alt: true,
    ctrl: false,
    shift: false,
    super_key: false,
};
const SHIFT: Modifiers = Modifiers {
    alt: false,
    ctrl: false,
    shift: true,
    super_key: false,
};

// ---- the pure key translation (no GPUI types) ----------------------

#[test]
fn base_layer_prefers_the_typed_character() {
    // 'a' typed: physical key "a", key_char "a" -> Char('a').
    assert_eq!(translate_key("a", Some("a"), NONE), Some(Key::Char('a')));
}

#[test]
fn shift_capitalizes_via_key_char_and_stays_base_layer() {
    // Shift+a: the typed char is "A"; Shift is not a layer modifier, so the
    // uppercase character is what inserts.
    assert_eq!(translate_key("a", Some("A"), SHIFT), Some(Key::Char('A')));
}

#[test]
fn alt_layer_uses_the_physical_keycap_not_key_char() {
    // Alt+S on some layouts types "ß"; the resolver wants the keycap 's'.
    assert_eq!(translate_key("s", Some("ß"), ALT), Some(Key::Char('s')));
    // Alt+W navigates: keycap 'w' regardless of any composed key_char.
    assert_eq!(translate_key("w", Some("w"), ALT), Some(Key::Char('w')));
}

#[test]
fn named_keys_map_in_any_layer() {
    for mods in [NONE, ALT] {
        assert_eq!(translate_key("backspace", None, mods), Some(Key::Backspace));
        assert_eq!(translate_key("delete", None, mods), Some(Key::Delete));
        assert_eq!(translate_key("enter", None, mods), Some(Key::Enter));
        assert_eq!(translate_key("return", None, mods), Some(Key::Enter));
        assert_eq!(translate_key("escape", None, mods), Some(Key::Escape));
        assert_eq!(translate_key("up", None, mods), Some(Key::ArrowUp));
        assert_eq!(translate_key("down", None, mods), Some(Key::ArrowDown));
        assert_eq!(translate_key("left", None, mods), Some(Key::ArrowLeft));
        assert_eq!(translate_key("right", None, mods), Some(Key::ArrowRight));
        assert_eq!(translate_key("home", None, mods), Some(Key::Home));
        assert_eq!(translate_key("end", None, mods), Some(Key::End));
        assert_eq!(translate_key("pageup", None, mods), Some(Key::PageUp));
        assert_eq!(translate_key("pagedown", None, mods), Some(Key::PageDown));
    }
}

#[test]
fn base_layer_falls_back_to_keycap_when_no_key_char() {
    // No reported character (e.g. some platform quirk): use the keycap.
    assert_eq!(translate_key("x", None, NONE), Some(Key::Char('x')));
}

#[test]
fn unmapped_multichar_key_is_dropped() {
    assert_eq!(translate_key("f1", None, NONE), None);
    assert_eq!(translate_key("tab", None, ALT), None);
}

#[test]
fn digits_pass_through_the_modifier_layer_as_keycaps() {
    // Alt+3 (a repeat count): keycap '3' even if the layout composes a symbol.
    assert_eq!(translate_key("3", Some("£"), ALT), Some(Key::Char('3')));
}

// ---- the modifier mapping (platform -> super_key, function ignored) -
