//! Keystroke translation: a platform keystroke (its physical key label and
//! the character it would type) becomes a core [`Key`].
//!
//! The subtle part is which of the two to use: on the Base layer the typed
//! character (so Shift, symbols, and dead keys insert correctly); on a
//! modifier layer the physical keycap, because the keymap dispatches on
//! `(held_mods, Key::Char('w'))` and the character a modifier composes (Alt+S
//! typing `ß`) must be ignored.

use vstd::prelude::*;

use crate::input::{Key, Modifiers};
use crate::text::str_to_chars;

verus! {

/// True while a layer-selecting modifier is held. Shift alone is not one of
/// these: it stays on the Base layer and only changes which char is typed.
pub open spec fn on_layer(mods: Modifiers) -> bool {
    mods.alt || mods.ctrl || mods.super_key
}

/// The named non-printing key a label stands for.
pub open spec fn named_key(k: Seq<char>) -> Option<Key> {
    if k == "backspace"@ {
        Some(Key::Backspace)
    } else if k == "delete"@ {
        Some(Key::Delete)
    } else if k == "enter"@ || k == "return"@ {
        Some(Key::Enter)
    } else if k == "escape"@ {
        Some(Key::Escape)
    } else if k == "up"@ {
        Some(Key::ArrowUp)
    } else if k == "down"@ {
        Some(Key::ArrowDown)
    } else if k == "left"@ {
        Some(Key::ArrowLeft)
    } else if k == "right"@ {
        Some(Key::ArrowRight)
    } else if k == "home"@ {
        Some(Key::Home)
    } else if k == "end"@ {
        Some(Key::End)
    } else if k == "pageup"@ {
        Some(Key::PageUp)
    } else if k == "pagedown"@ {
        Some(Key::PageDown)
    } else {
        None
    }
}

/// The char of a one-char string.
pub open spec fn single(s: Seq<char>) -> Option<char> {
    if s.len() == 1 {
        Some(s[0])
    } else {
        None
    }
}

/// The keystroke `key` (physical label) / `key_char` (typed character) under
/// `mods` as a core key: named keys in any layer; on the Base layer the typed
/// character when it is one char; otherwise the one-char keycap; else none.
pub open spec fn translate_spec(key: Seq<char>, key_char: Option<Seq<char>>, mods: Modifiers) -> Option<Key> {
    match named_key(key) {
        Some(k) => Some(k),
        None => {
            let typed = match key_char {
                Some(kc) => single(kc),
                None => None,
            };
            if !on_layer(mods) && typed is Some {
                Some(Key::Char(typed->0))
            } else {
                match single(key) {
                    Some(c) => Some(Key::Char(c)),
                    None => None,
                }
            }
        },
    }
}

/// An optional string as its optional chars.
pub open spec fn opt_chars(s: Option<&str>) -> Option<Seq<char>> {
    match s {
        Some(x) => Some(x@),
        None => None,
    }
}

/// True while a layer-selecting modifier is held.
pub fn on_modifier_layer(mods: Modifiers) -> (r: bool)
    ensures
        r == on_layer(mods),
{
    mods.alt || mods.ctrl || mods.super_key
}

/// `a` and `b` hold the same chars.
fn same_chars(a: &Vec<char>, b: &Vec<char>) -> (r: bool)
    ensures
        r == (a@ == b@),
{
    if a.len() != b.len() {
        return false;
    }
    let mut i: usize = 0;
    while i < a.len()
        invariant
            a.len() == b.len(),
            i <= a.len(),
            forall|k: int| 0 <= k < i ==> a@[k] == b@[k],
        decreases a.len() - i,
    {
        if a[i] != b[i] {
            return false;
        }
        i = i + 1;
    }
    proof {
        assert(a@ =~= b@);
    }
    true
}

/// `k` spells `name`.
fn is_named(k: &Vec<char>, name: &str) -> (r: bool)
    ensures
        r == (k@ == name@),
{
    let n = str_to_chars(name);
    same_chars(k, &n)
}

/// The named non-printing key a label stands for.
fn named(k: &Vec<char>) -> (r: Option<Key>)
    ensures
        r == named_key(k@),
{
    if is_named(k, "backspace") {
        Some(Key::Backspace)
    } else if is_named(k, "delete") {
        Some(Key::Delete)
    } else if is_named(k, "enter") || is_named(k, "return") {
        Some(Key::Enter)
    } else if is_named(k, "escape") {
        Some(Key::Escape)
    } else if is_named(k, "up") {
        Some(Key::ArrowUp)
    } else if is_named(k, "down") {
        Some(Key::ArrowDown)
    } else if is_named(k, "left") {
        Some(Key::ArrowLeft)
    } else if is_named(k, "right") {
        Some(Key::ArrowRight)
    } else if is_named(k, "home") {
        Some(Key::Home)
    } else if is_named(k, "end") {
        Some(Key::End)
    } else if is_named(k, "pageup") {
        Some(Key::PageUp)
    } else if is_named(k, "pagedown") {
        Some(Key::PageDown)
    } else {
        None
    }
}

/// A string that is exactly one char, else `None`: named keys and layout
/// strings are rejected; only a lone keycap or character passes.
pub fn single_char(s: &str) -> (r: Option<char>)
    ensures
        r == single(s@),
{
    let v = str_to_chars(s);
    if v.len() == 1 {
        Some(v[0])
    } else {
        None
    }
}

/// Translate a keystroke into a core key (`None` for a key the engine has no
/// mapping for, which is dropped).
pub fn translate_key(key: &str, key_char: Option<&str>, mods: Modifiers) -> (r: Option<Key>)
    ensures
        r == translate_spec(key@, opt_chars(key_char), mods),
{
    let k = str_to_chars(key);
    if let Some(named) = named(&k) {
        return Some(named);
    }
    if !on_modifier_layer(mods) {
        // Base layer: the character that would be typed (carries Shift/symbols).
        if let Some(kc) = key_char {
            if let Some(c) = single_char(kc) {
                return Some(Key::Char(c));
            }
        }
    }
    // Modifier layers (and the Base-layer fallback): the physical keycap.
    match single_char(key) {
        Some(c) => Some(Key::Char(c)),
        None => None,
    }
}

} // verus!
