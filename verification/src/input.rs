//! Raw input as plain data — the only thing the frontend hands to the engine.
//!
//! No GUI types live here. The frontend translates OS events into these
//! values; the core never sees a GUI type.

use vstd::prelude::*;

verus! {

/// The modifier keys currently held. Plain data — held state lives in the
/// [`crate::resolver::Resolver`], not here.
#[derive(Clone, Copy, PartialEq, Eq, Hash, Debug, Structural)]
pub struct Modifiers {
    pub alt: bool,
    pub ctrl: bool,
    pub shift: bool,
    pub super_key: bool,
}

impl Modifiers {
    /// No modifier held — the Base layer (typing).
    pub open spec fn none_spec() -> Modifiers {
        Modifiers { alt: false, ctrl: false, shift: false, super_key: false }
    }

    /// No modifier held — the Base layer (typing).
    pub fn none() -> (r: Modifiers)
        ensures
            r == Modifiers::none_spec(),
    {
        Modifiers { alt: false, ctrl: false, shift: false, super_key: false }
    }

    /// True when no modifier is held (the Base layer is active).
    pub fn is_none(self) -> (r: bool)
        ensures
            r == (self == Modifiers::none_spec()),
    {
        self == Modifiers::none()
    }
}

impl Default for Modifiers {
    fn default() -> (r: Self)
        ensures
            r == Modifiers::none_spec(),
    {
        Modifiers::none()
    }
}

/// A single logical key. Printable input is `Char(c)`; the rest are the
/// non-printing keys the engine reacts to in the Base layer.
#[derive(Clone, Copy, PartialEq, Eq, Hash, Debug, Structural)]
pub enum Key {
    Char(char),
    Backspace,
    Delete,
    Enter,
    Escape,
    ArrowUp,
    ArrowDown,
    ArrowLeft,
    ArrowRight,
    Home,
    End,
    PageUp,
    PageDown,
}

/// One raw input event from the frontend.
///
/// `ModifiersChanged` is the primitive the whole quasimode concept rides on:
/// it fires whenever the held-modifier set changes, independent of any other
/// key, so the resolver always knows which layer is active.
#[derive(Clone, PartialEq, Debug)]
pub enum InputEvent {
    KeyDown { key: Key, mods: Modifiers, repeat: bool },
    KeyUp { key: Key, mods: Modifiers },
    ModifiersChanged { mods: Modifiers },
    /// External text entering the buffer at every cursor (paste, later IME),
    /// not a keystroke — the resolver passes it straight to the executor.
    InsertText(String),
    FocusLost,
}

} // verus!
