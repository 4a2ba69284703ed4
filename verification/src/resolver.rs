//! The resolver: the only place input *state* lives.
//!
//! It owns the held modifiers, a pending repeat count, and the find sub-mode,
//! and turns each raw [`InputEvent`] into at most one [`Action`]. Everything
//! else in the pipeline is a function of plain data; this is the single small
//! state machine the quasimode model needs.
//!
//! Held modifiers select a keymap layer. Releasing all modifiers returns to the
//! Base layer (typing) instantly — there is no mode to get stuck in, so a
//! modifier-release or focus-loss always clears Alt-gated state.

use vstd::prelude::*;

use crate::action::{Action, Direction, Motion};
use crate::input::{InputEvent, Key, Modifiers};
use crate::keymap::{default_binding, same_opt_action, Keymap};

verus! {

/// The `Alt+F` find sub-mode.
#[derive(Clone, Copy, PartialEq, Eq, Debug, Structural)]
pub enum FindState {
    /// Not finding.
    Inactive,
    /// `Alt+F` pressed; the next char is the search target.
    Pending,
    /// A target is set; `A`/`D` repeat the search while Alt stays held.
    Active { ch: char },
}

/// Holds the mutable input state and resolves events to actions.
#[derive(Clone, Copy, Debug)]
pub struct Resolver {
    /// The modifiers currently held.
    pub held: Modifiers,
    /// The accumulated repeat count (0 = none).
    pub count: usize,
    /// The find sub-mode.
    pub find: FindState,
}

/// ASCII letters lowercased; every other char unchanged.
pub open spec fn ascii_lower(c: char) -> char {
    if 'A' <= c <= 'Z' {
        ((c as u32) + 32) as char
    } else {
        c
    }
}

/// A keycap with its ASCII letter lowercased — commands are case-insensitive
/// (Shift selects the layer, not the letter).
pub open spec fn command_key(key: Key) -> Key {
    match key {
        Key::Char(c) => Key::Char(ascii_lower(c)),
        other => other,
    }
}

/// The value of a decimal digit char.
pub open spec fn digit_of(c: char) -> Option<usize> {
    if '0' <= c <= '9' {
        Some(((c as u32) - ('0' as u32)) as usize)
    } else {
        None
    }
}

/// `count * 10 + d`, saturating at `usize::MAX` at each step.
pub open spec fn push_digit(count: usize, d: usize) -> usize {
    let m = if count * 10 > usize::MAX { usize::MAX as int } else { count * 10 };
    if m + d > usize::MAX {
        usize::MAX
    } else {
        (m + d) as usize
    }
}

/// The Base-layer meaning of a key (typing and the plain editing keys).
pub open spec fn base_action(key: Key, shift: bool) -> Action {
    match key {
        Key::Char(c) => Action::InsertChar(c),
        Key::Enter => Action::InsertNewline,
        Key::Backspace => Action::DeleteBackward,
        Key::Delete => Action::DeleteForward,
        Key::Escape => Action::CollapseSelection,
        Key::ArrowLeft => Action::Move { motion: Motion::Char(Direction::Left), extend: shift, count: 1 },
        Key::ArrowRight => Action::Move { motion: Motion::Char(Direction::Right), extend: shift, count: 1 },
        Key::ArrowUp => Action::Move { motion: Motion::Char(Direction::Up), extend: shift, count: 1 },
        Key::ArrowDown => Action::Move { motion: Motion::Char(Direction::Down), extend: shift, count: 1 },
        Key::Home => Action::Move { motion: Motion::LineEdge(Direction::Left), extend: shift, count: 1 },
        Key::End => Action::Move { motion: Motion::LineEdge(Direction::Right), extend: shift, count: 1 },
        Key::PageUp => Action::MovePage { direction: Direction::Up, extend: shift, rows: 0 },
        Key::PageDown => Action::MovePage { direction: Direction::Down, extend: shift, rows: 0 },
    }
}

/// A bound action as the resolver emits it: a motion carries the pending
/// count (at least 1); any other action is emitted as bound.
pub open spec fn stamp_count(action: Action, count: usize) -> Action {
    match action {
        Action::Move { motion, extend, .. } => Action::Move {
            motion,
            extend,
            count: if count >= 1 { count } else { 1 },
        },
        a => a,
    }
}

/// What a key press does: the next resolver state and the action, if any.
pub open spec fn key_down_spec(r: Resolver, key: Key, mods: Modifiers, km: Keymap) -> (Resolver, Option<Action>) {
    // Alt-gated state cannot persist into a key pressed without Alt.
    let count0 = if mods.alt { r.count } else { 0 };
    let find0 = if mods.alt { r.find } else { FindState::Inactive };
    let ck = command_key(key);
    if mods.alt && find0 == FindState::Pending && key is Char {
        // 1. The next key after Alt+F is the literal find target.
        let c = key->Char_0;
        (Resolver { held: mods, count: count0, find: FindState::Active { ch: c } }, Some(Action::FindChar { ch: c }))
    } else {
        let find1 = if mods.alt && find0 == FindState::Pending { FindState::Inactive } else { find0 };
        if mods.alt && find1 is Active && ck == Key::Char('d') {
            // 2. Find repeat forward.
            (Resolver { held: mods, count: count0, find: find1 }, Some(Action::FindRepeat { ch: find1->ch, forward: true }))
        } else if mods.alt && find1 is Active && ck == Key::Char('a') {
            // 2. Find repeat backward.
            (Resolver { held: mods, count: count0, find: find1 }, Some(Action::FindRepeat { ch: find1->ch, forward: false }))
        } else {
            let find2 = if mods.alt && find1 is Active { FindState::Inactive } else { find1 };
            if mods.alt && ck == Key::Char('f') {
                // 3. Begin find; a pending count is consumed.
                (Resolver { held: mods, count: 0, find: FindState::Pending }, None)
            } else if mods.alt && key is Char && digit_of(key->Char_0) is Some && (digit_of(key->Char_0)->0 != 0
                || count0 > 0) {
                // 4. Alt + digit accumulates a repeat count.
                (Resolver { held: mods, count: push_digit(count0, digit_of(key->Char_0)->0), find: find2 }, None)
            } else {
                match km.get(mods, ck) {
                    // 5. A keymap hit consumes the count; a motion carries it.
                    Some(a) => (Resolver { held: mods, count: 0, find: find2 }, Some(stamp_count(a, count0))),
                    None => if !mods.alt && !mods.ctrl && !mods.super_key {
                        // 6. Base layer: typing.
                        (Resolver { held: mods, count: count0, find: find2 }, Some(base_action(key, mods.shift)))
                    } else {
                        // 7. A modifier is held but the key is unbound.
                        (Resolver { held: mods, count: 0, find: find2 }, None)
                    },
                }
            }
        }
    }
}

/// What one raw event does: the next resolver state and the action, if any.
pub open spec fn resolve_spec(r: Resolver, event: InputEvent, km: Keymap) -> (Resolver, Option<Action>) {
    match event {
        InputEvent::ModifiersChanged { mods } => if mods.alt {
            (Resolver { held: mods, ..r }, None)
        } else {
            (Resolver { held: mods, count: 0, find: FindState::Inactive }, None)
        },
        InputEvent::FocusLost => (Resolver { held: Modifiers::none_spec(), count: 0, find: FindState::Inactive }, None),
        InputEvent::KeyUp { .. } => (r, None),
        InputEvent::InsertText(text) => (r, Some(Action::InsertText(text))),
        InputEvent::KeyDown { key, mods, .. } => key_down_spec(r, key, mods, km),
    }
}

impl Default for Resolver {
    fn default() -> (r: Self)
        ensures
            r == Resolver::new_spec(),
    {
        Resolver::new()
    }
}

impl Resolver {
    /// The initial state: nothing held, no count, not finding.
    pub open spec fn new_spec() -> Resolver {
        Resolver { held: Modifiers::none_spec(), count: 0, find: FindState::Inactive }
    }

    /// The initial state: nothing held, no count, not finding.
    pub fn new() -> (r: Self)
        ensures
            r == Resolver::new_spec(),
    {
        Resolver { held: Modifiers::none(), count: 0, find: FindState::Inactive }
    }

    /// The modifiers currently held.
    pub fn held(&self) -> (r: Modifiers)
        ensures
            r == self.held,
    {
        self.held
    }

    /// The accumulated repeat count (0 = none).
    pub fn pending_count(&self) -> (r: usize)
        ensures
            r == self.count,
    {
        self.count
    }

    /// The find sub-mode.
    pub fn find_state(&self) -> (r: FindState)
        ensures
            r == self.find,
    {
        self.find
    }

    /// Resolve one raw input event into at most one action, updating state.
    pub fn resolve(&mut self, event: InputEvent, keymap: &Keymap) -> (r: Option<Action>)
        ensures
            *final(self) == resolve_spec(*old(self), event, *keymap).0,
            same_opt_action(r, resolve_spec(*old(self), event, *keymap).1),
    {
        match event {
            InputEvent::ModifiersChanged { mods } => {
                self.held = mods;
                if !mods.alt {
                    self.clear_alt_state();
                }
                None
            },
            InputEvent::FocusLost => {
                self.held = Modifiers::none();
                self.clear_alt_state();
                None
            },
            InputEvent::KeyUp { .. } => None,
            // External text (paste / IME) is not a keystroke: pass it straight
            // through, untouched by held-modifier or count/find state.
            InputEvent::InsertText(text) => Some(Action::InsertText(text)),
            InputEvent::KeyDown { key, mods, .. } => self.resolve_key_down(key, mods, keymap),
        }
    }

    /// Clear the Alt-gated state (repeat count and find sub-mode).
    fn clear_alt_state(&mut self)
        ensures
            *final(self) == (Resolver { count: 0, find: FindState::Inactive, ..*old(self) }),
    {
        self.count = 0;
        self.find = FindState::Inactive;
    }

    fn resolve_key_down(&mut self, key: Key, mods: Modifiers, keymap: &Keymap) -> (r: Option<Action>)
        ensures
            *final(self) == key_down_spec(*old(self), key, mods, *keymap).0,
            same_opt_action(r, key_down_spec(*old(self), key, mods, *keymap).1),
    {
        self.held = mods;
        if !mods.alt {
            // Alt-gated state cannot persist into a key pressed without Alt.
            self.clear_alt_state();
        }
        // 1. Find target capture: the next key after Alt+F is the literal target.
        if mods.alt && self.find == FindState::Pending {
            if let Key::Char(c) = key {
                self.find = FindState::Active { ch: c };
                return Some(Action::FindChar { ch: c });
            }
            // A non-char ends the pending find; fall through to handle the key.
            self.find = FindState::Inactive;
        }
        let ck = command_char(key);
        // 2. Find repeat: A/D step while find is active; any other key ends find
        //    and is then handled normally.
        if mods.alt {
            if let FindState::Active { ch } = self.find {
                if ck == Key::Char('d') {
                    return Some(Action::FindRepeat { ch, forward: true });
                } else if ck == Key::Char('a') {
                    return Some(Action::FindRepeat { ch, forward: false });
                } else {
                    self.find = FindState::Inactive;
                }
            }
        }
        // 3. Begin find. Entering the find sub-mode consumes any pending count.
        if mods.alt && ck == Key::Char('f') {
            self.count = 0;
            self.find = FindState::Pending;
            return None;
        }
        // 4. Repeat count: Alt + digit accumulates. A leading `0` is not a count,
        //    but `0` continues an in-progress count; the count saturates.
        if mods.alt {
            if let Key::Char(c) = key {
                if let Some(d) = digit_value(c) {
                    if d != 0 || self.count > 0 {
                        let m = match self.count.checked_mul(10) {
                            Some(v) => v,
                            None => usize::MAX,
                        };
                        self.count = m.saturating_add(d);
                        return None;
                    }
                }
            }
        }
        // 5. Keymap hit. A motion is stamped with the pending count (then it
        //    clears); any other bound action consumes the count too.
        if let Some(action) = keymap.lookup(self.held, ck) {
            let count = self.count;
            self.count = 0;
            if let Action::Move { motion, extend, .. } = action {
                return Some(Action::Move { motion, extend, count: if count >= 1 { count } else { 1 } });
            }
            return Some(action);
        }
        // 6. Base layer (no Alt/Ctrl/Super): typing. Shift only capitalizes, and
        //    the reported char already carries that.
        if !self.held.alt && !self.held.ctrl && !self.held.super_key {
            let shift = self.held.shift;
            return Some(
                match key {
                    Key::Char(c) => Action::InsertChar(c),
                    Key::Enter => Action::InsertNewline,
                    Key::Backspace => Action::DeleteBackward,
                    Key::Delete => Action::DeleteForward,
                    Key::Escape => Action::CollapseSelection,
                    Key::ArrowLeft => Action::Move { motion: Motion::Char(Direction::Left), extend: shift, count: 1 },
                    Key::ArrowRight => Action::Move { motion: Motion::Char(Direction::Right), extend: shift, count: 1 },
                    Key::ArrowUp => Action::Move { motion: Motion::Char(Direction::Up), extend: shift, count: 1 },
                    Key::ArrowDown => Action::Move { motion: Motion::Char(Direction::Down), extend: shift, count: 1 },
                    Key::Home => Action::Move { motion: Motion::LineEdge(Direction::Left), extend: shift, count: 1 },
                    Key::End => Action::Move { motion: Motion::LineEdge(Direction::Right), extend: shift, count: 1 },
                    Key::PageUp => Action::MovePage { direction: Direction::Up, extend: shift, rows: 0 },
                    Key::PageDown => Action::MovePage { direction: Direction::Down, extend: shift, rows: 0 },
                },
            );
        }
        // 7. A modifier is held but the key is unbound: cancel any pending count.
        self.count = 0;
        None
    }
}

/// Lowercase an ASCII-letter keycap for command dispatch. Non-letters and the
/// find *target* are matched verbatim.
fn command_char(key: Key) -> (r: Key)
    ensures
        r == command_key(key),
{
    match key {
        Key::Char(c) => Key::Char(ascii_lowercase(c)),
        other => other,
    }
}

/// `char::to_ascii_lowercase`.
fn ascii_lowercase(c: char) -> (r: char)
    ensures
        r == ascii_lower(c),
{
    if 'A' <= c && c <= 'Z' {
        let u = (c as u8) + 32;
        u as char
    } else {
        c
    }
}

/// `char::to_digit(10)`.
fn digit_value(c: char) -> (r: Option<usize>)
    ensures
        r == digit_of(c),
{
    if '0' <= c && c <= '9' {
        Some(((c as u32) - ('0' as u32)) as usize)
    } else {
        None
    }
}

/// Releasing Alt (any modifier change without Alt) or losing focus clears
/// the Alt-gated state — the repeat count and the find sub-mode — so no
/// quasimode can stay stuck; losing focus also forgets the held modifiers.
pub proof fn lemma_release_clears(r: Resolver, mods: Modifiers, km: Keymap)
    requires
        !mods.alt,
    ensures
        resolve_spec(r, InputEvent::ModifiersChanged { mods }, km).0 == (Resolver {
            held: mods,
            count: 0,
            find: FindState::Inactive,
        }),
        resolve_spec(r, InputEvent::ModifiersChanged { mods }, km).1 is None,
        resolve_spec(r, InputEvent::FocusLost, km).0 == Resolver::new_spec(),
        resolve_spec(r, InputEvent::FocusLost, km).1 is None,
{
}

/// With no modifier held, a char key types that char, whatever state the
/// resolver was in (for a keymap with no Base-layer bindings, such as the
/// default one): there is no mode to get stuck in.
pub proof fn lemma_bare_key_types(r: Resolver, c: char, km: Keymap)
    requires
        km.get(Modifiers::none_spec(), command_key(Key::Char(c))) is None,
    ensures
        key_down_spec(r, Key::Char(c), Modifiers::none_spec(), km) == (Resolver::new_spec(), Some(Action::InsertChar(c))),
{
}

/// A key with Alt held that is neither a count digit nor `F` nor a find
/// target never leaves a count behind: a resolved action consumes it, and an
/// unbound key cancels it.
pub proof fn lemma_count_consumed(r: Resolver, key: Key, mods: Modifiers, km: Keymap)
    requires
        mods.alt,
        r.find == FindState::Inactive,
        command_key(key) != Key::Char('f'),
        !(key is Char && digit_of(key->Char_0) is Some),
    ensures
        key_down_spec(r, key, mods, km).0.count == 0,
{
}

/// Commands are case-insensitive: with a modifier held (and no find target
/// pending, which takes the key literally), an uppercase ASCII letter does
/// exactly what its lowercase does — Shift selects the layer, not the letter.
pub proof fn lemma_commands_ignore_case(r: Resolver, c: char, mods: Modifiers, km: Keymap)
    requires
        'a' <= c <= 'z',
        mods.alt || mods.ctrl || mods.super_key,
        !(mods.alt && r.find == FindState::Pending),
    ensures
        key_down_spec(r, Key::Char(((c as u32) - 32) as char), mods, km) == key_down_spec(r, Key::Char(c), mods, km),
{
    let u = ((c as u32) - 32) as char;
    assert('A' <= u <= 'Z');
    assert(ascii_lower(u) == c);
    assert(ascii_lower(c) == c);
    assert(digit_of(u) is None && digit_of(c) is None);
}

/// A key bound in its layer (outside the find sub-mode, and neither a count
/// digit nor `F` with Alt held) resolves to its binding: a motion carries the
/// pending count (at least 1; a count only exists with Alt held), any other
/// action is emitted as bound, and the count is consumed.
pub proof fn lemma_bound_key_resolves(r: Resolver, key: Key, mods: Modifiers, km: Keymap, a: Action)
    requires
        r.find == FindState::Inactive,
        !(mods.alt && command_key(key) == Key::Char('f')),
        !(mods.alt && key is Char && digit_of(key->Char_0) is Some && (digit_of(key->Char_0)->0 != 0 || r.count > 0)),
        km.get(mods, command_key(key)) == Some(a),
    ensures
        key_down_spec(r, key, mods, km) == (
        Resolver { held: mods, count: 0, find: FindState::Inactive },
        Some(stamp_count(a, if mods.alt { r.count } else { 0 })),
        ),
{
}

/// With the default keymap and no layer modifier held (Shift at most), every
/// key resolves to its plain-editor meaning — typing for chars, the editing
/// and navigation keys for the rest, Shift extending — and leaves no count
/// or find state behind.
pub proof fn lemma_base_layer_keys(r: Resolver, key: Key, mods: Modifiers, km: Keymap)
    requires
        !mods.alt && !mods.ctrl && !mods.super_key,
        forall|m: Modifiers, k: Key| #[trigger] km.get(m, k) == default_binding(m, k),
    ensures
        key_down_spec(r, key, mods, km) == (
        Resolver { held: mods, count: 0, find: FindState::Inactive },
        Some(base_action(key, mods.shift)),
        ),
{
    assert(km.get(mods, command_key(key)) == default_binding(mods, command_key(key)));
}

/// `a` with its extension flag set to `e` (a motion or page motion; any other
/// action as it is).
pub open spec fn with_extend(a: Action, e: bool) -> Action {
    match a {
        Action::Move { motion, count, .. } => Action::Move { motion, extend: e, count },
        Action::MovePage { direction, rows, .. } => Action::MovePage { direction, extend: e, rows },
        other => other,
    }
}

/// A navigation key: the arrows, Home/End and PageUp/PageDown.
pub open spec fn is_navigation_key(key: Key) -> bool {
    match key {
        Key::ArrowLeft | Key::ArrowRight | Key::ArrowUp | Key::ArrowDown | Key::Home | Key::End | Key::PageUp
        | Key::PageDown => true,
        _ => false,
    }
}

/// In the base layer Shift only turns on extension: with the default keymap
/// and no layer modifier, a navigation key resolves to a motion that moves
/// the caret without extending, and with Shift to the same motion extending
/// the selection; Enter, Backspace, Delete and Escape do the same with and
/// without Shift.
pub proof fn lemma_shift_only_extends(r: Resolver, key: Key, mods: Modifiers, km: Keymap)
    requires
        !mods.alt && !mods.ctrl && !mods.super_key,
        !(key is Char),
        forall|m: Modifiers, k: Key| #[trigger] km.get(m, k) == default_binding(m, k),
    ensures
        ({
            let a0 = key_down_spec(r, key, Modifiers { shift: false, ..mods }, km).1;
            let a1 = key_down_spec(r, key, Modifiers { shift: true, ..mods }, km).1;
            &&& a0 is Some
            &&& is_navigation_key(key) ==> (a0 matches Some(Action::Move { extend, .. }) && !extend) || (
            a0 matches Some(Action::MovePage { extend, .. }) && !extend)
            &&& a1 == Some(if is_navigation_key(key) { with_extend(a0.unwrap(), true) } else { a0.unwrap() })
        }),
{
    let m0 = Modifiers { shift: false, ..mods };
    let m1 = Modifiers { shift: true, ..mods };
    lemma_base_layer_keys(r, key, m0, km);
    lemma_base_layer_keys(r, key, m1, km);
}

} // verus!
