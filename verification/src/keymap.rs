//! The declarative keymap: held modifiers select a [`Layer`]; the key selects
//! the [`Action`] within it.
//!
//! Layers are keyed by the exact [`Modifiers`] held, so the same keycap means
//! different things depending on which modifier is down — the quasimode idea
//! expressed as data. Keys are stored as the **lowercase keycap**
//! (`Char('w')`, not `Char('W')`); the resolver normalizes ASCII letter case
//! before looking up a modified layer.
//!
//! Not every behavior is a binding: the repeat count (`Alt+1..9`), the find
//! sub-mode (`Alt+F` then a char), and base-layer typing are resolver state,
//! not table entries (see `resolver`).

use vstd::prelude::*;

use crate::action::{Action, Direction, Expansion, Motion};
use crate::input::{Key, Modifiers};

verus! {

/// `a` is a copy of `b`: equal, or (for per-cursor texts, which carry a vector)
/// the same texts.
pub open spec fn same_action(a: Action, b: Action) -> bool {
    match (a, b) {
        (Action::InsertTexts(x), Action::InsertTexts(y)) => x@ == y@,
        _ => a == b,
    }
}

/// `a` and `b` are both absent, or copies of each other.
pub open spec fn same_opt_action(a: Option<Action>, b: Option<Action>) -> bool {
    match (a, b) {
        (None, None) => true,
        (Some(x), Some(y)) => same_action(x, y),
        _ => false,
    }
}

impl Action {
    /// A copy of this action.
    pub fn duplicate(&self) -> (r: Action)
        ensures
            same_action(r, *self),
    {
        match self {
            Action::InsertTexts(v) => {
                let w = v.clone();
                proof {
                    assert(w@ =~= v@);
                }
                Action::InsertTexts(w)
            },
            _ => self.copy_plain(),
        }
    }
}

/// The action bound to `key` in `b`, scanning from index `i`: the first
/// binding of the key wins.
pub open spec fn binding_from(b: Seq<(Key, Action)>, key: Key, i: int) -> Option<Action>
    decreases b.len() - i,
{
    if i < 0 || i >= b.len() {
        None
    } else if b[i].0 == key {
        Some(b[i].1)
    } else {
        binding_from(b, key, i + 1)
    }
}

/// The layer for `mods` in `ls`, scanning from index `i`: the first wins.
pub open spec fn layer_from(ls: Seq<(Modifiers, Layer)>, mods: Modifiers, i: int) -> Option<Layer>
    decreases ls.len() - i,
{
    if i < 0 || i >= ls.len() {
        None
    } else if ls[i].0 == mods {
        Some(ls[i].1)
    } else {
        layer_from(ls, mods, i + 1)
    }
}

/// One modifier layer: a flat list from key to the action it triggers.
#[derive(Clone, Debug)]
pub struct Layer {
    pub bindings: Vec<(Key, Action)>,
}

impl Layer {
    /// The action bound to `key` in this layer.
    pub open spec fn get(&self, key: Key) -> Option<Action> {
        binding_from(self.bindings@, key, 0)
    }

    fn new() -> (r: Self)
        ensures
            forall|k: Key| r.get(k) is None,
    {
        Layer { bindings: Vec::new() }
    }

    /// Bind `key` to `action`, replacing any earlier binding of the key.
    fn bind(&mut self, key: Key, action: Action)
        ensures
            forall|k: Key| #[trigger] final(self).get(k) == if k == key { Some(action) } else { old(self).get(k) },
    {
        let n = self.bindings.len();
        let mut i: usize = 0;
        while i < n && self.bindings[i].0 != key
            invariant
                n == self.bindings.len(),
                self.bindings@ == old(self).bindings@,
                i <= n,
                forall|m: int| 0 <= m < i ==> (#[trigger] self.bindings@[m]).0 != key,
            decreases n - i,
        {
            i = i + 1;
        }
        let ghost b = self.bindings@;
        if i < n {
            self.bindings.set(i, (key, action));
            proof {
                assert forall|k: Key| #[trigger] binding_from(self.bindings@, k, 0) == if k == key {
                    Some(action)
                } else {
                    binding_from(b, k, 0)
                } by {
                    lemma_bind_update(b, i as int, (key, action), k, 0);
                }
            }
        } else {
            self.bindings.push((key, action));
            proof {
                assert forall|k: Key| #[trigger] binding_from(self.bindings@, k, 0) == if k == key {
                    Some(action)
                } else {
                    binding_from(b, k, 0)
                } by {
                    lemma_bind_push(b, (key, action), k, 0);
                    lemma_binding_absent(b, key, 0);
                }
            }
        }
    }
}

proof fn lemma_binding_suffix(b1: Seq<(Key, Action)>, b2: Seq<(Key, Action)>, k: Key, j: int)
    requires
        0 <= j,
        b1.len() == b2.len(),
        forall|m: int| j <= m < b1.len() ==> b1[m] == b2[m],
    ensures
        binding_from(b1, k, j) == binding_from(b2, k, j),
    decreases b1.len() - j,
{
    if j < b1.len() {
        lemma_binding_suffix(b1, b2, k, j + 1);
    }
}

proof fn lemma_binding_absent(b: Seq<(Key, Action)>, key: Key, j: int)
    requires
        0 <= j,
        forall|m: int| j <= m < b.len() ==> (#[trigger] b[m]).0 != key,
    ensures
        binding_from(b, key, j) is None,
    decreases b.len() - j,
{
    if j < b.len() {
        lemma_binding_absent(b, key, j + 1);
    }
}

proof fn lemma_bind_update(b: Seq<(Key, Action)>, i: int, x: (Key, Action), k: Key, j: int)
    requires
        0 <= j <= i < b.len(),
        b[i].0 == x.0,
        forall|m: int| j <= m < i ==> (#[trigger] b[m]).0 != x.0,
    ensures
        binding_from(b.update(i, x), k, j) == if k == x.0 { Some(x.1) } else { binding_from(b, k, j) },
    decreases i - j,
{
    let nb = b.update(i, x);
    if j == i {
        lemma_binding_suffix(nb, b, k, i + 1);
    } else {
        lemma_bind_update(b, i, x, k, j + 1);
    }
}

proof fn lemma_bind_push(b: Seq<(Key, Action)>, x: (Key, Action), k: Key, j: int)
    requires
        0 <= j <= b.len(),
    ensures
        binding_from(b.push(x), k, j) == match binding_from(b, k, j) {
            Some(a) => Some(a),
            None => if k == x.0 { Some(x.1) } else { None },
        },
    decreases b.len() - j,
{
    let nb = b.push(x);
    if j < b.len() {
        assert(nb[j] == b[j]);
        lemma_bind_push(b, x, k, j + 1);
    } else {
        assert(nb[j] == x);
        assert(binding_from(nb, k, j + 1) is None);
        assert(binding_from(b, k, j) is None);
    }
}

/// The full keymap: one [`Layer`] per held-modifier combination.
#[derive(Clone, Debug)]
pub struct Keymap {
    pub layers: Vec<(Modifiers, Layer)>,
}

impl Default for Layer {
    fn default() -> (r: Self)
        ensures
            r.bindings@.len() == 0,
    {
        Layer { bindings: Vec::new() }
    }
}

impl Default for Keymap {
    fn default() -> (r: Self)
        ensures
            r.layers@.len() == 0,
    {
        Keymap { layers: Vec::new() }
    }
}

/// `Alt`.
pub open spec fn alt_mods() -> Modifiers {
    Modifiers { alt: true, ctrl: false, shift: false, super_key: false }
}

/// `Alt+Shift`.
pub open spec fn alt_shift_mods() -> Modifiers {
    Modifiers { alt: true, ctrl: false, shift: true, super_key: false }
}

/// `Ctrl`.
pub open spec fn ctrl_mods() -> Modifiers {
    Modifiers { alt: false, ctrl: true, shift: false, super_key: false }
}

/// `Ctrl+Shift`.
pub open spec fn ctrl_shift_mods() -> Modifiers {
    Modifiers { alt: false, ctrl: true, shift: true, super_key: false }
}

/// `Alt+Ctrl`.
pub open spec fn alt_ctrl_mods() -> Modifiers {
    Modifiers { alt: true, ctrl: true, shift: false, super_key: false }
}

/// The motion bound to a keycap on the Alt layers.
pub open spec fn motion_of(key: Key) -> Option<Motion> {
    match key {
        Key::Char('w') => Some(Motion::Char(Direction::Up)),
        Key::Char('s') => Some(Motion::Char(Direction::Down)),
        Key::Char('a') => Some(Motion::Char(Direction::Left)),
        Key::Char('d') => Some(Motion::Char(Direction::Right)),
        Key::Char('q') => Some(Motion::WordStart(Direction::Left)),
        Key::Char('e') => Some(Motion::WordStart(Direction::Right)),
        Key::Char('z') => Some(Motion::LineEdge(Direction::Left)),
        Key::Char('c') => Some(Motion::LineEdge(Direction::Right)),
        Key::Char('r') => Some(Motion::MatchingBracket),
        Key::Char('[') => Some(Motion::BlankLine(Direction::Up)),
        Key::Char(']') => Some(Motion::BlankLine(Direction::Down)),
        _ => None,
    }
}

/// The expansion bound to a keycap on the Alt layers.
pub open spec fn expansion_of(key: Key) -> Option<Expansion> {
    match key {
        Key::Char('i') => Some(Expansion::Enclosing),
        Key::Char('u') => Some(Expansion::EnclosingLeft),
        Key::Char('o') => Some(Expansion::BracketContent),
        Key::Char('p') => Some(Expansion::BracketAlternating),
        _ => None,
    }
}

/// An Alt layer: motions (extending with Shift held) and expansions.
pub open spec fn alt_binding(extend: bool, key: Key) -> Option<Action> {
    match motion_of(key) {
        Some(m) => Some(Action::Move { motion: m, extend, count: 1 }),
        None => match expansion_of(key) {
            Some(x) => Some(Action::Expand(x)),
            None => None,
        },
    }
}

/// The built-in Alteria bindings.
pub open spec fn default_binding(mods: Modifiers, key: Key) -> Option<Action> {
    if mods == alt_mods() {
        alt_binding(false, key)
    } else if mods == alt_shift_mods() {
        alt_binding(true, key)
    } else if mods == ctrl_mods() {
        match key {
            Key::Char('z') => Some(Action::Undo),
            Key::Char('y') => Some(Action::Redo),
            Key::Char('a') => Some(Action::SelectAll),
            Key::Char('c') => Some(Action::Copy),
            Key::Char('x') => Some(Action::Cut),
            Key::Char('v') => Some(Action::Paste),
            _ => None,
        }
    } else if mods == ctrl_shift_mods() {
        match key {
            Key::Char('z') => Some(Action::Redo),
            _ => None,
        }
    } else if mods == alt_ctrl_mods() {
        match key {
            Key::Char('w') => Some(Action::SpawnCursor(Direction::Up)),
            Key::Char('s') => Some(Action::SpawnCursor(Direction::Down)),
            _ => None,
        }
    } else {
        None
    }
}

impl Keymap {
    /// The action bound to `key` while `mods` are held.
    pub open spec fn get(&self, mods: Modifiers, key: Key) -> Option<Action> {
        match layer_from(self.layers@, mods, 0) {
            Some(l) => l.get(key),
            None => None,
        }
    }

    /// Look up the action bound to `key` while `mods` are held.
    pub fn lookup(&self, mods: Modifiers, key: Key) -> (r: Option<Action>)
        ensures
            same_opt_action(r, self.get(mods, key)),
    {
        let n = self.layers.len();
        let mut i: usize = 0;
        while i < n && self.layers[i].0 != mods
            invariant
                n == self.layers.len(),
                i <= n,
                layer_from(self.layers@, mods, i as int) == layer_from(self.layers@, mods, 0),
            decreases n - i,
        {
            i = i + 1;
        }
        if i == n {
            return None;
        }
        let layer = &self.layers[i].1;
        let m = layer.bindings.len();
        let mut j: usize = 0;
        while j < m && layer.bindings[j].0 != key
            invariant
                m == layer.bindings.len(),
                j <= m,
                binding_from(layer.bindings@, key, j as int) == binding_from(layer.bindings@, key, 0),
            decreases m - j,
        {
            j = j + 1;
        }
        if j == m {
            None
        } else {
            Some(layer.bindings[j].1.duplicate())
        }
    }

    /// The built-in Alteria keymap.
    pub fn default_alteria() -> (r: Self)
        ensures
            forall|mods: Modifiers, key: Key| #[trigger] r.get(mods, key) == default_binding(mods, key),
    {
        let mut layers: Vec<(Modifiers, Layer)> = Vec::new();

        let mut alt = motion_layer(false);
        add_expansions(&mut alt);
        layers.push((Modifiers { alt: true, ctrl: false, shift: false, super_key: false }, alt));

        // Alt+Shift: the same motions, extending; expansions are not motions,
        // so they are identical to the Alt layer.
        let mut alt_shift = motion_layer(true);
        add_expansions(&mut alt_shift);
        layers.push((Modifiers { alt: true, ctrl: false, shift: true, super_key: false }, alt_shift));

        let mut ctrl = Layer::new();
        ctrl.bind(Key::Char('z'), Action::Undo);
        ctrl.bind(Key::Char('y'), Action::Redo);
        ctrl.bind(Key::Char('a'), Action::SelectAll);
        ctrl.bind(Key::Char('c'), Action::Copy);
        ctrl.bind(Key::Char('x'), Action::Cut);
        ctrl.bind(Key::Char('v'), Action::Paste);
        layers.push((Modifiers { alt: false, ctrl: true, shift: false, super_key: false }, ctrl));

        // Ctrl+Shift: the second redo binding.
        let mut ctrl_shift = Layer::new();
        ctrl_shift.bind(Key::Char('z'), Action::Redo);
        layers.push((Modifiers { alt: false, ctrl: true, shift: true, super_key: false }, ctrl_shift));

        // Multicursor spawn.
        let mut alt_ctrl = Layer::new();
        alt_ctrl.bind(Key::Char('w'), Action::SpawnCursor(Direction::Up));
        alt_ctrl.bind(Key::Char('s'), Action::SpawnCursor(Direction::Down));
        layers.push((Modifiers { alt: true, ctrl: true, shift: false, super_key: false }, alt_ctrl));

        let r = Keymap { layers };
        proof {
            let ls = r.layers@;
            assert(ls.len() == 5);
            assert forall|mods: Modifiers, key: Key| #[trigger] r.get(mods, key) == default_binding(mods, key) by {
                assert(ls[0].0 == alt_mods());
                assert(ls[1].0 == alt_shift_mods());
                assert(ls[2].0 == ctrl_mods());
                assert(ls[3].0 == ctrl_shift_mods());
                assert(ls[4].0 == alt_ctrl_mods());
                assert(layer_from(ls, mods, 5) is None);
                if mods == alt_mods() {
                    assert(layer_from(ls, mods, 0) == Some(ls[0].1));
                    assert(ls[0].1.get(key) == alt_binding(false, key));
                } else if mods == alt_shift_mods() {
                    assert(layer_from(ls, mods, 0) == layer_from(ls, mods, 1));
                    assert(layer_from(ls, mods, 1) == Some(ls[1].1));
                    assert(ls[1].1.get(key) == alt_binding(true, key));
                } else if mods == ctrl_mods() {
                    assert(layer_from(ls, mods, 1) == layer_from(ls, mods, 2));
                    assert(layer_from(ls, mods, 2) == Some(ls[2].1));
                    assert(ls[2].1.get(key) == default_binding(mods, key));
                } else if mods == ctrl_shift_mods() {
                    assert(layer_from(ls, mods, 2) == layer_from(ls, mods, 3));
                    assert(layer_from(ls, mods, 3) == Some(ls[3].1));
                    assert(ls[3].1.get(key) == default_binding(mods, key));
                } else if mods == alt_ctrl_mods() {
                    assert(layer_from(ls, mods, 3) == layer_from(ls, mods, 4));
                    assert(layer_from(ls, mods, 4) == Some(ls[4].1));
                    assert(ls[4].1.get(key) == default_binding(mods, key));
                } else {
                    assert(layer_from(ls, mods, 4) == layer_from(ls, mods, 5));
                    assert(layer_from(ls, mods, 3) == layer_from(ls, mods, 4));
                    assert(layer_from(ls, mods, 2) == layer_from(ls, mods, 3));
                    assert(layer_from(ls, mods, 1) == layer_from(ls, mods, 2));
                    assert(layer_from(ls, mods, 0) == layer_from(ls, mods, 1));
                }
            }
        }
        r
    }
}

/// The collapsing/extending motion bindings shared by Alt and Alt+Shift.
fn motion_layer(extend: bool) -> (r: Layer)
    ensures
        forall|k: Key| #[trigger] r.get(k) == match motion_of(k) {
            Some(m) => Some(Action::Move { motion: m, extend, count: 1 }),
            None => None,
        },
{
    let mut l = Layer::new();
    // Inverted-T navigation.
    l.bind(Key::Char('w'), Action::Move { motion: Motion::Char(Direction::Up), extend, count: 1 });
    l.bind(Key::Char('s'), Action::Move { motion: Motion::Char(Direction::Down), extend, count: 1 });
    l.bind(Key::Char('a'), Action::Move { motion: Motion::Char(Direction::Left), extend, count: 1 });
    l.bind(Key::Char('d'), Action::Move { motion: Motion::Char(Direction::Right), extend, count: 1 });
    // Word / line / bracket.
    l.bind(Key::Char('q'), Action::Move { motion: Motion::WordStart(Direction::Left), extend, count: 1 });
    l.bind(Key::Char('e'), Action::Move { motion: Motion::WordStart(Direction::Right), extend, count: 1 });
    l.bind(Key::Char('z'), Action::Move { motion: Motion::LineEdge(Direction::Left), extend, count: 1 });
    l.bind(Key::Char('c'), Action::Move { motion: Motion::LineEdge(Direction::Right), extend, count: 1 });
    l.bind(Key::Char('r'), Action::Move { motion: Motion::MatchingBracket, extend, count: 1 });
    l.bind(Key::Char('['), Action::Move { motion: Motion::BlankLine(Direction::Up), extend, count: 1 });
    l.bind(Key::Char(']'), Action::Move { motion: Motion::BlankLine(Direction::Down), extend, count: 1 });
    l
}

/// Add the `I`/`U`/`O`/`P` expansion bindings (identical across Alt layers).
fn add_expansions(l: &mut Layer)
    ensures
        forall|k: Key| #[trigger] final(l).get(k) == match expansion_of(k) {
            Some(x) => Some(Action::Expand(x)),
            None => old(l).get(k),
        },
{
    l.bind(Key::Char('i'), Action::Expand(Expansion::Enclosing));
    l.bind(Key::Char('u'), Action::Expand(Expansion::EnclosingLeft));
    l.bind(Key::Char('o'), Action::Expand(Expansion::BracketContent));
    l.bind(Key::Char('p'), Action::Expand(Expansion::BracketAlternating));
}

} // verus!
