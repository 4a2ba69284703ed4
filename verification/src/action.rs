//! Editor intent, fully decoupled from the keys that triggered it.
//!
//! The keymap maps `(Modifiers, Key) -> Action`; the executor applies an
//! `Action` to the buffer. Nothing here knows about specific keys, so bindings
//! stay remappable without touching execution.

use vstd::prelude::*;

verus! {

/// A cardinal direction. Motions reuse it (`Up`/`Down` for vertical, `Left`/
/// `Right` for horizontal); some motions only use one axis (see [`Motion`]).
#[derive(Clone, Copy, PartialEq, Eq, Debug, Structural)]
pub enum Direction {
    Up,
    Down,
    Left,
    Right,
}

/// A cursor motion. All motions collapse by default; the Alt+Shift layer sets
/// `extend` on the [`Action::Move`] that carries them.
#[derive(Clone, Copy, PartialEq, Eq, Debug, Structural)]
pub enum Motion {
    /// `W`/`S`/`A`/`D` — one char/line in a direction.
    Char(Direction),
    /// `Q` = previous word start (`Left`), `E` = next word start (`Right`).
    WordStart(Direction),
    /// `Z` = line start (`Left`), `C` = line end (`Right`).
    LineEdge(Direction),
    /// `[` = previous blank line (`Up`), `]` = next blank line (`Down`).
    BlankLine(Direction),
    /// `R` — jump to the matching bracket (nesting-aware, across lines).
    MatchingBracket,
}

/// Selection-expansion variants (`I`/`U`/`O`/`P`).
#[derive(Clone, Copy, PartialEq, Eq, Debug, Structural)]
pub enum Expansion {
    /// `I` — next enclosing span, climbing one level out.
    Enclosing,
    /// `U` — like `Enclosing` but biased toward the start.
    EnclosingLeft,
    /// `O` — content inside the nearest pair, climbing to the parent's content.
    BracketContent,
    /// `P` — alternating content / pair-including-delimiters as it climbs.
    BracketAlternating,
}

/// What the engine should do — the single intent type the executor consumes.
#[derive(Clone, PartialEq, Debug)]
pub enum Action {
    /// Insert a printable char at every cursor, advance, collapse.
    InsertChar(char),
    /// Insert a newline at every cursor.
    InsertNewline,
    /// Delete the grapheme before each cursor's head (no-op at start), or the
    /// selected span.
    DeleteBackward,
    /// Delete the grapheme after each cursor's head (no-op at end), or the
    /// selected span.
    DeleteForward,
    /// `Esc` — collapse selection spans and drop to the primary cursor.
    CollapseSelection,
    /// Run `motion` `count` times; `extend` keeps the anchor (the resolver
    /// fills `count >= 1`).
    Move { motion: Motion, extend: bool, count: usize },
    /// `PageUp`/`PageDown` — move `rows` lines (the frontend knows how many
    /// rows are visible and fills it in; `0` is a no-op).
    MovePage { direction: Direction, extend: bool, rows: usize },
    /// `Ctrl+A` — select the whole document.
    SelectAll,
    /// `Ctrl+C` — copy (the frontend owns the clipboard).
    Copy,
    /// `Ctrl+X` — cut: what each selection copies is deleted (a bare cursor's
    /// whole line); the frontend puts it on the clipboard first.
    Cut,
    /// `Ctrl+V` — paste (the frontend reads the clipboard and sends the text).
    Paste,
    /// `Alt+F` then a char — jump to the next occurrence on the current line.
    FindChar { ch: char },
    /// `A`/`D` while find is active — repeat the search for the same target.
    FindRepeat { ch: char, forward: bool },
    /// `I`/`U`/`O`/`P` — expand the selection one level.
    Expand(Expansion),
    /// `Alt+Ctrl` `W`/`S` — spawn a cursor above/below.
    SpawnCursor(Direction),
    /// `Ctrl+Z` — step back one entry in the history.
    Undo,
    /// `Ctrl+Y` / `Ctrl+Shift+Z` — step forward one entry in the history.
    Redo,
    /// Inject external text (paste / IME) at every cursor: replace each
    /// selection with the string; an empty string deletes.
    InsertText(String),
    /// Inject one string per cursor — multicursor paste distribution. When the
    /// count matches the live cursors, the i-th cursor gets `texts[i]`;
    /// otherwise the whole `\n`-joined text goes at every cursor.
    InsertTexts(Vec<String>),
}

impl Action {
    /// A copy of an action that carries no vector of texts.
    pub fn copy_plain(&self) -> (r: Action)
        requires
            !(self is InsertTexts),
        ensures
            r == *self,
    {
        match self {
            Action::InsertChar(c) => Action::InsertChar(*c),
            Action::InsertNewline => Action::InsertNewline,
            Action::DeleteBackward => Action::DeleteBackward,
            Action::DeleteForward => Action::DeleteForward,
            Action::CollapseSelection => Action::CollapseSelection,
            Action::Move { motion, extend, count } => Action::Move { motion: *motion, extend: *extend, count: *count },
            Action::MovePage { direction, extend, rows } => Action::MovePage {
                direction: *direction,
                extend: *extend,
                rows: *rows,
            },
            Action::SelectAll => Action::SelectAll,
            Action::Copy => Action::Copy,
            Action::Cut => Action::Cut,
            Action::Paste => Action::Paste,
            Action::FindChar { ch } => Action::FindChar { ch: *ch },
            Action::FindRepeat { ch, forward } => Action::FindRepeat { ch: *ch, forward: *forward },
            Action::Expand(k) => Action::Expand(*k),
            Action::SpawnCursor(d) => Action::SpawnCursor(*d),
            Action::Undo => Action::Undo,
            Action::Redo => Action::Redo,
            Action::InsertText(s) => Action::InsertText(s.clone()),
            Action::InsertTexts(_) => Action::InsertTexts(Vec::new()),
        }
    }
}

} // verus!
