//! `alteria-core` — the editing engine for Alteria, a keyboard-centric,
//! non-modal editor built on held-modifier quasimodes.
//!
//! Every stage of the `InputEvent -> Resolver -> Action -> Executor -> Buffer`
//! pipeline is a function over plain data with a machine-checked contract. The
//! single entry point a frontend uses is [`Editor`]: feed it raw
//! [`InputEvent`](input::InputEvent)s and read [`Editor::buffer`] to render.

pub mod action;
pub mod buffer;
pub mod char_kind;
pub mod clipboard;
pub mod clock;
pub mod executor;
pub mod expand;
pub mod find;
pub mod highlight;
pub mod history;
pub mod input;
pub mod keycap;
pub mod keymap;
pub mod layout;
pub mod locator;
pub mod op_output;
pub mod resolver;
pub mod selection;
pub mod text;
pub mod transaction;

use vstd::prelude::*;

use buffer::Buffer;
use executor::applied;
use history::{consistent, History};
use input::InputEvent;
use keymap::{default_binding, same_action, Keymap};
use resolver::{resolve_spec, Resolver};

verus! {

/// The editor facade: ties the resolver, keymap, buffer, and history together.
///
/// The frontend translates OS events into [`InputEvent`]s, calls
/// [`Editor::handle`] for each, and re-reads [`Editor::buffer`] to draw when it
/// returns `true`.
pub struct Editor {
    pub buffer: Buffer,
    pub resolver: Resolver,
    pub keymap: Keymap,
    pub history: History,
}

impl Editor {
    /// The editor's invariant: a valid buffer with its history in lockstep.
    pub open spec fn inv(&self) -> bool {
        &&& self.buffer.wf()
        &&& consistent(self.history, self.buffer)
    }

    /// A new editor over `text`, with the default Alteria keymap and a single
    /// cursor at the start.
    pub fn new(text: &str) -> (r: Self)
        ensures
            r.inv(),
            r.buffer.chars@ == text::normalize_line_endings(text@),
            r.buffer.index_sels() == seq![selection::cursor_spec(0, 0)],
            r.resolver == Resolver::new_spec(),
            forall|mods: input::Modifiers, key: input::Key| #[trigger] r.keymap.get(mods, key) == default_binding(mods, key),
            r.history.undo_stack.len() == 0,
            r.history.redo_stack.len() == 0,
    {
        let buffer = Buffer::from_str(text);
        let history = History::new();
        let r = Editor { buffer, resolver: Resolver::new(), keymap: Keymap::default_alteria(), history };
        proof {
            assert(r.buffer.index_sels() =~= seq![selection::cursor_spec(0, 0)]);
        }
        r
    }

    /// Feed one raw input event. Returns `true` if the view should redraw
    /// (an action was executed): the resolver's next state is taken, and the
    /// action it produced, if any, is applied to the buffer and history.
    pub fn handle(&mut self, event: InputEvent) -> (r: bool)
        requires
            old(self).inv(),
        ensures
            final(self).inv(),
            final(self).resolver == resolve_spec(old(self).resolver, event, old(self).keymap).0,
            final(self).keymap == old(self).keymap,
            r == resolve_spec(old(self).resolver, event, old(self).keymap).1 is Some,
            r ==> applied(
                resolve_spec(old(self).resolver, event, old(self).keymap).1.unwrap(),
                old(self).history,
                old(self).buffer,
                final(self).history,
                final(self).buffer,
            ),
            !r ==> final(self).buffer == old(self).buffer && final(self).history == old(self).history,
    {
        let ghost spec_action = resolve_spec(self.resolver, event, self.keymap).1;
        match self.resolver.resolve(event, &self.keymap) {
            Some(action) => {
                let ghost a = action;
                executor::apply(action, &mut self.buffer, &mut self.history);
                proof {
                    assert(same_action(a, spec_action.unwrap()));
                }
                true
            },
            None => false,
        }
    }
}

} // verus!
