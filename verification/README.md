# alteria_core

The editing engine of Alteria, a keyboard-centric editor built on held-modifier
quasimodes: hold Alt to navigate, release it and you are typing again — there is
no mode to get stuck in.

Every stage of the `InputEvent -> Resolver -> Action -> Executor -> Buffer`
pipeline is a function over plain data, written in Verus with its contract
proved. The frontend feeds raw input events to `Editor::handle` and re-reads
`Editor::buffer` to draw.

## Layout

- `src/` — the verified library.
  - `input`, `keycap`: raw input as plain data; keystroke translation.
  - `keymap`, `resolver`: the layered keymap and the quasimode state machine.
  - `action`, `executor`: the actions and what each does to the buffer.
  - `buffer`, `selection`, `history`, `text`: the text model, multi-cursor
    selections with anchors, undo/redo, and char/byte/line arithmetic.
  - `char_kind`, `find`, `expand`: word classes and boundary scans,
    find-on-line, and selection expansion.
  - `clipboard`: what a copy writes (each selection's text, a bare cursor's
    whole line) and how a paste splits the clipboard back into pieces.
  - `transaction`, `op_output`: byte-level changesets over a `ropey` rope, with
    the proofs that `from_changes` applies its changes and `invert` undoes.
  - `locator`: dense position identifiers (`SmallVec` digits).
  - `highlight`: tree-sitter highlighting turned into sorted spans.
  - `layout`, `clock`: row/column lookups for rendering; the system clock.
- `tests/` — tests of the library on concrete values.
- `app/` — the GPUI frontend: window, event translation, rendering, scrolling,
  and reading and writing the system clipboard.

Contracts speak of chars (`Seq<char>`) where the text is concerned and of UTF-8
byte offsets where the outside world does; the laws that span several
functions are public proof functions named `lemma_*`.
