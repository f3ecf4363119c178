# parinfer_nvim

The editor-side logic of a parinfer integration for Neovim, written in Verus
and verified against its contracts.

- `src/graphemes.rs`: grapheme-cluster offsets and CJK display widths from
  `unicode-segmentation` and `unicode-width`, and the column arithmetic on them.
- `src/conversion.rs`, `src/position.rs`: byte column to visual column and
  back (past the last cluster: the display width, or the cluster count), and
  the differing region of two slices.
- `src/text.rs`: splitting a text into lines and joining lines.
- `src/dialect.rs`: the parinfer options of each Lisp dialect.
- `src/types.rs`: the request handed to the parinfer engine and its answer.
- `src/integration.rs`: shifting an indentation to a tab stop, building a
  request, reading an answer, converting cursors, changed lines.
- `src/neovim.rs`: the state kept per buffer, suggested edits, indentation and
  paren-trail decorations.
- `app/`: the Lua module (mlua) around the library; the parinfer engine is
  handed to it as a function.
