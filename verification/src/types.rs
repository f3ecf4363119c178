//! The request handed to the parinfer engine and the answer it gives, holding
//! the fields that this library fills and reads.

use vstd::prelude::*;

verus! {

/// An edit of the text since the previous run.
pub struct Change {
    pub x: usize,
    pub line_no: usize,
    pub old_text: String,
    pub new_text: String,
}

/// The options of a parinfer run: cursor positions, the previous text, and
/// the syntax of the Lisp dialect at hand.
pub struct Options {
    pub cursor_x: Option<usize>,
    pub cursor_line: Option<usize>,
    pub prev_cursor_x: Option<usize>,
    pub prev_cursor_line: Option<usize>,
    pub prev_text: Option<String>,
    pub selection_start_line: Option<usize>,
    pub changes: Vec<Change>,
    pub comment_char: char,
    pub string_delimiters: Vec<String>,
    pub lisp_vline_symbols: bool,
    pub lisp_block_comments: bool,
    pub guile_block_comments: bool,
    pub scheme_sexp_comments: bool,
    pub janet_long_strings: bool,
    pub hy_bracket_strings: bool,
}

/// A parinfer run: its mode, the text and the options.
pub struct Request {
    pub mode: String,
    pub text: String,
    pub options: Options,
}

/// A position to which a line may be indented, found on an open paren.
pub struct TabStop {
    pub ch: String,
    pub x: usize,
    pub line_no: usize,
    pub arg_x: Option<usize>,
}

/// The closing parens at the end of a line.
pub struct ParenTrail {
    pub line_no: usize,
    pub start_x: usize,
    pub end_x: usize,
}

/// Why a run could not balance the text, and where.
pub struct Error {
    pub name: String,
    pub message: String,
    pub x: usize,
    pub line_no: usize,
}

/// What a run gives back: the new text and cursor, the tab stops and paren
/// trails of the new text, and the error, if any.
pub struct Answer {
    pub text: String,
    pub success: bool,
    pub error: Option<Error>,
    pub cursor_x: Option<usize>,
    pub cursor_line: Option<usize>,
    pub tab_stops: Vec<TabStop>,
    pub paren_trails: Vec<ParenTrail>,
}

} // verus!
