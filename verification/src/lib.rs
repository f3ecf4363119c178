//! Editor-side logic of a parinfer integration for Neovim: conversions between
//! byte columns and grapheme (visual) columns, line diffs, dialect options,
//! tab-stop based indentation and the bookkeeping of an editor buffer's state.

pub mod graphemes;
pub mod conversion;
pub mod position;
pub mod text;
pub mod types;
pub mod dialect;
pub mod integration;
pub mod neovim;

