//! A minimal pager: the lines of a file or of the standard input on a terminal, with
//! scrolling, searching and filtering.
//!
//! - `input`: keys from the bytes that a terminal sends
//! - `cli`: the command line, and what is opened on its account
//! - `buffer`: the lines that were read so far
//! - `bmh`, `regexp`, `search`: looking for patterns
//! - `history`, `editor`: the patterns of before, and typing a new one
//! - `state`, `wrap`: what each key does, as a function on mathematical values
//! - `pager`, `render`: the pager, and its screen
//! - `ansi`, `width`, `terminal`, `text`: escape sequences, columns, control
//!   sequences and characters
pub mod ansi;
pub mod bmh;
pub mod buffer;
pub mod cli;
pub mod editor;
pub mod history;
pub mod input;
pub mod pager;
pub mod regexp;
pub mod render;
pub mod search;
pub mod state;
pub mod terminal;
pub mod text;
pub mod width;
pub mod wrap;
