//! Line parsing and command-name completion for an interactive shell.
//!
//! `command` splits an input line into words and redirection targets,
//! `completion` keeps a prefix tree of known command names and answers
//! completion requests, `builtin` describes the shell's own commands and
//! `error` holds the error type they share. `order` and `text` hold the
//! character-sequence helpers that these build on.

pub mod builtin;
pub mod command;
pub mod completion;
pub mod error;
pub mod order;
pub mod text;
