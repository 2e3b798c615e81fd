//! Completion of the word under the cursor of a shell command line.
//!
//! A line and a cursor go through `parser` (words and the cursor's word),
//! `completion` (the context of the request), `provider` (the sources of
//! candidates and their merge), `quoting` (filter, directory marks, common
//! prefix, quoting) and `editor` (the new line and cursor). `bash`, `history`,
//! `selector`, `fzf` and `config` hold what the library knows about the
//! programs and files around it; running and reading them is left to the
//! caller.
pub mod bash;
pub mod completion;
pub mod config;
pub mod editor;
pub mod fzf;
pub mod history;
pub mod parser;
pub mod provider;
pub mod quoting;
pub mod selector;
pub mod text;
