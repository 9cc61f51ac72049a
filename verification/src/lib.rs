//! Motive: a task runner whose manifest is a small dialect of Lua.
//!
//! The library holds the manifest translator (lexer and parser), the task
//! table built from a manifest, the decisions of the command line, the
//! preparation of shell commands and the lookup of file-watch handlers.

pub mod text;
pub mod table;
pub mod lua;
pub mod watch;
pub mod cli;

pub mod laws;
