//! Typed judgments for the shell: requests of state and questions go to a
//! judgment service, and its answers come back as lines of JSON and exit codes.
//!
//! The library holds what the command line decides. Requests are built from
//! templates and parameters ([`request`], [`params`], [`shortcut`], [`input`]),
//! sent and tried again as [`api`] says, and come to the lines and exit codes of
//! [`run`]. Assertions turn answers into exit codes: [`lexer`] and [`syntax`]
//! read them, and [`assertion`] evaluates them. Documents are [`json`] trees
//! that [`document`] reads and prints. What touches files, the network and the
//! terminal is left to the program around the library.

pub mod api;
pub mod assertion;
pub mod cli;
pub mod command;
pub mod config;
pub mod diagnostics;
pub mod document;
pub mod error;
pub mod grammar;
pub mod input;
pub mod json;
pub mod lexer;
pub mod number;
pub mod params;
pub mod presets;
pub mod rendering;
pub mod request;
pub mod run;
pub mod shortcut;
pub mod syntax;
pub mod text;
