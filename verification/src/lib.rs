//! A line-oriented preprocessor for dotfiles.
//!
//! A file holds directive lines, marked by a prefix: conditionals (`IFDEF`,
//! `IFNDEF`, `IF` with `ELSE` and `ENDIF`), questions (`ASK` with `OPTION`
//! and `ENDASK`) and comments (`#`). The directives decide which of the
//! other lines stay. Escape sequences mark keys that are replaced by
//! substitutions or by the values of variables.
//!
//! - `command` recognises a directive in a line.
//! - `semantics` says what a sequence of directives means: the lines that
//!   it drops, or how it fails. `laws` holds what follows from that.
//! - `command_reader` computes it, in one pass over the sequence.
//! - `session` holds what an evaluation knows of the outside: expansions of
//!   variable expressions, and answers to questions.
//! - `env` expands variable expressions; `pattern` is its and the
//!   configuration's use of regular expressions.
//! - `config` holds the configuration of the files, and turns the content
//!   of a file into its preprocessed form.
//! - `text` and `table` are what the others share.
//!
//! Nothing here reads a file, the environment or the terminal, or runs a
//! command. Whatever a function has to know of the outside it is handed:
//! the variables in a `Table`, the outputs of commands in `Outputs`,
//! expansions and answers in a `Session`. Where something is not known, the
//! function fails and the error names it: `UnresolvedVariable`,
//! `UnansweredQuestion`, `CommandNotRun`. The caller finds it out, records
//! it, and calls again. Every function is determined by its arguments, so
//! a second call comes to the same point and goes on from there.

pub mod command;
pub mod command_reader;
pub mod config;
pub mod env;
pub mod error;
pub mod laws;
pub mod pattern;
pub mod semantics;
pub mod session;
pub mod table;
pub mod text;
