//! A shell prompt generator: user and host, virtual environment, working
//! directory (abbreviated, relative to home, or from the outermost
//! version-control root), exit status and the shell's end marker, with the
//! colour sequences escaped for the shell that prints it.
//!
//! The file system and the environment are read by the program around this
//! library; the library decides what to look up and what to print.

pub mod ansi;
pub mod cli;
pub mod host;
pub mod path;
pub mod prompt;
pub mod prompt_escape;
pub mod text;
pub mod vcs;
pub mod venv;
