//! Interactive reverse-history search for shell command history.
//!
//! The crate loads a shell's history file, normalizes it into a
//! deduplicated, recency-ordered entry list, and drives an incremental
//! multi-dimension filter session over that list.  Terminal I/O and
//! argument handling live outside the library; the library holds the
//! parsing, filtering and session logic, each function with a contract.

use vstd::prelude::*;

pub mod app;
pub mod config;
pub mod history;
pub mod shell;
pub mod text;

verus! {

/// Errors raised by the library and by the surrounding program.
#[derive(Debug)]
pub enum Error {
    /// The requested shell name is not one of the supported shells.
    ShellDetection(String),
    /// The history file could not be opened or read.
    HistoryRead(String),
    /// A structural failure while parsing history (parsing is lenient,
    /// so this is rarely raised).
    HistoryParse(String),
    /// A terminal failure in the interactive front end.
    Ui(String),
    /// A low-level I/O failure, carried as its message.
    Io(String),
    /// Any other failure, such as an unresolvable home directory.
    Other(String),
}

} // verus!
