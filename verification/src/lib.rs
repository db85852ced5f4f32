//! A most-recently-used list backed by a plain text file.
//!
//! One text item is merged into an ordered history: the item comes first,
//! earlier entries follow in their old order, duplicates of the item and of
//! one another are dropped, and the list is capped at a configured maximum.
//! The history is persisted one entry per line, most recent first.
//!
//! Everything here works on plain bytes, so the callers decide how the bytes
//! reach a file, standard input or standard output.

pub mod config;
pub mod input;
pub mod merge;
pub mod store;
pub mod text;

use vstd::prelude::*;

verus! {

/// A failure of one run, as reported on standard error.
#[derive(Clone, Copy, PartialEq, Eq, Structural, Debug)]
pub enum RunError {
    /// Standard input closed without providing any data.
    EmptyInput,
    /// The history file path could not be resolved.
    PathError,
    /// The count argument does not parse as a non-negative integer.
    InvalidCount,
    /// The history file could not be created or written.
    IoError,
}

impl RunError {
    /// The diagnostic text for this failure.
    pub fn message(&self) -> (r: &'static str)
        ensures
            r@ == match self {
                RunError::EmptyInput => "Expected input, but got nothing."@,
                RunError::PathError => "The history file path could not be resolved."@,
                RunError::InvalidCount => "Count must be an integer."@,
                RunError::IoError => "The history file could not be written."@,
            },
    {
        match self {
            RunError::EmptyInput => "Expected input, but got nothing.",
            RunError::PathError => "The history file path could not be resolved.",
            RunError::InvalidCount => "Count must be an integer.",
            RunError::IoError => "The history file could not be written.",
        }
    }
}

} // verus!
