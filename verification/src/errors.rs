//! Errors surfaced while preparing or planning a bulk rename.

use vstd::prelude::*;

verus! {

/// A failure detected before any rename is executed.
#[derive(Debug, Clone, PartialEq, Eq)]
pub enum RenameError {
    /// The name is not valid text, so the unescaped strategy cannot write it.
    InvalidText { name: Vec<u8> },
    /// The name holds the active line separator, so the unescaped strategy
    /// cannot write it as a single line.
    SeparatorInName { name: Vec<u8> },
    /// The escape method named on the command line is unknown.
    UnknownEscape { value: String },
    /// The edited list has fewer lines than the snapshot has entries.
    TooFewEntries,
    /// Two sources were mapped to the same destination name.
    DuplicateDestination { first_source: Vec<u8>, second_source: Vec<u8>, dest: Vec<u8> },
}

} // verus!
