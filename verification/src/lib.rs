//! Bulk rename planning: decompose an edited filename mapping into rename
//! chains and cycles that can be executed one file at a time without ever
//! overwriting an entry that has not been relocated yet.
//!
//! The crate models filenames as byte strings.  A directory snapshot is
//! paired line by line with the user's edited destination list; the resulting
//! mapping is validated, decomposed into acyclic chains and cycles, and
//! turned into an exact, ordered list of rename operations.  Cycles are
//! broken through a temporary holding directory.

pub mod bytes_order;
pub mod chains;
pub mod errors;
pub mod escape;
pub mod percent;
pub mod plan;
pub mod setup;
pub mod utf8;
