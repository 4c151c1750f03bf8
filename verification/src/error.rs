//! The error kinds the front end reports. File-level errors (a bad filename)
//! and per-alias resolution errors are recoverable: the run skips the failing
//! unit of work and continues with the rest.

use vstd::prelude::*;

verus! {

/// What can go wrong while loading files and resolving aliases.
#[derive(Debug)]
pub enum FridayError {
    /// The input path does not name a source file of this language.
    /// Carries the offending path.
    InvalidFilename(String),
    /// A module alias's dotted path does not lead to a concrete module:
    /// a segment is missing, an alias never resolved, or the chain comes
    /// back to itself. Carries a description of the failure.
    UnresolvableModulePath(String),
    /// An operation required a module record but found an alias.
    UnexpectedModuleAlias,
    /// An operation required a module alias but found a record.
    UnexpectedModuleRecord,
}

} // verus!
