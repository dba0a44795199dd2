//! Error taxonomy for path parsing and tree operations.

use vstd::prelude::*;

verus! {

/// Failures of the path-addressed tree operations.
///
/// - `EmptyPath`: the path expression had zero characters, so no segment
///   sequence can be derived from it.
/// - `NotATable`: an intermediate path segment resolved to a non-table value
///   while walking during `set` or `remove`.
/// - `KeyNotFound`: `remove` met a missing intermediate segment; `get` reports
///   absence with `None` instead of this error.
#[derive(Debug, Clone, Copy, PartialEq, Eq, Structural)]
pub enum TomlerError {
    EmptyPath,
    NotATable,
    KeyNotFound,
}

impl TomlerError {
    /// A short human-readable description, for callers that print errors.
    pub fn describe(&self) -> (r: &'static str)
        ensures
            r@ == self.describe_spec(),
    {
        match self {
            TomlerError::EmptyPath => "empty path",
            TomlerError::NotATable => "not a table",
            TomlerError::KeyNotFound => "key not found",
        }
    }

    pub open spec fn describe_spec(self) -> Seq<char> {
        match self {
            TomlerError::EmptyPath => "empty path"@,
            TomlerError::NotATable => "not a table"@,
            TomlerError::KeyNotFound => "key not found"@,
        }
    }
}

} // verus!
