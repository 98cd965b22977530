//! Errors raised by path parsing and tree mutation.

use vstd::prelude::*;

verus! {

/// A malformed path, or a path that addresses a node of the wrong kind
/// (`InvalidDotPath`), or a non-creating traversal that hit an absent key or
/// index (`PathNotFound`). Each variant carries the offending path text.
#[derive(Debug, PartialEq, Eq)]
pub enum RustyLangError {
    InvalidDotPath(String),
    PathNotFound(String),
}

impl RustyLangError {
    /// The text of the error, as shown to a user.
    pub open spec fn message_spec(&self) -> Seq<char> {
        match self {
            RustyLangError::InvalidDotPath(p) => "Invalid dot path: "@ + p@,
            RustyLangError::PathNotFound(p) => "Path not found: "@ + p@,
        }
    }

    /// Render the error as text.
    pub fn message(&self) -> (r: String)
        ensures
            r@ == self.message_spec(),
    {
        match self {
            RustyLangError::InvalidDotPath(p) => String::from_str("Invalid dot path: ").concat(
                p.as_str(),
            ),
            RustyLangError::PathNotFound(p) => String::from_str("Path not found: ").concat(
                p.as_str(),
            ),
        }
    }
}

} // verus!
