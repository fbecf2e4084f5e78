//! The error type for structural parse failures.

use vstd::prelude::*;

verus! {

/// The kind of error that a parse can report.
#[derive(Debug, Clone, Copy, PartialEq, Eq, Structural)]
pub enum SgfErrorKind {
    /// The input does not conform to the SGF grammar.
    ParseError,
}

/// An error returned by the structural parser. Semantic problems in property
/// values are never reported this way: they are kept in the tree as
/// `Unknown` or `Invalid` tokens.
#[derive(Debug, Clone, Copy, PartialEq, Eq, Structural)]
pub struct SgfError {
    pub kind: SgfErrorKind,
}

impl SgfError {
    /// A structural parse error.
    pub fn parse_error() -> (r: SgfError)
        ensures
            r.kind == SgfErrorKind::ParseError,
    {
        SgfError { kind: SgfErrorKind::ParseError }
    }
}

impl From<SgfErrorKind> for SgfError {
    fn from(kind: SgfErrorKind) -> (r: SgfError) {
        SgfError { kind }
    }
}

impl vstd::std_specs::convert::FromSpecImpl<SgfErrorKind> for SgfError {
    open spec fn obeys_from_spec() -> bool {
        true
    }

    open spec fn from_spec(kind: SgfErrorKind) -> SgfError {
        SgfError { kind }
    }
}

} // verus!
