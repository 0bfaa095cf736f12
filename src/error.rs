//! Error values returned by the library.
use vstd::prelude::*;

verus! {

/// A queried or required package name is absent from the catalog.
#[derive(Debug, Clone, PartialEq)]
pub struct NotFoundError {
    pub name: String,
}

/// A line-oriented descriptor is malformed.
#[derive(Debug, Clone, Copy, PartialEq, Eq)]
pub enum ParseError {
    /// The line of this index has a recognised key but no value after it.
    MissingValue(usize),
    /// No `Name` line precedes the end of the scanned part.
    MissingName,
    /// No `Version` line precedes the end of the scanned part.
    MissingVersion,
}

/// Resolving a package into a dependency tree failed.
#[derive(Debug, Clone, PartialEq)]
pub enum ResolveError {
    /// A package named in the tree is absent from the catalog.
    NotFound(String),
    /// The tree grew deeper than the number of packages in the catalog, so
    /// some package requires itself through a chain of requirements; the
    /// package at which the depth ran out is named.
    CycleOrDepth(String),
}

/// What a [`ResolveError`] says, with its name as a character sequence.
pub ghost enum ResolveFailure {
    NotFound(Seq<char>),
    CycleOrDepth(Seq<char>),
}

impl View for ResolveError {
    type V = ResolveFailure;

    open spec fn view(&self) -> ResolveFailure {
        match self {
            ResolveError::NotFound(n) => ResolveFailure::NotFound(n@),
            ResolveError::CycleOrDepth(n) => ResolveFailure::CycleOrDepth(n@),
        }
    }
}

} // verus!
