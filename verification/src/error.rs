//! Failure conditions surfaced to the immediate caller; nothing is retried
//! or logged internally.

use crate::path::{Path, PathV};
use crate::NodeIndex;
use vstd::prelude::*;

verus! {

/// Why an operation could not complete.
#[derive(Debug, PartialEq, Eq)]
pub enum Error {
    /// A path argument had zero steps; always a caller bug.
    EmptyPath,
    /// An access touched a tree position whose chunk is not in the cache;
    /// recoverable by loading more proof data and retrying.
    ChunkNotLoaded(NodeIndex),
    /// A path step does not resolve against the schema; a caller bug.
    InvalidPath(Path),
}

/// Spec-level value of an `Error`.
pub enum ErrorV {
    EmptyPath,
    ChunkNotLoaded(NodeIndex),
    InvalidPath(PathV),
}

impl View for Error {
    type V = ErrorV;

    open spec fn view(&self) -> ErrorV {
        match self {
            Error::EmptyPath => ErrorV::EmptyPath,
            Error::ChunkNotLoaded(i) => ErrorV::ChunkNotLoaded(*i),
            Error::InvalidPath(p) => ErrorV::InvalidPath(p@),
        }
    }
}

} // verus!
