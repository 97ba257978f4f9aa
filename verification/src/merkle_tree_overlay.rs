//! The structural overlay contract: a pure schema lookup from a path to the
//! tree node it addresses. The engine consumes this interface; each concrete
//! data type supplies its own implementation.

use crate::error::Error;
use crate::field::{node_wf, Node, NodeV};
use crate::path::{path_view, Path, PathV};
use vstd::prelude::*;

verus! {

/// A schema bound at compile time: resolves structural paths to node
/// descriptors. Resolution is a pure lookup — deterministic, and ignorant of
/// any cached chunk values.
pub trait MerkleTreeOverlay {
    /// The node, if any, that `path` resolves to against this schema.
    spec fn resolve_spec(path: Seq<PathV>) -> Option<NodeV>;

    /// Resolve `path` against the schema, or report that no field matches.
    fn get_node(path: &Vec<Path>) -> (r: Result<Node, Error>)
        requires
            path@.len() > 0,
        ensures
            match r {
                Ok(node) => Self::resolve_spec(path_view(path@)) == Some(node@) && node_wf(
                    node@,
                ),
                Err(e) => Self::resolve_spec(path_view(path@)) is None && (e matches
                Error::InvalidPath(p) && p@ == path@[0]@),
            },
    ;
}

} // verus!
