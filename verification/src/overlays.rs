//! Example overlay schemas: small fixed object shapes resolved against the
//! implicit tree. They serve as templates for data types that register
//! their shape, and they drive the test suite.

use crate::error::Error;
use crate::field::{Leaf, LeafV, Node, NodeV};
use crate::merkle_tree_overlay::MerkleTreeOverlay;
use crate::path::{path_view, Path, PathV};
use vstd::prelude::*;

verus! {

/// An object of two unpacked 32-byte fields: `a` in the chunk at position 1
/// and `b` in the chunk at position 2, with the root at position 0.
#[derive(Clone, Debug, PartialEq, Eq)]
pub struct TwoLeafOverlay;

impl MerkleTreeOverlay for TwoLeafOverlay {
    open spec fn resolve_spec(path: Seq<PathV>) -> Option<NodeV> {
        if path.len() == 1 {
            if path[0] == PathV::Ident("a"@) {
                Some(NodeV::Composite(1))
            } else if path[0] == PathV::Ident("b"@) {
                Some(NodeV::Composite(2))
            } else {
                None
            }
        } else {
            None
        }
    }

    fn get_node(path: &Vec<Path>) -> (r: Result<Node, Error>) {
        proof {
            assert(path_view(path@)[0] == path@[0]@);
        }
        if path.len() == 1 {
            match &path[0] {
                Path::Ident(s) => {
                    if *s == "a".to_owned() {
                        Ok(Node::Composite(1))
                    } else if *s == "b".to_owned() {
                        Ok(Node::Composite(2))
                    } else {
                        Err(Error::InvalidPath(path[0].duplicate()))
                    }
                },
                Path::Index(_) => Err(Error::InvalidPath(path[0].duplicate())),
            }
        } else {
            Err(Error::InvalidPath(path[0].duplicate()))
        }
    }
}


/// An object holding one 32-byte field two levels down: `d` in the chunk at
/// position 5 (whose proof needs the sibling 6 and the uncle 1).
#[derive(Clone, Debug, PartialEq, Eq)]
pub struct DeepOverlay;

impl MerkleTreeOverlay for DeepOverlay {
    open spec fn resolve_spec(path: Seq<PathV>) -> Option<NodeV> {
        if path.len() == 1 {
            if path[0] == PathV::Ident("d"@) {
                Some(NodeV::Composite(5))
            } else if path[0] == PathV::Ident("e"@) {
                Some(NodeV::Composite(6))
            } else {
                None
            }
        } else {
            None
        }
    }

    fn get_node(path: &Vec<Path>) -> (r: Result<Node, Error>) {
        proof {
            assert(path_view(path@)[0] == path@[0]@);
        }
        if path.len() == 1 {
            match &path[0] {
                Path::Ident(s) => {
                    if *s == "d".to_owned() {
                        Ok(Node::Composite(5))
                    } else if *s == "e".to_owned() {
                        Ok(Node::Composite(6))
                    } else {
                        Err(Error::InvalidPath(path[0].duplicate()))
                    }
                },
                Path::Index(_) => Err(Error::InvalidPath(path[0].duplicate())),
            }
        } else {
            Err(Error::InvalidPath(path[0].duplicate()))
        }
    }
}

/// The packed leaf chunk of `PackedOverlay`: two 8-byte fields `x` and `y`
/// sharing the chunk at position 1.
pub open spec fn packed_pair() -> NodeV {
    NodeV::Primitive(
        seq![
            LeafV { ident: "x"@, index: 1, offset: 0, size: 8 },
            LeafV { ident: "y"@, index: 1, offset: 8, size: 8 },
        ],
    )
}

/// The unpacked leaf chunk of `PackedOverlay`: one 32-byte field `z` filling
/// the chunk at position 2.
pub open spec fn packed_whole() -> NodeV {
    NodeV::Primitive(seq![LeafV { ident: "z"@, index: 2, offset: 0, size: 32 }])
}

/// An object mixing packing granularities: `x` and `y` are 8-byte values
/// packed into the chunk at position 1 (also addressable numerically by
/// their byte offsets 0 and 8), `z` is a 32-byte value filling the chunk at
/// position 2, and `count` is that container's length chunk.
#[derive(Clone, Debug, PartialEq, Eq)]
pub struct PackedOverlay;

impl MerkleTreeOverlay for PackedOverlay {
    open spec fn resolve_spec(path: Seq<PathV>) -> Option<NodeV> {
        if path.len() == 1 {
            match path[0] {
                PathV::Ident(s) => if s == "x"@ || s == "y"@ {
                    Some(packed_pair())
                } else if s == "z"@ {
                    Some(packed_whole())
                } else if s == "count"@ {
                    Some(NodeV::Length(2))
                } else {
                    None
                },
                PathV::Index(v) => if v % 256 == 0 || v % 256 == 8 {
                    Some(packed_pair())
                } else {
                    None
                },
            }
        } else {
            None
        }
    }

    fn get_node(path: &Vec<Path>) -> (r: Result<Node, Error>) {
        proof {
            assert(path_view(path@)[0] == path@[0]@);
        }
        if path.len() == 1 {
            match &path[0] {
                Path::Ident(s) => {
                    if *s == "x".to_owned() || *s == "y".to_owned() {
                        Ok(make_packed_pair())
                    } else if *s == "z".to_owned() {
                        Ok(make_packed_whole())
                    } else if *s == "count".to_owned() {
                        Ok(Node::Length(2))
                    } else {
                        Err(Error::InvalidPath(path[0].duplicate()))
                    }
                },
                Path::Index(v) => {
                    let off = *v % 256;
                    if off == 0 || off == 8 {
                        Ok(make_packed_pair())
                    } else {
                        Err(Error::InvalidPath(path[0].duplicate()))
                    }
                },
            }
        } else {
            Err(Error::InvalidPath(path[0].duplicate()))
        }
    }
}

/// Build the packed `x`/`y` descriptor.
fn make_packed_pair() -> (r: Node)
    ensures
        r@ == packed_pair(),
        crate::field::node_wf(r@),
{
    let mut leaves: Vec<Leaf> = Vec::new();
    leaves.push(Leaf { ident: "x".to_owned(), index: 1, offset: 0, size: 8 });
    leaves.push(Leaf { ident: "y".to_owned(), index: 1, offset: 8, size: 8 });
    let node = Node::Primitive(leaves);
    proof {
        assert(leaves@.map_values(|l: Leaf| l@) =~= seq![
            LeafV { ident: "x"@, index: 1, offset: 0, size: 8 },
            LeafV { ident: "y"@, index: 1, offset: 8, size: 8 },
        ]);
        assert(node@ == packed_pair());
    }
    node
}

/// Build the whole-chunk `z` descriptor.
fn make_packed_whole() -> (r: Node)
    ensures
        r@ == packed_whole(),
        crate::field::node_wf(r@),
{
    let mut leaves: Vec<Leaf> = Vec::new();
    leaves.push(Leaf { ident: "z".to_owned(), index: 2, offset: 0, size: 32 });
    let node = Node::Primitive(leaves);
    proof {
        assert(leaves@.map_values(|l: Leaf| l@) =~= seq![
            LeafV { ident: "z"@, index: 2, offset: 0, size: 32 },
        ]);
        assert(node@ == packed_whole());
    }
    node
}

} // verus!
