//! Descriptors returned by a structural overlay: what kind of tree node a
//! path resolves to and where its bytes sit.

use vstd::prelude::*;

verus! {

/// One primitive value packed inside a 32-byte leaf chunk.
#[derive(Debug, PartialEq, Eq)]
pub struct Leaf {
    /// Name of the field this entry holds.
    pub ident: String,
    /// Tree position of the chunk the entry lives in.
    pub index: u64,
    /// First byte of the entry within its chunk.
    pub offset: u8,
    /// Number of bytes the entry occupies.
    pub size: u8,
}

/// Spec-level value of a `Leaf`.
pub struct LeafV {
    pub ident: Seq<char>,
    pub index: u64,
    pub offset: u8,
    pub size: u8,
}

impl View for Leaf {
    type V = LeafV;

    open spec fn view(&self) -> LeafV {
        LeafV { ident: self.ident@, index: self.index, offset: self.offset, size: self.size }
    }
}

/// Descriptor of the tree node a path resolves to.
#[derive(Debug, PartialEq, Eq)]
pub enum Node {
    /// Root of an internal subtree.
    Composite(u64),
    /// Length chunk of a variable-size container.
    Length(u64),
    /// Packed leaf chunk holding one or more primitive entries.
    Primitive(Vec<Leaf>),
}

/// Spec-level value of a `Node`.
#[verifier::ext_equal]
pub enum NodeV {
    Composite(u64),
    Length(u64),
    Primitive(Seq<LeafV>),
}

impl View for Node {
    type V = NodeV;

    open spec fn view(&self) -> NodeV {
        match self {
            Node::Composite(i) => NodeV::Composite(*i),
            Node::Length(i) => NodeV::Length(*i),
            Node::Primitive(leaves) => NodeV::Primitive(leaves@.map_values(|l: Leaf| l@)),
        }
    }
}

/// A packed entry stays inside its 32-byte chunk and sits at a position
/// whose sibling and parent are representable.
pub open spec fn leaf_wf(l: LeafV) -> bool {
    &&& l.offset + l.size <= 32
    &&& l.index < u64::MAX
}

/// Entries of one primitive chunk never overlap.
pub open spec fn leaves_disjoint(ls: Seq<LeafV>) -> bool {
    forall|j: int, k: int|
        0 <= j < k < ls.len() ==> (#[trigger] ls[j]).offset + ls[j].size <= (#[trigger] ls[k]).offset
            || ls[k].offset + ls[k].size <= ls[j].offset
}

/// Well-formedness of a resolved node descriptor.
pub open spec fn node_wf(n: NodeV) -> bool {
    match n {
        NodeV::Composite(i) => i < u64::MAX,
        NodeV::Length(i) => i < u64::MAX,
        NodeV::Primitive(ls) => {
            &&& ls.len() >= 1
            &&& forall|k: int| 0 <= k < ls.len() ==> leaf_wf(#[trigger] ls[k])
            &&& leaves_disjoint(ls)
        },
    }
}

/// Tree position of the chunk a node descriptor speaks of.
pub open spec fn node_index(n: NodeV) -> u64 {
    match n {
        NodeV::Composite(i) => i,
        NodeV::Length(i) => i,
        NodeV::Primitive(ls) => if ls.len() > 0 {
            ls[0].index
        } else {
            0
        },
    }
}

impl Node {
    /// Tree position of the chunk this node describes.
    pub open spec fn spec_get_index(&self) -> u64 {
        node_index(self@)
    }

    /// Tree position of the chunk this node describes.
    pub fn get_index(&self) -> (r: u64)
        ensures
            r == self.spec_get_index(),
    {
        match self {
            Node::Composite(i) => *i,
            Node::Length(i) => *i,
            Node::Primitive(leaves) => if leaves.len() > 0 {
                leaves[0].index
            } else {
                0
            },
        }
    }
}

} // verus!
