//! Structural paths: the route from an object's root to one of its fields,
//! step by step, where a step names a field or selects a position.

use vstd::prelude::*;

verus! {

/// One structural step of a path.
#[derive(Debug, PartialEq, Eq)]
pub enum Path {
    /// A named field.
    Ident(String),
    /// A numeric position.
    Index(u64),
}

/// Spec-level value of one path step.
pub enum PathV {
    Ident(Seq<char>),
    Index(u64),
}

impl View for Path {
    type V = PathV;

    open spec fn view(&self) -> PathV {
        match self {
            Path::Ident(s) => PathV::Ident(s@),
            Path::Index(i) => PathV::Index(*i),
        }
    }
}

impl Path {
    /// An equal copy of this step.
    pub fn duplicate(&self) -> (r: Path)
        ensures
            r@ == self@,
    {
        match self {
            Path::Ident(s) => Path::Ident(s.clone()),
            Path::Index(i) => Path::Index(*i),
        }
    }
}

/// The spec-level value of a whole path.
pub open spec fn path_view(p: Seq<Path>) -> Seq<PathV> {
    p.map_values(|s: Path| s@)
}

} // verus!
