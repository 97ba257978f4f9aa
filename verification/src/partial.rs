//! The facade: a chunk cache bound to one structural overlay. Wire-format
//! proofs are loaded and extracted here, and field bytes are read or spliced
//! through path resolution.

use crate::cache::{
    can_derive, chunk_of, contains_ix, derived_chunk, fill_down, fill_map, fill_step, refresh_res,
    spec_is_valid, Cache,
};
use crate::error::{Error, ErrorV};
use crate::field::{node_index, node_wf, Leaf, LeafV, Node, NodeV};
use crate::merkle_tree_overlay::MerkleTreeOverlay;
use crate::path::{path_view, Path, PathV};
use crate::tree_arithmetic::{
    is_ancestor, lemma_ancestor_le, lemma_ancestor_trans, lemma_child_of_parent,
    lemma_descendant_child, lemma_parent_lt, lemma_parent_ne_sibling, lemma_parent_of_children,
    lemma_path_steps_through_child, lemma_root_is_ancestor, lemma_sibling_basic,
    lemma_sibling_not_above, parent_index, sibling_index, spec_left_child, spec_parent,
    spec_right_child, spec_sibling,
};
use crate::{NodeIndex, SerializedPartial, BYTES_PER_CHUNK};
use core::marker::PhantomData;
use vstd::prelude::*;

verus! {

/// Entry `l` answers path step `step`: a numeric step matches the entry's
/// byte offset reduced to a byte, a named step matches the entry's name.
pub open spec fn entry_matches(l: LeafV, step: PathV) -> bool {
    match step {
        PathV::Index(v) => l.offset as int == (v as int) % 256,
        PathV::Ident(s) => l.ident == s,
    }
}

/// The first entry of `ls` that answers `step`; first match wins.
pub open spec fn first_match(ls: Seq<LeafV>, step: PathV) -> Option<LeafV>
    decreases ls.len(),
{
    if ls.len() == 0 {
        None
    } else if entry_matches(ls[0], step) {
        Some(ls[0])
    } else {
        first_match(ls.drop_first(), step)
    }
}

/// Where the bytes of the field at `path` sit: the chunk position and the
/// byte range `[begin, end)` within that chunk; or why resolution fails.
pub open spec fn spec_resolve_bytes<T: MerkleTreeOverlay>(path: Seq<PathV>) -> Result<
    (NodeIndex, int, int),
    ErrorV,
> {
    if path.len() == 0 {
        Err(ErrorV::EmptyPath)
    } else {
        match T::resolve_spec(path) {
            None => Err(ErrorV::InvalidPath(path[0])),
            Some(NodeV::Composite(i)) => Ok((i, 0, 32)),
            Some(NodeV::Length(i)) => Ok((i, 0, 32)),
            Some(NodeV::Primitive(ls)) => match first_match(ls, path.last()) {
                Some(l) => Ok((l.index, l.offset as int, l.offset + l.size)),
                None => Err(ErrorV::InvalidPath(path[0])),
            },
        }
    }
}

/// The chunk left at a position after a write of `bytes` to `[begin, end)`:
/// a 32-byte write replaces the chunk whole, a shorter write splices into
/// the existing chunk and preserves every byte outside the range.
pub open spec fn splice_chunk(chunk: Seq<u8>, begin: int, end: int, bytes: Seq<u8>) -> Seq<u8> {
    Seq::new(
        chunk.len(),
        |i: int|
            if begin <= i < end {
                bytes[i - begin]
            } else {
                chunk[i]
            },
    )
}

/// Cache contents after loading the first `n` pairs of a wire message, in
/// order: a later pair for the same position wins.
pub open spec fn load_upto(
    m: Map<NodeIndex, Seq<u8>>,
    inds: Seq<NodeIndex>,
    data: Seq<u8>,
    n: int,
) -> Map<NodeIndex, Seq<u8>>
    decreases n,
{
    if n <= 0 {
        m
    } else {
        load_upto(m, inds, data, n - 1).insert(
            inds[n - 1],
            data.subrange(32 * (n - 1), 32 * (n - 1) + 32),
        )
    }
}

/// Cache contents after loading a whole wire message.
pub open spec fn load_map(m: Map<NodeIndex, Seq<u8>>, sp: SerializedPartial) -> Map<
    NodeIndex,
    Seq<u8>,
> {
    load_upto(m, sp.indices@, sp.chunks@, sp.indices@.len() as int)
}


/// Positions of the sibling chain from `i` up to the root: the sibling of
/// `i`, then the sibling of `i`'s parent, and so on; empty for the root.
pub open spec fn branch_indices(i: int) -> Seq<int>
    decreases i,
{
    if i <= 0 {
        Seq::empty()
    } else {
        seq![spec_sibling(i)] + branch_indices(spec_parent(i))
    }
}

/// All positions of a proof for `leaf`: the leaf itself, then the sibling
/// chain to the root — what a verifier needs to recompute the root.
pub open spec fn proof_indices(leaf: int) -> Seq<int> {
    seq![leaf] + branch_indices(leaf)
}

/// The positions of `s` as mathematical integers.
pub open spec fn ints_of(s: Seq<NodeIndex>) -> Seq<int> {
    s.map_values(|x: NodeIndex| x as int)
}

/// The first position of `inds` whose chunk is absent from `m`, if any.
pub open spec fn first_missing(m: Map<NodeIndex, Seq<u8>>, inds: Seq<int>) -> Option<int>
    decreases inds.len(),
{
    if inds.len() == 0 {
        None
    } else if !contains_ix(m, inds[0]) {
        Some(inds[0])
    } else {
        first_missing(m, inds.drop_first())
    }
}

/// The `q`-th 32-byte slice of a flat chunk buffer.
pub open spec fn chunk_slice(bs: Seq<u8>, q: int) -> Seq<u8> {
    bs.subrange(32 * q, 32 * q + 32)
}

/// `x` is the sibling of some strict descendant `w` of `v` on the root path
/// of `leaf`.
pub open spec fn is_branch_elem(x: int, v: int, leaf: int) -> bool {
    exists|w: int|
        w >= 1 && w != v && is_ancestor(v, w) && is_ancestor(w, leaf) && x == spec_sibling(w)
}

/// Searching a concatenation whose first half is fully present finds the
/// first missing position in the second half.
proof fn lemma_first_missing_append(m: Map<NodeIndex, Seq<u8>>, a: Seq<int>, b: Seq<int>)
    requires
        forall|q: int| 0 <= q < a.len() ==> contains_ix(m, #[trigger] a[q]),
    ensures
        first_missing(m, a + b) == first_missing(m, b),
    decreases a.len(),
{
    if a.len() == 0 {
        assert(a + b =~= b);
    } else {
        assert((a + b)[0] == a[0]);
        assert((a + b).drop_first() =~= a.drop_first() + b);
        lemma_first_missing_append(m, a.drop_first(), b);
    }
}

/// Resolve `path` to the chunk position, begin offset and end offset of the
/// field it addresses.
pub fn bytes_at_path_helper<T: MerkleTreeOverlay>(path: &Vec<Path>) -> (r: Result<
    (NodeIndex, usize, usize),
    Error,
>)
    ensures
        match r {
            Ok(t) => spec_resolve_bytes::<T>(path_view(path@)) == Ok::<_, ErrorV>(
                (t.0, t.1 as int, t.2 as int),
            ) && t.1 <= t.2 <= 32 && t.0 < u64::MAX,
            Err(e) => spec_resolve_bytes::<T>(path_view(path@)) matches Err(ev) && e@ == ev,
        },
{
    if path.len() == 0 {
        return Err(Error::EmptyPath);
    }
    proof {
        assert(path_view(path@)[0] == path@[0]@);
        assert(path_view(path@).last() == path@.last()@);
    }
    let node = match T::get_node(path) {
        Ok(n) => n,
        Err(e) => {
            return Err(e);
        },
    };
    let ghost resolved = T::resolve_spec(path_view(path@));
    proof {
        assert(resolved == Some(node@));
    }
    match node {
        Node::Composite(i) => Ok((i, 0, 32)),
        Node::Length(i) => Ok((i, 0, 32)),
        Node::Primitive(leaves) => {
            let ghost lsv = leaves@.map_values(|l: Leaf| l@);
            let ghost step = path_view(path@).last();
            let last = &path[path.len() - 1];
            proof {
                assert(resolved == Some(NodeV::Primitive(lsv)));
                assert(lsv.skip(0) =~= lsv);
            }
            let mut k: usize = 0;
            while k < leaves.len()
                invariant
                    k <= leaves@.len(),
                    lsv == leaves@.map_values(|l: Leaf| l@),
                    lsv.len() == leaves@.len(),
                    step == path_view(path@).last(),
                    step == last@,
                    resolved == T::resolve_spec(path_view(path@)),
                    resolved == Some(NodeV::Primitive(lsv)),
                    path@.len() > 0,
                    path_view(path@).len() > 0,
                    node_wf(NodeV::Primitive(lsv)),
                    first_match(lsv, step) == first_match(lsv.skip(k as int), step),
                decreases leaves@.len() - k,
            {
                let l = &leaves[k];
                proof {
                    assert(l@ == lsv[k as int]);
                    assert(crate::field::leaf_wf(lsv[k as int]));
                }
                let is_match: bool = match last {
                    Path::Index(v) => {
                        let off: u8 = (*v % 256) as u8;
                        l.offset == off
                    },
                    Path::Ident(s) => l.ident == *s,
                };
                proof {
                    assert(is_match == entry_matches(lsv[k as int], step));
                    assert(lsv.skip(k as int)[0] == lsv[k as int]);
                }
                if is_match {
                    proof {
                        assert(first_match(lsv.skip(k as int), step) == Some(lsv[k as int]));
                    }
                    return Ok((l.index, l.offset as usize, l.offset as usize + l.size as usize));
                }
                proof {
                    assert(lsv.skip(k as int).drop_first() =~= lsv.skip(k as int + 1));
                }
                k = k + 1;
            }
            proof {
                assert(lsv.skip(k as int).len() == 0);
                assert(first_match(lsv, step) is None);
            }
            Err(Error::InvalidPath(path[0].duplicate()))
        },
    }
}

/// A `Partial` combines a sparse chunk cache with one overlay schema; it
/// loads and extracts wire-format proofs and reads or writes field bytes.
#[derive(Debug, PartialEq)]
pub struct Partial<T: MerkleTreeOverlay> {
    cache: Cache,
    _phantom: PhantomData<T>,
}

impl<T: MerkleTreeOverlay> Partial<T> {
    /// The cached chunk contents by tree position.
    pub closed spec fn view(&self) -> Map<NodeIndex, Seq<u8>> {
        self.cache@
    }

    /// Every cached chunk is 32 bytes.
    pub closed spec fn wf(&self) -> bool {
        self.cache.wf()
    }

    /// Initialize a `Partial` directly from a wire message.
    pub fn new(partial: SerializedPartial) -> (r: Self)
        requires
            partial.wf(),
        ensures
            r.wf(),
            r@ == load_map(Map::empty(), partial),
    {
        let mut ret = Partial { cache: Cache::new(), _phantom: PhantomData };
        // always succeeds: the cache starts empty
        ret.load_partial(partial).unwrap();
        ret
    }

    /// Populate the cache from a wire message, pair by pair; nothing is
    /// validated against any schema or root at load time.
    pub fn load_partial(&mut self, partial: SerializedPartial) -> (r: Result<(), Error>)
        requires
            old(self).wf(),
            partial.wf(),
        ensures
            final(self).wf(),
            r is Ok,
            final(self)@ == load_map(old(self)@, partial),
    {
        let ghost m0 = self@;
        let n = partial.indices.len();
        let total = partial.chunks.len();
        let mut k: usize = 0;
        while k < n
            invariant
                self.wf(),
                k <= n,
                n == partial.indices@.len(),
                total == partial.chunks@.len(),
                partial.wf(),
                self@ == load_upto(m0, partial.indices@, partial.chunks@, k as int),
            decreases n - k,
        {
            let index = partial.indices[k];
            let chunk = slice_range(&partial.chunks, 32 * k, 32 * k + 32);
            self.cache.insert(index, chunk);
            k = k + 1;
        }
        Ok(())
    }

    /// The bytes of the field at `path`, read from its chunk.
    pub fn get_bytes(&self, path: Vec<Path>) -> (r: Result<Vec<u8>, Error>)
        requires
            self.wf(),
        ensures
            ({
                let res = spec_resolve_bytes::<T>(path_view(path@));
                match r {
                    Ok(bytes) => res matches Ok(t) && contains_ix(self@, t.0 as int) && bytes@
                        == chunk_of(self@, t.0 as int).subrange(t.1, t.2),
                    Err(e) => match res {
                        Ok(t) => !contains_ix(self@, t.0 as int) && e@ == ErrorV::ChunkNotLoaded(
                            t.0,
                        ),
                        Err(ev) => e@ == ev,
                    },
                }
            }),
    {
        if path.len() == 0 {
            return Err(Error::EmptyPath);
        }
        let (index, begin, end) = match bytes_at_path_helper::<T>(&path) {
            Ok(t) => t,
            Err(e) => {
                return Err(e);
            },
        };
        match self.cache.get(index) {
            Some(c) => Ok(slice_range(c, begin, end)),
            None => Err(Error::ChunkNotLoaded(index)),
        }
    }

    /// Replace the bytes of the field at `path` with `bytes`: a 32-byte
    /// value overwrites the whole chunk, anything shorter splices into the
    /// already-present chunk and leaves bytes outside the field untouched.
    /// Ancestors are not recomputed; call `refresh` for a consistent root.
    pub fn set_bytes(&mut self, path: Vec<Path>, bytes: Vec<u8>) -> (r: Result<(), Error>)
        requires
            old(self).wf(),
            bytes@.len() == 32 || (spec_resolve_bytes::<T>(path_view(path@)) matches Ok(t)
                ==> bytes@.len() == t.2 - t.1),
        ensures
            final(self).wf(),
            ({
                let res = spec_resolve_bytes::<T>(path_view(path@));
                match res {
                    Err(ev) => r matches Err(e) && e@ == ev && final(self)@ == old(self)@,
                    Ok(t) => {
                        if bytes@.len() == 32 {
                            r is Ok && final(self)@ == old(self)@.insert(t.0, bytes@)
                        } else if contains_ix(old(self)@, t.0 as int) {
                            r is Ok && final(self)@ == old(self)@.insert(
                                t.0,
                                splice_chunk(chunk_of(old(self)@, t.0 as int), t.1, t.2, bytes@),
                            )
                        } else {
                            r matches Err(e) && e@ == ErrorV::ChunkNotLoaded(t.0) && final(self)@
                                == old(self)@
                        }
                    },
                }
            }),
    {
        if path.len() == 0 {
            return Err(Error::EmptyPath);
        }
        let (index, begin, end) = match bytes_at_path_helper::<T>(&path) {
            Ok(t) => t,
            Err(e) => {
                return Err(e);
            },
        };
        if bytes.len() == BYTES_PER_CHUNK {
            self.cache.insert(index, bytes);
            Ok(())
        } else {
            let existing = match self.cache.get(index) {
                Some(c) => {
                    proof {
                        assert(self@.contains_key(index));
                        assert(self@[index].len() == 32);
                        assert(c@.subrange(0, 32) =~= c@);
                    }
                    slice_range(c, 0, 32)
                },
                None => {
                    return Err(Error::ChunkNotLoaded(index));
                },
            };
            let merged = splice_exec(&existing, begin, end, &bytes);
            self.cache.insert(index, merged);
            Ok(())
        }
    }


    /// Generate a wire message proving that the field at `path` belongs to
    /// the current tree: its leaf chunk, then the sibling of every node on
    /// the walk from that leaf to the root. A sibling is skipped only when
    /// both of its children are already collected, which keeps the set
    /// minimal.
    pub fn extract_partial(&self, path: Vec<Path>) -> (r: Result<SerializedPartial, Error>)
        requires
            self.wf(),
        ensures
            ({
                if path@.len() == 0 {
                    r matches Err(e) && e@ == ErrorV::EmptyPath
                } else {
                    match T::resolve_spec(path_view(path@)) {
                        None => r matches Err(e) && e@ == ErrorV::InvalidPath(path@[0]@),
                        Some(n) => {
                            let leaf = node_index(n) as int;
                            let inds = proof_indices(leaf);
                            match first_missing(self@, inds) {
                                Some(j) => r matches Err(e) && e@ == ErrorV::ChunkNotLoaded(
                                    j as NodeIndex,
                                ),
                                None => r matches Ok(sp) && sp.wf() && ints_of(sp.indices@)
                                    == inds && (forall|q: int|
                                    0 <= q < inds.len() ==> #[trigger] chunk_slice(sp.chunks@, q)
                                        == chunk_of(self@, inds[q])),
                            }
                        },
                    }
                }
            }),
    {
        if path.len() == 0 {
            return Err(Error::EmptyPath);
        }
        proof {
            assert(path_view(path@)[0] == path@[0]@);
        }
        let node = match T::get_node(&path) {
            Ok(n) => n,
            Err(e) => {
                return Err(e);
            },
        };
        let ghost nv = node@;
        let mut visitor = node.get_index();
        let ghost leaf = visitor as int;
        proof {
            match nv {
                NodeV::Primitive(ls) => {
                    assert(crate::field::leaf_wf(ls[0]));
                },
                _ => {},
            }
            assert(leaf < u64::MAX);
        }
        let mut indices: Vec<NodeIndex> = Vec::new();
        let mut chunks: Vec<u8> = Vec::new();
        match self.cache.get(visitor) {
            Some(c) => {
                append_bytes(&mut chunks, c);
                indices.push(visitor);
            },
            None => {
                proof {
                    assert(proof_indices(leaf)[0] == leaf);
                    assert(first_missing(self@, proof_indices(leaf)) == Some(leaf));
                }
                return Err(Error::ChunkNotLoaded(visitor));
            },
        }
        proof {
            assert(ints_of(indices@) =~= seq![leaf]);
            assert(proof_indices(leaf) =~= ints_of(indices@) + branch_indices(leaf));
            assert(chunks@.subrange(0, 32) =~= chunks@);
            assert(chunk_slice(chunks@, 0) == chunk_of(self@, leaf));
        }
        while visitor > 0
            invariant
                self.wf(),
                path@.len() > 0,
                T::resolve_spec(path_view(path@)) == Some(nv),
                leaf == node_index(nv) as int,
                visitor as int <= leaf < u64::MAX,
                is_ancestor(visitor as int, leaf),
                indices@.len() >= 1,
                indices@[0] as int == leaf,
                ints_of(indices@).len() == indices@.len(),
                forall|q: int|
                    1 <= q < indices@.len() ==> is_branch_elem(
                        #[trigger] indices@[q] as int,
                        visitor as int,
                        leaf,
                    ),
                proof_indices(leaf) == ints_of(indices@) + branch_indices(visitor as int),
                chunks@.len() == 32 * indices@.len(),
                forall|q: int|
                    0 <= q < indices@.len() ==> contains_ix(self@, #[trigger] indices@[q] as int),
                forall|q: int|
                    0 <= q < indices@.len() ==> #[trigger] chunk_slice(chunks@, q) == chunk_of(
                        self@,
                        indices@[q] as int,
                    ),
            decreases visitor,
        {
            let ghost old_v = visitor as int;
            let ghost pre_inds = indices@;
            let ghost pre_chunks = chunks@;
            let s = sibling_index(visitor);
            let ghost sv = s as int;
            proof {
                lemma_sibling_basic(old_v);
            }
            let mut skip_sibling = false;
            if s < u64::MAX / 2 {
                let left = 2 * s + 1;
                let right = 2 * s + 2;
                if vec_contains(&indices, left) && vec_contains(&indices, right) {
                    skip_sibling = true;
                }
            }
            proof {
                let lc = 2 * sv + 1;
                lemma_parent_of_children(sv);
                lemma_sibling_not_above(old_v);
                lemma_parent_ne_sibling(old_v);
                assert forall|q: int| 0 <= q < indices@.len() implies indices@[q] as int != lc by {
                    let x = indices@[q] as int;
                    if x == lc {
                        assert(spec_parent(x) == sv);
                        if q == 0 {
                            // x is the leaf; its parent would be the sibling
                            if old_v == leaf {
                                assert(spec_parent(old_v) != spec_sibling(old_v));
                            } else {
                                assert(is_ancestor(old_v, spec_parent(leaf)));
                            }
                        } else {
                            let w = choose|w: int|
                                w >= 1 && w != old_v && is_ancestor(old_v, w) && is_ancestor(
                                    w,
                                    leaf,
                                ) && x == spec_sibling(w);
                            lemma_sibling_basic(w);
                            assert(spec_parent(w) == sv);
                            assert(is_ancestor(old_v, spec_parent(w)));
                        }
                    }
                }
                assert(!skip_sibling);
            }
            if !skip_sibling {
                match self.cache.get(s) {
                    Some(c) => {
                        append_bytes(&mut chunks, c);
                        indices.push(s);
                    },
                    None => {
                        proof {
                            assert forall|q: int|
                                0 <= q < ints_of(pre_inds).len() implies contains_ix(
                                self@,
                                #[trigger] ints_of(pre_inds)[q],
                            ) by {
                                assert(ints_of(pre_inds)[q] == pre_inds[q] as int);
                            }
                            lemma_first_missing_append(
                                self@,
                                ints_of(pre_inds),
                                branch_indices(old_v),
                            );
                            assert(branch_indices(old_v) == seq![sv] + branch_indices(
                                spec_parent(old_v),
                            ));
                            assert(branch_indices(old_v).len() >= 1);
                            assert(branch_indices(old_v)[0] == sv);
                            assert(!contains_ix(self@, sv));
                            assert(first_missing(self@, branch_indices(old_v)) == Some(sv));
                            assert(first_missing(self@, proof_indices(leaf)) == Some(sv));
                        }
                        return Err(Error::ChunkNotLoaded(s));
                    },
                }
            }
            visitor = parent_index(visitor);
            proof {
                let new_v = visitor as int;
                lemma_parent_lt(old_v);
                assert(new_v == spec_parent(old_v));
                assert(is_ancestor(new_v, new_v));
                assert(is_ancestor(new_v, old_v));
                lemma_ancestor_trans(new_v, old_v, leaf);
                // witnesses survive the step up, and the new sibling gets
                // the old visitor as its witness
                assert(ints_of(indices@) =~= ints_of(pre_inds) + seq![sv]);
                assert forall|q: int| 1 <= q < indices@.len() implies is_branch_elem(
                    #[trigger] indices@[q] as int,
                    new_v,
                    leaf,
                ) by {
                    if q < pre_inds.len() {
                        assert(is_branch_elem(indices@[q] as int, old_v, leaf));
                        let w = choose|w: int|
                            w >= 1 && w != old_v && is_ancestor(old_v, w) && is_ancestor(w, leaf)
                                && indices@[q] as int == spec_sibling(w);
                        lemma_ancestor_trans(new_v, old_v, w);
                        lemma_ancestor_le(new_v, w);
                        assert(w != new_v && is_ancestor(new_v, w));
                    } else {
                        assert(indices@[q] as int == sv);
                        assert(old_v >= 1 && old_v != new_v && is_ancestor(new_v, old_v)
                            && is_ancestor(old_v, leaf) && sv == spec_sibling(old_v));
                    }
                }
                assert(branch_indices(old_v) == seq![sv] + branch_indices(new_v));
                assert(ints_of(pre_inds) + branch_indices(old_v) =~= (ints_of(pre_inds) + seq![
                    sv,
                ]) + branch_indices(new_v));
                assert(proof_indices(leaf) == ints_of(indices@) + branch_indices(new_v));
                assert forall|q: int| 0 <= q < indices@.len() implies #[trigger] chunk_slice(
                    chunks@,
                    q,
                ) == chunk_of(self@, indices@[q] as int) by {
                    if q < pre_inds.len() {
                        assert(chunk_slice(chunks@, q) =~= chunk_slice(pre_chunks, q));
                        assert(indices@[q] == pre_inds[q]);
                    } else {
                        assert(chunk_slice(chunks@, q) =~= chunks@.subrange(
                            pre_chunks.len() as int,
                            chunks@.len() as int,
                        ));
                    }
                }
            }
        }
        proof {
            assert(branch_indices(0) =~= Seq::<int>::empty());
            assert(proof_indices(leaf) =~= ints_of(indices@));
            lemma_first_missing_append(self@, ints_of(indices@), Seq::<int>::empty());
            assert(ints_of(indices@) + Seq::<int>::empty() =~= ints_of(indices@));
            assert(first_missing(self@, proof_indices(leaf)) is None);
        }
        let sp = SerializedPartial { indices, chunks };
        Ok(sp)
    }

    /// Whether the cached chunks are consistent with the claimed root.
    pub fn is_valid(&self, root: Vec<u8>) -> (r: bool)
        requires
            self.wf(),
        ensures
            r == spec_is_valid(self@, root@),
    {
        self.cache.is_valid(root)
    }

    /// Insert every missing chunk derivable from chunks already present.
    pub fn fill(&mut self) -> (r: Result<(), Error>)
        requires
            old(self).wf(),
        ensures
            final(self).wf(),
            r is Ok,
            final(self)@ == fill_map(old(self)@),
    {
        self.cache.fill()
    }

    /// The stored root chunk, if it has been loaded or computed.
    pub fn root(&self) -> (r: Option<&Vec<u8>>)
        ensures
            match r {
                Some(c) => self@.contains_key(0) && c@ == self@[0],
                None => !self@.contains_key(0),
            },
    {
        self.cache.root()
    }

    /// Recompute all intermediate nodes and the root from the current
    /// leaves.
    pub fn refresh(&mut self) -> (r: Result<(), Error>)
        requires
            old(self).wf(),
        ensures
            final(self).wf(),
            match refresh_res(old(self)@) {
                Ok(m2) => r is Ok && final(self)@ == m2,
                Err(j) => r matches Err(e) && e == Error::ChunkNotLoaded(j),
            },
    {
        self.cache.refresh()
    }
}

/// The bytes of `c` in `[begin, end)`, as a fresh vector.
fn slice_range(c: &Vec<u8>, begin: usize, end: usize) -> (r: Vec<u8>)
    requires
        begin <= end <= c@.len(),
    ensures
        r@ == c@.subrange(begin as int, end as int),
{
    let mut r: Vec<u8> = Vec::new();
    let mut i: usize = begin;
    while i < end
        invariant
            begin <= i <= end <= c@.len(),
            r@ == c@.subrange(begin as int, i as int),
        decreases end - i,
    {
        r.push(c[i]);
        i = i + 1;
        proof {
            assert(r@ =~= c@.subrange(begin as int, i as int));
        }
    }
    r
}

/// The chunk that a splicing write leaves: `bytes` in `[begin, end)`, the
/// existing bytes elsewhere.
fn splice_exec(existing: &Vec<u8>, begin: usize, end: usize, bytes: &Vec<u8>) -> (r: Vec<u8>)
    requires
        begin <= end <= existing@.len(),
        bytes@.len() == end - begin,
    ensures
        r@ == splice_chunk(existing@, begin as int, end as int, bytes@),
{
    let mut r: Vec<u8> = Vec::new();
    let mut i: usize = 0;
    while i < existing.len()
        invariant
            i <= existing@.len(),
            begin <= end <= existing@.len(),
            bytes@.len() == end - begin,
            r@.len() == i,
            forall|j: int|
                0 <= j < i ==> r@[j] == (if begin <= j < end {
                    bytes@[j - begin]
                } else {
                    existing@[j]
                }),
        decreases existing@.len() - i,
    {
        if i >= begin && i < end {
            r.push(bytes[i - begin]);
        } else {
            r.push(existing[i]);
        }
        i = i + 1;
    }
    proof {
        assert(r@ =~= splice_chunk(existing@, begin as int, end as int, bytes@));
    }
    r
}



/// Writing a field and reading it back returns exactly the written bytes:
/// for a resolution `(index, begin, end)` and bytes of the field's width,
/// the chunk that `set_bytes` stores answers `get_bytes` with those bytes.
pub proof fn lemma_set_then_get_roundtrip(
    m: Map<NodeIndex, Seq<u8>>,
    index: NodeIndex,
    begin: int,
    end: int,
    bytes: Seq<u8>,
)
    requires
        0 <= begin <= end <= 32,
        bytes.len() == end - begin,
        crate::cache::chunks_sized(m),
        bytes.len() == 32 || contains_ix(m, index as int),
    ensures
        ({
            let written = if bytes.len() == 32 {
                bytes
            } else {
                splice_chunk(chunk_of(m, index as int), begin, end, bytes)
            };
            m.insert(index, written)[index].subrange(begin, end) == bytes
        }),
{
    let written = if bytes.len() == 32 {
        bytes
    } else {
        splice_chunk(chunk_of(m, index as int), begin, end, bytes)
    };
    if bytes.len() == 32 {
        assert(begin == 0 && end == 32);
        assert(written.subrange(begin, end) =~= bytes);
    } else {
        assert(m.contains_key(index));
        assert(chunk_of(m, index as int).len() == 32);
        assert(written.subrange(begin, end) =~= bytes);
    }
}

/// A splicing write touches only the addressed range: every byte outside
/// `[begin, end)` of the chunk is bit-identical to its pre-write value.
pub proof fn lemma_splice_preserves_outside(chunk: Seq<u8>, begin: int, end: int, bytes: Seq<u8>)
    requires
        0 <= begin <= end <= chunk.len(),
    ensures
        splice_chunk(chunk, begin, end, bytes).len() == chunk.len(),
        forall|j: int|
            0 <= j < chunk.len() && !(begin <= j < end) ==> #[trigger] splice_chunk(
                chunk,
                begin,
                end,
                bytes,
            )[j] == chunk[j],
{
}


/// Climbing the path: once a node `w` on the root path of `leaf` holds the
/// source cache's chunk in the filled cache, the sibling chain derives every
/// ancestor up to and including the root, each with the source's chunk.
proof fn lemma_chain_to_root(
    m: Map<NodeIndex, Seq<u8>>,
    m2: Map<NodeIndex, Seq<u8>>,
    r: Map<NodeIndex, Seq<u8>>,
    leaf: int,
    w: int,
)
    requires
        0 <= leaf < u64::MAX,
        forall|j: int|
            #[trigger] can_derive(m, j) ==> chunk_of(m, j) == derived_chunk(m, j),
        forall|v: int| 0 <= v && #[trigger] is_ancestor(v, leaf) ==> contains_ix(m, v),
        forall|v: int|
            1 <= v && #[trigger] is_ancestor(v, leaf) ==> contains_ix(m, spec_sibling(v)),
        forall|v: int|
            1 <= v && #[trigger] is_ancestor(v, leaf) ==> contains_ix(m2, spec_sibling(v)),
        forall|j: int|
            #[trigger] contains_ix(m2, j) ==> contains_ix(m, j) && chunk_of(m2, j) == chunk_of(
                m,
                j,
            ),
        forall|j: int|
            #[trigger] contains_ix(m2, j) ==> contains_ix(r, j) && chunk_of(r, j) == chunk_of(
                m2,
                j,
            ),
        forall|j: int| #[trigger] can_derive(r, j) ==> contains_ix(r, j),
        forall|j: int|
            #[trigger] contains_ix(r, j) && !contains_ix(m2, j) ==> can_derive(r, j) && chunk_of(
                r,
                j,
            ) == derived_chunk(r, j),
        0 <= w,
        is_ancestor(w, leaf),
        contains_ix(r, w),
        chunk_of(r, w) == chunk_of(m, w),
    ensures
        contains_ix(r, 0),
        chunk_of(r, 0) == chunk_of(m, 0),
    decreases w,
{
    if w > 0 {
        let p = spec_parent(w);
        let s = spec_sibling(w);
        lemma_parent_lt(w);
        lemma_sibling_basic(w);
        lemma_ancestor_le(w, leaf);
        if w % 2 == 1 {
            assert(w == 2 * p + 1);
            assert(s == 2 * p + 2);
        } else {
            assert(w == 2 * p + 2);
            assert(s == 2 * p + 1);
        }
        assert(contains_ix(m2, s));
        assert(contains_ix(r, s) && chunk_of(r, s) == chunk_of(m, s));
        assert(can_derive(r, p));
        assert(contains_ix(r, p));
        assert(derived_chunk(r, p) == derived_chunk(m, p));
        assert(contains_ix(m, w) && contains_ix(m, s));
        assert(can_derive(m, p));
        if contains_ix(m2, p) {
            assert(chunk_of(r, p) == chunk_of(m, p));
        } else {
            assert(chunk_of(r, p) == derived_chunk(r, p));
            assert(chunk_of(r, p) == chunk_of(m, p));
        }
        assert(is_ancestor(p, p));
        assert(is_ancestor(p, w));
        lemma_ancestor_trans(p, w, leaf);
        lemma_chain_to_root(m, m2, r, leaf, p);
    }
}

/// The extracted positions are sufficient: loading the leaf chunk and the
/// sibling chain of `leaf` — with the chunks a consistent source cache
/// holds there — into a fresh cache and gap-filling derives the root chunk,
/// equal to the source's root.
pub proof fn lemma_proof_chunks_sufficient(
    m: Map<NodeIndex, Seq<u8>>,
    m2: Map<NodeIndex, Seq<u8>>,
    leaf: int,
)
    requires
        0 <= leaf < u64::MAX,
        forall|j: int|
            #[trigger] can_derive(m, j) ==> chunk_of(m, j) == derived_chunk(m, j),
        forall|v: int| 0 <= v && #[trigger] is_ancestor(v, leaf) ==> contains_ix(m, v),
        forall|v: int|
            1 <= v && #[trigger] is_ancestor(v, leaf) ==> contains_ix(m, spec_sibling(v)),
        forall|j: int|
            #[trigger] contains_ix(m2, j) ==> contains_ix(m, j) && chunk_of(m2, j) == chunk_of(
                m,
                j,
            ),
        contains_ix(m2, leaf),
        forall|v: int|
            1 <= v && #[trigger] is_ancestor(v, leaf) ==> contains_ix(m2, spec_sibling(v)),
    ensures
        contains_ix(fill_map(m2), 0),
        chunk_of(fill_map(m2), 0) == chunk_of(m, 0),
{
    let r = fill_map(m2);
    crate::cache::lemma_fill_down_frame(m2, u64::MAX as int);
    crate::cache::lemma_fill_down_closed(m2, u64::MAX as int);
    crate::cache::lemma_fill_down_values(m2, u64::MAX as int);
    assert forall|j: int| #[trigger] can_derive(r, j) implies contains_ix(r, j) by {
        if j > u64::MAX as int {
            assert(!contains_ix(r, 2 * j + 1));
        }
    }
    assert forall|j: int|
        #[trigger] contains_ix(r, j) && !contains_ix(m2, j) implies can_derive(r, j) && chunk_of(
        r,
        j,
    ) == derived_chunk(r, j) by {
        if j > u64::MAX as int {
            assert(contains_ix(r, j) == contains_ix(m2, j));
        }
    }
    assert(is_ancestor(leaf, leaf));
    assert(contains_ix(r, leaf) && chunk_of(r, leaf) == chunk_of(m, leaf));
    lemma_chain_to_root(m, m2, r, leaf, leaf);
}


/// Every chunk in the filled extraction already appears in the consistent
/// source cache with the same bytes: collected chunks were copied from it,
/// and each derived chunk re-hashes a pair the source also derives its own
/// stored chunk from.
proof fn lemma_fill_provenance(
    m: Map<NodeIndex, Seq<u8>>,
    m2: Map<NodeIndex, Seq<u8>>,
    r: Map<NodeIndex, Seq<u8>>,
    j: int,
)
    requires
        forall|i: int|
            #[trigger] can_derive(m, i) ==> contains_ix(m, i) && chunk_of(m, i) == derived_chunk(
                m,
                i,
            ),
        forall|i: int|
            #[trigger] contains_ix(m2, i) ==> contains_ix(m, i) && chunk_of(m2, i) == chunk_of(
                m,
                i,
            ),
        forall|i: int|
            #[trigger] contains_ix(m2, i) ==> contains_ix(r, i) && chunk_of(r, i) == chunk_of(
                m2,
                i,
            ),
        forall|i: int|
            #[trigger] contains_ix(r, i) && !contains_ix(m2, i) ==> can_derive(r, i) && chunk_of(
                r,
                i,
            ) == derived_chunk(r, i),
        contains_ix(r, j),
    ensures
        contains_ix(m, j),
        chunk_of(r, j) == chunk_of(m, j),
    decreases u64::MAX as int - j,
{
    if !contains_ix(m2, j) {
        let c1 = spec_left_child(j);
        let c2 = spec_right_child(j);
        assert(can_derive(r, j));
        lemma_fill_provenance(m, m2, r, c1);
        lemma_fill_provenance(m, m2, r, c2);
        assert(can_derive(m, j));
    }
}

/// The extracted proof validates: loading the leaf chunk and the sibling
/// chain of `leaf` — with the chunks a consistent, path-covering source
/// cache holds there — into a fresh cache, gap-filling, and checking
/// against the source's root succeeds.
pub proof fn lemma_extracted_fill_validates(
    m: Map<NodeIndex, Seq<u8>>,
    m2: Map<NodeIndex, Seq<u8>>,
    leaf: int,
)
    requires
        0 <= leaf < u64::MAX,
        forall|j: int|
            #[trigger] can_derive(m, j) ==> contains_ix(m, j) && chunk_of(m, j) == derived_chunk(
                m,
                j,
            ),
        forall|v: int| 0 <= v && #[trigger] is_ancestor(v, leaf) ==> contains_ix(m, v),
        forall|v: int|
            1 <= v && #[trigger] is_ancestor(v, leaf) ==> contains_ix(m, spec_sibling(v)),
        forall|j: int|
            #[trigger] contains_ix(m2, j) ==> contains_ix(m, j) && chunk_of(m2, j) == chunk_of(
                m,
                j,
            ),
        contains_ix(m2, leaf),
        forall|v: int|
            1 <= v && #[trigger] is_ancestor(v, leaf) ==> contains_ix(m2, spec_sibling(v)),
    ensures
        spec_is_valid(fill_map(m2), chunk_of(m, 0)),
{
    let r = fill_map(m2);
    lemma_proof_chunks_sufficient(m, m2, leaf);
    crate::cache::lemma_fill_down_frame(m2, u64::MAX as int);
    crate::cache::lemma_fill_down_closed(m2, u64::MAX as int);
    crate::cache::lemma_fill_down_values(m2, u64::MAX as int);
    assert forall|j: int|
        #[trigger] contains_ix(r, j) && !contains_ix(m2, j) implies can_derive(r, j) && chunk_of(
        r,
        j,
    ) == derived_chunk(r, j) by {
        if j > u64::MAX as int {
            assert(contains_ix(r, j) == contains_ix(m2, j));
        }
    }
    assert forall|j: int| #[trigger] can_derive(r, j) implies contains_ix(r, j) && chunk_of(r, j)
        == derived_chunk(r, j) by {
        if j > u64::MAX as int {
            assert(!contains_ix(r, spec_left_child(j)));
        } else {
            assert(contains_ix(r, j));
            if contains_ix(m2, j) {
                let c1 = spec_left_child(j);
                let c2 = spec_right_child(j);
                lemma_fill_provenance(m, m2, r, c1);
                lemma_fill_provenance(m, m2, r, c2);
                assert(can_derive(m, j));
                assert(chunk_of(r, j) == chunk_of(m, j));
                assert(derived_chunk(r, j) == derived_chunk(m, j));
            }
        }
    }
    crate::cache::lemma_force_down_noop_on_consistent(r, u64::MAX as int);
}


/// A gap-filling pass cannot bridge a missing link `x`: if nothing at or
/// below `x` is present and no ancestor of `x`'s parent is present, the
/// pass derives nothing in either region — deriving below `x` would need
/// chunks below `x`, deriving `x`'s parent would need `x` itself, and
/// deriving anything above would need the level beneath it first.
proof fn lemma_fill_down_avoids(m: Map<NodeIndex, Seq<u8>>, x: int, i: int)
    requires
        x >= 1,
        forall|j: int| #[trigger] contains_ix(m, j) ==> !is_ancestor(x, j),
        forall|a: int| #[trigger] contains_ix(m, a) ==> !is_ancestor(a, spec_parent(x)),
    ensures
        forall|j: int| #[trigger] contains_ix(fill_down(m, i), j) ==> !is_ancestor(x, j),
        forall|a: int|
            #[trigger] contains_ix(fill_down(m, i), a) ==> !is_ancestor(a, spec_parent(x)),
    decreases i + 1,
{
    if i >= 0 {
        let m1 = fill_step(m, i);
        lemma_parent_lt(x);
        assert forall|j: int| #[trigger] contains_ix(m1, j) implies !is_ancestor(x, j)
            && !is_ancestor(j, spec_parent(x)) by {
            if !contains_ix(m, j) {
                assert(j == i && can_derive(m, i));
                assert(contains_ix(m, spec_left_child(i)));
                assert(contains_ix(m, spec_right_child(i)));
                if is_ancestor(x, i) {
                    lemma_descendant_child(x, i);
                }
                if is_ancestor(i, spec_parent(x)) {
                    if i == spec_parent(x) {
                        lemma_child_of_parent(x);
                        assert(contains_ix(m, x));
                        assert(is_ancestor(x, x));
                    } else {
                        assert(is_ancestor(i, spec_parent(x)));
                        if spec_parent(x) == 0 {
                            lemma_ancestor_le(i, 0);
                            assert(contains_ix(m, 2 * i + 1));
                        } else {
                            lemma_path_steps_through_child(i, spec_parent(x));
                        }
                    }
                }
            }
        }
        lemma_fill_down_avoids(m1, x, i - 1);
        assert(fill_down(m, i) == fill_down(m1, i - 1));
    }
}

/// Minimality of the proof positions: with the link `x` removed — nothing
/// at or below `x` present, no ancestor of `x`'s parent present, which is
/// how the extracted set looks after dropping one of its chunks — gap
/// filling cannot reconstruct the root chunk.
pub proof fn lemma_proof_chunks_minimal(m2: Map<NodeIndex, Seq<u8>>, x: int)
    requires
        x >= 1,
        forall|j: int| #[trigger] contains_ix(m2, j) ==> !is_ancestor(x, j),
        forall|a: int| #[trigger] contains_ix(m2, a) ==> !is_ancestor(a, spec_parent(x)),
    ensures
        !contains_ix(fill_map(m2), 0),
{
    lemma_fill_down_avoids(m2, x, u64::MAX as int);
    lemma_parent_lt(x);
    lemma_root_is_ancestor(spec_parent(x));
}

/// Whether `x` occurs in `v`.
fn vec_contains(v: &Vec<NodeIndex>, x: NodeIndex) -> (r: bool)
    ensures
        r == v@.contains(x),
{
    let mut k: usize = 0;
    while k < v.len()
        invariant
            k <= v@.len(),
            forall|j: int| 0 <= j < k ==> v@[j] != x,
        decreases v@.len() - k,
    {
        if v[k] == x {
            proof {
                assert(v@[k as int] == x);
            }
            return true;
        }
        k = k + 1;
    }
    proof {
        assert(!v@.contains(x));
    }
    false
}

/// Append the bytes of `src` to `dst`.
fn append_bytes(dst: &mut Vec<u8>, src: &Vec<u8>)
    ensures
        final(dst)@ == old(dst)@ + src@,
{
    proof {
        assert(dst@ =~= dst@ + src@.subrange(0, 0));
    }
    let mut i: usize = 0;
    while i < src.len()
        invariant
            i <= src@.len(),
            dst@ == old(dst)@ + src@.subrange(0, i as int),
        decreases src@.len() - i,
    {
        dst.push(src[i]);
        i = i + 1;
        proof {
            assert(dst@ =~= old(dst)@ + src@.subrange(0, i as int));
        }
    }
    proof {
        assert(old(dst)@ + src@.subrange(0, src@.len() as int) =~= old(dst)@ + src@);
    }
}

} // verus!
