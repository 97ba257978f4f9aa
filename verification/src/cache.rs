//! Sparse mapping from tree position to 32-byte chunk.
//!
//! The cache stores only the positions a partial proof covers. Derivation of
//! missing or stale internal nodes is a single descending pass over
//! positions: a node's children sit at larger positions, so by the time the
//! pass reaches a node its children already hold their final value, and one
//! pass reaches the fixed point. The pass exists in three flavours with one
//! shared shape: `fill` (insert what is absent but derivable), the validity
//! walk (recompute wherever both children are present, on a scratch copy),
//! and `refresh` (recompute, failing where a node has one child but not the
//! other).

use crate::error::Error;
use crate::tree_arithmetic::{spec_left_child, spec_right_child};
use crate::NodeIndex;
use std::collections::HashMap;
use vstd::prelude::*;

verus! {

broadcast use vstd::std_specs::hash::group_hash_axioms;

/// The 32-byte digest that the canonical hash assigns to the concatenation
/// of a left and a right child chunk.
pub uninterp spec fn hash_of(left: Seq<u8>, right: Seq<u8>) -> Seq<u8>;

/// Relies on `tree_hash::merkle_root`: on exactly 64 bytes it returns the
/// 32-byte SHA-256 digest of those bytes (two leaves hash to their parent),
/// a function of the input bytes alone.
#[verifier::external_body]
pub(crate) fn hash_children(left: &Vec<u8>, right: &Vec<u8>) -> (r: Vec<u8>)
    requires
        left@.len() == 32,
        right@.len() == 32,
    ensures
        r@ == hash_of(left@, right@),
        r@.len() == 32,
{
    let mut bytes: Vec<u8> = Vec::with_capacity(64);
    bytes.extend_from_slice(left.as_slice());
    bytes.extend_from_slice(right.as_slice());
    tree_hash::merkle_root(&bytes, 0).to_vec()
}

/// The abstract cache contents: chunk values keyed by tree position.
pub open spec fn view_chunks(m: Map<NodeIndex, Vec<u8>>) -> Map<NodeIndex, Seq<u8>> {
    Map::new(|k: NodeIndex| m.contains_key(k), |k: NodeIndex| m[k]@)
}

/// Position `i` holds a chunk (false outside the representable range).
pub open spec fn contains_ix(m: Map<NodeIndex, Seq<u8>>, i: int) -> bool {
    0 <= i <= u64::MAX && m.contains_key(i as NodeIndex)
}

/// The chunk stored at position `i`.
pub open spec fn chunk_of(m: Map<NodeIndex, Seq<u8>>, i: int) -> Seq<u8> {
    m[i as NodeIndex]
}

/// Both children of `i` hold chunks, so `i`'s chunk is derivable.
pub open spec fn can_derive(m: Map<NodeIndex, Seq<u8>>, i: int) -> bool {
    contains_ix(m, spec_left_child(i)) && contains_ix(m, spec_right_child(i))
}

/// The chunk that hashing `i`'s children yields.
pub open spec fn derived_chunk(m: Map<NodeIndex, Seq<u8>>, i: int) -> Seq<u8> {
    hash_of(chunk_of(m, spec_left_child(i)), chunk_of(m, spec_right_child(i)))
}

/// Every stored chunk is exactly 32 bytes.
pub open spec fn chunks_sized(m: Map<NodeIndex, Seq<u8>>) -> bool {
    forall|k: NodeIndex| #[trigger] m.contains_key(k) ==> m[k].len() == 32
}

/// One gap-filling step: derive position `i` only if it is absent.
pub open spec fn fill_step(m: Map<NodeIndex, Seq<u8>>, i: int) -> Map<NodeIndex, Seq<u8>> {
    if !contains_ix(m, i) && can_derive(m, i) {
        m.insert(i as NodeIndex, derived_chunk(m, i))
    } else {
        m
    }
}

/// Gap-filling steps applied at positions `i, i - 1, ..., 0`.
pub open spec fn fill_down(m: Map<NodeIndex, Seq<u8>>, i: int) -> Map<NodeIndex, Seq<u8>>
    decreases i + 1,
{
    if i < 0 {
        m
    } else {
        fill_down(fill_step(m, i), i - 1)
    }
}

/// The cache contents after `fill`: every position derivable from present
/// children, computed in dependency order, is inserted.
pub open spec fn fill_map(m: Map<NodeIndex, Seq<u8>>) -> Map<NodeIndex, Seq<u8>> {
    fill_down(m, u64::MAX as int)
}

/// One recomputation step: overwrite position `i` whenever both children are
/// present, keep it untouched otherwise.
pub open spec fn force_step(m: Map<NodeIndex, Seq<u8>>, i: int) -> Map<NodeIndex, Seq<u8>> {
    if can_derive(m, i) {
        m.insert(i as NodeIndex, derived_chunk(m, i))
    } else {
        m
    }
}

/// Recomputation steps applied at positions `i, i - 1, ..., 0`.
pub open spec fn force_down(m: Map<NodeIndex, Seq<u8>>, i: int) -> Map<NodeIndex, Seq<u8>>
    decreases i + 1,
{
    if i < 0 {
        m
    } else {
        force_down(force_step(m, i), i - 1)
    }
}

/// The cache contents after a full bottom-up recomputation from the current
/// leaves.
pub open spec fn force_map(m: Map<NodeIndex, Seq<u8>>) -> Map<NodeIndex, Seq<u8>> {
    force_down(m, u64::MAX as int)
}

/// The missing child that makes recomputation at `i` fail, if any: a node
/// reached through one present child demands the other.
pub open spec fn refresh_step_err(m: Map<NodeIndex, Seq<u8>>, i: int) -> Option<NodeIndex> {
    if contains_ix(m, spec_left_child(i)) && !contains_ix(m, spec_right_child(i)) && spec_right_child(i) <= u64::MAX {
        Some(spec_right_child(i) as NodeIndex)
    } else if !contains_ix(m, spec_left_child(i)) && contains_ix(m, spec_right_child(i)) {
        Some(spec_left_child(i) as NodeIndex)
    } else {
        None
    }
}

/// Refresh steps applied at positions `i, i - 1, ..., 0`: recompute each
/// node with both children present, fail on the first node with exactly one.
pub open spec fn refresh_down(m: Map<NodeIndex, Seq<u8>>, i: int) -> Result<
    Map<NodeIndex, Seq<u8>>,
    NodeIndex,
>
    decreases i + 1,
{
    if i < 0 {
        Ok(m)
    } else {
        match refresh_step_err(m, i) {
            Some(j) => Err(j),
            None => refresh_down(force_step(m, i), i - 1),
        }
    }
}

/// The outcome of `refresh`: the recomputed contents, or the first missing
/// sibling encountered on the way down.
pub open spec fn refresh_res(m: Map<NodeIndex, Seq<u8>>) -> Result<
    Map<NodeIndex, Seq<u8>>,
    NodeIndex,
> {
    refresh_down(m, u64::MAX as int)
}

/// The claimed root matches the chunk that a full recomputation leaves (or
/// already finds) at position 0.
pub open spec fn spec_is_valid(m: Map<NodeIndex, Seq<u8>>, root: Seq<u8>) -> bool {
    contains_ix(force_map(m), 0) && chunk_of(force_map(m), 0) == root
}

/// Sparse chunk storage; positions carry no invariant beyond chunk size, and
/// absence is an ordinary state.
#[derive(Clone, Debug, PartialEq)]
pub struct Cache {
    chunks: HashMap<NodeIndex, Vec<u8>>,
    upper: NodeIndex,
}

impl Cache {
    /// The cache as a mapping from position to chunk bytes.
    pub closed spec fn view(&self) -> Map<NodeIndex, Seq<u8>> {
        view_chunks(self.chunks@)
    }

    /// Every key stays at or below the tracked upper bound, which the
    /// derivation passes start from.
    pub closed spec fn keys_bounded(&self) -> bool {
        forall|k: NodeIndex| #[trigger] self.chunks@.contains_key(k) ==> k <= self.upper
    }

    /// All stored chunks are 32 bytes, and the key bound is intact.
    pub open spec fn wf(&self) -> bool {
        self.keys_bounded() && chunks_sized(self@)
    }

    /// An empty cache.
    pub fn new() -> (r: Cache)
        ensures
            r.wf(),
            r@ == Map::<NodeIndex, Seq<u8>>::empty(),
    {
        let r = Cache { chunks: HashMap::new(), upper: 0 };
        proof {
            assert(r@ =~= Map::<NodeIndex, Seq<u8>>::empty());
        }
        r
    }

    /// Store `chunk` at `index`, overwriting any present chunk.
    pub fn insert(&mut self, index: NodeIndex, chunk: Vec<u8>)
        requires
            old(self).wf(),
            chunk@.len() == 32,
        ensures
            final(self).wf(),
            final(self)@ == old(self)@.insert(index, chunk@),
    {
        let ghost pre = self.chunks@;
        if index > self.upper {
            self.upper = index;
        }
        self.chunks.insert(index, chunk);
        proof {
            assert(self@ =~= view_chunks(pre).insert(index, chunk@));
        }
    }

    /// The chunk stored at `index`, if any; absence is not a fault.
    pub fn get(&self, index: NodeIndex) -> (r: Option<&Vec<u8>>)
        ensures
            match r {
                Some(c) => self@.contains_key(index) && c@ == self@[index],
                None => !self@.contains_key(index),
            },
    {
        self.chunks.get(&index)
    }

    /// The stored root chunk, if present; it is not necessarily fresh.
    pub fn root(&self) -> (r: Option<&Vec<u8>>)
        ensures
            match r {
                Some(c) => self@.contains_key(0) && c@ == self@[0],
                None => !self@.contains_key(0),
            },
    {
        self.get(0)
    }

    /// Insert every absent chunk that both children can derive, repeating in
    /// dependency order until the fixed point; underivable branches stay
    /// legitimately partial, so the call always succeeds.
    pub fn fill(&mut self) -> (r: Result<(), Error>)
        requires
            old(self).wf(),
        ensures
            final(self).wf(),
            r is Ok,
            final(self)@ == fill_map(old(self)@),
    {
        let ghost m0 = self@;
        let b: NodeIndex = self.upper / 2;
        proof {
            self.lemma_quiet_above(b as int);
            lemma_fill_down_noop_above(m0, b as int, u64::MAX as int);
        }
        let mut i: NodeIndex = b;
        let mut done: bool = false;
        while !done
            invariant
                self.wf(),
                fill_down(m0, b as int) == fill_map(m0),
                !done ==> i <= b,
                !done ==> fill_down(self@, i as int) == fill_down(m0, b as int),
                done ==> self@ == fill_map(m0),
            decreases (if done { 0int } else { i as int + 1 }),
        {
            let ghost cur = self@;
            if i < u64::MAX / 2 {
                let l = 2 * i + 1;
                let r_ix = 2 * i + 2;
                if !self.chunks.contains_key(&i) && self.chunks.contains_key(&l)
                    && self.chunks.contains_key(&r_ix) {
                    let lc = copy_chunk_at(&self.chunks, l);
                    let rc = copy_chunk_at(&self.chunks, r_ix);
                    let h = hash_children(&lc, &rc);
                    self.insert(i, h);
                    proof {
                        assert(self@ =~= fill_step(cur, i as int));
                    }
                } else {
                    proof {
                        assert(self@ == fill_step(cur, i as int));
                    }
                }
            } else {
                proof {
                    assert(!can_derive(cur, i as int));
                    assert(self@ == fill_step(cur, i as int));
                }
            }
            proof {
                assert(fill_down(cur, i as int) == fill_down(self@, i as int - 1));
            }
            if i == 0 {
                done = true;
            } else {
                i = i - 1;
            }
        }
        Ok(())
    }

    /// Recompute every node whose children are both present, bottom-up on a
    /// scratch copy, and report whether the chunk ultimately computed (or
    /// already stored) at position 0 equals `root`. The cache itself is not
    /// touched.
    pub fn is_valid(&self, root: Vec<u8>) -> (r: bool)
        requires
            self.wf(),
        ensures
            r == spec_is_valid(self@, root@),
    {
        let ghost m0 = self@;
        let b: NodeIndex = self.upper / 2;
        proof {
            self.lemma_quiet_above(b as int);
            lemma_force_down_noop_above(m0, b as int, u64::MAX as int);
        }
        let mut scratch: HashMap<NodeIndex, Vec<u8>> = self.chunks.clone();
        let mut i: NodeIndex = b;
        let mut done: bool = false;
        while !done
            invariant
                chunks_sized(view_chunks(scratch@)),
                force_down(m0, b as int) == force_map(m0),
                !done ==> i <= b,
                !done ==> force_down(view_chunks(scratch@), i as int) == force_down(
                    m0,
                    b as int,
                ),
                done ==> view_chunks(scratch@) == force_map(m0),
            decreases (if done { 0int } else { i as int + 1 }),
        {
            let ghost cur = view_chunks(scratch@);
            if i < u64::MAX / 2 {
                let l = 2 * i + 1;
                let r_ix = 2 * i + 2;
                if scratch.contains_key(&l) && scratch.contains_key(&r_ix) {
                    let lc = copy_chunk_at(&scratch, l);
                    let rc = copy_chunk_at(&scratch, r_ix);
                    let h = hash_children(&lc, &rc);
                    scratch.insert(i, h);
                    proof {
                        assert(view_chunks(scratch@) =~= force_step(cur, i as int));
                    }
                } else {
                    proof {
                        assert(view_chunks(scratch@) == force_step(cur, i as int));
                    }
                }
            } else {
                proof {
                    assert(!can_derive(cur, i as int));
                    assert(view_chunks(scratch@) == force_step(cur, i as int));
                }
            }
            proof {
                assert(force_down(cur, i as int) == force_down(
                    view_chunks(scratch@),
                    i as int - 1,
                ));
            }
            if i == 0 {
                done = true;
            } else {
                i = i - 1;
            }
        }
        match scratch.get(&0u64) {
            Some(c) => vecs_equal(c, &root),
            None => false,
        }
    }

    /// Recompute every reachable internal node bottom-up from the current
    /// leaves, overwriting cached values including the root; fails on the
    /// first node reached through one present child whose other child is
    /// absent.
    pub fn refresh(&mut self) -> (r: Result<(), Error>)
        requires
            old(self).wf(),
        ensures
            final(self).wf(),
            match refresh_res(old(self)@) {
                Ok(m2) => r is Ok && final(self)@ == m2,
                Err(j) => r matches Err(e) && e == Error::ChunkNotLoaded(j),
            },
    {
        let ghost m0 = self@;
        let b: NodeIndex = self.upper / 2;
        proof {
            self.lemma_quiet_above(b as int);
            lemma_refresh_down_noop_above(m0, b as int, u64::MAX as int);
        }
        let mut i: NodeIndex = b;
        let mut done: bool = false;
        while !done
            invariant
                self.wf(),
                m0 == old(self)@,
                refresh_down(m0, b as int) == refresh_res(m0),
                !done ==> i <= b,
                !done ==> refresh_down(self@, i as int) == refresh_res(m0),
                done ==> refresh_res(m0) == Ok::<_, NodeIndex>(self@),
            decreases (if done { 0int } else { i as int + 1 }),
        {
            let ghost cur = self@;
            if i < u64::MAX / 2 {
                let l = 2 * i + 1;
                let r_ix = 2 * i + 2;
                let has_l = self.chunks.contains_key(&l);
                let has_r = self.chunks.contains_key(&r_ix);
                if has_l && !has_r {
                    proof {
                        assert(refresh_step_err(cur, i as int) == Some(r_ix));
                        assert(refresh_down(cur, i as int) matches Err(j) && j == r_ix);
                    }
                    return Err(Error::ChunkNotLoaded(r_ix));
                }
                if !has_l && has_r {
                    proof {
                        assert(refresh_step_err(cur, i as int) == Some(l));
                        assert(refresh_down(cur, i as int) matches Err(j) && j == l);
                    }
                    return Err(Error::ChunkNotLoaded(l));
                }
                if has_l && has_r {
                    let lc = copy_chunk_at(&self.chunks, l);
                    let rc = copy_chunk_at(&self.chunks, r_ix);
                    let h = hash_children(&lc, &rc);
                    self.insert(i, h);
                    proof {
                        assert(self@ =~= force_step(cur, i as int));
                    }
                } else {
                    proof {
                        assert(self@ == force_step(cur, i as int));
                    }
                }
            } else {
                proof {
                    assert(!can_derive(cur, i as int));
                    assert(refresh_step_err(cur, i as int) is None);
                    assert(self@ == force_step(cur, i as int));
                }
            }
            proof {
                assert(refresh_down(cur, i as int) == refresh_down(self@, i as int - 1));
            }
            if i == 0 {
                done = true;
            } else {
                i = i - 1;
            }
        }
        Ok(())
    }
}

/// No position above `b` has a present child chunk.
pub open spec fn quiet_above(m: Map<NodeIndex, Seq<u8>>, b: int) -> bool {
    forall|j: int|
        j > b ==> !contains_ix(m, #[trigger] spec_left_child(j)) && !contains_ix(
            m,
            spec_right_child(j),
        )
}

impl Cache {
    /// Positions above half the key bound have no present children, since a
    /// child of such a position would exceed every key.
    proof fn lemma_quiet_above(self, b: int)
        requires
            self.wf(),
            b == self.upper as int / 2,
        ensures
            quiet_above(self@, b),
    {
        assert forall|j: int| j > b implies !contains_ix(self@, #[trigger] spec_left_child(j))
            && !contains_ix(self@, spec_right_child(j)) by {
            if contains_ix(self@, spec_left_child(j)) {
                let k = (2 * j + 1) as NodeIndex;
                assert(self.chunks@.contains_key(k));
                assert(k <= self.upper);
            }
            if contains_ix(self@, spec_right_child(j)) {
                let k = (2 * j + 2) as NodeIndex;
                assert(self.chunks@.contains_key(k));
                assert(k <= self.upper);
            }
        }
    }
}

/// A gap-filling pass started above quiet positions takes no step there.
pub proof fn lemma_fill_down_noop_above(m: Map<NodeIndex, Seq<u8>>, b: int, hi: int)
    requires
        b <= hi,
        quiet_above(m, b),
    ensures
        fill_down(m, hi) == fill_down(m, b),
    decreases hi - b,
{
    if hi > b {
        assert(!can_derive(m, hi));
        assert(fill_step(m, hi) == m);
        lemma_fill_down_noop_above(m, b, hi - 1);
    }
}

/// A recomputation pass started above quiet positions takes no step there.
pub proof fn lemma_force_down_noop_above(m: Map<NodeIndex, Seq<u8>>, b: int, hi: int)
    requires
        b <= hi,
        quiet_above(m, b),
    ensures
        force_down(m, hi) == force_down(m, b),
    decreases hi - b,
{
    if hi > b {
        assert(!can_derive(m, hi));
        assert(force_step(m, hi) == m);
        lemma_force_down_noop_above(m, b, hi - 1);
    }
}

/// A refresh pass started above quiet positions neither fails nor changes
/// anything there.
pub proof fn lemma_refresh_down_noop_above(m: Map<NodeIndex, Seq<u8>>, b: int, hi: int)
    requires
        b <= hi,
        quiet_above(m, b),
    ensures
        refresh_down(m, hi) == refresh_down(m, b),
    decreases hi - b,
{
    if hi > b {
        assert(!can_derive(m, hi));
        assert(refresh_step_err(m, hi) is None);
        assert(force_step(m, hi) == m);
        lemma_refresh_down_noop_above(m, b, hi - 1);
    }
}


/// A gap-filling pass never disturbs what is present: existing chunks keep
/// their value, and positions above the pass start are untouched.
pub(crate) proof fn lemma_fill_down_frame(m: Map<NodeIndex, Seq<u8>>, i: int)
    ensures
        forall|j: int| #[trigger]
            contains_ix(m, j) ==> contains_ix(fill_down(m, i), j) && chunk_of(fill_down(m, i), j)
                == chunk_of(m, j),
        forall|j: int|
            j > i ==> #[trigger] contains_ix(fill_down(m, i), j) == contains_ix(m, j),
    decreases i + 1,
{
    if i >= 0 {
        let m1 = fill_step(m, i);
        lemma_fill_down_frame(m1, i - 1);
        assert(fill_down(m, i) == fill_down(m1, i - 1));
        assert forall|j: int| #[trigger] contains_ix(m, j) implies contains_ix(fill_down(m, i), j)
            && chunk_of(fill_down(m, i), j) == chunk_of(m, j) by {
            assert(contains_ix(m1, j) && chunk_of(m1, j) == chunk_of(m, j));
        }
        assert forall|j: int| j > i implies #[trigger] contains_ix(fill_down(m, i), j)
            == contains_ix(m, j) by {
            assert(contains_ix(fill_down(m1, i - 1), j) == contains_ix(m1, j));
            assert(contains_ix(m1, j) == contains_ix(m, j));
        }
    }
}

/// After a gap-filling pass, every position at or below the start whose
/// children are present is itself present.
pub(crate) proof fn lemma_fill_down_closed(m: Map<NodeIndex, Seq<u8>>, i: int)
    ensures
        forall|j: int|
            j <= i && #[trigger] can_derive(fill_down(m, i), j) ==> contains_ix(
                fill_down(m, i),
                j,
            ),
    decreases i + 1,
{
    if i >= 0 {
        let m1 = fill_step(m, i);
        let r = fill_down(m1, i - 1);
        lemma_fill_down_closed(m1, i - 1);
        lemma_fill_down_frame(m1, i - 1);
        assert(fill_down(m, i) == r);
        assert forall|j: int|
            j <= i && #[trigger] can_derive(fill_down(m, i), j) implies contains_ix(
            fill_down(m, i),
            j,
        ) by {
            if j == i {
                assert(contains_ix(r, spec_left_child(i)) == contains_ix(m1, spec_left_child(i)));
                assert(contains_ix(r, spec_right_child(i)) == contains_ix(
                    m1,
                    spec_right_child(i),
                ));
                assert(can_derive(m1, i));
                assert(contains_ix(m1, i));
            } else {
                assert(can_derive(r, j));
            }
        }
    }
}

/// On a cache already closed under derivation, a gap-filling pass is the
/// identity.
proof fn lemma_fill_down_noop_on_closed(m: Map<NodeIndex, Seq<u8>>, i: int)
    requires
        forall|j: int| #[trigger] can_derive(m, j) ==> contains_ix(m, j),
    ensures
        fill_down(m, i) == m,
    decreases i + 1,
{
    if i >= 0 {
        assert(fill_step(m, i) == m);
        lemma_fill_down_noop_on_closed(m, i - 1);
    }
}

/// Gap filling is idempotent: filling twice leaves exactly the contents a
/// single fill produces.
pub proof fn lemma_fill_idempotent(m: Map<NodeIndex, Seq<u8>>)
    ensures
        fill_map(fill_map(m)) == fill_map(m),
{
    let r = fill_map(m);
    lemma_fill_down_closed(m, u64::MAX as int);
    assert forall|j: int| #[trigger] can_derive(r, j) implies contains_ix(r, j) by {
        if j > u64::MAX as int {
            assert(!contains_ix(r, spec_left_child(j)));
        }
    }
    lemma_fill_down_noop_on_closed(r, u64::MAX as int);
}


/// Every chunk that a gap-filling pass inserts is the hash of its
/// children's final values.
pub(crate) proof fn lemma_fill_down_values(m: Map<NodeIndex, Seq<u8>>, i: int)
    ensures
        forall|j: int|
            j <= i && #[trigger] contains_ix(fill_down(m, i), j) && !contains_ix(m, j)
                ==> can_derive(fill_down(m, i), j) && chunk_of(fill_down(m, i), j)
                == derived_chunk(fill_down(m, i), j),
    decreases i + 1,
{
    if i >= 0 {
        let m1 = fill_step(m, i);
        let r = fill_down(m1, i - 1);
        lemma_fill_down_values(m1, i - 1);
        lemma_fill_down_frame(m1, i - 1);
        assert(fill_down(m, i) == r);
        assert forall|j: int|
            j <= i && #[trigger] contains_ix(r, j) && !contains_ix(m, j) implies can_derive(r, j)
            && chunk_of(r, j) == derived_chunk(r, j) by {
            if j == i {
                assert(contains_ix(r, i) == contains_ix(m1, i));
                assert(can_derive(m, i));
                assert(contains_ix(m1, i) && chunk_of(m1, i) == derived_chunk(m, i));
                assert(contains_ix(m1, spec_left_child(i)) && chunk_of(m1, spec_left_child(i))
                    == chunk_of(m, spec_left_child(i)));
                assert(contains_ix(m1, spec_right_child(i)) && chunk_of(m1, spec_right_child(i))
                    == chunk_of(m, spec_right_child(i)));
                assert(contains_ix(r, spec_left_child(i)) && chunk_of(r, spec_left_child(i))
                    == chunk_of(m1, spec_left_child(i)));
                assert(contains_ix(r, spec_right_child(i)) && chunk_of(r, spec_right_child(i))
                    == chunk_of(m1, spec_right_child(i)));
                assert(chunk_of(r, i) == chunk_of(m1, i));
            } else {
                if contains_ix(m1, j) && !contains_ix(m, j) {
                    assert(j == i);
                }
            }
        }
    }
}

/// On a cache whose stored chunks already match the hash of their present
/// children, a recomputation pass changes nothing.
pub(crate) proof fn lemma_force_down_noop_on_consistent(m: Map<NodeIndex, Seq<u8>>, i: int)
    requires
        forall|j: int|
            #[trigger] can_derive(m, j) ==> contains_ix(m, j) && chunk_of(m, j) == derived_chunk(
                m,
                j,
            ),
    ensures
        force_down(m, i) == m,
    decreases i + 1,
{
    if i >= 0 {
        if can_derive(m, i) {
            assert(m.insert(i as NodeIndex, derived_chunk(m, i)) =~= m);
        }
        assert(force_step(m, i) == m);
        lemma_force_down_noop_on_consistent(m, i - 1);
    }
}

/// A fully consistent cache validates against its own stored root: wherever
/// both children are present the stored chunk already equals their hash, so
/// recomputation reproduces the cache, root included.
pub proof fn lemma_is_valid_on_consistent(m: Map<NodeIndex, Seq<u8>>)
    requires
        forall|j: int|
            #[trigger] can_derive(m, j) ==> contains_ix(m, j) && chunk_of(m, j) == derived_chunk(
                m,
                j,
            ),
        contains_ix(m, 0),
    ensures
        spec_is_valid(m, chunk_of(m, 0)),
{
    lemma_force_down_noop_on_consistent(m, u64::MAX as int);
}

/// A refresh pass is deterministic, step by step: two caches that cover the
/// same positions, agree above the pass position, and agree wherever a full
/// pair of children is missing evolve identically.
proof fn lemma_refresh_down_det(m1: Map<NodeIndex, Seq<u8>>, m2: Map<NodeIndex, Seq<u8>>, i: int)
    requires
        forall|j: int| #[trigger] contains_ix(m1, j) == contains_ix(m2, j),
        forall|j: int|
            j > i && #[trigger] contains_ix(m1, j) ==> chunk_of(m1, j) == chunk_of(m2, j),
        forall|j: int|
            #[trigger] contains_ix(m1, j) && !can_derive(m1, j) ==> chunk_of(m1, j) == chunk_of(
                m2,
                j,
            ),
        refresh_down(m1, i) is Ok,
    ensures
        refresh_down(m2, i) is Ok,
        forall|j: int| #[trigger]
            contains_ix(refresh_down(m1, i).unwrap(), j) == contains_ix(
                refresh_down(m2, i).unwrap(),
                j,
            ),
        forall|j: int| #[trigger]
            contains_ix(refresh_down(m1, i).unwrap(), j) ==> chunk_of(
                refresh_down(m1, i).unwrap(),
                j,
            ) == chunk_of(refresh_down(m2, i).unwrap(), j),
    decreases i + 1,
{
    if i >= 0 {
        assert(refresh_step_err(m1, i) is None);
        assert(refresh_step_err(m2, i) is None);
        let s1 = force_step(m1, i);
        let s2 = force_step(m2, i);
        assert(can_derive(m1, i) == can_derive(m2, i));
        assert forall|j: int| #[trigger] contains_ix(s1, j) == contains_ix(s2, j) by {
            assert(contains_ix(m1, j) == contains_ix(m2, j));
        }
        assert forall|j: int|
            j > i - 1 && #[trigger] contains_ix(s1, j) implies chunk_of(s1, j) == chunk_of(
            s2,
            j,
        ) by {
            if j == i && can_derive(m1, i) {
                assert(contains_ix(m1, spec_left_child(i)) && contains_ix(
                    m1,
                    spec_right_child(i),
                ));
                assert(chunk_of(m1, spec_left_child(i)) == chunk_of(m2, spec_left_child(i)));
                assert(chunk_of(m1, spec_right_child(i)) == chunk_of(m2, spec_right_child(i)));
                assert(chunk_of(s1, i) == derived_chunk(m1, i));
                assert(chunk_of(s2, i) == derived_chunk(m2, i));
            } else {
                assert(contains_ix(m1, j) && chunk_of(s1, j) == chunk_of(m1, j));
                assert(chunk_of(s2, j) == chunk_of(m2, j));
            }
        }
        assert forall|j: int|
            #[trigger] contains_ix(s1, j) && !can_derive(s1, j) implies chunk_of(s1, j)
            == chunk_of(s2, j) by {
            assert(!can_derive(m1, j));
            if j == i && !contains_ix(m1, i) {
                assert(can_derive(s1, i) == can_derive(m1, i));
            } else {
                assert(contains_ix(m1, j));
                assert(chunk_of(s1, j) == chunk_of(m1, j));
                assert(chunk_of(s2, j) == chunk_of(m2, j));
            }
        }
        lemma_refresh_down_det(s1, s2, i - 1);
        assert(refresh_down(m1, i) == refresh_down(s1, i - 1));
        assert(refresh_down(m2, i) == refresh_down(s2, i - 1));
    }
}

/// Refresh is deterministic: two caches covering the same positions, with
/// identical chunks wherever a position lacks a full pair of children — in
/// particular at every leaf — refresh to identical contents, and so to
/// identical roots, whatever their internal nodes held before.
pub proof fn lemma_refresh_deterministic(m1: Map<NodeIndex, Seq<u8>>, m2: Map<NodeIndex, Seq<u8>>)
    requires
        forall|j: int| #[trigger] contains_ix(m1, j) == contains_ix(m2, j),
        forall|j: int|
            #[trigger] contains_ix(m1, j) && !can_derive(m1, j) ==> chunk_of(m1, j) == chunk_of(
                m2,
                j,
            ),
        refresh_res(m1) is Ok,
    ensures
        refresh_res(m2) is Ok,
        refresh_res(m1).unwrap() == refresh_res(m2).unwrap(),
{
    assert forall|j: int|
        j > u64::MAX as int && #[trigger] contains_ix(m1, j) implies chunk_of(m1, j) == chunk_of(
        m2,
        j,
    ) by {
        assert(!contains_ix(m1, j));
    }
    lemma_refresh_down_det(m1, m2, u64::MAX as int);
    let r1 = refresh_res(m1).unwrap();
    let r2 = refresh_res(m2).unwrap();
    assert forall|k: NodeIndex| #[trigger] r1.contains_key(k) implies r2.contains_key(k)
        && r1[k] == r2[k] by {
        assert(contains_ix(r1, k as int) == contains_ix(r2, k as int));
        assert(contains_ix(r1, k as int));
    }
    assert forall|k: NodeIndex| #[trigger] r2.contains_key(k) implies r1.contains_key(k) by {
        assert(contains_ix(r1, k as int) == contains_ix(r2, k as int));
        assert(contains_ix(r2, k as int));
    }
    assert(r1 =~= r2);
}

/// An equal copy of the chunk stored at `k`.
fn copy_chunk_at(m: &HashMap<NodeIndex, Vec<u8>>, k: NodeIndex) -> (r: Vec<u8>)
    requires
        m@.contains_key(k),
    ensures
        r@ == m@[k]@,
{
    match m.get(&k) {
        Some(c) => {
            let mut r: Vec<u8> = Vec::new();
            let mut i: usize = 0;
            while i < c.len()
                invariant
                    i <= c@.len(),
                    r@ == c@.subrange(0, i as int),
                decreases c@.len() - i,
            {
                r.push(c[i]);
                i = i + 1;
                proof {
                    assert(r@ =~= c@.subrange(0, i as int));
                }
            }
            proof {
                assert(r@ =~= c@);
            }
            r
        },
        None => {
            proof {
                assert(false);
            }
            Vec::new()
        },
    }
}

/// True exactly when the two byte vectors hold the same bytes.
fn vecs_equal(a: &Vec<u8>, b: &Vec<u8>) -> (r: bool)
    ensures
        r == (a@ == b@),
{
    if a.len() != b.len() {
        return false;
    }
    let mut i: usize = 0;
    while i < a.len()
        invariant
            i <= a@.len(),
            a@.len() == b@.len(),
            forall|j: int| 0 <= j < i ==> a@[j] == b@[j],
        decreases a@.len() - i,
    {
        if a[i] != b[i] {
            return false;
        }
        i = i + 1;
    }
    proof {
        assert(a@ =~= b@);
    }
    true
}

} // verus!
