//! Position arithmetic for the implicit zero-indexed complete binary tree.
//!
//! The root sits at position 0 and node `i`'s children sit at `2i + 1` and
//! `2i + 2`; every position other than the root therefore has exactly one
//! parent and one sibling. All higher-level reasoning (minimal proof
//! extraction, gap filling, recomputation) rests on this bijection.

use crate::NodeIndex;
use vstd::prelude::*;

verus! {

/// Left child of node `i`.
pub open spec fn spec_left_child(i: int) -> int {
    2 * i + 1
}

/// Right child of node `i`.
pub open spec fn spec_right_child(i: int) -> int {
    2 * i + 2
}

/// Parent of node `i`, meaningful for `i > 0` (the root has no parent).
pub open spec fn spec_parent(i: int) -> int {
    (i + 1) / 2 - 1
}

/// Sibling of node `i`, meaningful for `i > 0` (the root has no sibling):
/// an odd position is a left child, so its sibling lies one to the right;
/// an even position is a right child, so its sibling lies one to the left.
pub open spec fn spec_sibling(i: int) -> int {
    if i % 2 == 1 {
        i + 1
    } else {
        i - 1
    }
}

/// `a` lies on the path from the root to `d` (inclusive of `d` itself).
pub open spec fn is_ancestor(a: int, d: int) -> bool
    decreases d,
{
    if a == d {
        true
    } else if d <= 0 {
        false
    } else {
        is_ancestor(a, spec_parent(d))
    }
}

/// Sibling of `index` in the implicit tree.
///
/// The root is excluded, and so is `u64::MAX`: that position is odd, so its
/// sibling would sit one past the largest representable position.
pub fn sibling_index(index: NodeIndex) -> (r: NodeIndex)
    requires
        0 < index < u64::MAX,
    ensures
        r == spec_sibling(index as int),
{
    if index % 2 == 1 {
        index + 1
    } else {
        index - 1
    }
}

/// Parent of `index` in the implicit tree, for any non-root position.
pub fn parent_index(index: NodeIndex) -> (r: NodeIndex)
    requires
        index > 0,
    ensures
        r == spec_parent(index as int),
{
    (index - 1) / 2
}

/// The two children of `p` are siblings of each other and both have `p` as
/// their parent.
pub proof fn lemma_parent_of_children(p: int)
    requires
        p >= 0,
    ensures
        spec_parent(spec_left_child(p)) == p,
        spec_parent(spec_right_child(p)) == p,
        spec_sibling(spec_left_child(p)) == spec_right_child(p),
        spec_sibling(spec_right_child(p)) == spec_left_child(p),
{
}

/// A parent sits strictly above its child.
pub proof fn lemma_parent_lt(i: int)
    requires
        i >= 1,
    ensures
        0 <= spec_parent(i) < i,
{
}

/// A sibling is the other child of the shared parent: it differs from `i`,
/// is itself non-root, and has the same parent.
pub proof fn lemma_sibling_basic(i: int)
    requires
        i >= 1,
    ensures
        spec_sibling(i) >= 1,
        spec_sibling(i) != i,
        spec_sibling(i) == i - 1 || spec_sibling(i) == i + 1,
        spec_parent(spec_sibling(i)) == spec_parent(i),
{
}

/// An ancestor never sits below its descendant.
pub proof fn lemma_ancestor_le(a: int, d: int)
    requires
        is_ancestor(a, d),
    ensures
        a <= d,
    decreases d,
{
    if a != d && d > 0 {
        lemma_parent_lt(d);
        lemma_ancestor_le(a, spec_parent(d));
    }
}

/// Ancestry is transitive.
pub proof fn lemma_ancestor_trans(a: int, b: int, c: int)
    requires
        is_ancestor(a, b),
        is_ancestor(b, c),
    ensures
        is_ancestor(a, c),
    decreases c,
{
    if b != c && c > 0 {
        lemma_ancestor_trans(a, b, spec_parent(c));
    }
}

/// A node is never an ancestor of its own sibling.
pub proof fn lemma_sibling_not_above(v: int)
    requires
        v >= 1,
    ensures
        !is_ancestor(v, spec_sibling(v)),
{
    let s = spec_sibling(v);
    if is_ancestor(v, s) {
        if s == v - 1 {
            lemma_ancestor_le(v, s);
        } else {
            lemma_ancestor_le(v, spec_parent(s));
        }
    }
}

/// A node's parent and sibling differ.
pub proof fn lemma_parent_ne_sibling(v: int)
    requires
        v >= 1,
    ensures
        spec_parent(v) != spec_sibling(v),
{
}


/// The root is an ancestor of every position.
pub proof fn lemma_root_is_ancestor(d: int)
    requires
        d >= 0,
    ensures
        is_ancestor(0, d),
    decreases d,
{
    if d > 0 {
        lemma_parent_lt(d);
        lemma_root_is_ancestor(spec_parent(d));
    }
}

/// A non-root position has its parent's children split it off: it is one of
/// the two.
pub proof fn lemma_child_of_parent(d: int)
    requires
        d >= 1,
    ensures
        d == spec_left_child(spec_parent(d)) || d == spec_right_child(spec_parent(d)),
{
}

/// Between a strict ancestor `a` and its descendant `d` there is a child of
/// `a` on the path.
pub proof fn lemma_path_steps_through_child(a: int, d: int)
    requires
        a >= 0,
        is_ancestor(a, d),
        a != d,
        d >= 1,
    ensures
        is_ancestor(spec_left_child(a), d) || is_ancestor(spec_right_child(a), d),
    decreases d,
{
    lemma_parent_lt(d);
    lemma_child_of_parent(d);
    if spec_parent(d) != a {
        assert(is_ancestor(a, spec_parent(d)));
        assert(spec_parent(d) >= 1);
        lemma_path_steps_through_child(a, spec_parent(d));
    }
}

/// Descendance passes to children.
pub proof fn lemma_descendant_child(x: int, i: int)
    requires
        is_ancestor(x, i),
        i >= 0,
        x >= 1,
    ensures
        is_ancestor(x, spec_left_child(i)),
        is_ancestor(x, spec_right_child(i)),
{
    lemma_parent_of_children(i);
    lemma_ancestor_le(x, i);
    assert(spec_left_child(i) != x && spec_right_child(i) != x);
}

} // verus!
