//! Index arithmetic of a complete binary tree laid out in an array, and the
//! alternation of min and max levels.
use vstd::prelude::*;

verus! {

/// Index of the parent of node `i`; the root is its own parent.
pub open spec fn parent_of(i: int) -> int {
    if i <= 0 {
        0
    } else {
        (i - 1) / 2
    }
}

/// Index of the grandparent of node `i` (the root for nodes of depth below 2).
pub open spec fn grandparent_of(i: int) -> int {
    parent_of(parent_of(i))
}

/// Number of parent steps from node `i` to the root.
pub open spec fn depth(i: int) -> nat
    decreases i,
{
    if i <= 0 {
        0
    } else {
        1 + depth(parent_of(i))
    }
}

/// Nodes at even depth are on min levels, the others on max levels.
pub open spec fn on_min_level(i: int) -> bool {
    depth(i) % 2 == 0
}

/// `j` lies in the subtree rooted at `a` (`a` itself included).
pub open spec fn in_subtree(a: int, j: int) -> bool
    decreases j,
{
    if j <= a || j <= 0 {
        j == a
    } else {
        in_subtree(a, parent_of(j))
    }
}

/// `j` is `i` or an ancestor of `i` reached from it by grandparent steps.
pub open spec fn on_grand_chain(i: int, j: int) -> bool
    decreases i,
{
    if i < 3 {
        j == i
    } else {
        j == i || on_grand_chain(grandparent_of(i), j)
    }
}

/// `c` is a child of `i`.
pub open spec fn is_child(i: int, c: int) -> bool {
    c >= 1 && parent_of(c) == i
}

/// `g` is a grandchild of `i`.
pub open spec fn is_grandchild(i: int, g: int) -> bool {
    g >= 3 && grandparent_of(g) == i
}

/// The kind of a tree level.
#[derive(PartialEq, Eq, Structural, Clone, Copy, Debug)]
pub enum LevelType {
    Min,
    Max,
}

pub fn left(i: usize) -> (r: usize)
    requires
        i < usize::MAX / 2,
    ensures
        r == 2 * i + 1,
        parent_of(r as int) == i,
{
    i * 2 + 1
}

pub fn right(i: usize) -> (r: usize)
    requires
        i < usize::MAX / 2,
    ensures
        r == 2 * i + 2,
        parent_of(r as int) == i,
{
    i * 2 + 2
}

pub fn parent(i: usize) -> (r: usize)
    ensures
        r == parent_of(i as int),
{
    if i == 0 {
        0
    } else {
        (i - 1) / 2
    }
}

pub fn grandparent(i: usize) -> (r: usize)
    ensures
        r == grandparent_of(i as int),
{
    parent(parent(i))
}

pub fn level(i: usize) -> (r: usize)
    ensures
        r == depth(i as int),
{
    let mut c: usize = i;
    let mut out: usize = 0;
    proof {
        lemma_depth_bound(i as int);
    }
    while c != 0
        invariant
            out + depth(c as int) == depth(i as int),
            depth(i as int) <= i,
        decreases c,
    {
        c = parent(c);
        out = out + 1;
    }
    out
}

pub fn level_type(i: usize) -> (r: LevelType)
    ensures
        (r == LevelType::Min) == on_min_level(i as int),
{
    if level(i) % 2 == 0 {
        LevelType::Min
    } else {
        LevelType::Max
    }
}

/// A node is never deeper than its index.
pub proof fn lemma_depth_bound(i: int)
    ensures
        depth(i) <= if i < 0 { 0 } else { i },
    decreases i,
{
    if i > 0 {
        lemma_depth_bound(parent_of(i));
    }
}

/// A node and its parent lie on levels of different kinds.
pub proof fn lemma_parent_level(j: int)
    requires
        j > 0,
    ensures
        on_min_level(j) != on_min_level(parent_of(j)),
        on_min_level(j) == on_min_level(grandparent_of(j)) || parent_of(j) == 0,
        parent_of(j) < j,
        0 <= parent_of(j),
{
    assert(depth(j) == 1 + depth(parent_of(j)));
    if parent_of(j) > 0 {
        assert(depth(parent_of(j)) == 1 + depth(grandparent_of(j)));
    }
}

/// Subtrees are closed under taking descendants.
pub proof fn lemma_subtree_trans(a: int, b: int, j: int)
    requires
        0 <= a,
        in_subtree(a, b),
        in_subtree(b, j),
    ensures
        in_subtree(a, j),
    decreases j,
{
    if j > b && j > 0 {
        lemma_subtree_trans(a, b, parent_of(j));
    }
}

/// Every node of a subtree is at or after its root.
pub proof fn lemma_subtree_after(a: int, j: int)
    requires
        in_subtree(a, j),
    ensures
        j >= a,
    decreases j,
{
    if j > a && j > 0 {
        lemma_subtree_after(a, parent_of(j));
    }
}

/// Children and grandchildren belong to the subtree.
pub proof fn lemma_near_in_subtree(i: int, j: int)
    requires
        0 <= i,
        is_child(i, j) || is_grandchild(i, j),
    ensures
        in_subtree(i, j),
        j > i,
{
    assert(in_subtree(i, i));
    if is_child(i, j) {
        assert(in_subtree(i, parent_of(j)));
    } else {
        let p = parent_of(j);
        assert(p > 0);
        assert(in_subtree(i, parent_of(p)));
        assert(in_subtree(i, p));
    }
}

} // verus!
