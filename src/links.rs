//! The min-max heap property of a sequence laid out as a complete binary
//! tree, stated link by link (each node against its parent and grandparent)
//! and subtree by subtree, with the facts that connect the two.
use vstd::prelude::*;

use crate::index::{
    grandparent_of, in_subtree, is_child, is_grandchild, lemma_parent_level, lemma_subtree_after,
    on_min_level, parent_of,
};
use crate::order::HeapOrd;

verus! {

/// `x` may stand in the subtree of node `a`: not below `s[a]` when `a` is on a
/// min level, not above it when `a` is on a max level.
pub open spec fn bounded_by<T: HeapOrd>(s: Seq<T>, a: int, x: T) -> bool {
    if on_min_level(a) {
        s[a].rank() <= x.rank()
    } else {
        x.rank() <= s[a].rank()
    }
}

/// The element at `j` is ordered correctly with respect to the one at `a`.
pub open spec fn ordered<T: HeapOrd>(s: Seq<T>, a: int, j: int) -> bool {
    bounded_by(s, a, s[j])
}

/// The link between node `j` and its parent holds.
pub open spec fn parent_link<T: HeapOrd>(s: Seq<T>, j: int) -> bool {
    ordered(s, parent_of(j), j)
}

/// The link between node `j` and its grandparent holds.
pub open spec fn grand_link<T: HeapOrd>(s: Seq<T>, j: int) -> bool {
    ordered(s, grandparent_of(j), j)
}

/// Every link whose upper node is at or after `lo` and is not `skip` holds.
pub open spec fn links_from<T: HeapOrd>(s: Seq<T>, lo: int, skip: int) -> bool {
    &&& forall|j: int|
        1 <= j < s.len() && parent_of(j) >= lo && parent_of(j) != skip ==> #[trigger] parent_link(
            s,
            j,
        )
    &&& forall|j: int|
        3 <= j < s.len() && grandparent_of(j) >= lo && grandparent_of(j) != skip
            ==> #[trigger] grand_link(s, j)
}

/// The min-max heap property, stated link by link.
pub open spec fn is_min_max_heap<T: HeapOrd>(s: Seq<T>) -> bool {
    links_from(s, 0, -1)
}

/// The min-max heap property, stated of whole subtrees: an element on a min
/// level is at most every element of its subtree, one on a max level at least.
pub open spec fn min_max_ordered<T: HeapOrd>(s: Seq<T>) -> bool {
    forall|a: int, j: int| 0 <= a && in_subtree(a, j) && j < s.len() ==> #[trigger] ordered(s, a, j)
}

/// `x` ranks strictly before `y` in the direction of a min level (`is_min`) or
/// of a max level.
pub open spec fn beats<T: HeapOrd>(x: T, y: T, is_min: bool) -> bool {
    if is_min {
        x.rank() < y.rank()
    } else {
        y.rank() < x.rank()
    }
}

/// What the parent and grandparent of `i` ask of an element placed in the
/// subtree of `i`, for those of them at or after `lo`.
pub open spec fn fits_above<T: HeapOrd>(s: Seq<T>, i: int, lo: int, x: T) -> bool {
    &&& (i > 0 && parent_of(i) >= lo ==> bounded_by(s, parent_of(i), x))
    &&& (i >= 3 && grandparent_of(i) >= lo ==> bounded_by(s, grandparent_of(i), x))
}

/// Links from a subtree root that hold in the whole subtree hold between the
/// root and every node of it.
pub proof fn lemma_subtree_order<T: HeapOrd>(s: Seq<T>, lo: int, skip: int, a: int, j: int)
    requires
        0 <= lo <= a,
        skip < a,
        links_from(s, lo, skip),
        in_subtree(a, j),
        j < s.len(),
    ensures
        ordered(s, a, j),
    decreases j,
{
    lemma_subtree_after(a, j);
    if j != a {
        lemma_parent_level(j);
        let p = parent_of(j);
        assert(in_subtree(a, p));
        lemma_subtree_after(a, p);
        if on_min_level(p) == on_min_level(a) {
            lemma_subtree_order(s, lo, skip, a, p);
            assert(parent_link(s, j));
        } else {
            assert(p != a);
            lemma_parent_level(p);
            let g = parent_of(p);
            assert(in_subtree(a, g));
            lemma_subtree_after(a, g);
            lemma_subtree_order(s, lo, skip, a, g);
            assert(grand_link(s, j));
        }
    }
}

/// Exchanging two elements keeps the multiset of elements.
pub proof fn lemma_swap_multiset<T>(s: Seq<T>, i: int, j: int)
    requires
        0 <= i < s.len(),
        0 <= j < s.len(),
    ensures
        s.update(i, s[j]).update(j, s[i]).to_multiset() =~= s.to_multiset(),
{
    broadcast use vstd::seq_lib::group_to_multiset_ensures, vstd::multiset::group_multiset_axioms;

    let s1 = s.update(i, s[j]);
    assert(s1.to_multiset() == s.to_multiset().insert(s[j]).remove(s[i]));
    assert(s1.update(j, s[i]).to_multiset() == s1.to_multiset().insert(s[i]).remove(s1[j]));
    if i == j {
        assert(s1 =~= s);
        assert(s1.update(j, s[i]) =~= s);
    }
}

/// Every node lies in the subtree of the root.
pub proof fn lemma_in_root_subtree(j: int)
    requires
        j >= 0,
    ensures
        in_subtree(0, j),
    decreases j,
{
    if j > 0 {
        lemma_in_root_subtree(parent_of(j));
    }
}

/// Every node but the root lies under one of the root's children.
pub proof fn lemma_under_top(j: int)
    requires
        j >= 1,
    ensures
        in_subtree(1, j) || in_subtree(2, j),
    decreases j,
{
    if j > 2 {
        lemma_under_top(parent_of(j));
    }
}

/// The link-by-link heap property gives the subtree-wide one.
pub proof fn lemma_heap_ordered<T: HeapOrd>(s: Seq<T>)
    requires
        is_min_max_heap(s),
    ensures
        min_max_ordered(s),
{
    assert forall|a: int, j: int| 0 <= a && in_subtree(a, j) && j < s.len() implies #[trigger] ordered(s, a, j) by {
        lemma_subtree_order(s, 0, -1, a, j);
    }
}

/// Writing at the root, or at a child `k` of the root, keeps every link whose
/// upper node is not `k`. When `k` is a child, the new root must be at most
/// the old root and at most the new element at `k`.
pub proof fn lemma_links_after_write<T: HeapOrd>(s: Seq<T>, t: Seq<T>, k: int)
    requires
        is_min_max_heap(s),
        0 <= k < 3,
        k < t.len() <= s.len(),
        forall|j: int| 0 < j < t.len() && j != k ==> t[j] == s[j],
        k > 0 ==> t[0].rank() <= s[0].rank() && t[0].rank() <= t[k].rank(),
    ensures
        links_from(t, 0, k),
{
    assert(on_min_level(0));
    assert forall|j: int| 1 <= j < t.len() && parent_of(j) != k implies #[trigger] parent_link(t, j) by {
        assert(parent_link(s, j));
        if parent_of(j) == 0 && j != k {
            lemma_in_root_subtree(j);
            lemma_subtree_order(s, 0, -1, 0, j);
        }
    }
    assert forall|j: int| 3 <= j < t.len() && grandparent_of(j) != k implies #[trigger] grand_link(t, j) by {
        assert(grand_link(s, j));
        if grandparent_of(j) == 0 {
            lemma_in_root_subtree(j);
            lemma_subtree_order(s, 0, -1, 0, j);
        }
    }
}

/// Dropping the last element keeps the heap property.
pub proof fn lemma_drop_last_heap<T: HeapOrd>(s: Seq<T>)
    requires
        is_min_max_heap(s),
        s.len() > 0,
    ensures
        is_min_max_heap(s.drop_last()),
{
    let t = s.drop_last();
    assert forall|j: int| 1 <= j < t.len() implies #[trigger] parent_link(t, j) by {
        assert(parent_link(s, j));
    }
    assert forall|j: int| 3 <= j < t.len() implies #[trigger] grand_link(t, j) by {
        assert(grand_link(s, j));
    }
}

/// Writing `x` at `k` replaces one occurrence of the old element by `x`.
pub proof fn lemma_replace_multiset<T>(s: Seq<T>, k: int, x: T)
    requires
        0 <= k < s.len(),
    ensures
        s.update(k, x).to_multiset() =~= s.to_multiset().remove(s[k]).insert(x),
{
    broadcast use vstd::seq_lib::group_to_multiset_ensures, vstd::multiset::group_multiset_axioms;

    assert(s.contains(s[k]));
}

/// Moving the last element into slot `k` and dropping the last slot removes
/// the element at `k`.
pub proof fn lemma_swap_remove_multiset<T>(s: Seq<T>, k: int)
    requires
        0 <= k < s.len(),
    ensures
        s.update(k, s.last()).drop_last().to_multiset() =~= s.to_multiset().remove(s[k]),
{
    broadcast use vstd::seq_lib::group_to_multiset_ensures, vstd::multiset::group_multiset_axioms;

    let t = s.update(k, s.last());
    let n = s.len() - 1;
    assert(t.drop_last() =~= t.remove(n));
    lemma_replace_multiset(s, k, s.last());
    if k == n {
        assert(t =~= s);
    }
    assert(s.contains(s.last()));
}

/// All parent links hold, and all grandparent links but the one of `i`.
pub open spec fn links_except_grand<T: HeapOrd>(s: Seq<T>, i: int) -> bool {
    &&& forall|j: int| 1 <= j < s.len() ==> #[trigger] parent_link(s, j)
    &&& forall|j: int| 3 <= j < s.len() && j != i ==> #[trigger] grand_link(s, j)
}

/// The grandparent of `i` is ordered correctly with the children and
/// grandchildren of `i`.
pub open spec fn grand_ready<T: HeapOrd>(s: Seq<T>, i: int) -> bool {
    i >= 3 ==> forall|j: int|
        0 <= j < s.len() && (is_child(i, j) || is_grandchild(i, j)) ==> #[trigger] bounded_by(
            s,
            grandparent_of(i),
            s[j],
        )
}

} // verus!
