//! Properties of the heap that relate several operations.
use vstd::multiset::Multiset;
use vstd::prelude::*;

use crate::heap::{
    greatest, has_room, is_greatest, is_least, least, push_all_max_result, push_all_min_result,
    push_max_step, push_min_step, MinMaxHeap,
};
use crate::links::{lemma_heap_ordered, min_max_ordered};
use crate::order::HeapOrd;

verus! {

/// The elements of `m` in the order in which repeated `pop_max` hands them
/// out.
pub open spec fn drain_max<T: HeapOrd>(m: Multiset<T>) -> Seq<T>
    decreases m.len(),
{
    if m.len() == 0 || !m.contains(greatest(m)) {
        Seq::empty()
    } else {
        seq![greatest(m)] + drain_max(m.remove(greatest(m)))
    }
}

/// The elements of `m` in the order in which repeated `pop_min` hands them
/// out.
pub open spec fn drain_min<T: HeapOrd>(m: Multiset<T>) -> Seq<T>
    decreases m.len(),
{
    if m.len() == 0 || !m.contains(least(m)) {
        Seq::empty()
    } else {
        seq![least(m)] + drain_min(m.remove(least(m)))
    }
}

/// Every nonempty multiset has a greatest element.
pub proof fn lemma_greatest_exists<T: HeapOrd>(m: Multiset<T>)
    requires
        m.len() > 0,
    ensures
        is_greatest(m, greatest(m)),
    decreases m.len(),
{
    broadcast use vstd::multiset::group_multiset_axioms;

    let x = m.choose();
    let rest = m.remove(x);
    if rest.len() == 0 {
        assert forall|y: T| m.contains(y) implies y.rank() <= x.rank() by {
            if y != x {
                assert(rest.count(y) == m.count(y));
            }
        }
        assert(is_greatest(m, x));
    } else {
        lemma_greatest_exists(rest);
        let g = greatest(rest);
        if x.rank() <= g.rank() {
            assert forall|y: T| m.contains(y) implies y.rank() <= g.rank() by {
                if y != x {
                    assert(rest.contains(y));
                }
            }
            assert(is_greatest(m, g));
        } else {
            assert forall|y: T| m.contains(y) implies y.rank() <= x.rank() by {
                if y != x {
                    assert(rest.contains(y));
                }
            }
            assert(is_greatest(m, x));
        }
    }
}

/// Every nonempty multiset has a least element.
pub proof fn lemma_least_exists<T: HeapOrd>(m: Multiset<T>)
    requires
        m.len() > 0,
    ensures
        is_least(m, least(m)),
    decreases m.len(),
{
    broadcast use vstd::multiset::group_multiset_axioms;

    let x = m.choose();
    let rest = m.remove(x);
    if rest.len() == 0 {
        assert forall|y: T| m.contains(y) implies x.rank() <= y.rank() by {
            if y != x {
                assert(rest.count(y) == m.count(y));
            }
        }
        assert(is_least(m, x));
    } else {
        lemma_least_exists(rest);
        let g = least(rest);
        if g.rank() <= x.rank() {
            assert forall|y: T| m.contains(y) implies g.rank() <= y.rank() by {
                if y != x {
                    assert(rest.contains(y));
                }
            }
            assert(is_least(m, g));
        } else {
            assert forall|y: T| m.contains(y) implies x.rank() <= y.rank() by {
                if y != x {
                    assert(rest.contains(y));
                }
            }
            assert(is_least(m, x));
        }
    }
}

/// After any sequence of public operations (each of which keeps `wf`), every
/// element on a min level is at most every element of its subtree, and every
/// element on a max level at least every element of its subtree.
pub proof fn lemma_min_max_invariant<T: HeapOrd>(h: &MinMaxHeap<T>)
    requires
        h.wf(),
    ensures
        min_max_ordered(h@),
{
    lemma_heap_ordered(h@);
}

/// Repeated `pop_max` hands out every element exactly once, each ranking at
/// or below the one before: the first is `greatest(m)`, what `pop_max`
/// returns, and the rest come from `m.remove(greatest(m))`, what it leaves.
pub proof fn lemma_extract_max_order<T: HeapOrd>(m: Multiset<T>)
    ensures
        m.len() > 0 ==> drain_max(m) == seq![greatest(m)] + drain_max(m.remove(greatest(m))),
        drain_max(m).len() == m.len(),
        drain_max(m).to_multiset() == m,
        forall|i: int, j: int|
            0 <= i <= j < drain_max(m).len() ==> #[trigger] drain_max(m)[j].rank() <= #[trigger] drain_max(
                m,
            )[i].rank(),
    decreases m.len(),
{
    broadcast use vstd::multiset::group_multiset_axioms, vstd::seq_lib::group_to_multiset_ensures;

    if m.len() == 0 {
        assert(m =~= Multiset::empty());
    } else {
        lemma_greatest_exists(m);
        let g = greatest(m);
        let rest = m.remove(g);
        lemma_extract_max_order(rest);
        let d = drain_max(m);
        let tail = drain_max(rest);
        assert(d == seq![g] + tail);
        assert(d =~= tail.insert(0, g));
        assert(d.to_multiset() =~= m);
        assert forall|i: int, j: int| 0 <= i <= j < d.len() implies #[trigger] d[j].rank() <= #[trigger] d[i].rank() by {
            if i == 0 {
                assert(d[0] == g);
                if j > 0 {
                    assert(d[j] == tail[j - 1]);
                    assert(tail.contains(tail[j - 1]));
                    assert(rest.contains(d[j]));
                    assert(m.contains(d[j]));
                }
            } else {
                assert(d[i] == tail[i - 1]);
                assert(d[j] == tail[j - 1]);
                assert(tail[j - 1].rank() <= tail[i - 1].rank());
            }
        }
    }
}

/// Repeated `pop_min` hands out every element exactly once, each ranking at
/// or above the one before: the first is `least(m)`, what `pop_min` returns,
/// and the rest come from `m.remove(least(m))`, what it leaves.
pub proof fn lemma_extract_min_order<T: HeapOrd>(m: Multiset<T>)
    ensures
        m.len() > 0 ==> drain_min(m) == seq![least(m)] + drain_min(m.remove(least(m))),
        drain_min(m).len() == m.len(),
        drain_min(m).to_multiset() == m,
        forall|i: int, j: int|
            0 <= i <= j < drain_min(m).len() ==> #[trigger] drain_min(m)[i].rank() <= #[trigger] drain_min(
                m,
            )[j].rank(),
    decreases m.len(),
{
    broadcast use vstd::multiset::group_multiset_axioms, vstd::seq_lib::group_to_multiset_ensures;

    if m.len() == 0 {
        assert(m =~= Multiset::empty());
    } else {
        lemma_least_exists(m);
        let g = least(m);
        let rest = m.remove(g);
        lemma_extract_min_order(rest);
        let d = drain_min(m);
        let tail = drain_min(rest);
        assert(d == seq![g] + tail);
        assert(d =~= tail.insert(0, g));
        assert(d.to_multiset() =~= m);
        assert forall|i: int, j: int| 0 <= i <= j < d.len() implies #[trigger] d[i].rank() <= #[trigger] d[j].rank() by {
            if i == 0 {
                assert(d[0] == g);
                if j > 0 {
                    assert(d[j] == tail[j - 1]);
                    assert(tail.contains(tail[j - 1]));
                    assert(rest.contains(d[j]));
                    assert(m.contains(d[j]));
                }
            } else {
                assert(tail[i - 1].rank() <= tail[j - 1].rank());
            }
        }
    }
}

/// A heap built from `v` by `from_vec` (which holds `v@.to_multiset()`) gives
/// back, through repeated `pop_min` or `pop_max`, the elements of `v` sorted
/// ascending or descending.
pub proof fn lemma_heapify_sorts<T: HeapOrd>(v: Seq<T>)
    ensures
        drain_min(v.to_multiset()).to_multiset() == v.to_multiset(),
        drain_max(v.to_multiset()).to_multiset() == v.to_multiset(),
        drain_min(v.to_multiset()).len() == v.len(),
        drain_max(v.to_multiset()).len() == v.len(),
        forall|i: int, j: int|
            0 <= i <= j < v.len() ==> #[trigger] drain_min(v.to_multiset())[i].rank()
                <= #[trigger] drain_min(v.to_multiset())[j].rank(),
        forall|i: int, j: int|
            0 <= i <= j < v.len() ==> #[trigger] drain_max(v.to_multiset())[j].rank()
                <= #[trigger] drain_max(v.to_multiset())[i].rank(),
{
    broadcast use vstd::seq_lib::group_to_multiset_ensures;

    lemma_extract_min_order(v.to_multiset());
    lemma_extract_max_order(v.to_multiset());
}

/// A capped heap never grows past its capacity through `push_min` or
/// `push_max`.
pub proof fn lemma_capacity_bound<T: HeapOrd>(m: Multiset<T>, cap: nat, x: T)
    requires
        cap > 0,
        m.len() <= cap,
    ensures
        push_min_step(m, cap, x).0.len() <= cap,
        push_max_step(m, cap, x).0.len() <= cap,
{
    broadcast use vstd::multiset::group_multiset_axioms;

    if !has_room(cap, m.len()) {
        lemma_least_exists(m);
        lemma_greatest_exists(m);
    }
}

/// A capped heap never grows past its capacity through `push_all_min` or
/// `push_all_max`.
pub proof fn lemma_capacity_bound_all<T: HeapOrd>(m: Multiset<T>, cap: nat, items: Seq<T>)
    requires
        cap > 0,
        m.len() <= cap,
    ensures
        push_all_min_result(m, cap, items).len() <= cap,
        push_all_max_result(m, cap, items).len() <= cap,
    decreases items.len(),
{
    if items.len() > 0 {
        lemma_capacity_bound_all(m, cap, items.drop_last());
        lemma_capacity_bound(push_all_min_result(m, cap, items.drop_last()), cap, items.last());
        lemma_capacity_bound(push_all_max_result(m, cap, items.drop_last()), cap, items.last());
    }
}

/// Pushing into a full capped heap with `push_min` evicts and returns the
/// least element exactly when the new item ranks after it; otherwise the
/// item itself comes back and the elements stay as they were. `push_max`
/// does the same with the greatest element and an item ranking before it.
pub proof fn lemma_eviction<T: HeapOrd>(m: Multiset<T>, cap: nat, x: T)
    requires
        cap > 0,
        m.len() == cap,
    ensures
        least(m).rank() < x.rank() ==> push_min_step(m, cap, x) == (m.remove(least(m)).insert(x), Some(least(m))),
        !(least(m).rank() < x.rank()) ==> push_min_step(m, cap, x) == (m, Some(x)),
        x.rank() < greatest(m).rank() ==> push_max_step(m, cap, x) == (m.remove(greatest(m)).insert(x), Some(greatest(m))),
        !(x.rank() < greatest(m).rank()) ==> push_max_step(m, cap, x) == (m, Some(x)),
        is_least(m, least(m)),
        is_greatest(m, greatest(m)),
{
    lemma_least_exists(m);
    lemma_greatest_exists(m);
}

} // verus!
